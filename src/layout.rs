//! The level-order layout of a complete `width`-ary tree: level `l` holds `width^l` nodes and
//! starts at slot `level_start(width, l)`; node `j` of level `l` covers the leaf indices `i`
//! with `i / width^(depth + 1 - l) == j`, and opens child position `q` when a proved index
//! passes through child `j * width + q`.

use vstd::arithmetic::div_mod::{lemma_div_denominator, lemma_multiply_divide_lt};
use vstd::arithmetic::power::{lemma_pow1, lemma_pow_adds, lemma_pow_positive, pow};
use vstd::prelude::*;

verus! {

/// The first slot of level `l`: the number of nodes on the levels above it.
pub open spec fn level_start(w: nat, l: nat) -> nat
    decreases l,
{
    if l == 0 {
        0
    } else {
        level_start(w, (l - 1) as nat) + pow(w as int, (l - 1) as nat) as nat
    }
}

/// The number of slots of a tree of depth `d`: `(w^(d+1) - 1) / (w - 1)`.
pub open spec fn num_slots(w: nat, d: nat) -> nat {
    level_start(w, d + 1)
}

/// The node of level `l` on the path from the root to leaf index `i`.
pub open spec fn path_node(w: nat, d: nat, l: nat, i: int) -> int {
    i / pow(w as int, (d + 1 - l) as nat)
}

/// The child position taken at level `l` on the path to leaf index `i`.
pub open spec fn path_pos(w: nat, d: nat, l: nat, i: int) -> int {
    (i / pow(w as int, (d - l) as nat)) % (w as int)
}

/// Node `j` of level `l` lies on the path of some index of `ix`.
pub open spec fn touched(w: nat, d: nat, ix: Seq<usize>, l: nat, j: int) -> bool {
    exists|t: int| 0 <= t < ix.len() && #[trigger] path_node(w, d, l, ix[t] as int) == j
}

/// Node `j` of level `l` opens child position `q`: the child is touched, or, on the leaf
/// level, the value index `j * w + q` is one of `ix`.
pub open spec fn opens(w: nat, d: nat, ix: Seq<usize>, l: nat, j: int, q: int) -> bool {
    if l < d {
        touched(w, d, ix, l + 1, j * w + q)
    } else {
        exists|t: int| 0 <= t < ix.len() && #[trigger] ix[t] == j * w + q
    }
}

/// The positions below `m` that node `j` of level `l` opens, in ascending order.
pub open spec fn positions_upto(w: nat, d: nat, ix: Seq<usize>, l: nat, j: int, m: int) -> Seq<int>
    decreases m,
{
    if m <= 0 {
        seq![]
    } else if opens(w, d, ix, l, j, m - 1) {
        positions_upto(w, d, ix, l, j, m - 1).push(m - 1)
    } else {
        positions_upto(w, d, ix, l, j, m - 1)
    }
}

/// The positions that node `j` of level `l` opens, in ascending order.
pub open spec fn open_positions(w: nat, d: nat, ix: Seq<usize>, l: nat, j: int) -> Seq<int> {
    positions_upto(w, d, ix, l, j, w as int)
}

/// Every index of `ix` is a leaf index of a tree of depth `d`.
pub open spec fn indices_in_range(w: nat, d: nat, ix: Seq<usize>) -> bool {
    forall|t: int| 0 <= t < ix.len() ==> (#[trigger] ix[t]) < pow(w as int, d + 1)
}

/// One more factor of `w`.
pub proof fn lemma_pow_step(w: nat, e: nat)
    ensures
        pow(w as int, e + 1) == pow(w as int, e) * w,
{
    lemma_pow_adds(w as int, e, 1);
    lemma_pow1(w as int);
}

/// Level `l + 1` starts `w^l` slots after level `l`.
pub proof fn lemma_level_start_step(w: nat, l: nat)
    requires
        w >= 1,
    ensures
        level_start(w, l + 1) == level_start(w, l) + pow(w as int, l),
{
    lemma_pow_positive(w as int, l);
}

/// Level starts grow with the level.
pub proof fn lemma_level_start_mono(w: nat, l1: nat, l2: nat)
    requires
        w >= 1,
        l1 <= l2,
    ensures
        level_start(w, l1) + pow(w as int, l1) <= level_start(w, l2) || l1 == l2,
        level_start(w, l1) <= level_start(w, l2),
    decreases l2 - l1,
{
    lemma_pow_positive(w as int, l1);
    if l1 < l2 {
        lemma_level_start_mono(w, l1, (l2 - 1) as nat);
        lemma_pow_positive(w as int, (l2 - 1) as nat);
    }
}

/// Distinct nodes have distinct slots.
pub proof fn lemma_slots_distinct(w: nat, l1: nat, j1: int, l2: nat, j2: int)
    requires
        w >= 1,
        0 <= j1 < pow(w as int, l1),
        0 <= j2 < pow(w as int, l2),
        l1 != l2 || j1 != j2,
    ensures
        level_start(w, l1) + j1 != level_start(w, l2) + j2,
{
    if l1 < l2 {
        lemma_level_start_mono(w, l1, l2);
    } else if l2 < l1 {
        lemma_level_start_mono(w, l2, l1);
    }
}

/// The slot of node `j` of level `l` lies in the tree.
pub proof fn lemma_slot_in_range(w: nat, d: nat, l: nat, j: int)
    requires
        w >= 1,
        l <= d,
        0 <= j < pow(w as int, l),
    ensures
        level_start(w, l) + j < num_slots(w, d),
{
    lemma_level_start_step(w, l);
    lemma_level_start_mono(w, l + 1, d + 1);
}

/// The slot of node `j` of level `l`.
pub open spec fn slot_of(w: nat, l: nat, j: int) -> int {
    level_start(w, l) + j
}

/// Every slot of a tree of depth `d` is the slot of one node.
pub proof fn lemma_slot_cover(w: nat, d: nat, k: int)
    requires
        w >= 1,
        0 <= k < num_slots(w, d),
    ensures
        exists|l: nat, j: int| l <= d && 0 <= j < pow(w as int, l) && k == #[trigger] slot_of(w, l, j),
    decreases d,
{
    lemma_level_start_step(w, d);
    if k >= level_start(w, d) {
        let j = k - level_start(w, d);
        assert(k == slot_of(w, d, j));
    } else {
        assert(d > 0) by {
            if d == 0 {
                assert(level_start(w, 0) == 0);
            }
        }
        lemma_slot_cover(w, (d - 1) as nat, k);
        let (l, j) = choose|l: nat, j: int|
            l <= d - 1 && 0 <= j < pow(w as int, l) && k == #[trigger] slot_of(w, l, j);
        assert(l <= d && k == slot_of(w, l, j));
    }
}

/// The number of slots is `(w^(d+1) - 1) / (w - 1)`.
pub proof fn lemma_num_slots_closed_form(w: nat, d: nat)
    requires
        w >= 2,
    ensures
        num_slots(w, d) * (w - 1) == pow(w as int, d + 1) - 1,
    decreases d,
{
    lemma_level_start_step(w, d);
    lemma_pow_step(w, d);
    if d == 0 {
        vstd::arithmetic::power::lemma_pow0(w as int);
        lemma_level_start_step(w, 0);
        assert(level_start(w, 0) == 0);
        assert(num_slots(w, 0) == 1);
        assert(pow(w as int, 1) == w);
    } else {
        lemma_num_slots_closed_form(w, (d - 1) as nat);
        let s = level_start(w, d);
        let p = pow(w as int, d);
        assert(num_slots(w, (d - 1) as nat) == s);
        assert(s * (w - 1) == p - 1);
        assert(num_slots(w, d) == s + p);
        assert(pow(w as int, d + 1) == p * w);
        assert((s + p) * (w - 1) == s * (w - 1) + p * w - p) by (nonlinear_arith);
        let ns = num_slots(w, d);
        assert(ns * (w - 1) == (s + p) * (w - 1));
    }
}

/// A tree of width at least two has fewer slots than twice its widest level.
pub proof fn lemma_num_slots_bound(w: nat, d: nat)
    requires
        w >= 2,
    ensures
        num_slots(w, d) < 2 * pow(w as int, d),
    decreases d,
{
    lemma_pow_positive(w as int, d);
    lemma_level_start_step(w, d);
    if d > 0 {
        lemma_num_slots_bound(w, (d - 1) as nat);
        lemma_pow_step(w, (d - 1) as nat);
        let a = pow(w as int, (d - 1) as nat);
        assert(2 * a <= a * w) by (nonlinear_arith)
            requires w >= 2, a >= 0;
    } else {
        vstd::arithmetic::power::lemma_pow0(w as int);
        lemma_level_start_step(w, 0);
    }
}

/// The node of level `l` on the path to `i` exists.
pub proof fn lemma_path_node_bound(w: nat, d: nat, l: nat, i: int)
    requires
        w >= 1,
        l <= d + 1,
        0 <= i < pow(w as int, d + 1),
    ensures
        0 <= path_node(w, d, l, i) < pow(w as int, l),
{
    let h = (d + 1 - l) as nat;
    lemma_pow_adds(w as int, l, h);
    lemma_pow_positive(w as int, h);
    lemma_pow_positive(w as int, l);
    assert(l + h == d + 1);
    lemma_multiply_divide_lt(i, pow(w as int, h), pow(w as int, l));
    vstd::arithmetic::div_mod::lemma_div_pos_is_pos(i, pow(w as int, h));
}

/// The node of level `l + 1` on the path to `i` is child `path_pos(l)` of the node of level `l`.
pub proof fn lemma_path_child(w: nat, d: nat, l: nat, i: int)
    requires
        w >= 1,
        l <= d,
        0 <= i,
    ensures
        path_node(w, d, l + 1, i) == path_node(w, d, l, i) * w + path_pos(w, d, l, i),
        path_node(w, d, l, i) == path_node(w, d, l + 1, i) / (w as int),
        0 <= path_pos(w, d, l, i) < w,
{
    let h = (d - l) as nat;
    assert((d + 1 - l) as nat == h + 1);
    assert((d + 1 - (l + 1)) as nat == h);
    lemma_pow_positive(w as int, h);
    lemma_pow_step(w, h);
    lemma_div_denominator(i, pow(w as int, h), w as int);
    let a = i / pow(w as int, h);
    assert(path_node(w, d, l + 1, i) == a);
    assert(path_node(w, d, l, i) == i / (pow(w as int, h) * w));
    assert(path_node(w, d, l, i) == a / (w as int));
    vstd::arithmetic::div_mod::lemma_fundamental_div_mod(a, w as int);
    vstd::arithmetic::div_mod::lemma_mod_bound(a, w as int);
    assert(a == (a / (w as int)) * w + a % (w as int)) by (nonlinear_arith)
        requires a == (w as int) * (a / (w as int)) + a % (w as int);
}

/// The positions below `m` ascend and lie in `[0, m)`.
pub proof fn lemma_positions_ascend(w: nat, d: nat, ix: Seq<usize>, l: nat, j: int, m: int)
    ensures
        m >= 0 ==> positions_upto(w, d, ix, l, j, m).len() <= m,
        forall|s: int, t: int|
            0 <= s < t < positions_upto(w, d, ix, l, j, m).len() ==> positions_upto(
                w,
                d,
                ix,
                l,
                j,
                m,
            )[s] < positions_upto(w, d, ix, l, j, m)[t],
        forall|s: int|
            0 <= s < positions_upto(w, d, ix, l, j, m).len() ==> 0 <= #[trigger] positions_upto(
                w,
                d,
                ix,
                l,
                j,
                m,
            )[s] < m,
        forall|q: int|
            0 <= q < m ==> (opens(w, d, ix, l, j, q) <==> positions_upto(
                w,
                d,
                ix,
                l,
                j,
                m,
            ).contains(q)),
    decreases m,
{
    if m > 0 {
        lemma_positions_ascend(w, d, ix, l, j, m - 1);
        let p = positions_upto(w, d, ix, l, j, m - 1);
        if opens(w, d, ix, l, j, m - 1) {
            assert forall|q: int| 0 <= q < m implies (opens(w, d, ix, l, j, q) <==> positions_upto(
                w,
                d,
                ix,
                l,
                j,
                m,
            ).contains(q)) by {
                if q < m - 1 {
                    if p.contains(q) {
                        let k = choose|k: int| 0 <= k < p.len() && p[k] == q;
                        assert(p.push(m - 1)[k] == q);
                    }
                    let pp = p.push(m - 1);
                    if pp.contains(q) {
                        let k = choose|k: int| 0 <= k < pp.len() && pp[k] == q;
                        assert(k < p.len());
                        assert(p[k] == q);
                    }
                } else {
                    assert(p.push(m - 1)[p.len() as int] == m - 1);
                }
            }
        }
    }
}

/// Node `j` of level `l` lies on the path of one of the first `n` indices of `ix`.
pub open spec fn touched_upto(w: nat, d: nat, ix: Seq<usize>, l: nat, j: int, n: int) -> bool {
    exists|t: int| 0 <= t < n && #[trigger] path_node(w, d, l, ix[t] as int) == j
}

/// The positions as integers.
pub open spec fn as_ints(v: Seq<usize>) -> Seq<int> {
    v.map_values(|x: usize| x as int)
}

/// The first slot of each level is where `starts` says.
pub open spec fn starts_ok(w: nat, d: nat, starts: Seq<usize>) -> bool {
    &&& starts.len() == d + 2
    &&& forall|l: int| 0 <= l <= d + 1 ==> starts[l] == level_start(w, l as nat)
}

/// `marks` holds, for each slot, whether its node is touched by `ix`.
pub open spec fn marks_ok(w: nat, d: nat, ix: Seq<usize>, marks: Seq<bool>) -> bool {
    &&& marks.len() == num_slots(w, d)
    &&& forall|l: nat, j: int|
        l <= d && 0 <= j < pow(w as int, l) ==> marks[level_start(w, l) + j]
            == #[trigger] touched(w, d, ix, l, j)
}

/// While the path of `i` is marked from the leaves up: every slot holds whether the first `n`
/// indices touch it, or it lies on that path below level `lo`.
pub open spec fn marks_partial(
    w: nat,
    d: nat,
    ix: Seq<usize>,
    marks: Seq<bool>,
    n: int,
    i: int,
    lo: int,
) -> bool {
    forall|l: nat, j: int|
        l <= d && 0 <= j < pow(w as int, l) ==> marks[level_start(w, l) + j] == (
        #[trigger] touched_upto(w, d, ix, l, j, n) || (lo < l && j == path_node(w, d, l, i)))
}

/// For each slot of a tree of depth `d`, whether its node lies on the path of an index of `ix`.
pub fn touched_slots(w: usize, d: usize, starts: &Vec<usize>, ix: &Vec<usize>) -> (r: Vec<bool>)
    requires
        w >= 2,
        starts_ok(w as nat, d as nat, starts@),
        num_slots(w as nat, d as nat) <= usize::MAX,
        indices_in_range(w as nat, d as nat, ix@),
    ensures
        marks_ok(w as nat, d as nat, ix@, r@),
{
    let n = starts[starts.len() - 1];
    let mut marks: Vec<bool> = Vec::new();
    while marks.len() < n
        invariant
            marks.len() <= n,
            forall|k: int| 0 <= k < marks.len() ==> !marks@[k],
        decreases n - marks.len(),
    {
        marks.push(false);
    }
    proof {
        assert forall|l: nat, j: int| l <= d && 0 <= j < pow(w as int, l) implies marks@[level_start(
            w as nat,
            l,
        ) + j] == (#[trigger] touched_upto(w as nat, d as nat, ix@, l, j, 0) || (d < l && j
            == path_node(w as nat, d as nat, l, 0))) by {
            lemma_slot_in_range(w as nat, d as nat, l, j);
        }
    }
    let mut t: usize = 0;
    while t < ix.len()
        invariant
            w >= 2,
            starts_ok(w as nat, d as nat, starts@),
            n == num_slots(w as nat, d as nat),
            indices_in_range(w as nat, d as nat, ix@),
            marks.len() == n,
            d < usize::MAX,
            t <= ix.len(),
            marks_partial(w as nat, d as nat, ix@, marks@, t as int, 0, d as int),
        decreases ix.len() - t,
    {
        let i = ix[t];
        let ghost gi = i as int;
        let mut a: usize = i / w;
        let mut k: usize = 0;
        proof {
            vstd::arithmetic::power::lemma_pow1(w as int);
            assert forall|l: nat, j: int| l <= d && 0 <= j < pow(w as int, l) implies marks@[level_start(
                w as nat,
                l,
            ) + j] == (#[trigger] touched_upto(w as nat, d as nat, ix@, l, j, t as int) || (d < l
                && j == path_node(w as nat, d as nat, l, gi))) by {
                assert(marks@[level_start(w as nat, l) + j] == (touched_upto(w as nat, d as nat, ix@, l, j, t as int) || (d < l
                && j == path_node(w as nat, d as nat, l, 0))));
            }
        }
        while k <= d
            invariant
                w >= 2,
                starts_ok(w as nat, d as nat, starts@),
                n == num_slots(w as nat, d as nat),
                marks.len() == n,
                d < usize::MAX,
                0 <= gi < pow(w as int, (d + 1) as nat),
                k <= d + 1,
                k <= d ==> a == path_node(w as nat, d as nat, (d - k) as nat, gi),
                marks_partial(w as nat, d as nat, ix@, marks@, t as int, gi, d - k),
            decreases d + 1 - k,
        {
            let l = d - k;
            proof {
                lemma_path_node_bound(w as nat, d as nat, l as nat, gi);
                lemma_slot_in_range(w as nat, d as nat, l as nat, a as int);
            }
            let ghost old_marks = marks@;
            marks.set(starts[l] + a, true);
            proof {
                assert forall|l2: nat, j2: int| l2 <= d && 0 <= j2 < pow(w as int, l2) implies marks@[level_start(
                    w as nat,
                    l2,
                ) + j2] == (#[trigger] touched_upto(w as nat, d as nat, ix@, l2, j2, t as int) || (d
                    - (k + 1) < l2 && j2 == path_node(w as nat, d as nat, l2, gi))) by {
                    lemma_slot_in_range(w as nat, d as nat, l2, j2);
                    assert(old_marks[level_start(w as nat, l2) + j2] == (touched_upto(
                        w as nat,
                        d as nat,
                        ix@,
                        l2,
                        j2,
                        t as int,
                    ) || (d - k < l2 && j2 == path_node(w as nat, d as nat, l2, gi))));
                    if l2 != l || j2 != a {
                        lemma_slots_distinct(w as nat, l2, j2, l as nat, a as int);
                    }
                }
                assert(marks_partial(w as nat, d as nat, ix@, marks@, t as int, gi, d - (k + 1)));
            }
            if k < d {
                proof {
                    lemma_path_child(w as nat, d as nat, (l - 1) as nat, gi);
                }
                a = a / w;
            }
            k += 1;
        }
        proof {
            assert forall|l: nat, j: int| l <= d && 0 <= j < pow(w as int, l) implies marks@[level_start(
                w as nat,
                l,
            ) + j] == (#[trigger] touched_upto(w as nat, d as nat, ix@, l, j, t + 1) || (d < l && j
                == path_node(w as nat, d as nat, l, 0))) by {
                assert(marks@[level_start(w as nat, l) + j] == (touched_upto(w as nat, d as nat, ix@, l, j, t as int) || (-1 < l
                && j == path_node(w as nat, d as nat, l, gi))));
                if j == path_node(w as nat, d as nat, l, gi) {
                    assert(path_node(w as nat, d as nat, l, ix@[t as int] as int) == j);
                }
                if touched_upto(w as nat, d as nat, ix@, l, j, t + 1) && !touched_upto(
                    w as nat,
                    d as nat,
                    ix@,
                    l,
                    j,
                    t as int,
                ) {
                    let s = choose|s: int|
                        0 <= s < t + 1 && #[trigger] path_node(w as nat, d as nat, l, ix@[s] as int)
                            == j;
                    assert(s == t);
                }
            }
        }
        t += 1;
    }
    proof {
        assert forall|l: nat, j: int| l <= d && 0 <= j < pow(w as int, l) implies marks@[level_start(
            w as nat,
            l,
        ) + j] == #[trigger] touched(w as nat, d as nat, ix@, l, j) by {
            assert(marks@[level_start(w as nat, l) + j] == (touched_upto(w as nat, d as nat, ix@, l, j, ix.len() as int) || (d < l
                && j == path_node(w as nat, d as nat, l, 0))));
            if touched(w as nat, d as nat, ix@, l, j) {
                let s = choose|s: int|
                    0 <= s < ix@.len() && #[trigger] path_node(w as nat, d as nat, l, ix@[s] as int)
                        == j;
                assert(touched_upto(w as nat, d as nat, ix@, l, j, ix.len() as int));
            }
        }
    }
    marks
}

/// The positions that node `j` of level `l` opens, in ascending order.
pub fn opened_positions(
    w: usize,
    d: usize,
    starts: &Vec<usize>,
    ix: &Vec<usize>,
    marks: &Vec<bool>,
    l: usize,
    j: usize,
) -> (r: Vec<usize>)
    requires
        w >= 2,
        starts_ok(w as nat, d as nat, starts@),
        num_slots(w as nat, d as nat) <= usize::MAX,
        pow(w as int, (d + 1) as nat) <= usize::MAX,
        marks_ok(w as nat, d as nat, ix@, marks@),
        l <= d,
        j < pow(w as int, l as nat),
    ensures
        as_ints(r@) == open_positions(w as nat, d as nat, ix@, l as nat, j as int),
{
    let mut r: Vec<usize> = Vec::new();
    let mut q: usize = 0;
    proof {
        lemma_pow_step(w as nat, l as nat);
        assert(j * w + w <= pow(w as int, (l + 1) as nat)) by (nonlinear_arith)
            requires j < pow(w as int, l as nat), pow(w as int, (l + 1) as nat) == pow(w as int, l as nat) * w;
        vstd::arithmetic::power::lemma_pow_increases(w as nat, (l + 1) as nat, (d + 1) as nat);
        if l < d {
            lemma_level_start_mono(w as nat, (l + 2) as nat, (d + 1) as nat);
            lemma_level_start_step(w as nat, (l + 1) as nat);
        }
    }
    while q < w
        invariant
            w >= 2,
            starts_ok(w as nat, d as nat, starts@),
            num_slots(w as nat, d as nat) <= usize::MAX,
            marks_ok(w as nat, d as nat, ix@, marks@),
            l <= d,
            j * w + w <= pow(w as int, (l + 1) as nat),
            pow(w as int, (l + 1) as nat) <= usize::MAX,
            l < d ==> level_start(w as nat, (l + 1) as nat) + pow(w as int, (l + 1) as nat) <= num_slots(w as nat, d as nat),
            q <= w,
            as_ints(r@) == positions_upto(w as nat, d as nat, ix@, l as nat, j as int, q as int),
        decreases w - q,
    {
        let c = j * w + q;
        let opened = if l < d {
            marks[starts[l + 1] + c]
        } else {
            contains_index(ix, c)
        };
        if opened {
            r.push(q);
            assert(as_ints(r@) =~= as_ints(r@.drop_last()).push(q as int));
        }
        q += 1;
    }
    r
}

/// `w^(d + 1)`, or `None` where it does not fit a `usize`.
pub fn checked_pow_succ(w: usize, d: usize) -> (r: Option<usize>)
    requires
        w >= 2,
    ensures
        r is None <==> pow(w as int, d as nat + 1) > usize::MAX,
        r matches Some(v) ==> v == pow(w as int, d as nat + 1),
{
    let mut p: usize = w;
    let mut k: usize = 0;
    proof {
        lemma_pow1(w as int);
    }
    while k < d
        invariant
            w >= 2,
            k <= d,
            p == pow(w as int, k as nat + 1),
            p >= k + 2,
        decreases d - k,
    {
        proof {
            lemma_pow_step(w as nat, k as nat + 1);
        }
        if p > usize::MAX / w {
            proof {
                assert(p * w > usize::MAX) by (nonlinear_arith)
                    requires p > usize::MAX / w, w >= 1;
                vstd::arithmetic::power::lemma_pow_increases(w as nat, k as nat + 2, d as nat + 1);
            }
            return None;
        }
        proof {
            assert(p * w <= usize::MAX && p * w >= p + 1) by (nonlinear_arith)
                requires p <= usize::MAX / w, w >= 2, p >= 1;
        }
        p = p * w;
        k += 1;
    }
    Some(p)
}

/// Whether `i` is one of `ix`.
pub fn contains_index(ix: &Vec<usize>, i: usize) -> (r: bool)
    ensures
        r == (exists|t: int| 0 <= t < ix.len() && #[trigger] ix@[t] == i),
{
    let mut t: usize = 0;
    while t < ix.len()
        invariant
            t <= ix.len(),
            forall|s: int| 0 <= s < t ==> ix@[s] != i,
        decreases ix.len() - t,
    {
        if ix[t] == i {
            return true;
        }
        t += 1;
    }
    false
}

/// The first slot of each level `0..=d + 1`, or `None` where the last does not fit a `usize`.
pub fn level_starts(w: usize, d: usize) -> (r: Option<Vec<usize>>)
    requires
        w >= 1,
    ensures
        r is None <==> num_slots(w as nat, d as nat) > usize::MAX,
        r matches Some(s) ==> s.len() == d + 2 && forall|l: int|
            0 <= l <= d + 1 ==> s@[l] == level_start(w as nat, l as nat),
{
    let mut starts: Vec<usize> = Vec::new();
    starts.push(0);
    let mut p: usize = 1;
    let mut l: usize = 0;
    proof {
        vstd::arithmetic::power::lemma_pow0(w as int);
    }
    while l <= d
        invariant
            w >= 1,
            l <= d,
            starts.len() == l + 1,
            forall|m: int| 0 <= m <= l ==> starts@[m] == level_start(w as nat, m as nat),
            p == pow(w as int, l as nat),
        decreases d + 1 - l,
    {
        let s = starts[l];
        proof {
            lemma_level_start_step(w as nat, l as nat);
        }
        if s > usize::MAX - p {
            proof {
                lemma_level_start_mono(w as nat, (l + 1) as nat, (d + 1) as nat);
            }
            return None;
        }
        starts.push(s + p);
        if l == d {
            return Some(starts);
        }
        proof {
            lemma_pow_step(w as nat, l as nat);
            lemma_level_start_mono(w as nat, l as nat, (d + 1) as nat);
            lemma_level_start_step(w as nat, (l + 1) as nat);
            lemma_level_start_mono(w as nat, (l + 2) as nat, (d + 1) as nat);
            lemma_pow_positive(w as int, (l + 1) as nat);
        }
        if p > usize::MAX / w {
            proof {
                assert(p * w > usize::MAX) by (nonlinear_arith)
                    requires p > usize::MAX / w, w >= 1;
            }
            return None;
        }
        proof {
            assert(p * w <= usize::MAX) by (nonlinear_arith)
                requires p <= usize::MAX / w, w >= 1;
        }
        p = p * w;
        l += 1;
    }
    Some(starts)
}

} // verus!
