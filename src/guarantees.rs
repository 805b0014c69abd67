//! What the proofs of this library guarantee, stated over the specifications of the provers
//! and the verifiers.

use vstd::arithmetic::power::pow;
use vstd::prelude::*;

use crate::layout::{
    lemma_level_start_step, lemma_path_child, lemma_path_node_bound, lemma_positions_ascend,
    lemma_slot_cover, level_start, open_positions, opens, path_node, positions_upto,
    slot_of, touched,
};
use crate::field::{lagrange_sums_ok, positions_of, values_of};
use crate::pcs::{field_of_commitment, kzg_accepts};
use crate::verkle_tree::{
    batch_accepted, batch_node_of, batch_slot_of, batch_slot_ok, claim_ok, is_batch_proof_of,
    node_commitment, shape_ok, single_accepted, single_level_ok, single_proof_of,
    ProofNodeView, VerkleTreeView,
};

verus! {

/// A single proof that `verify_proof` accepts under one root, it rejects under any other.
pub proof fn lemma_single_root_binding(
    root: Seq<u8>,
    other: Seq<u8>,
    ps: Seq<ProofNodeView>,
    w: int,
)
    requires
        single_accepted(root, ps, w),
        other != root,
    ensures
        !single_accepted(other, ps, w),
{
}

/// A batch proof that `batch_proof_verify` accepts under one root, it rejects under any other.
pub proof fn lemma_batch_root_binding(
    root: Seq<u8>,
    other: Seq<u8>,
    ps: Seq<Option<ProofNodeView>>,
    w: nat,
    ix: Seq<usize>,
    d: nat,
    data: Seq<int>,
)
    requires
        batch_accepted(root, ps, w, ix, d, data),
        other != root,
    ensures
        !batch_accepted(other, ps, w, ix, d, data),
{
}

/// The single proof `ps` with the value claimed at level `l` replaced by `y`.
pub open spec fn with_single_value(ps: Seq<ProofNodeView>, l: int, y: int) -> Seq<ProofNodeView> {
    ps.update(
        l,
        ProofNodeView {
            commitment: ps[l].commitment,
            proof: ps[l].proof,
            point: ps[l].point.update(0, (ps[l].point[0].0, y)),
        },
    )
}

/// In a single proof that `verify_proof` accepts, changing the value claimed at any level but
/// the last (which stands for the next level's commitment) makes it rejected.
pub proof fn lemma_single_link_binding(root: Seq<u8>, ps: Seq<ProofNodeView>, w: int, l: int, y: int)
    requires
        single_accepted(root, ps, w),
        0 <= l < ps.len() - 1,
        y != ps[l].point[0].1,
    ensures
        !single_accepted(root, with_single_value(ps, l, y), w),
{
    let ps2 = with_single_value(ps, l, y);
    assert(single_level_ok(ps, w, l));
    assert(ps2[l + 1] == ps[l + 1]);
    assert(!single_level_ok(ps2, w, l));
}

/// The batch proof `ps` with the value of point `m` in slot `k` replaced by `y`.
pub open spec fn with_batch_value(
    ps: Seq<Option<ProofNodeView>>,
    k: int,
    m: int,
    y: int,
) -> Seq<Option<ProofNodeView>> {
    match ps[k] {
        Some(n) => ps.update(
            k,
            Some(
                ProofNodeView {
                    commitment: n.commitment,
                    proof: n.proof,
                    point: n.point.update(m, (n.point[m].0, y)),
                },
            ),
        ),
        None => ps,
    }
}

/// In a batch proof that `batch_proof_verify` accepts, changing any value opened in a slot
/// above the leaves (which stands for a child's commitment) makes it rejected.
pub proof fn lemma_batch_link_binding(
    root: Seq<u8>,
    ps: Seq<Option<ProofNodeView>>,
    w: nat,
    ix: Seq<usize>,
    d: nat,
    data: Seq<int>,
    l: nat,
    j: int,
    m: int,
    y: int,
)
    requires
        batch_accepted(root, ps, w, ix, d, data),
        l < d,
        0 <= j < pow(w as int, l),
        ps[level_start(w, l) + j] matches Some(n) && 0 <= m < n.point.len() && y != n.point[m].1,
    ensures
        !batch_accepted(root, with_batch_value(ps, level_start(w, l) + j, m, y), w, ix, d, data),
{
    let k = level_start(w, l) + j;
    let ps2 = with_batch_value(ps, k, m, y);
    assert(batch_slot_ok(ps, w, d, ix, l, j));
    let n = ps[k]->Some_0;
    lemma_positions_ascend(w, d, ix, l, j, w as int);
    assert(positions_of(n.point)[m] == n.point[m].0);
    let q = n.point[m].0;
    assert(open_positions(w, d, ix, l, j)[m] == q);
    assert(0 <= q < w);
    lemma_level_start_step(w, l);
    crate::layout::lemma_pow_step(w, l);
    assert(j * w + q < pow(w as int, l + 1)) by (nonlinear_arith)
        requires j < pow(w as int, l), q < w, pow(w as int, l + 1) == pow(w as int, l) * w;
    crate::layout::lemma_slot_in_range(w, d, l, j);
    crate::layout::lemma_slot_in_range(w, d, l + 1, j * w + q);
    assert(0 <= j * w) by (nonlinear_arith)
        requires 0 <= j;
    let c = level_start(w, l + 1) + j * w + q;
    assert(c > k);
    assert(ps2[c] == ps[c]);
    let n2 = ps2[k]->Some_0;
    assert(n2.point[m] == (q, y));
    assert(!batch_slot_ok(ps2, w, d, ix, l, j));
}

/// Two index lists that hold the same indices touch the same nodes.
proof fn lemma_same_indices_touch(w: nat, d: nat, ix1: Seq<usize>, ix2: Seq<usize>, l: nat, j: int)
    requires
        forall|i: usize| ix1.contains(i) <==> ix2.contains(i),
    ensures
        touched(w, d, ix1, l, j) == touched(w, d, ix2, l, j),
{
    if touched(w, d, ix1, l, j) {
        let t = choose|t: int| 0 <= t < ix1.len() && #[trigger] path_node(w, d, l, ix1[t] as int) == j;
        assert(ix1.contains(ix1[t]));
        let s = choose|s: int| 0 <= s < ix2.len() && ix2[s] == ix1[t];
        assert(path_node(w, d, l, ix2[s] as int) == j);
    }
    if touched(w, d, ix2, l, j) {
        let t = choose|t: int| 0 <= t < ix2.len() && #[trigger] path_node(w, d, l, ix2[t] as int) == j;
        assert(ix2.contains(ix2[t]));
        let s = choose|s: int| 0 <= s < ix1.len() && ix1[s] == ix2[t];
        assert(path_node(w, d, l, ix1[s] as int) == j);
    }
}

/// Two index lists that hold the same indices open the same positions.
proof fn lemma_same_indices_open(
    w: nat,
    d: nat,
    ix1: Seq<usize>,
    ix2: Seq<usize>,
    l: nat,
    j: int,
    m: int,
)
    requires
        forall|i: usize| ix1.contains(i) <==> ix2.contains(i),
    ensures
        positions_upto(w, d, ix1, l, j, m) == positions_upto(w, d, ix2, l, j, m),
    decreases m,
{
    if m > 0 {
        lemma_same_indices_open(w, d, ix1, ix2, l, j, m - 1);
        let q = m - 1;
        if l < d {
            lemma_same_indices_touch(w, d, ix1, ix2, l + 1, j * w + q);
        } else {
            if opens(w, d, ix1, l, j, q) {
                let t = choose|t: int| 0 <= t < ix1.len() && #[trigger] ix1[t] == j * w + q;
                assert(ix1.contains(ix1[t]));
                let s = choose|s: int| 0 <= s < ix2.len() && ix2[s] == ix1[t];
                assert(ix2[s] == j * w + q);
            }
            if opens(w, d, ix2, l, j, q) {
                let t = choose|t: int| 0 <= t < ix2.len() && #[trigger] ix2[t] == j * w + q;
                assert(ix2.contains(ix2[t]));
                let s = choose|s: int| 0 <= s < ix1.len() && ix1[s] == ix2[t];
                assert(ix1[s] == j * w + q);
            }
        }
    }
}

/// Batch proofs for two index lists that hold the same indices (in any order, with any
/// repetitions) are the same: the same present slots, and the same points in the same order.
pub proof fn lemma_batch_proof_canonical(
    t: VerkleTreeView,
    ix1: Seq<usize>,
    ix2: Seq<usize>,
    data: Seq<int>,
    ps1: Seq<Option<ProofNodeView>>,
    ps2: Seq<Option<ProofNodeView>>,
)
    requires
        t.width >= 1,
        forall|i: usize| ix1.contains(i) <==> ix2.contains(i),
        is_batch_proof_of(ps1, t, ix1, data),
        is_batch_proof_of(ps2, t, ix2, data),
    ensures
        ps1 == ps2,
{
    let (w, d) = (t.width, t.depth);
    assert forall|k: int| 0 <= k < ps1.len() implies ps1[k] == ps2[k] by {
        lemma_slot_cover(w, d, k);
        let (l, j) = choose|l: nat, j: int|
            l <= d && 0 <= j < pow(w as int, l) && k == #[trigger] slot_of(w, l, j);
        lemma_same_indices_touch(w, d, ix1, ix2, l, j);
        lemma_same_indices_open(w, d, ix1, ix2, l, j, w as int);
        assert(batch_slot_of(t, ix1, data, l, j) == batch_slot_of(t, ix2, data, l, j));
    }
    assert(ps1 =~= ps2);
}

/// The single proof that `generate_proof` makes of a value of the tree passes every check of
/// `verify_proof` under the tree's root but the commitment scheme's own: it is accepted exactly
/// when the scheme accepts each of its openings.
pub proof fn lemma_single_proof_checks(t: VerkleTreeView, i: int)
    requires
        t.width >= 2,
        shape_ok(t.values.len(), t.width, t.depth),
        0 <= i < t.values.len(),
    ensures
        single_accepted(
            node_commitment(t.values, t.width, t.depth, 0, 0),
            single_proof_of(t, i, t.values[i]),
            t.width as int,
        ) == (forall|l: int|
            0 <= l <= t.depth ==> #[trigger] kzg_accepts(
                single_proof_of(t, i, t.values[i])[l].commitment,
                single_proof_of(t, i, t.values[i])[l].point,
                single_proof_of(t, i, t.values[i])[l].proof,
            )),
{
    let (w, d) = (t.width, t.depth);
    let ps = single_proof_of(t, i, t.values[i]);
    if d == 0 {
        vstd::arithmetic::power::lemma_pow1(w as int);
    }
    assert(i < pow(w as int, d + 1));
    lemma_path_node_bound(w, d, 0, i);
    vstd::arithmetic::power::lemma_pow0(w as int);
    assert(path_node(w, d, 0, i) == 0);
    assert forall|l: int| 0 <= l < ps.len() implies (#[trigger] single_level_ok(ps, w as int, l)
        <==> kzg_accepts(ps[l].commitment, ps[l].point, ps[l].proof)) by {
        lemma_path_child(w, d, l as nat, i);
    }
    if forall|l: int| 0 <= l <= d ==> #[trigger] kzg_accepts(ps[l].commitment, ps[l].point, ps[l].proof) {
        assert forall|l: int| 0 <= l < ps.len() implies #[trigger] single_level_ok(ps, w as int, l) by {
            assert(kzg_accepts(ps[l].commitment, ps[l].point, ps[l].proof));
        }
    }
    if single_accepted(node_commitment(t.values, w, d, 0, 0), ps, w as int) {
        assert forall|l: int| 0 <= l <= d implies #[trigger] kzg_accepts(ps[l].commitment, ps[l].point, ps[l].proof) by {
            assert(single_level_ok(ps, w as int, l));
        }
    }
}

/// The values of the tree at the indices `ix`, in their order.
pub open spec fn claimed_values(vals: Seq<int>, ix: Seq<usize>) -> Seq<int> {
    ix.map_values(|i: usize| vals[i as int])
}

/// If slot `k` is present, the commitment scheme can interpolate its points and accepts its
/// opening.
pub open spec fn slot_accepted(ps: Seq<Option<ProofNodeView>>, k: int) -> bool {
    match ps[k] {
        Some(n) => lagrange_sums_ok(positions_of(n.point), values_of(n.point), false)
            && kzg_accepts(n.commitment, n.point, n.proof),
        None => true,
    }
}

proof fn lemma_honest_slot(t: VerkleTreeView, ix: Seq<usize>, ps: Seq<Option<ProofNodeView>>, l: nat, j: int)
    requires
        t.width >= 2,
        is_batch_proof_of(ps, t, ix, t.values),
        l <= t.depth,
        0 <= j < pow(t.width as int, l),
    ensures
        batch_slot_ok(ps, t.width, t.depth, ix, l, j) == slot_accepted(ps, level_start(t.width, l) + j),
{
    let (w, d) = (t.width, t.depth);
    let k = level_start(w, l) + j;
    assert(ps[k] == batch_slot_of(t, ix, t.values, l, j));
    if touched(w, d, ix, l, j) {
        let n = batch_node_of(t, ix, t.values, l, j);
        let pos = open_positions(w, d, ix, l, j);
        assert(positions_of(n.point) =~= pos);
        lemma_positions_ascend(w, d, ix, l, j, w as int);
        if l < d {
            crate::layout::lemma_pow_step(w, l);
            assert forall|m: int| 0 <= m < n.point.len() implies (ps[level_start(w, l + 1) + j * w + (
            #[trigger] n.point[m]).0] matches Some(c) && n.point[m].1 == field_of_commitment(
                c.commitment,
            )) by {
                let q = pos[m];
                assert(pos.contains(q));
                assert(opens(w, d, ix, l, j, q));
                assert(j * w + q < pow(w as int, l + 1)) by (nonlinear_arith)
                    requires j < pow(w as int, l), 0 <= q < w, pow(w as int, l + 1) == pow(w as int, l) * w;
                assert(0 <= j * w + q) by (nonlinear_arith)
                    requires 0 <= j, 0 <= q;
                assert(ps[level_start(w, l + 1) + (j * w + q)] == batch_slot_of(t, ix, t.values, l + 1, j * w + q));
            }
        }
    }
}

/// The batch proof that `generate_batch_proof` makes of the tree's own values passes every
/// check of `batch_proof_verify` under the tree's root but the commitment scheme's own: it is
/// accepted exactly when, in each present slot, the scheme can interpolate the points and
/// accepts the opening.
pub proof fn lemma_batch_proof_checks(t: VerkleTreeView, ix: Seq<usize>, ps: Seq<Option<ProofNodeView>>)
    requires
        t.width >= 2,
        shape_ok(t.values.len(), t.width, t.depth),
        pow(t.width as int, t.depth + 1) <= usize::MAX,
        ix.len() >= 1,
        forall|s: int| 0 <= s < ix.len() ==> #[trigger] ix[s] < t.values.len(),
        is_batch_proof_of(ps, t, ix, t.values),
    ensures
        batch_accepted(
            node_commitment(t.values, t.width, t.depth, 0, 0),
            ps,
            t.width,
            ix,
            t.depth,
            claimed_values(t.values, ix),
        ) == (forall|k: int| 0 <= k < ps.len() ==> #[trigger] slot_accepted(ps, k)),
{
    let (w, d) = (t.width, t.depth);
    let vals = t.values;
    let root = node_commitment(vals, w, d, 0, 0);
    let data = claimed_values(vals, ix);
    if d == 0 {
        vstd::arithmetic::power::lemma_pow1(w as int);
    }
    vstd::arithmetic::power::lemma_pow0(w as int);
    vstd::arithmetic::power::lemma_pow1(w as int);
    assert(crate::layout::indices_in_range(w, d, ix));
    // The root slot is present and holds the root.
    lemma_path_node_bound(w, d, 0, ix[0] as int);
    assert(path_node(w, d, 0, ix[0] as int) == 0);
    assert(touched(w, d, ix, 0, 0));
    assert(level_start(w, 0) == 0);
    assert(ps[0] == batch_slot_of(t, ix, vals, 0, 0));
    // Every claim is opened at its leaf.
    assert forall|s: int| 0 <= s < ix.len() implies #[trigger] claim_ok(ps, w, d, ix, data, s) by {
        let i = ix[s] as int;
        lemma_path_node_bound(w, d, d, i);
        assert((d + 1 - d) as nat == 1);
        let j = i / (w as int);
        let q = i % (w as int);
        vstd::arithmetic::div_mod::lemma_fundamental_div_mod(i, w as int);
        assert(j * w + q == i) by (nonlinear_arith)
            requires i == (w as int) * (i / (w as int)) + i % (w as int), j == i / (w as int), q == i % (w as int);
        assert(path_node(w, d, d, ix[s] as int) == j);
        assert(touched(w, d, ix, d, j));
        assert(ps[level_start(w, d) + j] == batch_slot_of(t, ix, vals, d, j));
        let n = batch_node_of(t, ix, vals, d, j);
        assert forall|m: int| 0 <= m < n.point.len() && (#[trigger] n.point[m]).0 == q implies n.point[m].1 == data[s] by {
            assert(n.point[m].1 == vals[j * w + q]);
        }
    }
    // Every slot is well formed exactly when the scheme accepts its opening.
    assert forall|l: nat, j: int| l <= d && 0 <= j < pow(w as int, l) implies #[trigger] batch_slot_ok(
        ps,
        w,
        d,
        ix,
        l,
        j,
    ) == slot_accepted(ps, level_start(w, l) + j) by {
        lemma_honest_slot(t, ix, ps, l, j);
    }
    if forall|k: int| 0 <= k < ps.len() ==> #[trigger] slot_accepted(ps, k) {
        assert forall|l: nat, j: int| l <= d && 0 <= j < pow(w as int, l) implies #[trigger] batch_slot_ok(
            ps,
            w,
            d,
            ix,
            l,
            j,
        ) by {
            crate::layout::lemma_slot_in_range(w, d, l, j);
            assert(slot_accepted(ps, level_start(w, l) + j));
        }
        assert(batch_accepted(root, ps, w, ix, d, data));
    }
    if batch_accepted(root, ps, w, ix, d, data) {
        assert forall|k: int| 0 <= k < ps.len() implies #[trigger] slot_accepted(ps, k) by {
            lemma_slot_cover(w, d, k);
            let (l, j) = choose|l: nat, j: int|
                l <= d && 0 <= j < pow(w as int, l) && k == #[trigger] slot_of(w, l, j);
            assert(batch_slot_ok(ps, w, d, ix, l, j));
        }
    }
}

} // verus!
