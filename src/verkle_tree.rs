//! The Verkle tree: construction, single-index proofs and batch proofs, with their verifiers.

use vstd::arithmetic::power::{lemma_pow_positive, lemma_pow_strictly_increases, pow};
use rayon::iter::{IntoParallelRefIterator, ParallelIterator};
use vstd::prelude::*;

use crate::field::{
    index_positions, lagrange_sums_hold, lagrange_sums_ok, point_values, poly_eval, positions_of,
    scalar_values, values_of, Scalar,
};
use crate::layout::{
    as_ints, checked_pow_succ, indices_in_range, lemma_path_child, lemma_path_node_bound,
    lemma_pow_step, lemma_positions_ascend, lemma_slot_in_range, level_start, level_starts,
    marks_ok, num_slots, open_positions, opened_positions, opens, path_node, path_pos, starts_ok,
    touched, touched_slots,
};
use crate::pcs::{
    check_opening, commit, commitment_of, commitment_to_field,
    field_of_commitment, interpolate, interpolation_of, kzg_accepts, new_setup, open, opening_of,
    Commitment, Setup,
};

verus! {

/// What a tree stands for: the values it commits to, its arity and its depth.
pub struct VerkleTreeView {
    pub values: Seq<int>,
    pub width: nat,
    pub depth: nat,
}

/// The values of leaf `j`: `values[j * w .. min(j * w + w, |values|)]`.
pub open spec fn leaf_values(vals: Seq<int>, w: nat, j: int) -> Seq<int> {
    let hi = if j * w + w <= vals.len() {
        j * w + w
    } else {
        vals.len() as int
    };
    vals.subrange(j * w, hi)
}

/// The values that node `j` of level `l` interpolates: its leaf values, or the scalars of its
/// children's commitments.
pub open spec fn node_evals(vals: Seq<int>, w: nat, d: nat, l: nat, j: int) -> Seq<int>
    decreases d - l, 0nat,
{
    if l >= d {
        leaf_values(vals, w, j)
    } else {
        Seq::new(w, |q: int| field_of_commitment(node_commitment(vals, w, d, l + 1, j * w + q)))
    }
}

/// The commitment of node `j` of level `l`.
pub open spec fn node_commitment(vals: Seq<int>, w: nat, d: nat, l: nat, j: int) -> Seq<u8>
    decreases d - l, 1nat,
{
    commitment_of(interpolation_of(node_evals(vals, w, d, l, j)))
}

/// The coefficients of the polynomial of node `j` of level `l`.
pub open spec fn node_coefficients(vals: Seq<int>, w: nat, d: nat, l: nat, j: int) -> Seq<int> {
    interpolation_of(node_evals(vals, w, d, l, j))
}

/// A tree of depth `d` over `n` values: one node of at most `w` values, or a complete tree.
pub open spec fn shape_ok(n: nat, w: nat, d: nat) -> bool {
    n >= 1 && ((d == 0 && n <= w) || (d >= 1 && n == pow(w as int, d + 1)))
}

/// The inputs that `VerkleTree::new` accepts: a non-empty vector whose length is at most `w` or
/// a power of `w`, and a width of at least two whose positions fit in a `u32`.
pub open spec fn buildable(n: nat, w: nat) -> bool {
    &&& n >= 1
    &&& 2 <= w <= u32::MAX
    &&& (n <= w || exists|e: nat| e >= 1 && #[trigger] pow(w as int, e) == n)
}

/// What a proof node stands for: the commitment opened, the opening proof, and the points
/// `(position, value)` it opens.
pub struct ProofNodeView {
    pub commitment: Seq<u8>,
    pub proof: Seq<u8>,
    pub point: Seq<(int, int)>,
}

/// One opening of a node: its commitment, the proof, and the points it opens, by ascending
/// position.
#[derive(Clone, Debug)]
pub struct ProofNode {
    pub commitment: Commitment,
    pub proof: Commitment,
    pub point: Vec<(Scalar, Scalar)>,
}

impl View for ProofNode {
    type V = ProofNodeView;

    open(crate) spec fn view(&self) -> ProofNodeView {
        ProofNodeView {
            commitment: self.commitment@,
            proof: self.proof@,
            point: point_values(self.point@),
        }
    }
}

/// A single-index proof: one opening per level, root first.
#[derive(Clone, Debug)]
pub struct VerkleProof {
    pub proofs: Vec<ProofNode>,
}

/// The views of a sequence of proof nodes.
pub open spec fn proof_views(s: Seq<ProofNode>) -> Seq<ProofNodeView> {
    s.map_values(|n: ProofNode| n@)
}

/// The opening at level `l` of the single proof for value `v` at index `i`.
pub open spec fn single_node_of(t: VerkleTreeView, i: int, v: int, l: nat) -> ProofNodeView {
    let (vals, w, d) = (t.values, t.width, t.depth);
    let j = path_node(w, d, l, i);
    let y = if l < d {
        field_of_commitment(node_commitment(vals, w, d, l + 1, path_node(w, d, l + 1, i)))
    } else {
        v
    };
    let pts = seq![(path_pos(w, d, l, i), y)];
    ProofNodeView {
        commitment: node_commitment(vals, w, d, l, j),
        proof: opening_of(node_coefficients(vals, w, d, l, j), pts),
        point: pts,
    }
}

/// The single proof for value `v` at index `i`: the openings along the path, root first.
pub open spec fn single_proof_of(t: VerkleTreeView, i: int, v: int) -> Seq<ProofNodeView> {
    Seq::new(t.depth + 1, |l: int| single_node_of(t, i, v, l as nat))
}

/// Level `l` of a single proof is well formed: one point, at a child position, that the
/// scheme accepts, whose value is the scalar of the next level's commitment.
pub open spec fn single_level_ok(ps: Seq<ProofNodeView>, w: int, l: int) -> bool {
    &&& ps[l].point.len() == 1
    &&& 0 <= ps[l].point[0].0 < w
    &&& kzg_accepts(ps[l].commitment, ps[l].point, ps[l].proof)
    &&& l + 1 < ps.len() ==> ps[l].point[0].1 == field_of_commitment(ps[l + 1].commitment)
}

/// What `verify_proof` accepts: a non-empty proof that starts at `root` and whose every level
/// is well formed.
pub open spec fn single_accepted(root: Seq<u8>, ps: Seq<ProofNodeView>, w: int) -> bool {
    &&& ps.len() >= 1
    &&& ps[0].commitment == root
    &&& forall|l: int| 0 <= l < ps.len() ==> #[trigger] single_level_ok(ps, w, l)
}

/// The value that node `j` of level `l` opens at position `q` in a batch proof: the scalar of
/// the child's commitment, or, on the leaf level, the claimed value at index `j * width + q`.
pub open spec fn batch_value(t: VerkleTreeView, data: Seq<int>, l: nat, j: int, q: int) -> int {
    if l < t.depth {
        field_of_commitment(node_commitment(t.values, t.width, t.depth, l + 1, j * t.width + q))
    } else {
        data[j * t.width + q]
    }
}

/// The points that node `j` of level `l` opens in a batch proof for `ix`, by ascending position.
pub open spec fn batch_points(
    t: VerkleTreeView,
    ix: Seq<usize>,
    data: Seq<int>,
    l: nat,
    j: int,
) -> Seq<(int, int)> {
    open_positions(t.width, t.depth, ix, l, j).map_values(
        |q: int| (q, batch_value(t, data, l, j, q)),
    )
}

/// The opening of node `j` of level `l` in a batch proof for `ix`.
pub open spec fn batch_node_of(
    t: VerkleTreeView,
    ix: Seq<usize>,
    data: Seq<int>,
    l: nat,
    j: int,
) -> ProofNodeView {
    let pts = batch_points(t, ix, data, l, j);
    ProofNodeView {
        commitment: node_commitment(t.values, t.width, t.depth, l, j),
        proof: opening_of(node_coefficients(t.values, t.width, t.depth, l, j), pts),
        point: pts,
    }
}

/// The slot of node `j` of level `l` in a batch proof for `ix`: its opening where the node lies
/// on a proved path, and absent elsewhere.
pub open spec fn batch_slot_of(
    t: VerkleTreeView,
    ix: Seq<usize>,
    data: Seq<int>,
    l: nat,
    j: int,
) -> Option<ProofNodeView> {
    if touched(t.width, t.depth, ix, l, j) {
        Some(batch_node_of(t, ix, data, l, j))
    } else {
        None
    }
}

/// The views of a sequence of slots.
pub open spec fn slot_views(s: Seq<Option<ProofNode>>) -> Seq<Option<ProofNodeView>> {
    s.map_values(
        |o: Option<ProofNode>|
            match o {
                Some(n) => Some(n@),
                None => None,
            },
    )
}

/// The slots of `ps` hold the batch proof for `ix`, level by level.
pub open spec fn is_batch_proof_of(
    ps: Seq<Option<ProofNodeView>>,
    t: VerkleTreeView,
    ix: Seq<usize>,
    data: Seq<int>,
) -> bool {
    &&& ps.len() == num_slots(t.width, t.depth)
    &&& forall|l: nat, j: int|
        l <= t.depth && 0 <= j < pow(t.width as int, l) ==> ps[level_start(t.width, l) + j]
            == #[trigger] batch_slot_of(t, ix, data, l, j)
}

/// The commitment scheme can open the points of node `j` of level `l` in a batch proof.
pub open spec fn slot_openable(
    t: VerkleTreeView,
    ix: Seq<usize>,
    data: Seq<int>,
    l: nat,
    j: int,
) -> bool {
    let pts = batch_points(t, ix, data, l, j);
    lagrange_sums_ok(positions_of(pts), values_of(pts), true)
}

/// The commitment scheme can open the points of every node on a proved path.
pub open spec fn batch_openable(t: VerkleTreeView, ix: Seq<usize>, data: Seq<int>) -> bool {
    forall|l: nat, j: int|
        l <= t.depth && 0 <= j < pow(t.width as int, l) && touched(t.width, t.depth, ix, l, j)
            ==> #[trigger] slot_openable(t, ix, data, l, j)
}

/// The commitment scheme accepts the opening of node `j` of level `l` in a batch proof.
pub open spec fn node_accepted(
    t: VerkleTreeView,
    ix: Seq<usize>,
    data: Seq<int>,
    l: nat,
    j: int,
) -> bool {
    let n = batch_node_of(t, ix, data, l, j);
    kzg_accepts(n.commitment, n.point, n.proof)
}

/// Every claimed value at an index of `ix` is the tree's value there.
pub open spec fn claims_agree(vals: Seq<int>, ix: Seq<usize>, data: Seq<int>) -> bool {
    forall|t: int| 0 <= t < ix.len() ==> data[#[trigger] ix[t] as int] == vals[ix[t] as int]
}

/// The slot of node `j` of level `l` is well formed: present exactly when the node lies on a
/// proved path; then opening exactly the positions that lead to proved values, at points the
/// commitment scheme can interpolate, accepted by the commitment scheme, and, above the leaves, claiming for each position the scalar of the
/// commitment in the child's slot, which is present.
pub open spec fn batch_slot_ok(
    ps: Seq<Option<ProofNodeView>>,
    w: nat,
    d: nat,
    ix: Seq<usize>,
    l: nat,
    j: int,
) -> bool {
    let k = level_start(w, l) + j;
    &&& (ps[k] is Some <==> touched(w, d, ix, l, j))
    &&& ps[k] matches Some(n) ==> {
        &&& positions_of(n.point) == open_positions(w, d, ix, l, j)
        &&& lagrange_sums_ok(positions_of(n.point), values_of(n.point), false)
        &&& kzg_accepts(n.commitment, n.point, n.proof)
        &&& l < d ==> forall|m: int|
            0 <= m < n.point.len() ==> (ps[level_start(w, l + 1) + j * w + (
            #[trigger] n.point[m]).0] matches Some(c) && n.point[m].1 == field_of_commitment(
                c.commitment,
            ))
    }
}

/// The claimed value `data[t]` is what the leaf slot of `ix[t]` opens at its position.
pub open spec fn claim_ok(
    ps: Seq<Option<ProofNodeView>>,
    w: nat,
    d: nat,
    ix: Seq<usize>,
    data: Seq<int>,
    t: int,
) -> bool {
    match ps[level_start(w, d) + (ix[t] as int) / (w as int)] {
        Some(n) => forall|m: int|
            0 <= m < n.point.len() && (#[trigger] n.point[m]).0 == (ix[t] as int) % (w as int)
                ==> n.point[m].1 == data[t],
        None => true,
    }
}

/// A leaf slot that opens the position of `ix[t]` at another value than `data[t]` refutes the
/// claim.
proof fn lemma_claim_refuted(
    ps: Seq<Option<ProofNodeView>>,
    w: nat,
    d: nat,
    ix: Seq<usize>,
    data: Seq<int>,
    t: int,
    n: ProofNodeView,
    m: int,
)
    requires
        ps[level_start(w, d) + (ix[t] as int) / (w as int)] == Some(n),
        0 <= m < n.point.len(),
        n.point[m].0 == (ix[t] as int) % (w as int),
        n.point[m].1 != data[t],
    ensures
        !claim_ok(ps, w, d, ix, data, t),
{
    let k = level_start(w, d) + (ix[t] as int) / (w as int);
    let n2 = ps[k]->Some_0;
    assert(n2 == n);
    assert(n2.point[m].0 == (ix[t] as int) % (w as int));
    assert(n2.point[m].1 != data[t]);
}

/// What `batch_proof_verify` accepts: a proof laid out over the tree of width `w` and depth `d`
/// (whose leaf count fits a `usize`), rooted at `root`, every slot well formed, and every
/// claimed value opened at its leaf.
pub open spec fn batch_accepted(
    root: Seq<u8>,
    ps: Seq<Option<ProofNodeView>>,
    w: nat,
    ix: Seq<usize>,
    d: nat,
    data: Seq<int>,
) -> bool {
    &&& w >= 2
    &&& pow(w as int, d + 1) <= usize::MAX
    &&& data.len() == ix.len()
    &&& indices_in_range(w, d, ix)
    &&& ps.len() == num_slots(w, d)
    &&& ps[0] matches Some(n) && n.commitment == root
    &&& forall|l: nat, j: int|
        l <= d && 0 <= j < pow(w as int, l) ==> #[trigger] batch_slot_ok(ps, w, d, ix, l, j)
    &&& forall|t: int| 0 <= t < ix.len() ==> #[trigger] claim_ok(ps, w, d, ix, data, t)
}

/// The errors of the library.
#[derive(Debug, PartialEq, Eq, Structural)]
pub enum VerkleTreeError {
    BuildError,
    ProofGenerateError,
    EmptyTree,
}

/// A node: its commitment and the coefficients of its polynomial, kept to open it later.
struct VerkleNode {
    commitment: Commitment,
    coefficients: Vec<Scalar>,
}

/// Node `n` is node `j` of level `l` of the tree over `vals`.
spec fn node_ok(n: VerkleNode, vals: Seq<int>, w: nat, d: nat, l: nat, j: int) -> bool {
    &&& n.commitment@ == node_commitment(vals, w, d, l, j)
    &&& scalar_values(n.coefficients@) == node_coefficients(vals, w, d, l, j)
    &&& n.coefficients.len() <= w
    &&& node_interpolable(vals, w, d, l, j)
    &&& forall|q: int|
        0 <= q < node_evals(vals, w, d, l, j).len() ==> poly_eval(
            scalar_values(n.coefficients@),
            q,
        ) == #[trigger] node_evals(vals, w, d, l, j)[q]
}

/// `nodes` is level `l` of the tree over `vals`.
spec fn level_ok(nodes: Seq<VerkleNode>, vals: Seq<int>, w: nat, d: nat, l: nat) -> bool {
    &&& nodes.len() == pow(w as int, l)
    &&& forall|j: int| 0 <= j < nodes.len() ==> node_ok(#[trigger] nodes[j], vals, w, d, l, j)
}

/// A Verkle tree, built once from its values. Its levels are kept by height: `levels[0]`
/// holds the leaves and `levels[depth]` the root.
pub struct VerkleTree {
    levels: Vec<Vec<VerkleNode>>,
    width: usize,
    depth: usize,
    setup: Setup,
    values: Ghost<Seq<int>>,
}

impl View for VerkleTree {
    type V = VerkleTreeView;

    closed spec fn view(&self) -> VerkleTreeView {
        VerkleTreeView { values: self.values@, width: self.width as nat, depth: self.depth as nat }
    }
}

/// The commitment scheme can interpolate the values of node `j` of level `l`.
pub open spec fn node_interpolable(vals: Seq<int>, w: nat, d: nat, l: nat, j: int) -> bool {
    let e = node_evals(vals, w, d, l, j);
    lagrange_sums_ok(index_positions(e.len()), e, false)
}

/// The commitment scheme can interpolate the values of every node of the tree of depth `d`.
pub open spec fn interpolable(vals: Seq<int>, w: nat, d: nat) -> bool {
    forall|l: nat, j: int|
        l <= d && 0 <= j < pow(w as int, l) ==> #[trigger] node_interpolable(vals, w, d, l, j)
}

/// Whether the commitment scheme can interpolate `evals` at the positions `0, 1, ..`.
fn interpolation_safe(evals: &Vec<Scalar>) -> (r: bool)
    ensures
        r == lagrange_sums_ok(index_positions(evals.len() as nat), scalar_values(evals@), false),
{
    let mut points: Vec<(Scalar, Scalar)> = Vec::new();
    let mut i: usize = 0;
    while i < evals.len()
        invariant
            i <= evals.len(),
            points.len() == i,
            forall|t: int|
                0 <= t < i ==> (#[trigger] point_values(points@)[t]) == (t, evals@[t]@),
        decreases evals.len() - i,
    {
        let ghost before = points@;
        points.push((Scalar::from_u64(i as u64), evals[i]));
        proof {
            assert forall|t: int| 0 <= t < i + 1 implies (#[trigger] point_values(points@)[t]) == (
            t,
            evals@[t]@,
            ) by {
                if t < i {
                    assert(points@[t] == before[t]);
                    assert(point_values(before)[t] == point_values(points@)[t]);
                }
            }
        }
        i += 1;
    }
    let ghost pv = point_values(points@);
    assert(positions_of(pv) =~= index_positions(evals.len() as nat));
    assert(values_of(pv) =~= scalar_values(evals@));
    assert forall|s: int, t: int| 0 <= s < pv.len() && 0 <= t < pv.len() && s != t implies pv[s].0
        != pv[t].0 by {
        assert(pv[s] == (s, evals@[s]@));
        assert(pv[t] == (t, evals@[t]@));
    }
    lagrange_sums_hold(&points, false)
}

/// `n` is the node made from the values `evals`.
spec fn made_from(n: VerkleNode, evals: Seq<Scalar>) -> bool {
    &&& n.commitment@ == commitment_of(interpolation_of(scalar_values(evals)))
    &&& scalar_values(n.coefficients@) == interpolation_of(scalar_values(evals))
    &&& n.coefficients.len() <= evals.len()
    &&& forall|q: int|
        0 <= q < evals.len() ==> poly_eval(scalar_values(n.coefficients@), q) == (
        #[trigger] evals[q])@
}

/// The node whose polynomial interpolates `evals`.
fn make_node(setup: &Setup, evals: &Vec<Scalar>) -> (r: VerkleNode)
    requires
        evals.len() <= setup.degree,
        setup.degree <= u32::MAX,
        lagrange_sums_ok(index_positions(evals.len() as nat), scalar_values(evals@), false),
    ensures
        made_from(r, evals@),
{
    let coefficients = interpolate(evals);
    let commitment = commit(setup, &coefficients);
    VerkleNode { commitment, coefficients }
}

/// Relies on rayon: `par_iter().map(..).collect()` into a `Vec` keeps the order of its input,
/// so node `i` is what `make_node` makes of `chunks[i]`.
#[verifier::external_body]
fn make_nodes(setup: &Setup, chunks: &Vec<Vec<Scalar>>) -> (r: Vec<VerkleNode>)
    requires
        setup.degree <= u32::MAX,
        forall|i: int| 0 <= i < chunks.len() ==> (#[trigger] chunks@[i]).len() <= setup.degree,
        forall|i: int|
            0 <= i < chunks.len() ==> lagrange_sums_ok(
                index_positions((#[trigger] chunks@[i]).len() as nat),
                scalar_values(chunks@[i]@),
                false,
            ),
    ensures
        r.len() == chunks.len(),
        forall|i: int| 0 <= i < chunks.len() ==> made_from(#[trigger] r@[i], chunks@[i]@),
{
    chunks.par_iter().map(|c| make_node(setup, c)).collect()
}

/// A node made from the values of node `j` of level `l` is that node.
proof fn lemma_made_node_ok(
    n: VerkleNode,
    e: Seq<Scalar>,
    vals: Seq<int>,
    w: nat,
    d: nat,
    l: nat,
    j: int,
)
    requires
        made_from(n, e),
        scalar_values(e) == node_evals(vals, w, d, l, j),
        e.len() <= w,
        lagrange_sums_ok(index_positions(e.len() as nat), scalar_values(e), false),
    ensures
        node_ok(n, vals, w, d, l, j),
{
    assert forall|q: int| 0 <= q < node_evals(vals, w, d, l, j).len() implies poly_eval(
        scalar_values(n.coefficients@),
        q,
    ) == #[trigger] node_evals(vals, w, d, l, j)[q] by {
        assert(scalar_values(e)[q] == e[q]@);
    }
}

proof fn lemma_no_power_between(w: nat, n: nat, d: nat)
    requires
        w >= 2,
        pow(w as int, d) < n < pow(w as int, d + 1),
    ensures
        forall|e: nat| #[trigger] pow(w as int, e) != n,
{
    assert forall|e: nat| #[trigger] pow(w as int, e) != n by {
        if e <= d {
            if e < d {
                lemma_pow_strictly_increases(w, e, d);
            }
        } else if e > d + 1 {
            lemma_pow_strictly_increases(w, d + 1, e);
        }
    }
}

/// Every position that leaf `j` opens holds the tree's value in `data`.
pub open spec fn leaf_agrees(
    vals: Seq<int>,
    ix: Seq<usize>,
    data: Seq<int>,
    w: nat,
    d: nat,
    j: int,
) -> bool {
    forall|q: int|
        0 <= q < w && opens(w, d, ix, d, j, q) ==> #[trigger] data[j * w + q] == vals[j * w + q]
}

/// Where the claimed values agree with the tree's, the batch proof for them is the batch proof
/// for the tree's own values.
proof fn lemma_agreeing_data(t: VerkleTreeView, ix: Seq<usize>, data: Seq<int>, l: nat, j: int)
    requires
        t.width >= 1,
        claims_agree(t.values, ix, data),
    ensures
        batch_slot_of(t, ix, data, l, j) == batch_slot_of(t, ix, t.values, l, j),
{
    let (w, d) = (t.width, t.depth);
    lemma_positions_ascend(w, d, ix, l, j, w as int);
    let pos = open_positions(w, d, ix, l, j);
    assert forall|m: int| 0 <= m < pos.len() implies batch_value(t, data, l, j, #[trigger] pos[m])
        == batch_value(t, t.values, l, j, pos[m]) by {
        let q = pos[m];
        assert(pos.contains(q));
        if l >= d {
            assert(opens(w, d, ix, l, j, q));
            let s = choose|s: int| 0 <= s < ix.len() && #[trigger] ix[s] == j * w + q;
            assert(data[ix[s] as int] == t.values[ix[s] as int]);
        }
    }
    assert(batch_points(t, ix, data, l, j) =~= batch_points(t, ix, t.values, l, j));
}

/// Position `q` of leaf `j` holds value `j * w + q`.
proof fn lemma_leaf_value(vals: Seq<int>, w: nat, d: nat, j: int, q: int)
    requires
        0 <= j,
        0 <= q < w,
        j * w + q < vals.len(),
    ensures
        q < node_evals(vals, w, d, d, j).len(),
        node_evals(vals, w, d, d, j)[q] == vals[j * w + q],
{
    assert(0 <= j * w) by (nonlinear_arith)
        requires 0 <= j, w >= 0;
}

/// The index `j * w + q` lies in leaf `j`.
proof fn lemma_leaf_of(w: nat, d: nat, j: int, q: int)
    requires
        w >= 1,
        0 <= j,
        0 <= q < w,
    ensures
        path_node(w, d, d, j * w + q) == j,
        path_pos(w, d, d, j * w + q) == q,
{
    vstd::arithmetic::power::lemma_pow1(w as int);
    vstd::arithmetic::power::lemma_pow0(w as int);
    assert((d + 1 - d) as nat == 1);
    assert((d - d) as nat == 0);
    vstd::arithmetic::div_mod::lemma_fundamental_div_mod_converse(j * w + q, w as int, j, q);
}

/// A leaf that no index touches opens nothing.
proof fn lemma_untouched_leaf(vals: Seq<int>, ix: Seq<usize>, data: Seq<int>, w: nat, d: nat, j: int)
    requires
        w >= 1,
        0 <= j,
        !touched(w, d, ix, d, j),
    ensures
        leaf_agrees(vals, ix, data, w, d, j),
{
    assert forall|q: int| 0 <= q < w && opens(w, d, ix, d, j, q) implies #[trigger] data[j * w + q]
        == vals[j * w + q] by {
        let t = choose|t: int| 0 <= t < ix.len() && #[trigger] ix[t] == j * w + q;
        lemma_leaf_of(w, d, j, q);
        assert(path_node(w, d, d, ix[t] as int) == j);
    }
}

/// A claimed value agrees with the tree when the leaf holding it agrees.
proof fn lemma_claim_in_leaf(vals: Seq<int>, ix: Seq<usize>, data: Seq<int>, w: nat, d: nat, t: int)
    requires
        w >= 1,
        0 <= t < ix.len(),
        ix[t] < pow(w as int, d + 1),
        forall|j2: int| 0 <= j2 < pow(w as int, d) ==> #[trigger] leaf_agrees(vals, ix, data, w, d, j2),
    ensures
        data[ix[t] as int] == vals[ix[t] as int],
{
    let i = ix[t] as int;
    crate::layout::lemma_path_node_bound(w, d, d, i);
    vstd::arithmetic::power::lemma_pow1(w as int);
    assert((d + 1 - d) as nat == 1);
    let j = i / (w as int);
    let q = i % (w as int);
    vstd::arithmetic::div_mod::lemma_fundamental_div_mod(i, w as int);
    assert(j * w + q == i) by (nonlinear_arith)
        requires i == (w as int) * (i / (w as int)) + i % (w as int), j == i / (w as int), q == i % (w as int);
    assert(ix[t] == j * w + q);
    assert(leaf_agrees(vals, ix, data, w, d, j));
    assert(opens(w, d, ix, d, j, q));
}

/// The length of the values and the width fix the depth.
proof fn lemma_shape_unique(n: nat, w: nat, d1: nat, d2: nat)
    requires
        w >= 2,
        shape_ok(n, w, d1),
        shape_ok(n, w, d2),
    ensures
        d1 == d2,
{
    vstd::arithmetic::power::lemma_pow1(w as int);
    if d1 != d2 {
        if d1 == 0 {
            lemma_pow_strictly_increases(w, 1, d2 + 1);
        } else if d2 == 0 {
            lemma_pow_strictly_increases(w, 1, d1 + 1);
        } else if d1 < d2 {
            lemma_pow_strictly_increases(w, d1 + 1, d2 + 1);
        } else {
            lemma_pow_strictly_increases(w, d2 + 1, d1 + 1);
        }
    }
}

impl VerkleTree {
    /// The tree is the complete `width`-ary tree of commitments over its values.
    pub closed spec fn wf(&self) -> bool {
        let w = self.width as nat;
        let d = self.depth as nat;
        &&& 2 <= self.width <= u32::MAX
        &&& self.setup.degree == self.width
        &&& shape_ok(self.values@.len(), w, d)
        &&& self.values@.len() <= usize::MAX
        &&& self.levels.len() == d + 1
        &&& forall|h: int|
            0 <= h <= d ==> level_ok(
                (#[trigger] self.levels@[h])@,
                self.values@,
                w,
                d,
                (d - h) as nat,
            )
    }

    /// Builds the tree over `datas`, `width` values to a leaf. Fails with `BuildError` unless
    /// `datas` is non-empty and its length is at most `width` or a power of `width`, and
    /// `width` lies in `[2, u32::MAX]`; fails with `BuildError` too where the commitment scheme
    /// cannot interpolate the values of a node (its interpolation asserts on a leading
    /// coefficient that cancels in a partial sum).
    pub fn new(datas: &Vec<Scalar>, width: usize) -> (r: Result<Self, VerkleTreeError>)
        ensures
            !buildable(datas.len() as nat, width as nat) ==> r is Err,
            forall|d: nat|
                buildable(datas.len() as nat, width as nat) && #[trigger] shape_ok(
                    datas.len() as nat,
                    width as nat,
                    d,
                ) ==> (r is Ok <==> interpolable(scalar_values(datas@), width as nat, d)),
            r matches Err(e) ==> e == VerkleTreeError::BuildError,
            r matches Ok(t) ==> {
                &&& t.wf()
                &&& interpolable(t@.values, t@.width, t@.depth)
                &&& shape_ok(t@.values.len(), t@.width, t@.depth)
                &&& t@.values == scalar_values(datas@)
                &&& t@.width == width
                &&& datas.len() <= width ==> t@.depth == 0
                &&& datas.len() > width ==> pow(width as int, t@.depth + 1) == datas.len()
            },
    {
        let n = datas.len();
        if n == 0 || width < 2 || width > 0xffff_ffffusize {
            return Err(VerkleTreeError::BuildError);
        }
        let mut d: usize = 0;
        proof {
            vstd::arithmetic::power::lemma_pow1(width as int);
            vstd::arithmetic::power::lemma_pow0(width as int);
        }
        if n > width {
            let mut p: usize = width;
            while p < n
                invariant
                    width >= 2,
                    width <= u32::MAX,
                    n > width,
                    n == datas.len(),
                    p == pow(width as int, (d + 1) as nat),
                    pow(width as int, d as nat) < n,
                    d < p,
                decreases n - p,
            {
                if p > n / width {
                    proof {
                        assert(p * width > n) by (nonlinear_arith)
                            requires p > n / width, width >= 1;
                        lemma_pow_step(width as nat, (d + 1) as nat);
                        assert(pow(width as int, (d + 2) as nat) == p * width);
                        lemma_no_power_between(width as nat, n as nat, (d + 1) as nat);
                        assert(forall|e: nat| #[trigger] pow(width as int, e) != n);
                        assert(!(exists|e: nat| e >= 1 && #[trigger] pow(width as int, e) == n));
                        assert(!buildable(n as nat, width as nat));
                    }
                    return Err(VerkleTreeError::BuildError);
                }
                proof {
                    assert(p * width <= n) by (nonlinear_arith)
                        requires p <= n / width, width >= 1;
                    lemma_pow_step(width as nat, (d + 1) as nat);
                    assert(d + 1 < p * width && p < p * width) by (nonlinear_arith)
                        requires d < p, width >= 2;
                }
                p = p * width;
                d += 1;
            }
            if p != n {
                proof {
                    lemma_no_power_between(width as nat, n as nat, d as nat);
                }
                return Err(VerkleTreeError::BuildError);
            }
        }
        proof {
            if n > width {
                assert(pow(width as int, (d + 1) as nat) == n);
            }
        }
        let ghost vals = scalar_values(datas@);
        let ghost w = width as nat;
        let ghost dd = d as nat;
        let setup = new_setup(width);
        // The leaves.
        let leaf_count: usize = if d == 0 {
            1
        } else {
            n / width
        };
        proof {
            if d > 0 {
                lemma_pow_step(w, dd);
                lemma_pow_positive(w as int, dd);
                vstd::arithmetic::div_mod::lemma_div_by_multiple(pow(w as int, dd), w as int);
            }
        }
        assert(leaf_count == pow(w as int, dd));
        let mut chunks: Vec<Vec<Scalar>> = Vec::new();
        let mut j: usize = 0;
        while j < leaf_count
            invariant
                width >= 2,
                width <= u32::MAX,
                setup.degree == width,
                vals == scalar_values(datas@),
                w == width,
                dd == d,
                n == datas.len(),
                shape_ok(n as nat, w, dd),
                leaf_count == pow(w as int, dd),
                d > 0 ==> leaf_count * width <= n,
                d == 0 ==> leaf_count == 1,
                j <= leaf_count,
                chunks.len() == j,
                forall|m: int|
                    0 <= m < j ==> scalar_values((#[trigger] chunks@[m])@) == leaf_values(
                        vals,
                        w,
                        m,
                    ) && chunks@[m].len() <= width && lagrange_sums_ok(
                        index_positions(chunks@[m].len() as nat),
                        scalar_values(chunks@[m]@),
                        false,
                    ),
            decreases leaf_count - j,
        {
            proof {
                if d > 0 {
                    assert(j * width + width <= leaf_count * width) by (nonlinear_arith)
                        requires j < leaf_count;
                } else {
                    assert(j == 0);
                }
            }
            let lo = j * width;
            let hi = if lo + width <= n {
                lo + width
            } else {
                n
            };
            let mut evals: Vec<Scalar> = Vec::new();
            let mut i = lo;
            while i < hi
                invariant
                    lo <= i <= hi <= n,
                    n == datas.len(),
                    scalar_values(evals@) == vals.subrange(lo as int, i as int),
                    evals.len() == i - lo,
                    vals == scalar_values(datas@),
                decreases hi - i,
            {
                let ghost before = evals@;
                evals.push(datas[i]);
                assert(evals@ == before.push(datas@[i as int]));
                assert(scalar_values(evals@) =~= scalar_values(before).push(vals[i as int]));
                assert(vals.subrange(lo as int, i + 1) =~= vals.subrange(lo as int, i as int).push(
                    vals[i as int],
                ));
                i += 1;
            }
            assert(scalar_values(evals@) =~= leaf_values(vals, w, j as int));
            if !interpolation_safe(&evals) {
                proof {
                    assert(node_evals(vals, w, dd, dd, j as int) == scalar_values(evals@));
                    assert(!node_interpolable(vals, w, dd, dd, j as int));
                    assert(!interpolable(vals, w, dd));
                    assert forall|d2: nat| #[trigger] shape_ok(n as nat, w, d2) implies d2 == dd by {
                        lemma_shape_unique(n as nat, w, d2, dd);
                    }
                }
                return Err(VerkleTreeError::BuildError);
            }
            chunks.push(evals);
            j += 1;
        }
        let leaves = make_nodes(&setup, &chunks);
        proof {
            assert forall|m: int| 0 <= m < leaves.len() implies node_ok(
                #[trigger] leaves@[m],
                vals,
                w,
                dd,
                dd,
                m,
            ) by {
                assert(node_evals(vals, w, dd, dd, m) == leaf_values(vals, w, m));
                lemma_made_node_ok(leaves@[m], chunks@[m]@, vals, w, dd, dd, m);
            }
        }
        let mut levels: Vec<Vec<VerkleNode>> = Vec::new();
        levels.push(leaves);
        // The levels above, from the leaves up.
        let mut count = leaf_count;
        let mut h: usize = 0;
        while h < d
            invariant
                width >= 2,
                width <= u32::MAX,
                setup.degree == width,
                w == width,
                dd == d,
                n == datas.len(),
                vals == scalar_values(datas@),
                shape_ok(n as nat, w, dd),
                h <= d,
                levels.len() == h + 1,
                count == pow(w as int, (d - h) as nat),
                forall|g: int|
                    0 <= g <= h ==> level_ok(
                        (#[trigger] levels@[g])@,
                        vals,
                        w,
                        dd,
                        (dd - g) as nat,
                    ),
            decreases d - h,
        {
            let ghost l = (d - h - 1) as nat;
            proof {
                lemma_pow_step(w, l);
                lemma_pow_positive(w as int, l);
                vstd::arithmetic::div_mod::lemma_div_by_multiple(pow(w as int, l), w as int);
                assert((d - h) as nat == l + 1);
            }
            let next_count = count / width;
            let mut lists: Vec<Vec<Scalar>> = Vec::new();
            let mut j: usize = 0;
            while j < next_count
                invariant
                    width >= 2,
                    width <= u32::MAX,
                    setup.degree == width,
                    w == width,
                    dd == d,
                    n == datas.len(),
                    vals == scalar_values(datas@),
                    shape_ok(n as nat, w, dd),
                    h < d,
                    l == d - h - 1,
                    levels.len() == h + 1,
                    count == pow(w as int, l + 1),
                    next_count == pow(w as int, l),
                    next_count * width == count,
                    level_ok(levels@[h as int]@, vals, w, dd, l + 1),
                    j <= next_count,
                    lists.len() == j,
                    forall|m: int|
                        0 <= m < j ==> scalar_values((#[trigger] lists@[m])@) == node_evals(
                            vals,
                            w,
                            dd,
                            l,
                            m,
                        ) && lists@[m].len() <= width && lagrange_sums_ok(
                            index_positions(lists@[m].len() as nat),
                            scalar_values(lists@[m]@),
                            false,
                        ),
                decreases next_count - j,
            {
                let below = &levels[h];
                let mut evals: Vec<Scalar> = Vec::new();
                let mut q: usize = 0;
                proof {
                    assert(j * width + width <= next_count * width) by (nonlinear_arith)
                        requires j < next_count;
                }
                while q < width
                    invariant
                        width >= 2,
                        w == width,
                        j < next_count,
                        j * width + width <= count,
                        below@.len() == count,
                        level_ok(below@, vals, w, dd, l + 1),
                        q <= width,
                        evals.len() == q,
                        forall|s: int|
                            0 <= s < q ==> (#[trigger] evals@[s])@ == field_of_commitment(
                                node_commitment(vals, w, dd, l + 1, j * w + s),
                            ),
                    decreases width - q,
                {
                    let c = j * width + q;
                    assert(node_ok(below@[c as int], vals, w, dd, l + 1, c as int));
                    let cm = &below[c].commitment;
                    proof {
                        use_type_invariant(cm);
                    }
                    let e = commitment_to_field(cm);
                    evals.push(e);
                    q += 1;
                }
                proof {
                    assert(l < dd);
                    assert(scalar_values(evals@) =~= node_evals(vals, w, dd, l, j as int));
                }
                if !interpolation_safe(&evals) {
                    proof {
                        assert(!node_interpolable(vals, w, dd, l, j as int));
                        assert(!interpolable(vals, w, dd));
                        assert forall|d2: nat| #[trigger] shape_ok(n as nat, w, d2) implies d2 == dd by {
                            lemma_shape_unique(n as nat, w, d2, dd);
                        }
                    }
                    return Err(VerkleTreeError::BuildError);
                }
                lists.push(evals);
                j += 1;
            }
            let next = make_nodes(&setup, &lists);
            proof {
                assert forall|m: int| 0 <= m < next.len() implies node_ok(
                    #[trigger] next@[m],
                    vals,
                    w,
                    dd,
                    l,
                    m,
                ) by {
                    lemma_made_node_ok(next@[m], lists@[m]@, vals, w, dd, l, m);
                }
                assert(l == (dd - (h + 1)) as nat);
            }
            levels.push(next);
            count = next_count;
            h += 1;
        }
        proof {
            assert forall|g: int| 0 <= g <= dd implies level_ok(
                (#[trigger] levels@[g])@,
                vals,
                w,
                dd,
                (dd - g) as nat,
            ) by {}
            assert forall|l2: nat, j2: int| l2 <= dd && 0 <= j2 < pow(w as int, l2) implies #[trigger] node_interpolable(vals, w, dd, l2, j2) by {
                let g = dd - l2;
                assert(level_ok(levels@[g]@, vals, w, dd, (dd - g) as nat));
                assert(node_ok(levels@[g]@[j2], vals, w, dd, l2, j2));
            }
            assert forall|d2: nat| #[trigger] shape_ok(n as nat, w, d2) implies d2 == dd by {
                lemma_shape_unique(n as nat, w, d2, dd);
            }
        }
        Ok(VerkleTree { levels, width, depth: d, setup, values: Ghost(vals) })
    }

    /// `width^e` for `e <= depth`.
    fn power_below(&self, e: usize) -> (r: usize)
        requires
            self.wf(),
            e <= self.depth,
        ensures
            r == pow(self.width as int, e as nat),
    {
        let mut p: usize = 1;
        let mut k: usize = 0;
        proof {
            vstd::arithmetic::power::lemma_pow0(self.width as int);
        }
        while k < e
            invariant
                self.wf(),
                e <= self.depth,
                k <= e,
                p == pow(self.width as int, k as nat),
            decreases e - k,
        {
            proof {
                lemma_pow_step(self.width as nat, k as nat);
                vstd::arithmetic::power::lemma_pow_increases(
                    self.width as nat,
                    (k + 1) as nat,
                    (self.depth + 1) as nat,
                );
                if self.depth == 0 {
                    vstd::arithmetic::power::lemma_pow1(self.width as int);
                }
            }
            p = p * self.width;
            k += 1;
        }
        p
    }

    /// The proof that `data` is the value at `index`: for each level, root first, an opening of
    /// the node on the path at the position of the next node (or of the value, at the leaf).
    /// Fails with `ProofGenerateError` exactly when `data` is not the value at `index`; the
    /// proof it makes is accepted by `verify_proof` under the tree's root.
    pub fn generate_proof(&self, index: usize, data: &Scalar) -> (r: Result<
        VerkleProof,
        VerkleTreeError,
    >)
        requires
            self.wf(),
            index < self@.values.len(),
        ensures
            r is Ok <==> data@ == self@.values[index as int],
            r matches Err(e) ==> e == VerkleTreeError::ProofGenerateError,
            r matches Ok(p) ==> proof_views(p.proofs@) == single_proof_of(
                self@,
                index as int,
                data@,
            ),
            r matches Ok(p) ==> single_accepted(
                node_commitment(self@.values, self@.width, self@.depth, 0, 0),
                proof_views(p.proofs@),
                self@.width as int,
            ),
    {
        let w = self.width;
        let d = self.depth;
        let ghost vals = self.values@;
        let ghost gi = index as int;
        let mut div = self.power_below(d);
        let mut proofs: Vec<ProofNode> = Vec::new();
        let mut l: usize = 0;
        proof {
            if d == 0 {
                vstd::arithmetic::power::lemma_pow1(w as int);
            }
        }
        assert(gi < pow(w as int, (d + 1) as nat));
        while l <= d
            invariant
                self.wf(),
                w == self.width,
                d == self.depth,
                vals == self.values@,
                gi == index,
                0 <= gi < vals.len(),
                gi < pow(w as int, (d + 1) as nat),
                l <= d + 1,
                l <= d ==> div == pow(w as int, (d - l) as nat),
                proofs.len() == l,
                forall|m: int|
                    0 <= m < l ==> (#[trigger] proofs@[m])@ == single_node_of(
                        self@,
                        gi,
                        data@,
                        m as nat,
                    ),
                l > d ==> data@ == vals[gi],
                forall|m: int|
                    0 <= m < l ==> #[trigger] kzg_accepts(
                        single_node_of(self@, gi, data@, m as nat).commitment,
                        single_node_of(self@, gi, data@, m as nat).point,
                        single_node_of(self@, gi, data@, m as nat).proof,
                    ),
            decreases d + 1 - l,
        {
            let ghost gl = l as nat;
            proof {
                lemma_pow_positive(w as int, (d - l) as nat);
                lemma_path_child(w as nat, d as nat, gl, gi);
                lemma_path_node_bound(w as nat, d as nat, gl, gi);
                lemma_path_node_bound(w as nat, d as nat, gl + 1, gi);
                assert((d + 1 - (gl + 1)) as nat == (d - l) as nat);
            }
            let a = index / div;
            let j = a / w;
            let q = a % w;
            assert(pow(w as int, (d as nat + 1 - (gl + 1)) as nat) == div);
            assert(a == gi / (div as int));
            assert(a == path_node(w as nat, d as nat, gl + 1, gi));
            let level = &self.levels[d - l];
            proof {
                assert(level_ok(self.levels@[d - l]@, vals, w as nat, d as nat, gl));
            }
            let node = &level[j];
            proof {
                assert(node_ok(level@[j as int], vals, w as nat, d as nat, gl, j as int));
            }
            let y = if l < d {
                let below = &self.levels[d - l - 1];
                proof {
                    assert(level_ok(below@, vals, w as nat, d as nat, gl + 1));
                    assert(node_ok(below@[a as int], vals, w as nat, d as nat, gl + 1, a as int));
                }
                let cm = &below[a].commitment;
                proof {
                    use_type_invariant(cm);
                }
                commitment_to_field(cm)
            } else {
                *data
            };
            let mut points: Vec<(Scalar, Scalar)> = Vec::new();
            points.push((Scalar::from_u64(q as u64), y));
            let ghost pts = seq![(q as int, y@)];
            assert(point_values(points@) =~= pts);
            proof {
                crate::field::lemma_single_point_sums(q as int, y@);
                assert(positions_of(pts) =~= seq![q as int]);
                assert(values_of(pts) =~= seq![y@]);
            }
            proof {
                let ev = node_evals(vals, w as nat, d as nat, gl, j as int);
                if l < d {
                    assert(ev[q as int] == y@);
                } else {
                    vstd::arithmetic::power::lemma_pow0(w as int);
                    assert(div == 1);
                    assert(a == gi);
                    vstd::arithmetic::div_mod::lemma_fundamental_div_mod(gi, w as int);
                    assert(j * w + q == gi) by (nonlinear_arith)
                        requires gi == (w as int) * (gi / (w as int)) + gi % (w as int), j == gi / (w as int), q == gi % (w as int);
                    assert(ev[q as int] == vals[gi]);
                }
            }
            match open(&self.setup, &node.coefficients, &points) {
                Ok(proof) => {
                    assert(points@[0].0@ == q && points@[0].1@ == y@);
                    assert(poly_eval(scalar_values(node.coefficients@), q as int) == y@);
                    let pn = ProofNode { commitment: node.commitment.duplicate(), proof, point: points };
                    assert(pn@ == single_node_of(self@, gi, data@, gl));
                    proofs.push(pn);
                    proof {
                        assert forall|m: int| 0 <= m < l + 1 implies #[trigger] kzg_accepts(
                            single_node_of(self@, gi, data@, m as nat).commitment,
                            single_node_of(self@, gi, data@, m as nat).point,
                            single_node_of(self@, gi, data@, m as nat).proof,
                        ) by {
                            if m == l {
                                assert(single_node_of(self@, gi, data@, m as nat) == pn@);
                            }
                        }
                    }
                },
                Err(_) => {
                    return Err(VerkleTreeError::ProofGenerateError);
                },
            }
            if l < d {
                proof {
                    lemma_pow_step(w as nat, (d - l - 1) as nat);
                    lemma_pow_positive(w as int, (d - l - 1) as nat);
                    vstd::arithmetic::div_mod::lemma_div_by_multiple(
                        pow(w as int, (d - l - 1) as nat),
                        w as int,
                    );
                    assert((d - l - 1) as nat + 1 == (d - l) as nat);
                }
                div = div / w;
            }
            l += 1;
        }
        assert(proof_views(proofs@) =~= single_proof_of(self@, gi, data@));
        proof {
            crate::guarantees::lemma_single_proof_checks(self@, gi);
            let ps = single_proof_of(self@, gi, vals[gi]);
            assert forall|m: int| 0 <= m <= d implies #[trigger] kzg_accepts(
                ps[m].commitment,
                ps[m].point,
                ps[m].proof,
            ) by {
                assert(ps[m] == single_node_of(self@, gi, data@, m as nat));
            }
        }
        Ok(VerkleProof { proofs })
    }

    /// Whether `verkle_proof` proves a value of the tree whose root commitment is `root`: it
    /// starts at `root`; each level opens one child position below `width`, is accepted by the
    /// commitment scheme, and claims as value the scalar of the next level's commitment.
    pub fn verify_proof(root: Commitment, verkle_proof: &VerkleProof, width: usize) -> (r: bool)
        ensures
            r == single_accepted(root@, proof_views(verkle_proof.proofs@), width as int),
    {
        let proofs = &verkle_proof.proofs;
        let ghost ps = proof_views(proofs@);
        assert(ps.len() == proofs.len());
        if proofs.len() == 0 {
            return false;
        }
        assert(ps[0] == proofs@[0]@);
        if !proofs[0].commitment.same_as(&root) {
            return false;
        }
        let setup = new_setup(2);
        let mut l: usize = 0;
        while l < proofs.len()
            invariant
                ps == proof_views(proofs@),
                ps == proof_views(verkle_proof.proofs@),
                ps[0].commitment == root@,
                setup.degree == 2,
                l <= proofs.len(),
                forall|m: int| 0 <= m < l ==> #[trigger] single_level_ok(ps, width as int, m),
            decreases proofs.len() - l,
        {
            let node = &proofs[l];
            assert(ps[l as int] == node@);
            if node.point.len() != 1 {
                assert(!single_level_ok(ps, width as int, l as int));
                return false;
            }
            if !node.point[0].0.is_below(width as u64) {
                assert(!single_level_ok(ps, width as int, l as int));
                return false;
            }
            if l + 1 < proofs.len() {
                let cm = &proofs[l + 1].commitment;
                proof {
                    use_type_invariant(cm);
                }
                let e = commitment_to_field(cm);
                if !e.same_value(&node.point[0].1) {
                    assert(ps[l + 1] == proofs@[l + 1]@);
                    assert(!single_level_ok(ps, width as int, l as int));
                    return false;
                }
            }
            proof {
                use_type_invariant(&node.commitment);
                use_type_invariant(&node.proof);
            }
            if !check_opening(&setup, &node.commitment, &node.point, &node.proof) {
                assert(!single_level_ok(ps, width as int, l as int));
                return false;
            }
            assert(single_level_ok(ps, width as int, l as int));
            l += 1;
        }
        true
    }

    /// The batch proof for the values at `index`: in level order over the whole tree, the
    /// opening of every node on a proved path at the positions that lead to proved values, and
    /// `None` for every other node. Fails with `ProofGenerateError` exactly when `data`
    /// differs from the tree's values at one of `index`, or when the commitment scheme cannot
    /// interpolate the points of one of the openings. The proof it makes is accepted by
    /// `batch_proof_verify` under the tree's root, for the tree's values at `index`.
    pub fn generate_batch_proof(&self, index: Vec<usize>, data: &Vec<Scalar>) -> (r: Result<
        Vec<Option<ProofNode>>,
        VerkleTreeError,
    >)
        requires
            self.wf(),
            index.len() >= 1,
            forall|t: int| 0 <= t < index.len() ==> #[trigger] index@[t] < self@.values.len(),
            data.len() == self@.values.len(),
        ensures
            r is Ok <==> claims_agree(self@.values, index@, scalar_values(data@)) && batch_openable(
                self@,
                index@,
                scalar_values(data@),
            ),
            r matches Err(e) ==> e == VerkleTreeError::ProofGenerateError,
            r matches Ok(p) ==> is_batch_proof_of(
                slot_views(p@),
                self@,
                index@,
                scalar_values(data@),
            ),
            r matches Ok(p) ==> batch_accepted(
                node_commitment(self@.values, self@.width, self@.depth, 0, 0),
                slot_views(p@),
                self@.width,
                index@,
                self@.depth,
                crate::guarantees::claimed_values(self@.values, index@),
            ),
    {
        let w = self.width;
        let d = self.depth;
        let ghost vals = self.values@;
        let ghost dv = scalar_values(data@);
        let ghost ix = index@;
        let ghost gw = w as nat;
        let ghost gd = d as nat;
        proof {
            vstd::arithmetic::power::lemma_pow1(w as int);
            vstd::arithmetic::power::lemma_pow0(w as int);
            crate::layout::lemma_num_slots_bound(gw, gd);
            if d > 0 {
                lemma_pow_step(gw, gd);
                lemma_pow_positive(w as int, gd);
                assert(2 * pow(w as int, gd) <= pow(w as int, gd) * w) by (nonlinear_arith)
                    requires w >= 2, pow(w as int, gd) >= 0;
            } else {
                crate::layout::lemma_level_start_step(gw, 0);
            }
            assert(indices_in_range(gw, gd, ix));
        }
        let starts = match level_starts(w, d) {
            Some(s) => s,
            None => {
                return Err(VerkleTreeError::ProofGenerateError);
            },
        };
        let marks = touched_slots(w, d, &starts, &index);
        let mut out: Vec<Option<ProofNode>> = Vec::new();
        let mut l: usize = 0;
        while l <= d
            invariant
                self.wf(),
                w == self.width,
                d == self.depth,
                gw == w,
                gd == d,
                vals == self.values@,
                dv == scalar_values(data@),
                data.len() == vals.len(),
                ix == index@,
                forall|t: int| 0 <= t < ix.len() ==> #[trigger] ix[t] < vals.len(),
                starts_ok(gw, gd, starts@),
                num_slots(gw, gd) <= usize::MAX,
                vals.len() <= pow(w as int, gd + 1),
                pow(w as int, gd + 1) <= usize::MAX,
                marks_ok(gw, gd, ix, marks@),
                l <= d + 1,
                out.len() == level_start(gw, l as nat),
                forall|l2: nat, j2: int|
                    l2 <= d && 0 <= j2 < pow(w as int, l2) && level_start(gw, l2) + j2 < out.len()
                        ==> slot_views(out@)[level_start(gw, l2) + j2] == #[trigger] batch_slot_of(
                        self@,
                        ix,
                        dv,
                        l2,
                        j2,
                    ),
                l > d ==> forall|j2: int|
                    0 <= j2 < pow(w as int, gd) ==> #[trigger] leaf_agrees(vals, ix, dv, gw, gd, j2),
                forall|l2: nat, j2: int|
                    l2 <= d && 0 <= j2 < pow(w as int, l2) && level_start(gw, l2) + j2 < out.len()
                        && touched(gw, gd, ix, l2, j2) ==> #[trigger] slot_openable(self@, ix, dv, l2, j2),
                forall|l2: nat, j2: int|
                    l2 <= d && 0 <= j2 < pow(w as int, l2) && level_start(gw, l2) + j2 < out.len()
                        && touched(gw, gd, ix, l2, j2) ==> #[trigger] node_accepted(self@, ix, dv, l2, j2),
            decreases d + 1 - l,
        {
            proof {
                crate::layout::lemma_level_start_step(gw, l as nat);
                crate::layout::lemma_level_start_mono(gw, (l + 1) as nat, (d + 1) as nat);
            }
            let count = starts[l + 1] - starts[l];
            let mut j: usize = 0;
            while j < count
                invariant
                    self.wf(),
                    w == self.width,
                    d == self.depth,
                    gw == w,
                    gd == d,
                    vals == self.values@,
                    dv == scalar_values(data@),
                    data.len() == vals.len(),
                    ix == index@,
                    forall|t: int| 0 <= t < ix.len() ==> #[trigger] ix[t] < vals.len(),
                    starts_ok(gw, gd, starts@),
                    num_slots(gw, gd) <= usize::MAX,
                    vals.len() <= pow(w as int, gd + 1),
                    pow(w as int, gd + 1) <= usize::MAX,
                    marks_ok(gw, gd, ix, marks@),
                    l <= d,
                    count == pow(w as int, l as nat),
                    j <= count,
                    out.len() == level_start(gw, l as nat) + j,
                    forall|l2: nat, j2: int|
                        l2 <= d && 0 <= j2 < pow(w as int, l2) && level_start(gw, l2) + j2
                            < out.len() ==> slot_views(out@)[level_start(gw, l2) + j2]
                            == #[trigger] batch_slot_of(self@, ix, dv, l2, j2),
                    l == d ==> forall|j2: int|
                        0 <= j2 < j ==> #[trigger] leaf_agrees(vals, ix, dv, gw, gd, j2),
                    forall|l2: nat, j2: int|
                        l2 <= d && 0 <= j2 < pow(w as int, l2) && level_start(gw, l2) + j2
                            < out.len() && touched(gw, gd, ix, l2, j2) ==> #[trigger] slot_openable(
                            self@,
                            ix,
                            dv,
                            l2,
                            j2,
                        ),
                    forall|l2: nat, j2: int|
                        l2 <= d && 0 <= j2 < pow(w as int, l2) && level_start(gw, l2) + j2
                            < out.len() && touched(gw, gd, ix, l2, j2) ==> #[trigger] node_accepted(
                            self@,
                            ix,
                            dv,
                            l2,
                            j2,
                        ),
                decreases count - j,
            {
                let ghost gl = l as nat;
                proof {
                    lemma_slot_in_range(gw, gd, gl, j as int);
                }
                let k = starts[l] + j;
                let ghost before = out@;
                if !marks[k] {
                    proof {
                        if l == d {
                            lemma_untouched_leaf(vals, ix, dv, gw, gd, j as int);
                        }
                    }
                    out.push(None);
                } else {
                    let positions = opened_positions(w, d, &starts, &index, &marks, l, j);
                    proof {
                        lemma_positions_ascend(gw, gd, ix, gl, j as int, w as int);
                        assert(level_ok(self.levels@[d - l]@, vals, gw, gd, gl));
                        lemma_pow_step(gw, gl);
                        assert(j * w + w <= pow(w as int, gl + 1)) by (nonlinear_arith)
                            requires j < pow(w as int, gl), pow(w as int, gl + 1) == pow(w as int, gl) * w;
                        vstd::arithmetic::power::lemma_pow_increases(gw, gl + 1, gd + 1);
                    }
                    let node = &self.levels[d - l][j];
                    proof {
                        assert(node_ok(self.levels@[d - l]@[j as int], vals, gw, gd, gl, j as int));
                    }
                    let mut points: Vec<(Scalar, Scalar)> = Vec::new();
                    let mut m: usize = 0;
                    while m < positions.len()
                        invariant
                            self.wf(),
                            w == self.width,
                            d == self.depth,
                            gw == w,
                            gd == d,
                            gl == l,
                            l <= d,
                            vals == self.values@,
                            dv == scalar_values(data@),
                            data.len() == vals.len(),
                            forall|t: int| 0 <= t < ix.len() ==> #[trigger] ix[t] < vals.len(),
                            j < pow(w as int, gl),
                            j * w + w <= pow(w as int, gl + 1),
                            pow(w as int, gl + 1) <= usize::MAX,
                            as_ints(positions@) == open_positions(gw, gd, ix, gl, j as int),
                            forall|q: int|
                                0 <= q < w ==> (opens(gw, gd, ix, gl, j as int, q)
                                    <==> open_positions(gw, gd, ix, gl, j as int).contains(q)),
                            forall|s: int|
                                0 <= s < positions.len() ==> 0 <= #[trigger] open_positions(
                                    gw,
                                    gd,
                                    ix,
                                    gl,
                                    j as int,
                                )[s] < w,
                            m <= positions.len(),
                            points.len() == m,
                            forall|s: int|
                                0 <= s < m ==> (#[trigger] point_values(points@)[s]) == (
                                positions@[s] as int,
                                batch_value(self@, dv, gl, j as int, positions@[s] as int),
                            ),
                        decreases positions.len() - m,
                    {
                        let q = positions[m];
                        proof {
                            assert(as_ints(positions@)[m as int] == q);
                            assert(open_positions(gw, gd, ix, gl, j as int).contains(q as int));
                        }
                        let y = if l < d {
                            let below = &self.levels[d - l - 1];
                            proof {
                                assert(level_ok(below@, vals, gw, gd, gl + 1));
                                assert(node_ok(
                                    below@[j * w + q],
                                    vals,
                                    gw,
                                    gd,
                                    gl + 1,
                                    j * w + q,
                                ));
                            }
                            let cm = &below[j * w + q].commitment;
                            proof {
                                use_type_invariant(cm);
                            }
                            commitment_to_field(cm)
                        } else {
                            proof {
                                assert(opens(gw, gd, ix, gl, j as int, q as int));
                                let t = choose|t: int| 0 <= t < ix.len() && #[trigger] ix[t] == j * w + q;
                                assert(ix[t] < vals.len());
                            }
                            data[j * w + q]
                        };
                        assert(y@ == batch_value(self@, dv, gl, j as int, q as int));
                        let ghost before_points = points@;
                        let pos = Scalar::from_u64(q as u64);
                        points.push((pos, y));
                        proof {
                            assert(points@ == before_points.push((pos, y)));
                            assert forall|s: int| 0 <= s < m + 1 implies (#[trigger] point_values(
                                points@,
                            )[s]) == (
                                positions@[s] as int,
                                batch_value(self@, dv, gl, j as int, positions@[s] as int),
                            ) by {
                                if s < m {
                                    assert(points@[s] == before_points[s]);
                                    assert(point_values(points@)[s] == point_values(before_points)[s]);
                                } else {
                                    assert(points@[s] == (pos, y));
                                    assert(positions@[s] == q);
                                }
                            }
                        }
                        m += 1;
                    }
                    let ghost pts = batch_points(self@, ix, dv, gl, j as int);
                    proof {
                        assert(point_values(points@) =~= pts);
                        assert forall|s: int, t: int|
                            0 <= s < pts.len() && 0 <= t < pts.len() && s != t implies pts[s].0
                            != pts[t].0 by {
                            if s < t {
                                assert(open_positions(gw, gd, ix, gl, j as int)[s] < open_positions(gw, gd, ix, gl, j as int)[t]);
                            } else {
                                assert(open_positions(gw, gd, ix, gl, j as int)[t] < open_positions(gw, gd, ix, gl, j as int)[s]);
                            }
                        }
                    }
                    proof {
                        assert(marks@[level_start(gw, gl) + j] == touched(gw, gd, ix, gl, j as int));
                    }
                    if !lagrange_sums_hold(&points, true) {
                        proof {
                            assert(!slot_openable(self@, ix, dv, gl, j as int));
                            assert(!batch_openable(self@, ix, dv));
                        }
                        return Err(VerkleTreeError::ProofGenerateError);
                    }
                    assert(slot_openable(self@, ix, dv, gl, j as int));
                    let opened = open(&self.setup, &node.coefficients, &points);
                    match opened {
                        Ok(proof) => {
                            proof {
                                if l == d {
                                    assert forall|q: int|
                                        0 <= q < w && opens(gw, gd, ix, gd, j as int, q) implies #[trigger] dv[j * w + q] == vals[j * w + q] by {
                                        let s = choose|s: int| 0 <= s < pts.len() && open_positions(gw, gd, ix, gl, j as int)[s] == q;
                                        assert(pts[s] == (q, dv[j * w + q]));
                                        assert(point_values(points@)[s] == pts[s]);
                                        let t = choose|t: int| 0 <= t < ix.len() && #[trigger] ix[t] == j * w + q;
                                        assert(ix[t] < vals.len());
                                        lemma_leaf_value(vals, gw, gd, j as int, q);
                                    }
                                    assert(leaf_agrees(vals, ix, dv, gw, gd, j as int));
                                }
                            }
                            let pn = ProofNode {
                                commitment: node.commitment.duplicate(),
                                proof,
                                point: points,
                            };
                            assert(pn@ == batch_node_of(self@, ix, dv, gl, j as int));
                            assert(node_accepted(self@, ix, dv, gl, j as int));
                            out.push(Some(pn));
                        },
                        Err(_) => {
                            proof {
                                let cs = scalar_values(node.coefficients@);
                                let s = choose|s: int|
                                    0 <= s < points.len() && poly_eval(cs, points@[s].0@)
                                        != points@[s].1@;
                                assert(point_values(points@)[s] == pts[s]);
                                let q = open_positions(gw, gd, ix, gl, j as int)[s];
                                assert(open_positions(gw, gd, ix, gl, j as int).contains(q));
                                assert(opens(gw, gd, ix, gl, j as int, q));
                                if l < d {
                                    assert(node_evals(vals, gw, gd, gl, j as int)[q] == pts[s].1);
                                } else {
                                    let t = choose|t: int| 0 <= t < ix.len() && #[trigger] ix[t] == j * w + q;
                                    assert(ix[t] < vals.len());
                                    lemma_leaf_value(vals, gw, gd, j as int, q);
                                    assert(dv[ix[t] as int] != vals[ix[t] as int]);
                                }
                            }
                            return Err(VerkleTreeError::ProofGenerateError);
                        },
                    }
                }
                proof {
                    assert forall|l2: nat, j2: int|
                        l2 <= d && 0 <= j2 < pow(w as int, l2) && level_start(gw, l2) + j2
                            < out.len() implies slot_views(out@)[level_start(gw, l2) + j2]
                            == #[trigger] batch_slot_of(self@, ix, dv, l2, j2) by {
                        if level_start(gw, l2) + j2 < before.len() {
                            assert(out@[level_start(gw, l2) + j2] == before[level_start(gw, l2) + j2]);
                        } else {
                            if l2 != gl || j2 != j {
                                crate::layout::lemma_slots_distinct(gw, l2, j2, gl, j as int);
                            }
                        }
                    }
                    assert forall|l2: nat, j2: int|
                        l2 <= d && 0 <= j2 < pow(w as int, l2) && level_start(gw, l2) + j2
                            < out.len() && touched(gw, gd, ix, l2, j2) implies #[trigger] node_accepted(self@, ix, dv, l2, j2) by {
                        if level_start(gw, l2) + j2 >= before.len() {
                            if l2 != gl || j2 != j {
                                crate::layout::lemma_slots_distinct(gw, l2, j2, gl, j as int);
                            }
                        }
                    }
                    assert forall|l2: nat, j2: int|
                        l2 <= d && 0 <= j2 < pow(w as int, l2) && level_start(gw, l2) + j2
                            < out.len() && touched(gw, gd, ix, l2, j2) implies #[trigger] slot_openable(self@, ix, dv, l2, j2) by {
                        if level_start(gw, l2) + j2 >= before.len() {
                            if l2 != gl || j2 != j {
                                crate::layout::lemma_slots_distinct(gw, l2, j2, gl, j as int);
                            }
                        }
                    }
                }
                j += 1;
            }
            l += 1;
        }
        proof {
            assert forall|t: int| 0 <= t < ix.len() implies dv[#[trigger] ix[t] as int] == vals[ix[t] as int] by {
                lemma_claim_in_leaf(vals, ix, dv, gw, gd, t);
            }
            assert(slot_views(out@).len() == num_slots(gw, gd));
            assert forall|l2: nat, j2: int|
                l2 <= d && 0 <= j2 < pow(w as int, l2) implies slot_views(out@)[level_start(gw, l2) + j2]
                    == #[trigger] batch_slot_of(self@, ix, dv, l2, j2) by {
                lemma_slot_in_range(gw, gd, l2, j2);
            }
            assert forall|l2: nat, j2: int|
                l2 <= d && 0 <= j2 < pow(w as int, l2) && touched(gw, gd, ix, l2, j2) implies #[trigger] slot_openable(self@, ix, dv, l2, j2) by {
                lemma_slot_in_range(gw, gd, l2, j2);
            }
            // The proof is the one for the tree's own values, and each of its openings is
            // accepted.
            let ps = slot_views(out@);
            assert forall|l2: nat, j2: int| l2 <= d && 0 <= j2 < pow(w as int, l2) implies ps[level_start(gw, l2) + j2]
                == #[trigger] batch_slot_of(self@, ix, vals, l2, j2) by {
                lemma_agreeing_data(self@, ix, dv, l2, j2);
                assert(ps[level_start(gw, l2) + j2] == batch_slot_of(self@, ix, dv, l2, j2));
            }
            assert(is_batch_proof_of(ps, self@, ix, vals));
            assert forall|k: int| 0 <= k < ps.len() implies #[trigger] crate::guarantees::slot_accepted(ps, k) by {
                crate::layout::lemma_slot_cover(gw, gd, k);
                let (l2, j2) = choose|l2: nat, j2: int|
                    l2 <= gd && 0 <= j2 < pow(w as int, l2) && k == #[trigger] crate::layout::slot_of(gw, l2, j2);
                lemma_slot_in_range(gw, gd, l2, j2);
                lemma_agreeing_data(self@, ix, dv, l2, j2);
                assert(ps[k] == batch_slot_of(self@, ix, dv, l2, j2));
                if touched(gw, gd, ix, l2, j2) {
                    assert(slot_openable(self@, ix, dv, l2, j2));
                    assert(node_accepted(self@, ix, dv, l2, j2));
                }
            }
            crate::guarantees::lemma_batch_proof_checks(self@, ix, ps);
        }
        Ok(out)
    }

    /// Whether `tree_proofs` proves that `data[t]` is the value at `indices[t]` for every `t`,
    /// in the tree of arity `width` and depth `depth` whose root commitment is `root`. Every
    /// check of the verifier is required: the root, the layout of present slots, the positions
    /// each slot opens, points the commitment scheme can interpolate, the commitment scheme on
    /// each opening, the link from each opened value to the commitment of the child's slot, and
    /// each claimed value at its leaf.
    pub fn batch_proof_verify(
        root: Commitment,
        tree_proofs: Vec<Option<ProofNode>>,
        width: usize,
        indices: Vec<usize>,
        depth: usize,
        data: Vec<Scalar>,
    ) -> (r: bool)
        requires
            width < usize::MAX,
        ensures
            r == batch_accepted(
                root@,
                slot_views(tree_proofs@),
                width as nat,
                indices@,
                depth as nat,
                scalar_values(data@),
            ),
    {
        let ghost ps = slot_views(tree_proofs@);
        let ghost ix = indices@;
        let ghost dv = scalar_values(data@);
        let ghost gw = width as nat;
        let ghost gd = depth as nat;
        if width < 2 {
            return false;
        }
        let n = match checked_pow_succ(width, depth) {
            Some(v) => v,
            None => {
                return false;
            },
        };
        assert(dv.len() == data.len());
        if data.len() != indices.len() {
            return false;
        }
        let mut t: usize = 0;
        while t < indices.len()
            invariant
                n == pow(width as int, gd + 1),
                ix == indices@,
                gd == depth,
                gw == width,
                t <= indices.len(),
                forall|s: int| 0 <= s < t ==> #[trigger] indices@[s] < n,
            decreases indices.len() - t,
        {
            if indices[t] >= n {
                assert(ix[t as int] >= pow(width as int, gd + 1));
                assert(!indices_in_range(gw, gd, ix));
                return false;
            }
            t += 1;
        }
        assert(indices_in_range(gw, gd, ix));
        assert(ps.len() == tree_proofs.len());
        let starts = match level_starts(width, depth) {
            Some(s) => s,
            None => {
                assert(tree_proofs.len() <= usize::MAX);
                assert(ps.len() != num_slots(gw, gd));
                return false;
            },
        };
        if tree_proofs.len() != starts[starts.len() - 1] {
            return false;
        }
        proof {
            vstd::arithmetic::power::lemma_pow0(width as int);
            lemma_slot_in_range(gw, gd, 0, 0);
            assert(level_start(gw, 0) == 0);
        }
        match &tree_proofs[0] {
            Some(first) => {
                assert(ps[0] == Some(first@));
                if !first.commitment.same_as(&root) {
                    return false;
                }
            },
            None => {
                return false;
            },
        }
        let marks = touched_slots(width, depth, &starts, &indices);
        let setup = new_setup(width + 1);
        let mut l: usize = 0;
        while l <= depth
            invariant
                width >= 2,
                width < usize::MAX,
                gw == width,
                gd == depth,
                ps == slot_views(tree_proofs@),
                ix == indices@,
                setup.degree == width + 1,
                n == pow(width as int, gd + 1),
                n <= usize::MAX,
                indices_in_range(gw, gd, ix),
                starts_ok(gw, gd, starts@),
                num_slots(gw, gd) <= usize::MAX,
                tree_proofs.len() == num_slots(gw, gd),
                marks_ok(gw, gd, ix, marks@),
                starts.len() == depth + 2,
                l <= depth + 1,
                forall|l2: nat, j2: int|
                    l2 <= depth && 0 <= j2 < pow(width as int, l2) && level_start(gw, l2) + j2
                        < level_start(gw, l as nat) ==> #[trigger] batch_slot_ok(ps, gw, gd, ix, l2, j2),
            decreases depth + 1 - l,
        {
            proof {
                crate::layout::lemma_level_start_step(gw, l as nat);
                crate::layout::lemma_level_start_mono(gw, (l + 1) as nat, (depth + 1) as nat);
                assert(starts@.len() == depth + 2);
            }
            let count = starts[l + 1] - starts[l];
            let mut j: usize = 0;
            while j < count
                invariant
                    width >= 2,
                    width < usize::MAX,
                    gw == width,
                    gd == depth,
                    ps == slot_views(tree_proofs@),
                    ix == indices@,
                    setup.degree == width + 1,
                    n == pow(width as int, gd + 1),
                    n <= usize::MAX,
                    indices_in_range(gw, gd, ix),
                    starts_ok(gw, gd, starts@),
                    num_slots(gw, gd) <= usize::MAX,
                    tree_proofs.len() == num_slots(gw, gd),
                    marks_ok(gw, gd, ix, marks@),
                    l <= depth,
                    count == pow(width as int, l as nat),
                    j <= count,
                    forall|l2: nat, j2: int|
                        l2 <= depth && 0 <= j2 < pow(width as int, l2) && level_start(gw, l2) + j2
                            < level_start(gw, l as nat) + j ==> #[trigger] batch_slot_ok(
                            ps,
                            gw,
                            gd,
                            ix,
                            l2,
                            j2,
                        ),
                decreases count - j,
            {
                let ghost gl = l as nat;
                proof {
                    lemma_slot_in_range(gw, gd, gl, j as int);
                }
                let k = starts[l] + j;
                assert(ps[k as int] == match tree_proofs@[k as int] {
                    Some(nd) => Some(nd@),
                    None => None::<ProofNodeView>,
                });
                if tree_proofs[k].is_some() != marks[k] {
                    assert(!batch_slot_ok(ps, gw, gd, ix, gl, j as int));
                    return false;
                }
                if let Some(nd) = &tree_proofs[k] {
                    assert(ps[k as int] == Some(nd@));
                    let positions = opened_positions(width, depth, &starts, &indices, &marks, l, j);
                    proof {
                        lemma_positions_ascend(gw, gd, ix, gl, j as int, width as int);
                        lemma_pow_step(gw, gl);
                        assert(j * width + width <= pow(width as int, gl + 1)) by (nonlinear_arith)
                            requires j < pow(width as int, gl), pow(width as int, gl + 1) == pow(width as int, gl) * width;
                        vstd::arithmetic::power::lemma_pow_increases(gw, gl + 1, gd + 1);
                    }
                    if nd.point.len() != positions.len() {
                        assert(positions_of(nd@.point).len() != open_positions(gw, gd, ix, gl, j as int).len());
                        assert(!batch_slot_ok(ps, gw, gd, ix, gl, j as int));
                        return false;
                    }
                    let mut m: usize = 0;
                    while m < positions.len()
                        invariant
                            ps == slot_views(tree_proofs@),
                            gw == width,
                            gd == depth,
                            gl == l,
                            ix == indices@,
                            gl <= gd,
                            0 <= j < pow(width as int, gl),
                            k == level_start(gw, gl) + j,
                            k < ps.len(),
                            ps[k as int] == Some(nd@),
                            as_ints(positions@) == open_positions(gw, gd, ix, gl, j as int),
                            nd.point.len() == positions.len(),
                            m <= positions.len(),
                            forall|s: int| 0 <= s < m ==> #[trigger] nd.point@[s].0@ == positions@[s],
                        decreases positions.len() - m,
                    {
                        if !nd.point[m].0.same_value(&Scalar::from_u64(positions[m] as u64)) {
                            assert(positions_of(nd@.point)[m as int] == nd.point@[m as int].0@);
                            assert(as_ints(positions@)[m as int] == positions@[m as int]);
                            assert(positions_of(nd@.point)[m as int] != open_positions(gw, gd, ix, gl, j as int)[m as int]);
                            assert(!batch_slot_ok(ps, gw, gd, ix, gl, j as int));
                            return false;
                        }
                        m += 1;
                    }
                    assert forall|s: int| 0 <= s < positions.len() implies positions_of(nd@.point)[s]
                        == open_positions(gw, gd, ix, gl, j as int)[s] by {
                        assert(positions_of(nd@.point)[s] == nd.point@[s].0@);
                        assert(as_ints(positions@)[s] == positions@[s]);
                    }
                    assert(positions_of(nd@.point) =~= open_positions(gw, gd, ix, gl, j as int));
                    if l < depth {
                        proof {
                            crate::layout::lemma_level_start_step(gw, gl + 1);
                            crate::layout::lemma_level_start_mono(gw, gl + 2, gd + 1);
                        }
                        let mut m: usize = 0;
                        while m < positions.len()
                            invariant
                                width >= 2,
                                gw == width,
                                gd == depth,
                                ps == slot_views(tree_proofs@),
                                starts_ok(gw, gd, starts@),
                                tree_proofs.len() == num_slots(gw, gd),
                                l < depth,
                                gl == l,
                                k == level_start(gw, gl) + j,
                                k < ps.len(),
                                ps[k as int] == Some(nd@),
                                ix == indices@,
                                0 <= j < pow(width as int, gl),
                                j * width + width <= pow(width as int, gl + 1),
                                crate::layout::level_start(gw, gl + 1) + pow(width as int, gl + 1) <= num_slots(gw, gd),
                                nd.point.len() == positions.len(),
                                positions_of(nd@.point) == open_positions(gw, gd, ix, gl, j as int),
                                forall|s: int|
                                    0 <= s < positions.len() ==> 0 <= #[trigger] open_positions(
                                        gw,
                                        gd,
                                        ix,
                                        gl,
                                        j as int,
                                    )[s] < width,
                                as_ints(positions@) == open_positions(gw, gd, ix, gl, j as int),
                                m <= positions.len(),
                                forall|s: int|
                                    0 <= s < m ==> (ps[level_start(gw, gl + 1) + j * width + (
                                    #[trigger] nd@.point[s]).0] matches Some(c) && nd@.point[s].1
                                        == field_of_commitment(c.commitment)),
                            decreases positions.len() - m,
                        {
                            proof {
                                crate::layout::lemma_level_start_step(gw, gl + 1);
                                assert(as_ints(positions@)[m as int] == positions@[m as int]);
                                assert(positions_of(nd@.point)[m as int] == nd@.point[m as int].0);
                            }
                            let c = starts[l + 1] + j * width + positions[m];
                            assert(nd@.point[m as int].0 == positions@[m as int] as int);
                            assert(ps[c as int] == match tree_proofs@[c as int] {
                                Some(x) => Some(x@),
                                None => None::<ProofNodeView>,
                            });
                            assert(ps[k as int] == Some(nd@));
                            match &tree_proofs[c] {
                                Some(child) => {
                                    proof {
                                        use_type_invariant(&child.commitment);
                                    }
                                    let e = commitment_to_field(&child.commitment);
                                    if !e.same_value(&nd.point[m].1) {
                                        assert(ps[c as int] == Some(child@));
                                        assert(nd@.point[m as int].1 == nd.point@[m as int].1@);
                                        assert(!batch_slot_ok(ps, gw, gd, ix, gl, j as int));
                                        return false;
                                    }
                                },
                                None => {
                                    assert(ps[c as int] is None);
                                    assert(!batch_slot_ok(ps, gw, gd, ix, gl, j as int));
                                    return false;
                                },
                            }
                            m += 1;
                        }
                    }
                    proof {
                        assert forall|s: int, t: int|
                            0 <= s < nd@.point.len() && 0 <= t < nd@.point.len() && s != t implies nd@.point[s].0
                            != nd@.point[t].0 by {
                            assert(positions_of(nd@.point)[s] == nd@.point[s].0);
                            assert(positions_of(nd@.point)[t] == nd@.point[t].0);
                            if s < t {
                                assert(open_positions(gw, gd, ix, gl, j as int)[s] < open_positions(gw, gd, ix, gl, j as int)[t]);
                            } else {
                                assert(open_positions(gw, gd, ix, gl, j as int)[t] < open_positions(gw, gd, ix, gl, j as int)[s]);
                            }
                        }
                    }
                    if !lagrange_sums_hold(&nd.point, false) {
                        assert(!batch_slot_ok(ps, gw, gd, ix, gl, j as int));
                        return false;
                    }
                    proof {
                        use_type_invariant(&nd.commitment);
                        use_type_invariant(&nd.proof);
                    }
                    if !check_opening(&setup, &nd.commitment, &nd.point, &nd.proof) {
                        assert(!batch_slot_ok(ps, gw, gd, ix, gl, j as int));
                        return false;
                    }
                }
                proof {
                    assert(batch_slot_ok(ps, gw, gd, ix, gl, j as int));
                    assert forall|l2: nat, j2: int|
                        l2 <= depth && 0 <= j2 < pow(width as int, l2) && level_start(gw, l2) + j2
                            < level_start(gw, l as nat) + j + 1 implies #[trigger] batch_slot_ok(
                            ps,
                            gw,
                            gd,
                            ix,
                            l2,
                            j2,
                        ) by {
                        if level_start(gw, l2) + j2 == level_start(gw, l as nat) + j {
                            if l2 != gl || j2 != j {
                                crate::layout::lemma_slots_distinct(gw, l2, j2, gl, j as int);
                            }
                        }
                    }
                }
                j += 1;
            }
            l += 1;
        }
        proof {
            assert forall|l2: nat, j2: int|
                l2 <= depth && 0 <= j2 < pow(width as int, l2) implies #[trigger] batch_slot_ok(
                ps,
                gw,
                gd,
                ix,
                l2,
                j2,
            ) by {
                lemma_slot_in_range(gw, gd, l2, j2);
            }
        }
        // Each claimed value, at its leaf.
        let mut t: usize = 0;
        while t < indices.len()
            invariant
                width >= 2,
                gw == width,
                gd == depth,
                ps == slot_views(tree_proofs@),
                ix == indices@,
                dv == scalar_values(data@),
                data.len() == indices.len(),
                indices_in_range(gw, gd, ix),
                starts_ok(gw, gd, starts@),
                tree_proofs.len() == num_slots(gw, gd),
                t <= indices.len(),
                forall|s: int| 0 <= s < t ==> #[trigger] claim_ok(ps, gw, gd, ix, dv, s),
            decreases indices.len() - t,
        {
            let i = indices[t];
            proof {
                lemma_path_node_bound(gw, gd, gd, i as int);
                vstd::arithmetic::power::lemma_pow1(width as int);
                assert((gd + 1 - gd) as nat == 1);
                lemma_slot_in_range(gw, gd, gd, (i / width) as int);
            }
            let k = starts[depth] + i / width;
            let q = i % width;
            assert(k == level_start(gw, gd) + (ix[t as int] as int) / (width as int));
            assert(ps[k as int] == match tree_proofs@[k as int] {
                Some(x) => Some(x@),
                None => None::<ProofNodeView>,
            });
            if let Some(nd) = &tree_proofs[k] {
                assert(ps[k as int] == Some(nd@));
                let mut m: usize = 0;
                while m < nd.point.len()
                    invariant
                        width >= 2,
                        ps == slot_views(tree_proofs@),
                        ix == indices@,
                        t < ix.len(),
                        gw == width,
                        gd == depth,
                        k < ps.len(),
                        k == level_start(gw, gd) + (ix[t as int] as int) / (width as int),
                        ps[k as int] == Some(nd@),
                        q == (ix[t as int] as int) % (width as int),
                        dv == scalar_values(data@),
                        data.len() == indices.len(),
                        t < indices.len(),
                        m <= nd.point.len(),
                        forall|s: int|
                            0 <= s < m && (#[trigger] nd@.point[s]).0 == q ==> nd@.point[s].1 == dv[t as int],
                    decreases nd.point.len() - m,
                {
                    assert(nd@.point[m as int] == (nd.point@[m as int].0@, nd.point@[m as int].1@));
                    if nd.point[m].0.same_value(&Scalar::from_u64(q as u64)) && !nd.point[m].1.same_value(&data[t]) {
                        assert(ps[k as int] == Some(nd@));
                        assert(k == level_start(gw, gd) + (ix[t as int] as int) / (width as int));
                        assert(nd@.point[m as int].0 == q);
                        assert(nd@.point[m as int].1 != dv[t as int]);
                        assert(ps[level_start(gw, gd) + (ix[t as int] as int) / (gw as int)] == Some(nd@));
                        assert((ix[t as int] as int) % (gw as int) == q);
                        assert(m < nd@.point.len());
                        proof {
                            lemma_claim_refuted(ps, gw, gd, ix, dv, t as int, nd@, m as int);
                        }
                        return false;
                    }
                    m += 1;
                }
            }
            assert(claim_ok(ps, gw, gd, ix, dv, t as int));
            t += 1;
        }
        true
    }

    /// The number of edges from the root to a leaf.
    pub fn depth(&self) -> (r: usize)
        ensures
            r == self@.depth,
    {
        self.depth
    }

    /// The commitment of the root, which every built tree has.
    pub fn root_commitment(&self) -> (r: Option<Commitment>)
        requires
            self.wf(),
        ensures
            r matches Some(c) && c@ == node_commitment(
                self@.values,
                self@.width,
                self@.depth,
                0,
                0,
            ),
    {
        let top = &self.levels[self.depth];
        proof {
            vstd::arithmetic::power::lemma_pow0(self.width as int);
            assert(level_ok(self.levels@[self.depth as int]@, self.values@, self.width as nat, self.depth as nat, 0));
            assert(node_ok(top@[0], self.values@, self.width as nat, self.depth as nat, 0, 0));
        }
        Some(top[0].commitment.duplicate())
    }
}

} // verus!
