//! The transform system: dirty-root discovery, forest construction by
//! depth-first exploration with rotation, and top-down matrix recompute.
//!
//! One tick gathers every entity whose transform or parent relation changed,
//! plus all current descendants of those entities, into a forest of disjoint
//! trees, then rewrites exactly those entities' world matrices: a tree root's
//! world matrix becomes its local matrix (even if the root has a parent
//! outside the forest), and every other node's becomes its tree parent's
//! world matrix times its own local matrix.

use vstd::prelude::*;
use crate::math::{Mat4, mat_in_range, mat_mul, mat_identity, mat_mul_checked};
use crate::transform::{Transform, local_mat, local_fits};
use crate::world::World;

verus! {

broadcast use vstd::seq_lib::group_seq_properties;

/// Why a tick failed. The only failure is a composition that left the
/// representable entry range.
#[derive(Clone, Copy, Debug, PartialEq, Eq, Structural)]
pub enum TickError {
    MatrixOverflow,
}

/// One ephemeral tree node: an entity and the positions of its child nodes
/// in the forest's node arena. Children always sit at lower positions than
/// their parent.
pub struct TreeNode {
    pub entity: usize,
    pub children: Vec<usize>,
}

impl TreeNode {
    pub fn new(entity: usize) -> (n: TreeNode)
        ensures
            n.entity == entity,
            n.children@.len() == 0,
    {
        TreeNode { entity, children: Vec::new() }
    }
}

/// The per-tick forest: an arena of nodes and the positions of the roots.
pub struct Forest {
    pub nodes: Vec<TreeNode>,
    pub roots: Vec<usize>,
}

/// The system itself is stateless; all state lives in the store and in the
/// per-tick forest.
pub struct TransformSystem {}

// ---------------------------------------------------------------------------
// Which entities a tick must recompute, and to what value.
// ---------------------------------------------------------------------------

/// Within `fuel` steps up the parent chain from `e` there is a changed
/// entity (possibly `e` itself).
pub open spec fn has_dirty_ancestor(w: World, e: int, fuel: nat) -> bool
    decreases fuel,
{
    w.dirty(e) || (fuel > 0 && match w.parent_of(e) {
        Some(p) => has_dirty_ancestor(w, p as int, (fuel - 1) as nat),
        None => false,
    })
}

/// The entity must be recomputed this tick: itself changed, or some ancestor
/// along the current parent chain changed.
pub open spec fn in_forest(w: World, e: int) -> bool {
    exists|fuel: nat| has_dirty_ancestor(w, e, fuel)
}

/// The parent chain from `e` reaches an entity without a parent within
/// `fuel` steps.
pub open spec fn parent_terminates(w: World, e: int, fuel: nat) -> bool
    decreases fuel,
{
    match w.parent_of(e) {
        None => true,
        Some(p) => fuel > 0 && parent_terminates(w, p as int, (fuel - 1) as nat),
    }
}

/// The parent graph is a forest: no entity's parent chain cycles.
pub open spec fn acyclic(w: World) -> bool {
    forall|e: int| 0 <= e < w.n() ==> parent_terminates(w, e, w.recs@.len() as nat)
}

/// Following parent links from `a` reaches `b` within `fuel` steps.
pub open spec fn reaches(w: World, a: int, b: int, fuel: nat) -> bool
    decreases fuel,
{
    a == b || (fuel > 0 && match w.parent_of(a) {
        Some(p) => reaches(w, p as int, b, (fuel - 1) as nat),
        None => false,
    })
}

/// Following parent links from `a` eventually reaches `b`.
pub open spec fn reaches_any(w: World, a: int, b: int) -> bool {
    exists|fuel: nat| reaches(w, a, b, fuel)
}

/// The world matrix a tick owes to entity `e`: the composition of local
/// matrices down the chain of ancestors that are themselves in the forest.
/// The chain stops (and the entity acts as a root) as soon as the parent is
/// absent or outside the forest.
pub open spec fn chain_global(w: World, e: int, fuel: nat) -> Seq<int>
    decreases fuel,
{
    match w.parent_of(e) {
        Some(p) => if fuel > 0 && in_forest(w, p as int) {
            mat_mul(chain_global(w, p as int, (fuel - 1) as nat), local_mat(w.recs@[e].transform))
        } else {
            local_mat(w.recs@[e].transform)
        },
        None => local_mat(w.recs@[e].transform),
    }
}

/// The world matrix a tick owes to entity `e` (fuel fixed at the entity
/// count, which suffices for every acyclic chain).
pub open spec fn global_target(w: World, e: int) -> Seq<int> {
    chain_global(w, e, w.recs@.len() as nat)
}

/// Every matrix the tick must produce stays within the entry bound.
pub open spec fn all_fits(w: World) -> bool {
    forall|e: int| 0 <= e < w.n() && in_forest(w, e)
        ==> local_fits((#[trigger] w.recs@[e]).transform) && mat_in_range(global_target(w, e))
}

// ---------------------------------------------------------------------------
// Lemmas about the chain specifications.
// ---------------------------------------------------------------------------

/// A changed entity is in the forest.
pub proof fn lemma_dirty_in_forest(w: World, e: int)
    requires
        w.dirty(e),
    ensures
        in_forest(w, e),
{
    assert(has_dirty_ancestor(w, e, 0));
}

/// A current child of a forest entity is in the forest.
pub proof fn lemma_child_in_forest(w: World, c: int, p: usize)
    requires
        w.parent_of(c) == Some(p),
        in_forest(w, p as int),
    ensures
        in_forest(w, c),
{
    let fuel = choose|fuel: nat| has_dirty_ancestor(w, p as int, fuel);
    assert(has_dirty_ancestor(w, c, fuel + 1));
}

/// Reachability extends one step through the parent of its endpoint.
pub proof fn lemma_reaches_extend(w: World, a: int, b: int, d: usize)
    requires
        reaches_any(w, a, b),
        w.parent_of(b) == Some(d),
    ensures
        reaches_any(w, a, d as int),
{
    let fuel = choose|fuel: nat| reaches(w, a, b, fuel);
    lemma_reaches_extend_fuel(w, a, b, d, fuel);
}

proof fn lemma_reaches_extend_fuel(w: World, a: int, b: int, d: usize, fuel: nat)
    requires
        reaches(w, a, b, fuel),
        w.parent_of(b) == Some(d),
    ensures
        reaches(w, a, d as int, fuel + 1),
    decreases fuel,
{
    if a == b {
        assert(reaches(w, d as int, d as int, fuel));
        assert(reaches(w, a, d as int, fuel + 1));
    } else {
        let p = w.parent_of(a)->Some_0;
        lemma_reaches_extend_fuel(w, p as int, b, d, (fuel - 1) as nat);
        assert(reaches(w, a, d as int, fuel + 1));
    }
}

/// For any entity with no parent relation that was written this tick, the
/// owed world matrix is exactly its local matrix.
pub proof fn lemma_no_parent_equals_local(w: World, e: int)
    requires
        0 <= e < w.n(),
        w.parent_of(e) is None,
        w.dirty(e),
    ensures
        in_forest(w, e),
        global_target(w, e) == local_mat(w.recs@[e].transform),
{
    lemma_dirty_in_forest(w, e);
}

/// The owed matrix of an entity without a parent relation is a function of
/// its own record alone: no change elsewhere in the store can alter it.
pub proof fn lemma_unrelated_roots_independent(w1: World, w2: World, e: int)
    requires
        0 <= e < w1.n(),
        0 <= e < w2.n(),
        w1.recs@[e] == w2.recs@[e],
        w1.parent_of(e) is None,
    ensures
        global_target(w1, e) == global_target(w2, e),
{
    assert(global_target(w1, e) == local_mat(w1.recs@[e].transform));
    assert(global_target(w2, e) == local_mat(w2.recs@[e].transform));
}

proof fn lemma_clean_no_dirty_ancestor(w: World, e: int, fuel: nat)
    requires
        w.wf(),
        forall|x: int| 0 <= x < w.n() ==> !w.dirty(x),
        0 <= e < w.n(),
    ensures
        !has_dirty_ancestor(w, e, fuel),
    decreases fuel,
{
    match w.parent_of(e) {
        Some(p) => {
            if fuel > 0 {
                lemma_clean_no_dirty_ancestor(w, p as int, (fuel - 1) as nat);
            }
        }
        None => {}
    }
}

/// After a completed tick has cleared every change flag, no entity is owed a
/// recomputation: running again recomputes nothing.
pub proof fn lemma_idempotent(w: World, e: int)
    requires
        w.wf(),
        forall|x: int| 0 <= x < w.n() ==> !w.dirty(x),
        0 <= e < w.n(),
    ensures
        !in_forest(w, e),
{
    assert forall|fuel: nat| !has_dirty_ancestor(w, e, fuel) by {
        lemma_clean_no_dirty_ancestor(w, e, fuel);
    }
}

/// Termination of a chain is preserved under more fuel.
proof fn lemma_terminates_mono(w: World, e: int, f1: nat, f2: nat)
    requires
        parent_terminates(w, e, f1),
        f1 <= f2,
    ensures
        parent_terminates(w, e, f2),
    decreases f1,
{
    match w.parent_of(e) {
        None => {}
        Some(p) => {
            lemma_terminates_mono(w, p as int, (f1 - 1) as nat, (f2 - 1) as nat);
        }
    }
}

/// If `a`'s chain terminates and `a` reaches `b`, then `b`'s chain
/// terminates with the same fuel.
proof fn lemma_terminates_reaches(w: World, a: int, b: int, k: nat, f: nat)
    requires
        reaches(w, a, b, k),
        parent_terminates(w, a, f),
    ensures
        parent_terminates(w, b, f),
    decreases k,
{
    if a == b {
    } else {
        let p = w.parent_of(a)->Some_0;
        lemma_terminates_mono(w, p as int, (f - 1) as nat, f);
        lemma_terminates_reaches(w, p as int, b, (k - 1) as nat, f);
    }
}

/// An entity whose parent reaches back to it has a non-terminating chain.
pub proof fn lemma_cycle_no_terminate(w: World, e: int, q: usize, f: nat)
    requires
        w.parent_of(e) == Some(q),
        reaches_any(w, q as int, e),
    ensures
        !parent_terminates(w, e, f),
    decreases f,
{
    if parent_terminates(w, e, f) {
        let k = choose|k: nat| reaches(w, q as int, e, k);
        assert(f > 0 && parent_terminates(w, q as int, (f - 1) as nat));
        lemma_terminates_reaches(w, q as int, e, k, (f - 1) as nat);
        lemma_cycle_no_terminate(w, e, q, (f - 1) as nat);
    }
}

// ---------------------------------------------------------------------------
// Shape of the forest under construction.
// ---------------------------------------------------------------------------

/// Node entities name store entities, and children sit at lower positions
/// than their parent node.
pub open spec fn nodes_ok(w: World, ns: Seq<TreeNode>) -> bool {
    forall|i: int| 0 <= i < ns.len() ==> {
        &&& (#[trigger] ns[i]).entity < w.recs@.len()
        &&& forall|k: int| #![trigger ns[i].children@[k]]
                0 <= k < ns[i].children@.len() ==> (ns[i].children@[k] as int) < i
    }
}

/// Position `c` appears in some node's child list.
pub open spec fn attached(ns: Seq<TreeNode>, c: int) -> bool {
    exists|j: int, k: int| #![trigger ns[j].children@[k]]
        0 <= j < ns.len() && 0 <= k < ns[j].children@.len() && ns[j].children@[k] as int == c
}

/// No position appears in two child slots.
pub open spec fn slot_inj(ns: Seq<TreeNode>) -> bool {
    forall|j1: int, k1: int, j2: int, k2: int|
        #![trigger ns[j1].children@[k1], ns[j2].children@[k2]]
        (0 <= j1 < ns.len() && 0 <= k1 < ns[j1].children@.len()
            && 0 <= j2 < ns.len() && 0 <= k2 < ns[j2].children@.len()
            && ns[j1].children@[k1] == ns[j2].children@[k2])
        ==> (j1 == j2 && k1 == k2)
}

/// No entity has two nodes.
pub open spec fn ent_inj(ns: Seq<TreeNode>) -> bool {
    forall|i1: int, i2: int| #![trigger ns[i1].entity, ns[i2].entity]
        (0 <= i1 < ns.len() && 0 <= i2 < ns.len() && ns[i1].entity == ns[i2].entity)
        ==> i1 == i2
}

/// Some node carries entity `e`.
pub open spec fn has_entity(ns: Seq<TreeNode>, e: int) -> bool {
    exists|i: int| 0 <= i < ns.len() && (#[trigger] ns[i].entity) as int == e
}

/// Every tree edge is a current store edge: a node's child carries an entity
/// whose current parent is the node's entity.
pub open spec fn edges_ok(w: World, ns: Seq<TreeNode>) -> bool {
    forall|j: int, k: int| #![trigger ns[j].children@[k]]
        (0 <= j < ns.len() && 0 <= k < ns[j].children@.len())
        ==> w.parent_of(ns[ns[j].children@[k] as int].entity as int) == Some(ns[j].entity)
}

/// Root positions are valid, unattached, and listed once.
pub open spec fn roots_ok(ns: Seq<TreeNode>, roots: Seq<usize>) -> bool {
    &&& forall|t: int| 0 <= t < roots.len()
            ==> ((#[trigger] roots[t]) as int) < ns.len() && !attached(ns, roots[t] as int)
    &&& forall|t1: int, t2: int| #![trigger roots[t1], roots[t2]]
            0 <= t1 < t2 < roots.len() ==> roots[t1] != roots[t2]
}

/// Every current store child of a node's entity is itself in the arena
/// (attached or a root), unless it is one of the entities in `p` whose
/// exploration is still open.
pub open spec fn closed_to(w: World, ns: Seq<TreeNode>, roots: Seq<usize>, p: Set<int>) -> bool {
    forall|j: int, c: int| #![trigger ns[j].entity, w.recs@[c]]
        (0 <= j < ns.len() && 0 <= c < w.n() && w.parent_of(c) == Some(ns[j].entity))
        ==> (p.contains(c) || exists|i: int| 0 <= i < ns.len()
                && (#[trigger] ns[i].entity) as int == c
                && (attached(ns, i) || roots.contains(i as usize)))
}

/// Every node that is neither attached nor a root belongs to an entity in
/// `p`: between top-level explorations nothing is left dangling.
pub open spec fn pending_tracked(ns: Seq<TreeNode>, roots: Seq<usize>, p: Set<int>) -> bool {
    forall|i: int| (0 <= i < ns.len() && !attached(ns, i) && !roots.contains(i as usize))
        ==> p.contains((#[trigger] ns[i]).entity as int)
}

/// Visited entities are exactly those with a node plus the open set.
pub open spec fn visited_match(w: World, ns: Seq<TreeNode>, visited: Seq<bool>, p: Set<int>) -> bool {
    &&& visited.len() == w.recs@.len()
    &&& forall|x: int| 0 <= x < w.n()
            ==> ((#[trigger] visited[x]) <==> (has_entity(ns, x) || p.contains(x)))
}

/// Every node's entity must be recomputed this tick.
pub open spec fn arena_in_forest(w: World, ns: Seq<TreeNode>) -> bool {
    forall|i: int| 0 <= i < ns.len() ==> in_forest(w, (#[trigger] ns[i]).entity as int)
}

/// The open set holds valid entities that must be recomputed.
pub open spec fn p_ok(w: World, p: Set<int>) -> bool {
    forall|x: int| #[trigger] p.contains(x) ==> 0 <= x < w.n() && in_forest(w, x)
}

/// A root's store parent either has no node, or (only on a cyclic parent
/// graph) is one of the root's own descendants in the store.
pub open spec fn root_parent_ok(w: World, ns: Seq<TreeNode>, roots: Seq<usize>) -> bool {
    forall|t: int| 0 <= t < roots.len() ==> match w.parent_of(ns[(#[trigger] roots[t]) as int].entity as int) {
        Some(q) => has_entity(ns, q as int)
            ==> reaches_any(w, q as int, ns[roots[t] as int].entity as int),
        None => true,
    }
}

/// The construction invariant, over the open set `p`.
pub open spec fn ci(w: World, ns: Seq<TreeNode>, roots: Seq<usize>, visited: Seq<bool>, p: Set<int>) -> bool {
    &&& nodes_ok(w, ns)
    &&& slot_inj(ns)
    &&& ent_inj(ns)
    &&& edges_ok(w, ns)
    &&& roots_ok(ns, roots)
    &&& closed_to(w, ns, roots, p)
    &&& pending_tracked(ns, roots, p)
    &&& visited_match(w, ns, visited, p)
    &&& arena_in_forest(w, ns)
    &&& p_ok(w, p)
    &&& root_parent_ok(w, ns, roots)
}

/// A finished forest: the construction invariant with nothing open.
pub open spec fn forest_built(w: World, ns: Seq<TreeNode>, roots: Seq<usize>) -> bool {
    &&& nodes_ok(w, ns)
    &&& slot_inj(ns)
    &&& ent_inj(ns)
    &&& edges_ok(w, ns)
    &&& roots_ok(ns, roots)
    &&& closed_to(w, ns, roots, Set::empty())
    &&& pending_tracked(ns, roots, Set::empty())
    &&& arena_in_forest(w, ns)
    &&& root_parent_ok(w, ns, roots)
}

// ---------------------------------------------------------------------------
// Termination measure for the exploration.
// ---------------------------------------------------------------------------

/// How many entities are still unvisited.
pub open spec fn count_false(s: Seq<bool>) -> nat
    decreases s.len(),
{
    if s.len() == 0 {
        0
    } else {
        (if s[0] { 0nat } else { 1nat }) + count_false(s.drop_first())
    }
}

proof fn lemma_count_false_le(s1: Seq<bool>, s2: Seq<bool>)
    requires
        s1.len() == s2.len(),
        forall|x: int| 0 <= x < s1.len() && s1[x] ==> s2[x],
    ensures
        count_false(s2) <= count_false(s1),
    decreases s1.len(),
{
    if s1.len() > 0 {
        assert(forall|x: int| 0 <= x < s1.drop_first().len() && s1.drop_first()[x]
            ==> s2.drop_first()[x]);
        lemma_count_false_le(s1.drop_first(), s2.drop_first());
    }
}

proof fn lemma_count_false_set(s: Seq<bool>, i: int)
    requires
        0 <= i < s.len(),
        !s[i],
    ensures
        count_false(s.update(i, true)) < count_false(s),
    decreases s.len(),
{
    if i == 0 {
        assert(s.update(0, true).drop_first() =~= s.drop_first());
    } else {
        assert(s.update(i, true).drop_first() =~= s.drop_first().update(i - 1, true));
        lemma_count_false_set(s.drop_first(), i - 1);
    }
}

/// Once a chain terminates within the given fuel, more fuel does not change
/// the owed matrix.
pub proof fn lemma_chain_fuel(w: World, e: int, f1: nat, f2: nat)
    requires
        parent_terminates(w, e, f1),
        f1 <= f2,
    ensures
        chain_global(w, e, f2) == chain_global(w, e, f1),
    decreases f1,
{
    match w.parent_of(e) {
        None => {}
        Some(p) => {
            if in_forest(w, p as int) {
                lemma_chain_fuel(w, p as int, (f1 - 1) as nat, (f2 - 1) as nat);
            }
        }
    }
}

// ---------------------------------------------------------------------------
// Forest construction.
// ---------------------------------------------------------------------------

/// Position in `roots` of the root node carrying entity `c`, if any.
fn find_root(nodes: &Vec<TreeNode>, roots: &Vec<usize>, c: usize) -> (r: Option<usize>)
    requires
        forall|t: int| 0 <= t < roots@.len() ==> ((#[trigger] roots@[t]) as int) < nodes@.len(),
    ensures
        r matches Some(pos) ==> (pos as int) < roots@.len()
            && nodes@[roots@[pos as int] as int].entity == c,
        r is None ==> forall|t: int| 0 <= t < roots@.len()
            ==> nodes@[(#[trigger] roots@[t]) as int].entity != c,
{
    let mut t: usize = 0;
    while t < roots.len()
        invariant
            t <= roots@.len(),
            forall|u: int| 0 <= u < roots@.len() ==> ((#[trigger] roots@[u]) as int) < nodes@.len(),
            forall|u: int| 0 <= u < t ==> nodes@[(#[trigger] roots@[u]) as int].entity != c,
        decreases roots@.len() - t,
    {
        if nodes[roots[t]].entity == c {
            return Some(t);
        }
        t += 1;
    }
    None
}


// ---------------------------------------------------------------------------
// State-transition lemmas for the exploration.
// ---------------------------------------------------------------------------

/// Marking a fresh child open preserves the construction invariant.
proof fn lemma_mark_child(w: World, ns: Seq<TreeNode>, roots: Seq<usize>, v0: Seq<bool>, v1: Seq<bool>, p0: Set<int>, p1: Set<int>, c: usize, e: usize)
    requires
        w.wf(),
        w.recs@.len() <= usize::MAX as int,
        ci(w, ns, roots, v0, p0),
        c < w.recs@.len(),
        e < w.recs@.len(),
        !v0[c as int],
        v1 == v0.update(c as int, true),
        p1 == p0.insert(c as int),
        w.parent_of(c as int) == Some(e),
        p0.contains(e as int),
    ensures
        ci(w, ns, roots, v1, p1),
        !has_entity(ns, c as int),
    decreases 0nat,
{
    lemma_child_in_forest(w, c as int, e);
    assert forall|j: int, c2: int| #![trigger ns[j].entity, w.recs@[c2]]
        (0 <= j < ns.len() && 0 <= c2 < w.n() && w.parent_of(c2) == Some(ns[j].entity))
        implies (p1.contains(c2) || exists|i: int| 0 <= i < ns.len()
            && (#[trigger] ns[i].entity) as int == c2
            && (attached(ns, i) || roots.contains(i as usize))) by {
        assert(p0.contains(c2) || exists|i: int| 0 <= i < ns.len()
            && (#[trigger] ns[i].entity) as int == c2
            && (attached(ns, i) || roots.contains(i as usize)));
    }
    assert forall|x: int| 0 <= x < w.n()
        implies ((#[trigger] v1[x]) <==> (has_entity(ns, x) || p1.contains(x))) by {
        if x != c as int {
            assert(v1[x] == v0[x]);
        }
    }
}

/// Rotating a tree out of the root list and into the open set preserves the
/// construction invariant.
#[verifier::rlimit(100)]
proof fn lemma_splice(w: World, ns: Seq<TreeNode>, r0: Seq<usize>, r1: Seq<usize>, visited: Seq<bool>, p0: Set<int>, p1: Set<int>, pos: int, ridx: usize, c: usize, e: usize)
    requires
        w.wf(),
        w.recs@.len() <= usize::MAX as int,
        ns.len() <= usize::MAX as int,
        ci(w, ns, r0, visited, p0),
        0 <= pos < r0.len(),
        r0[pos] == ridx,
        r1 == r0.remove(pos),
        ns[ridx as int].entity == c,
        c < w.recs@.len(),
        e < w.recs@.len(),
        w.parent_of(c as int) == Some(e),
        p0.contains(e as int),
        p1 == p0.insert(c as int),
    ensures
        ci(w, ns, r1, visited, p1),
        forall|r: usize| #[trigger] r1.contains(r) ==> r0.contains(r),
        !r1.contains(ridx),
    decreases 0nat,
{
    lemma_child_in_forest(w, c as int, e);
    assert forall|v: int| 0 <= v < r1.len() implies r0.contains(#[trigger] r1[v]) by {
        if v < pos {
            assert(r1[v] == r0[v]);
        } else {
            assert(r1[v] == r0[v + 1]);
        }
    }
    assert forall|v1: int, v2: int| #![trigger r1[v1], r1[v2]]
        0 <= v1 < v2 < r1.len() implies r1[v1] != r1[v2] by {
        if v1 < pos { assert(r1[v1] == r0[v1]); } else { assert(r1[v1] == r0[v1 + 1]); }
        if v2 < pos { assert(r1[v2] == r0[v2]); } else { assert(r1[v2] == r0[v2 + 1]); }
    }
    if r1.contains(ridx) {
        let v = choose|v: int| 0 <= v < r1.len() && r1[v] == ridx;
        if v < pos {
            assert(r0[v] == ridx && r0[pos] == ridx);
        } else {
            assert(r0[v + 1] == ridx && r0[pos] == ridx);
        }
        assert(false);
    }
    // Closedness: escapes through the removed root go through the open set.
    assert forall|j: int, c2: int| #![trigger ns[j].entity, w.recs@[c2]]
        (0 <= j < ns.len() && 0 <= c2 < w.n() && w.parent_of(c2) == Some(ns[j].entity))
        implies (p1.contains(c2) || exists|i: int| 0 <= i < ns.len()
            && (#[trigger] ns[i].entity) as int == c2
            && (attached(ns, i) || r1.contains(i as usize))) by {
        if !p1.contains(c2) {
            let i = choose|i: int| 0 <= i < ns.len()
                && (#[trigger] ns[i].entity) as int == c2
                && (attached(ns, i) || r0.contains(i as usize));
            if !attached(ns, i) {
                assert(r0.contains(i as usize));
                if i == ridx as int {
                    assert(p1.contains(c2));
                    assert(false);
                } else {
                    let v = choose|v: int| 0 <= v < r0.len() && r0[v] == i as usize;
                    assert(v != pos);
                    if v < pos {
                        assert(r1[v] == i as usize);
                    } else {
                        assert(r1[v - 1] == i as usize);
                    }
                    assert(r1.contains(i as usize));
                }
            }
        }
    }
    // Pending: the rotated root is now tracked by the open set.
    assert forall|i: int| (0 <= i < ns.len() && !attached(ns, i) && !r1.contains(i as usize))
        implies p1.contains((#[trigger] ns[i]).entity as int) by {
        if i != ridx as int {
            if r0.contains(i as usize) {
                let v = choose|v: int| 0 <= v < r0.len() && r0[v] == i as usize;
                assert(v != pos);
                if v < pos { assert(r1[v] == i as usize); } else { assert(r1[v - 1] == i as usize); }
                assert(false);
            }
        }
    }
    assert forall|x: int| 0 <= x < w.n()
        implies ((#[trigger] visited[x]) <==> (has_entity(ns, x) || p1.contains(x))) by {
        if x == c as int {
            assert(has_entity(ns, x));
        }
    }
    assert forall|t: int| 0 <= t < r1.len()
        implies match w.parent_of(ns[(#[trigger] r1[t]) as int].entity as int) {
            Some(q) => has_entity(ns, q as int)
                ==> reaches_any(w, q as int, ns[r1[t] as int].entity as int),
            None => true,
        } by {
        if t < pos { assert(r1[t] == r0[t]); } else { assert(r1[t] == r0[t + 1]); }
    }
}

/// Pushing the finished node restores the construction invariant for the
/// caller's open set.
#[verifier::rlimit(100)]
proof fn lemma_push_node(w: World, nsp: Seq<TreeNode>, ns1: Seq<TreeNode>, roots: Seq<usize>, visited: Seq<bool>, path: Set<int>, pcur: Set<int>, mc: Seq<usize>, children: Seq<usize>, e: usize, idx: usize)
    requires
        w.wf(),
        w.recs@.len() <= usize::MAX as int,
        nsp.len() <= usize::MAX as int,
        e < w.recs@.len(),
        ci(w, nsp, roots, visited, pcur),
        path.subset_of(pcur),
        path.contains(e as int),
        visited[e as int],
        !has_entity(nsp, e as int),
        forall|x: int| #[trigger] pcur.contains(x) ==> path.contains(x)
            || exists|u: int| 0 <= u < mc.len()
                && nsp[(#[trigger] mc[u]) as int].entity as int == x,
        forall|u: int| 0 <= u < mc.len() ==> ((#[trigger] mc[u]) as int) < nsp.len()
            && !attached(nsp, mc[u] as int)
            && !roots.contains(mc[u])
            && w.parent_of(nsp[mc[u] as int].entity as int) == Some(e)
            && pcur.contains(nsp[mc[u] as int].entity as int),
        forall|u1: int, u2: int| #![trigger mc[u1], mc[u2]]
            0 <= u1 < u2 < mc.len() ==> mc[u1] != mc[u2],
        forall|u: int| 0 <= u < children.len() ==> path.contains((#[trigger] children[u]) as int)
            || exists|i: int| 0 <= i < nsp.len()
                && (#[trigger] nsp[i].entity) == children[u]
                && (attached(nsp, i) || roots.contains(i as usize) || mc.contains(i as usize)),
        forall|u: int, v: int| #![trigger children[u], roots[v]]
            0 <= u < children.len() && 0 <= v < roots.len()
            ==> nsp[roots[v] as int].entity != children[u],
        forall|x: int| 0 <= x < w.n() && w.parent_of(x) == Some(e)
            ==> children.contains(x as usize),
        ns1.len() == nsp.len() + 1,
        forall|i: int| 0 <= i < nsp.len() ==> ns1[i] == nsp[i],
        idx as int == nsp.len() as int,
        ns1[idx as int].entity == e,
        ns1[idx as int].children@ == mc,
        in_forest(w, e as int),
    ensures
        ci(w, ns1, roots, visited, path),
        !attached(ns1, idx as int),
        !roots.contains(idx),
        forall|c2: int| attached(nsp, c2) ==> attached(ns1, c2),
        forall|u: int| 0 <= u < mc.len() ==> attached(ns1, (#[trigger] mc[u]) as int),
    decreases 0nat,
{
    assert forall|c2: int| attached(nsp, c2) implies attached(ns1, c2) by {
        let (j, k) = choose|j: int, k: int| #![trigger nsp[j].children@[k]]
            0 <= j < nsp.len() && 0 <= k < nsp[j].children@.len()
            && nsp[j].children@[k] as int == c2;
        assert(ns1[j].children@[k] as int == c2);
    }
    assert forall|u: int| 0 <= u < mc.len() implies attached(ns1, (#[trigger] mc[u]) as int) by {
        assert(ns1[idx as int].children@[u] == mc[u]);
    }
    assert forall|c2: int| attached(ns1, c2)
        implies attached(nsp, c2) || mc.contains(c2 as usize) by {
        let (j, k) = choose|j: int, k: int| #![trigger ns1[j].children@[k]]
            0 <= j < ns1.len() && 0 <= k < ns1[j].children@.len()
            && ns1[j].children@[k] as int == c2;
        if j < nsp.len() {
            assert(nsp[j].children@[k] as int == c2);
        } else {
            assert(mc[k] as int == c2);
        }
    }
    assert forall|j1: int, k1: int, j2: int, k2: int|
        #![trigger ns1[j1].children@[k1], ns1[j2].children@[k2]]
        (0 <= j1 < ns1.len() && 0 <= k1 < ns1[j1].children@.len()
            && 0 <= j2 < ns1.len() && 0 <= k2 < ns1[j2].children@.len()
            && ns1[j1].children@[k1] == ns1[j2].children@[k2])
        implies (j1 == j2 && k1 == k2) by {
        if j1 < nsp.len() && j2 < nsp.len() {
            assert(nsp[j1].children@[k1] == ns1[j1].children@[k1]);
            assert(nsp[j2].children@[k2] == ns1[j2].children@[k2]);
        } else if j1 == idx as int && j2 < nsp.len() {
            assert(ns1[j1].children@[k1] == mc[k1]);
            assert(nsp[j2].children@[k2] == ns1[j2].children@[k2]);
            assert(attached(nsp, nsp[j2].children@[k2] as int));
            assert(!attached(nsp, mc[k1] as int));
            assert(false);
        } else if j2 == idx as int && j1 < nsp.len() {
            assert(ns1[j2].children@[k2] == mc[k2]);
            assert(nsp[j1].children@[k1] == ns1[j1].children@[k1]);
            assert(attached(nsp, nsp[j1].children@[k1] as int));
            assert(!attached(nsp, mc[k2] as int));
            assert(false);
        }
    }
    assert forall|j: int, k: int| #![trigger ns1[j].children@[k]]
        (0 <= j < ns1.len() && 0 <= k < ns1[j].children@.len())
        implies ns1[j].children@[k] != idx by {
        if j < nsp.len() {
            assert((nsp[j].children@[k] as int) < j);
        } else {
            assert((mc[k] as int) < idx as int);
        }
    }
    assert(!attached(ns1, idx as int));
    if roots.contains(idx) {
        let v = choose|v: int| 0 <= v < roots.len() && roots[v] == idx;
        assert((roots[v] as int) < nsp.len());
        assert(false);
    }
    assert(ent_inj(ns1)) by {
        assert forall|i1: int, i2: int| #![trigger ns1[i1].entity, ns1[i2].entity]
            (0 <= i1 < ns1.len() && 0 <= i2 < ns1.len() && ns1[i1].entity == ns1[i2].entity)
            implies i1 == i2 by {
            if i1 < nsp.len() && i2 < nsp.len() {
                assert(nsp[i1].entity == nsp[i2].entity);
            } else if i1 == idx as int && i2 < nsp.len() {
                assert(has_entity(nsp, e as int));
            } else if i2 == idx as int && i1 < nsp.len() {
                assert(has_entity(nsp, e as int));
            }
        }
    }
    assert(nodes_ok(w, ns1)) by {
        assert forall|i: int| 0 <= i < ns1.len() implies {
            &&& (#[trigger] ns1[i]).entity < w.recs@.len()
            &&& forall|k: int| #![trigger ns1[i].children@[k]]
                    0 <= k < ns1[i].children@.len() ==> (ns1[i].children@[k] as int) < i
        } by {
            if i < nsp.len() {
                assert(ns1[i] == nsp[i]);
            }
        }
    }
    assert(edges_ok(w, ns1)) by {
        assert forall|j: int, k: int| #![trigger ns1[j].children@[k]]
            (0 <= j < ns1.len() && 0 <= k < ns1[j].children@.len())
            implies w.parent_of(ns1[ns1[j].children@[k] as int].entity as int)
                == Some(ns1[j].entity) by {
            if j < nsp.len() {
                assert(ns1[j] == nsp[j]);
                assert((nsp[j].children@[k] as int) < j);
            } else {
                assert(ns1[j].children@[k] == mc[k]);
                assert((mc[k] as int) < nsp.len());
            }
        }
    }
    assert(roots_ok(ns1, roots)) by {
        assert forall|t: int| 0 <= t < roots.len()
            implies ((#[trigger] roots[t]) as int) < ns1.len() && !attached(ns1, roots[t] as int) by {
            if attached(ns1, roots[t] as int) {
                assert(attached(nsp, roots[t] as int) || mc.contains(roots[t]));
                if mc.contains(roots[t]) {
                    let u = choose|u: int| 0 <= u < mc.len() && mc[u] == roots[t];
                    assert(!roots.contains(mc[u]));
                    assert(false);
                }
            }
        }
    }
    assert(closed_to(w, ns1, roots, path)) by {
        assert forall|j: int, c2: int| #![trigger ns1[j].entity, w.recs@[c2]]
            (0 <= j < ns1.len() && 0 <= c2 < w.n() && w.parent_of(c2) == Some(ns1[j].entity))
            implies (path.contains(c2) || exists|i: int| 0 <= i < ns1.len()
                && (#[trigger] ns1[i].entity) as int == c2
                && (attached(ns1, i) || roots.contains(i as usize))) by {
            if j == idx as int {
                if !path.contains(c2) {
                    assert(children.contains(c2 as usize));
                    let u = choose|u: int| 0 <= u < children.len() && children[u] == c2 as usize;
                    let i = choose|i: int| 0 <= i < nsp.len()
                        && (#[trigger] nsp[i].entity) == children[u]
                        && (attached(nsp, i) || roots.contains(i as usize) || mc.contains(i as usize));
                    assert(ns1[i].entity as int == c2);
                    if mc.contains(i as usize) {
                        let u2 = choose|u2: int| 0 <= u2 < mc.len() && mc[u2] == i as usize;
                        assert(attached(ns1, (mc[u2]) as int));
                    }
                    if attached(nsp, i) {
                        assert(attached(ns1, i));
                    }
                }
            } else {
                assert(ns1[j] == nsp[j]);
                if !pcur.contains(c2) {
                    let i = choose|i: int| 0 <= i < nsp.len()
                        && (#[trigger] nsp[i].entity) as int == c2
                        && (attached(nsp, i) || roots.contains(i as usize));
                    assert(ns1[i].entity as int == c2);
                    if attached(nsp, i) {
                        assert(attached(ns1, i));
                    }
                } else if !path.contains(c2) {
                    let u = choose|u: int| 0 <= u < mc.len()
                        && nsp[(#[trigger] mc[u]) as int].entity as int == c2;
                    assert(attached(ns1, mc[u] as int));
                    assert(ns1[mc[u] as int].entity as int == c2);
                }
            }
        }
    }
    assert(pending_tracked(ns1, roots, path)) by {
        assert forall|i: int| (0 <= i < ns1.len() && !attached(ns1, i) && !roots.contains(i as usize))
            implies path.contains((#[trigger] ns1[i]).entity as int) by {
            if i < nsp.len() {
                assert(!attached(nsp, i));
                assert(pcur.contains(nsp[i].entity as int));
                if !path.contains(nsp[i].entity as int) {
                    let u = choose|u: int| 0 <= u < mc.len()
                        && nsp[(#[trigger] mc[u]) as int].entity as int == nsp[i].entity as int;
                    assert((mc[u] as int) < nsp.len());
                    assert(nsp[mc[u] as int].entity == nsp[i].entity);
                    assert(mc[u] as int == i);
                    assert(attached(ns1, i));
                    assert(false);
                }
            }
        }
    }
    assert(visited_match(w, ns1, visited, path)) by {
        assert forall|x: int| 0 <= x < w.n()
            implies ((#[trigger] visited[x]) <==> (has_entity(ns1, x) || path.contains(x))) by {
            if visited[x] {
                if !has_entity(nsp, x) && !path.contains(x) {
                    assert(pcur.contains(x));
                    let u = choose|u: int| 0 <= u < mc.len()
                        && nsp[(#[trigger] mc[u]) as int].entity as int == x;
                    assert(has_entity(nsp, x));
                    assert(false);
                }
                if has_entity(nsp, x) {
                    let i = choose|i: int| 0 <= i < nsp.len()
                        && (#[trigger] nsp[i].entity) as int == x;
                    assert(ns1[i].entity as int == x);
                    assert(has_entity(ns1, x));
                }
            } else {
                assert(!has_entity(nsp, x) && !pcur.contains(x));
                if has_entity(ns1, x) {
                    let i = choose|i: int| 0 <= i < ns1.len()
                        && (#[trigger] ns1[i].entity) as int == x;
                    if i < nsp.len() {
                        assert(has_entity(nsp, x));
                        assert(false);
                    } else {
                        assert(x == e as int);
                        assert(visited[e as int]);
                        assert(false);
                    }
                }
            }
        }
    }
    assert(arena_in_forest(w, ns1)) by {
        assert forall|i: int| 0 <= i < ns1.len()
            implies in_forest(w, (#[trigger] ns1[i]).entity as int) by {
            if i < nsp.len() {
                assert(ns1[i] == nsp[i]);
                assert(in_forest(w, nsp[i].entity as int));
            }
        }
    }
    assert(root_parent_ok(w, ns1, roots)) by {
        assert forall|t: int| 0 <= t < roots.len()
            implies match w.parent_of(ns1[(#[trigger] roots[t]) as int].entity as int) {
                Some(q) => has_entity(ns1, q as int)
                    ==> reaches_any(w, q as int, ns1[roots[t] as int].entity as int),
                None => true,
            } by {
            let rv = roots[t] as int;
            assert(ns1[rv] == nsp[rv]);
            match w.parent_of(nsp[rv].entity as int) {
                Some(q) => {
                    if has_entity(ns1, q as int) {
                        let i = choose|i: int| 0 <= i < ns1.len()
                            && (#[trigger] ns1[i].entity) as int == q as int;
                        if i == idx as int {
                            assert(w.parent_of(nsp[rv].entity as int) == Some(e));
                            assert(children.contains(nsp[rv].entity));
                            let u = choose|u: int| 0 <= u < children.len()
                                && children[u] == nsp[rv].entity;
                            assert(nsp[roots[t] as int].entity != children[u]);
                            assert(false);
                        } else {
                            assert(ns1[i] == nsp[i]);
                            assert(has_entity(nsp, q as int));
                        }
                    }
                }
                None => {}
            }
        }
    }
    assert(ci(w, ns1, roots, visited, path));
}

/// Listing the finished tree as a root closes the construction step: nothing
/// remains open.
#[verifier::rlimit(100)]
proof fn lemma_finish_root(w: World, pre_nodes: Seq<TreeNode>, pre_roots: Seq<usize>, ns: Seq<TreeNode>, rpre: Seq<usize>, rts: Seq<usize>, visited: Seq<bool>, p: Set<int>, e: usize, idx: usize)
    requires
        w.wf(),
        w.recs@.len() <= usize::MAX as int,
        ns.len() <= usize::MAX as int + 1,
        e < w.recs@.len(),
        p == Set::empty().insert(e as int),
        ci(w, ns, rpre, visited, p),
        rts == rpre.push(idx),
        idx as int == ns.len() - 1,
        ns[idx as int].entity == e,
        !attached(ns, idx as int),
        !rpre.contains(idx),
        pre_nodes.len() <= ns.len(),
        forall|i: int| 0 <= i < pre_nodes.len() ==> ns[i] == pre_nodes[i],
        forall|i: int| pre_nodes.len() <= i < ns.len()
            ==> reaches_any(w, (#[trigger] ns[i]).entity as int, e as int),
        !has_entity(pre_nodes, e as int),
        closed_to(w, pre_nodes, pre_roots, Set::empty()),
        forall|r: usize| #[trigger] rpre.contains(r) ==> pre_roots.contains(r),
    ensures
        ci(w, ns, rts, visited, Set::empty()),
    decreases 0nat,
{
    assert(forall|v: int| 0 <= v < rpre.len() ==> rts[v] == rpre[v]);
    assert(rts[rts.len() - 1] == idx);
    assert forall|t1: int, t2: int| #![trigger rts[t1], rts[t2]]
        0 <= t1 < t2 < rts.len() implies rts[t1] != rts[t2] by {
        if t2 == rts.len() - 1 {
            assert(rts[t1] == rpre[t1]);
            assert(rpre.contains(rpre[t1]));
        }
    }
    assert(roots_ok(ns, rts)) by {
        assert forall|t: int| 0 <= t < rts.len()
            implies ((#[trigger] rts[t]) as int) < ns.len() && !attached(ns, rts[t] as int) by {
            if t < rts.len() - 1 {
                assert(rts[t] == rpre[t]);
            }
        }
    }
    assert(pending_tracked(ns, rts, Set::empty())) by {
        assert forall|i: int| (0 <= i < ns.len() && !attached(ns, i) && !rts.contains(i as usize))
            implies Set::empty().contains((#[trigger] ns[i]).entity as int) by {
            if rpre.contains(i as usize) {
                let v = choose|v: int| 0 <= v < rpre.len() && rpre[v] == i as usize;
                assert(rts[v] == i as usize);
                assert(false);
            }
            assert(p.contains(ns[i].entity as int));
            assert(ns[i].entity == e);
            assert(ns[idx as int].entity == e);
            assert(i == idx as int);
            assert(rts[rts.len() - 1] == idx);
            assert(rts.contains(idx));
            assert(false);
        }
    }
    assert(visited_match(w, ns, visited, Set::empty())) by {
        assert forall|x: int| 0 <= x < w.n()
            implies ((#[trigger] visited[x]) <==> (has_entity(ns, x) || Set::empty().contains(x))) by {
            if visited[x] && !has_entity(ns, x) {
                assert(p.contains(x));
                assert(x == e as int);
                assert(ns[idx as int].entity as int == x);
                assert(has_entity(ns, x));
            }
        }
    }
    assert(closed_to(w, ns, rts, Set::empty())) by {
        assert forall|j: int, c2: int| #![trigger ns[j].entity, w.recs@[c2]]
            (0 <= j < ns.len() && 0 <= c2 < w.n() && w.parent_of(c2) == Some(ns[j].entity))
            implies (Set::empty().contains(c2) || exists|i: int| 0 <= i < ns.len()
                && (#[trigger] ns[i].entity) as int == c2
                && (attached(ns, i) || rts.contains(i as usize))) by {
            if p.contains(c2) {
                assert(c2 == e as int);
                assert(ns[idx as int].entity as int == c2);
                assert(rts.contains(idx));
            } else {
                let i = choose|i: int| 0 <= i < ns.len()
                    && (#[trigger] ns[i].entity) as int == c2
                    && (attached(ns, i) || rpre.contains(i as usize));
                if !attached(ns, i) {
                    let v = choose|v: int| 0 <= v < rpre.len() && rpre[v] == i as usize;
                    assert(rts[v] == i as usize);
                    assert(rts.contains(i as usize));
                }
            }
        }
    }
    assert(root_parent_ok(w, ns, rts)) by {
        assert forall|v: int| 0 <= v < rts.len()
            implies match w.parent_of(ns[(#[trigger] rts[v]) as int].entity as int) {
                Some(q) => has_entity(ns, q as int)
                    ==> reaches_any(w, q as int, ns[rts[v] as int].entity as int),
                None => true,
            } by {
            if v < rts.len() - 1 {
                assert(rts[v] == rpre[v]);
                assert(rpre.contains(rpre[v]));
            } else {
                assert(rts[v] == idx);
                match w.parent_of(e as int) {
                    Some(q) => {
                        if has_entity(ns, q as int) {
                            let i = choose|i: int| 0 <= i < ns.len()
                                && (#[trigger] ns[i].entity) as int == q as int;
                            if i < pre_nodes.len() {
                                assert(pre_nodes[i].entity as int == q as int);
                                assert(w.parent_of(e as int) == Some(pre_nodes[i].entity));
                                assert(has_entity(pre_nodes, e as int));
                                assert(false);
                            } else {
                                assert(reaches_any(w, ns[i].entity as int, e as int));
                            }
                        }
                    }
                    None => {}
                }
            }
        }
    }
    assert(ci(w, ns, rts, visited, Set::empty()));
}

// ---------------------------------------------------------------------------
// From the finished forest back to the declarative specification.
// ---------------------------------------------------------------------------

proof fn lemma_forest_complete_fuel(w: World, ns: Seq<TreeNode>, roots: Seq<usize>, e: int, fuel: nat)
    requires
        w.wf(),
        closed_to(w, ns, roots, Set::empty()),
        forall|x: int| 0 <= x < w.n() && w.dirty(x) ==> has_entity(ns, x),
        0 <= e < w.n(),
        has_dirty_ancestor(w, e, fuel),
    ensures
        has_entity(ns, e),
    decreases fuel,
{
    if w.dirty(e) {
    } else {
        let p = w.parent_of(e)->Some_0;
        lemma_forest_complete_fuel(w, ns, roots, p as int, (fuel - 1) as nat);
        let j = choose|j: int| 0 <= j < ns.len() && ((#[trigger] ns[j].entity) as int) == p as int;
        assert(w.parent_of(e) == Some(ns[j].entity));
        assert(Set::empty().contains(e) || exists|i: int| 0 <= i < ns.len()
            && ((#[trigger] ns[i].entity) as int) == e
            && (attached(ns, i) || roots.contains(i as usize)));
    }
}

/// A finished forest that holds every changed entity holds exactly the
/// entities owed a recomputation: the forest is determined by the store
/// snapshot, whatever order the candidates were offered in.
pub proof fn lemma_forest_complete(w: World, ns: Seq<TreeNode>, roots: Seq<usize>)
    requires
        w.wf(),
        forest_built(w, ns, roots),
        forall|x: int| 0 <= x < w.n() && w.dirty(x) ==> has_entity(ns, x),
    ensures
        forall|e: int| 0 <= e < w.n() ==> (in_forest(w, e) <==> has_entity(ns, e)),
{
    assert forall|e: int| 0 <= e < w.n()
        implies (in_forest(w, e) <==> has_entity(ns, e)) by {
        if in_forest(w, e) {
            let fuel = choose|fuel: nat| has_dirty_ancestor(w, e, fuel);
            lemma_forest_complete_fuel(w, ns, roots, e, fuel);
        }
        if has_entity(ns, e) {
            let i = choose|i: int| 0 <= i < ns.len() && ((#[trigger] ns[i].entity) as int) == e;
            assert(in_forest(w, ns[i].entity as int));
        }
    }
}

/// A listed root of a finished, complete forest on an acyclic store is owed
/// its local matrix: its parent, if any, is outside the forest.
proof fn lemma_root_target_local(w: World, ns: Seq<TreeNode>, roots: Seq<usize>, i: int)
    requires
        w.wf(),
        ns.len() <= usize::MAX as int,
        forest_built(w, ns, roots),
        forall|x: int| 0 <= x < w.n() && w.dirty(x) ==> has_entity(ns, x),
        acyclic(w),
        0 <= i < ns.len(),
        roots.contains(i as usize),
    ensures
        global_target(w, ns[i].entity as int) == local_mat(w.recs@[ns[i].entity as int].transform),
{
    let e = ns[i].entity as int;
    match w.parent_of(e) {
        None => {}
        Some(q) => {
            if in_forest(w, q as int) {
                let fuel = choose|fuel: nat| has_dirty_ancestor(w, q as int, fuel);
                lemma_forest_complete_fuel(w, ns, roots, q as int, fuel);
                let t = choose|t: int| 0 <= t < roots.len() && roots[t] == i as usize;
                assert((roots[t] as int) == i);
                assert(has_entity(ns, q as int));
                assert(w.parent_of(ns[roots[t] as int].entity as int) == Some(q));
                assert(reaches_any(w, q as int, ns[roots[t] as int].entity as int));
                lemma_cycle_no_terminate(w, e, q, w.recs@.len() as nat);
                assert(parent_terminates(w, e, w.recs@.len() as nat));
                assert(false);
            }
        }
    }
}

/// A node attached under another node of a finished forest on an acyclic
/// store is owed its tree parent's matrix times its own local matrix.
proof fn lemma_child_target(w: World, ns: Seq<TreeNode>, i: int, j: int)
    requires
        w.wf(),
        nodes_ok(w, ns),
        edges_ok(w, ns),
        arena_in_forest(w, ns),
        acyclic(w),
        0 <= i < ns.len(),
        0 <= j < ns.len(),
        exists|k: int| 0 <= k < ns[j].children@.len() && ((#[trigger] ns[j].children@[k]) as int) == i,
    ensures
        global_target(w, ns[i].entity as int)
            == mat_mul(global_target(w, ns[j].entity as int),
                local_mat(w.recs@[ns[i].entity as int].transform)),
{
    let e = ns[i].entity as int;
    let q = ns[j].entity;
    let k = choose|k: int| 0 <= k < ns[j].children@.len() && ((#[trigger] ns[j].children@[k]) as int) == i;
    assert(w.parent_of(e) == Some(q));
    assert(in_forest(w, q as int));
    let n = w.recs@.len() as nat;
    assert(parent_terminates(w, e, n));
    assert(parent_terminates(w, q as int, (n - 1) as nat));
    lemma_chain_fuel(w, q as int, (n - 1) as nat, n);
    assert(chain_global(w, e, n)
        == mat_mul(chain_global(w, q as int, (n - 1) as nat), local_mat(w.recs@[e].transform)));
}

/// For a chain a (no parent) <- b <- c, all three changed this tick, the owed
/// matrices compose: a's is its local matrix, b's is a's times b's local, c's
/// is b's times c's local.
#[verifier::rlimit(100)]
pub proof fn lemma_chain_composition(w: World, a: usize, b: usize, c: usize)
    requires
        w.wf(),
        (a as int) < w.n(),
        (b as int) < w.n(),
        (c as int) < w.n(),
        w.parent_of(a as int) is None,
        w.parent_of(b as int) == Some(a),
        w.parent_of(c as int) == Some(b),
        w.dirty(a as int),
        w.dirty(b as int),
        w.dirty(c as int),
    ensures
        in_forest(w, a as int) && in_forest(w, b as int) && in_forest(w, c as int),
        global_target(w, a as int) == local_mat(w.recs@[a as int].transform),
        global_target(w, b as int)
            == mat_mul(global_target(w, a as int), local_mat(w.recs@[b as int].transform)),
        global_target(w, c as int)
            == mat_mul(global_target(w, b as int), local_mat(w.recs@[c as int].transform)),
{
    lemma_dirty_in_forest(w, a as int);
    lemma_dirty_in_forest(w, b as int);
    lemma_dirty_in_forest(w, c as int);
    let n = w.recs@.len() as nat;
    assert(a != b && b != c);
    assert(n >= 2);
    assert(chain_global(w, a as int, n) == local_mat(w.recs@[a as int].transform));
    assert(chain_global(w, a as int, (n - 1) as nat) == local_mat(w.recs@[a as int].transform));
    assert(chain_global(w, a as int, (n - 2) as nat) == local_mat(w.recs@[a as int].transform));
    assert(chain_global(w, b as int, n) == mat_mul(chain_global(w, a as int, (n - 1) as nat),
        local_mat(w.recs@[b as int].transform)));
    assert(chain_global(w, b as int, (n - 1) as nat)
        == mat_mul(chain_global(w, a as int, (n - 2) as nat),
            local_mat(w.recs@[b as int].transform)));
    assert(chain_global(w, c as int, n) == mat_mul(chain_global(w, b as int, (n - 1) as nat),
        local_mat(w.recs@[c as int].transform)));
}

/// Whether `v` occurs in the list.
fn index_in(list: &Vec<usize>, v: usize) -> (b: bool)
    ensures
        b == list@.contains(v),
{
    let mut t: usize = 0;
    while t < list.len()
        invariant
            t <= list@.len(),
            forall|u: int| 0 <= u < t ==> list@[u] != v,
        decreases list@.len() - t,
    {
        if list[t] == v {
            return true;
        }
        t += 1;
    }
    false
}

/// The node whose child list holds position `i`, if any.
fn find_parent_node(nodes: &Vec<TreeNode>, i: usize) -> (r: Option<usize>)
    ensures
        r matches Some(j) ==> (j as int) < nodes@.len()
            && nodes@[j as int].children@.contains(i),
        r is None ==> !attached(nodes@, i as int),
{
    let mut j: usize = 0;
    while j < nodes.len()
        invariant
            j <= nodes@.len(),
            forall|j2: int, k: int| #![trigger nodes@[j2].children@[k]]
                0 <= j2 < j && 0 <= k < nodes@[j2].children@.len()
                ==> nodes@[j2].children@[k] != i,
        decreases nodes@.len() - j,
    {
        if index_in(&nodes[j].children, i) {
            return Some(j);
        }
        j += 1;
    }
    None
}

impl TransformSystem {
    pub fn new() -> (s: Self) {
        TransformSystem {}
    }

    /// Explore entity `e`, whose exploration is open (`path` holds it), and
    /// push its finished node. Children found along the way are attached;
    /// trees already rooted at a child are rotated in whole under `e`.
    #[verifier::loop_isolation(false)]
    #[verifier::rlimit(100)]
    fn explore_dfs(
        w: &World,
        nodes: &mut Vec<TreeNode>,
        roots: &mut Vec<usize>,
        visited: &mut Vec<bool>,
        e: usize,
        path: Ghost<Set<int>>,
    ) -> (idx: usize)
        requires
            w.wf(),
            ci(*w, old(nodes)@, old(roots)@, old(visited)@, path@),
            e < w.recs@.len(),
            path@.contains(e as int),
            old(visited)@[e as int],
            !has_entity(old(nodes)@, e as int),
        ensures
            ci(*w, final(nodes)@, final(roots)@, final(visited)@, path@),
            final(nodes)@.len() > old(nodes)@.len(),
            idx as int == final(nodes)@.len() - 1,
            final(nodes)@[idx as int].entity == e,
            !attached(final(nodes)@, idx as int),
            !final(roots)@.contains(idx),
            forall|i: int| 0 <= i < old(nodes)@.len() ==> final(nodes)@[i] == old(nodes)@[i],
            forall|i: int| old(nodes)@.len() <= i < final(nodes)@.len()
                ==> reaches_any(*w, (#[trigger] final(nodes)@[i]).entity as int, e as int),
            forall|i: int| old(nodes)@.len() <= i < final(nodes)@.len()
                ==> (#[trigger] final(nodes)@[i]).entity == e
                    || !old(visited)@[final(nodes)@[i].entity as int],
            forall|r: usize| #[trigger] final(roots)@.contains(r) ==> old(roots)@.contains(r),
            forall|c: int| attached(old(nodes)@, c) ==> attached(final(nodes)@, c),
            forall|r: usize| old(roots)@.contains(r) && !final(roots)@.contains(r)
                ==> attached(final(nodes)@, r as int),
            final(visited)@.len() == old(visited)@.len(),
            forall|x: int| 0 <= x < final(visited)@.len() && old(visited)@[x] ==> final(visited)@[x],
            count_false(final(visited)@) <= count_false(old(visited)@),
        decreases count_false(old(visited)@),
    {
        let ghost nodes0 = old(nodes)@;
        let ghost roots0 = old(roots)@;
        let ghost visited0 = old(visited)@;
        let wn = visited.len();
        proof {
            assert(w.recs@.len() == wn as int);
        }
        let children = w.query_children_of(e);
        let mut mc: Vec<usize> = Vec::new();
        let ghost mut pcur = path@;
        let mut t: usize = 0;
        while t < children.len()
            invariant
                t <= children@.len(),
                ci(*w, nodes@, roots@, visited@, pcur),
                path@.subset_of(pcur),
                forall|x: int| #[trigger] pcur.contains(x) ==> path@.contains(x)
                    || exists|u: int| 0 <= u < mc@.len()
                        && nodes@[(#[trigger] mc@[u]) as int].entity as int == x,
                forall|u: int| 0 <= u < mc@.len() ==> ((#[trigger] mc@[u]) as int) < nodes@.len()
                    && !attached(nodes@, mc@[u] as int)
                    && !roots@.contains(mc@[u])
                    && w.parent_of(nodes@[mc@[u] as int].entity as int) == Some(e)
                    && pcur.contains(nodes@[mc@[u] as int].entity as int),
                forall|u1: int, u2: int| #![trigger mc@[u1], mc@[u2]]
                    0 <= u1 < u2 < mc@.len() ==> mc@[u1] != mc@[u2],
                forall|u: int| 0 <= u < t ==> path@.contains((#[trigger] children@[u]) as int)
                    || exists|i: int| 0 <= i < nodes@.len()
                        && (#[trigger] nodes@[i].entity) == children@[u]
                        && (attached(nodes@, i) || roots@.contains(i as usize)
                            || mc@.contains(i as usize)),
                forall|u: int, v: int| #![trigger children@[u], roots@[v]]
                    0 <= u < t && 0 <= v < roots@.len()
                    ==> nodes@[roots@[v] as int].entity != children@[u],
                nodes@.len() >= nodes0.len(),
                forall|i: int| 0 <= i < nodes0.len() ==> nodes@[i] == nodes0[i],
                forall|i: int| nodes0.len() <= i < nodes@.len()
                    ==> reaches_any(*w, (#[trigger] nodes@[i]).entity as int, e as int),
                forall|i: int| nodes0.len() <= i < nodes@.len()
                    ==> !visited0[(#[trigger] nodes@[i]).entity as int],
                !has_entity(nodes@, e as int),
                forall|r: usize| #[trigger] roots@.contains(r) ==> roots0.contains(r),
                forall|c2: int| attached(nodes0, c2) ==> attached(nodes@, c2),
                forall|r: usize| roots0.contains(r) && !roots@.contains(r)
                    ==> attached(nodes@, r as int) || mc@.contains(r),
                visited@.len() == visited0.len(),
                forall|x: int| 0 <= x < visited@.len() && visited0[x] ==> visited@[x],
                count_false(visited@) <= count_false(visited0),
                visited@[e as int],
            decreases children@.len() - t,
        {
            let c = children[t];
            let nlen = nodes.len();
            proof {
                assert(nodes@.len() == nlen as int);
            }
            let rpos = find_root(nodes, roots, c);
            match rpos {
                Some(pos) => {
                    // Rotation: the whole tree rooted at `c` becomes a
                    // subtree of the node under construction.
                    let ridx = roots[pos];
                    let ghost r0 = roots@;
                    let ghost p0 = pcur;
                    roots.remove(pos);
                    proof {
                        pcur = pcur.insert(c as int);
                        assert(nodes@.len() <= usize::MAX as int);
                        lemma_splice(*w, nodes@, r0, roots@, visited@, p0, pcur,
                            pos as int, ridx, c, e);
                    }
                    let ghost mc0 = mc@;
                    mc.push(ridx);
                    proof {
                        assert forall|u: int, v: int| #![trigger children@[u], roots@[v]]
                            0 <= u < t + 1 && 0 <= v < roots@.len()
                            implies nodes@[roots@[v] as int].entity != children@[u] by {
                            assert(roots@.contains(roots@[v]));
                            assert(r0.contains(roots@[v]));
                            let v0 = choose|v0: int| 0 <= v0 < r0.len() && r0[v0] == roots@[v];
                            if u == t as int {
                                assert(nodes@[ridx as int].entity == c);
                                if nodes@[roots@[v] as int].entity == c {
                                    assert(roots@[v] as int == ridx as int);
                                    assert(roots@[v] == ridx);
                                    assert(!roots@.contains(ridx));
                                    assert(false);
                                }
                            } else {
                                assert(nodes@[r0[v0] as int].entity != children@[u]);
                            }
                        }
                        assert forall|u: int| 0 <= u < t + 1
                            implies path@.contains((#[trigger] children@[u]) as int)
                            || exists|i: int| 0 <= i < nodes@.len()
                                && (#[trigger] nodes@[i].entity) == children@[u]
                                && (attached(nodes@, i) || roots@.contains(i as usize)
                                    || mc@.contains(i as usize)) by {
                            if u == t as int {
                                assert(mc@[mc@.len() - 1] == ridx);
                                assert(mc@.contains(ridx));
                                assert(nodes@[ridx as int].entity == c);
                            } else if !path@.contains(children@[u] as int) {
                                let i = choose|i: int| 0 <= i < nodes@.len()
                                    && (#[trigger] nodes@[i].entity) == children@[u]
                                    && (attached(nodes@, i) || r0.contains(i as usize)
                                        || mc0.contains(i as usize));
                                if mc0.contains(i as usize) {
                                    let u2 = choose|u2: int| 0 <= u2 < mc0.len()
                                        && (#[trigger] mc0[u2]) == i as usize;
                                    assert(mc@[u2] == i as usize);
                                    assert(mc@.contains(i as usize));
                                } else if r0.contains(i as usize) && !roots@.contains(i as usize) {
                                    if i as usize == ridx {
                                        assert(mc@.contains(ridx));
                                    } else {
                                        let v0 = choose|v0: int| 0 <= v0 < r0.len()
                                            && r0[v0] == i as usize;
                                        if v0 < pos as int {
                                            assert(roots@[v0] == i as usize);
                                        } else {
                                            assert(roots@[v0 - 1] == i as usize);
                                        }
                                        assert(roots@.contains(i as usize));
                                        assert(false);
                                    }
                                }
                            }
                        }
                        assert forall|x: int| #[trigger] pcur.contains(x) implies path@.contains(x)
                            || exists|u: int| 0 <= u < mc@.len()
                                && nodes@[(#[trigger] mc@[u]) as int].entity as int == x by {
                            if !path@.contains(x) {
                                if x == c as int {
                                    assert(mc@[mc@.len() - 1] == ridx);
                                    assert(nodes@[(mc@[mc@.len() - 1]) as int].entity as int == x);
                                } else {
                                    assert(p0.contains(x));
                                    let u = choose|u: int| 0 <= u < mc0.len()
                                        && nodes@[(#[trigger] mc0[u]) as int].entity as int == x;
                                    assert(mc@[u] == mc0[u]);
                                    assert(nodes@[(mc@[u]) as int].entity as int == x);
                                }
                            }
                        }
                        assert forall|r: usize| roots0.contains(r) && !roots@.contains(r)
                            implies attached(nodes@, r as int) || mc@.contains(r) by {
                            if !r0.contains(r) {
                                assert(attached(nodes@, r as int) || mc0.contains(r));
                                if mc0.contains(r) {
                                    let u2 = choose|u2: int| 0 <= u2 < mc0.len()
                                        && (#[trigger] mc0[u2]) == r;
                                    assert(mc@[u2] == r);
                                    assert(mc@.contains(r));
                                }
                            } else {
                                let v0 = choose|v0: int| 0 <= v0 < r0.len() && r0[v0] == r;
                                if v0 == pos as int {
                                    assert(r == ridx);
                                    assert(mc@[mc@.len() - 1] == ridx);
                                    assert(mc@.contains(r));
                                } else {
                                    if v0 < pos as int {
                                        assert(roots@[v0] == r);
                                    } else {
                                        assert(roots@[v0 - 1] == r);
                                    }
                                    assert(roots@.contains(r));
                                    assert(false);
                                }
                            }
                        }
                    }
                }
                None => {
                    if visited[c] {
                        // Already part of some tree (or open further up this
                        // very exploration): nothing to do.
                        proof {
                            if !pcur.contains(c as int) {
                                assert(visited@[c as int]);
                                assert(has_entity(nodes@, c as int));
                                let i = choose|i: int| 0 <= i < nodes@.len()
                                    && ((#[trigger] nodes@[i].entity) as int) == c as int;
                                if !attached(nodes@, i) && !roots@.contains(i as usize) {
                                    assert(pcur.contains(nodes@[i].entity as int));
                                    assert(false);
                                }
                                if roots@.contains(i as usize) {
                                    let v = choose|v: int| 0 <= v < roots@.len()
                                        && roots@[v] == i as usize;
                                    assert(nodes@[(roots@[v]) as int].entity != c);
                                    assert(false);
                                }
                                assert(attached(nodes@, i));
                                assert(nodes@[i].entity == c);
                            } else if !path@.contains(c as int) {
                                let u = choose|u: int| 0 <= u < mc@.len()
                                    && nodes@[(#[trigger] mc@[u]) as int].entity as int == c as int;
                                assert(mc@.contains(mc@[u]));
                                assert(nodes@[mc@[u] as int].entity == c);
                            }
                        }
                    } else {
                        // A fresh child: explore it recursively and attach
                        // the finished subtree.
                        let ghost v0 = visited@;
                        let ghost p0 = pcur;
                        visited[c] = true;
                        proof {
                            assert(visited@ =~= v0.update(c as int, true));
                            lemma_count_false_set(v0, c as int);
                            pcur = pcur.insert(c as int);
                            lemma_mark_child(*w, nodes@, roots@, v0, visited@, p0, pcur, c, e);
                        }
                        let ghost mid_nodes = nodes@;
                        let ghost mid_roots = roots@;
                        let cidx = Self::explore_dfs(w, nodes, roots, visited, c, Ghost(pcur));
                        let ghost mc0 = mc@;
                        mc.push(cidx);
                        proof {
                            assert forall|i: int| nodes0.len() <= i < nodes@.len()
                                implies reaches_any(*w, (#[trigger] nodes@[i]).entity as int, e as int) by {
                                if i >= mid_nodes.len() {
                                    lemma_reaches_extend(*w, nodes@[i].entity as int, c as int, e);
                                } else {
                                    assert(nodes@[i] == mid_nodes[i]);
                                }
                            }
                            assert forall|i: int| nodes0.len() <= i < nodes@.len()
                                implies !visited0[(#[trigger] nodes@[i]).entity as int] by {
                                if i >= mid_nodes.len() {
                                    if nodes@[i].entity != c {
                                        assert(!v0[nodes@[i].entity as int]);
                                    } else {
                                        assert(!v0[c as int]);
                                    }
                                } else {
                                    assert(nodes@[i] == mid_nodes[i]);
                                }
                            }
                            assert forall|u: int| 0 <= u < t + 1
                                implies path@.contains((#[trigger] children@[u]) as int)
                                || exists|i: int| 0 <= i < nodes@.len()
                                    && (#[trigger] nodes@[i].entity) == children@[u]
                                    && (attached(nodes@, i) || roots@.contains(i as usize)
                                        || mc@.contains(i as usize)) by {
                                if u == t as int {
                                    assert(nodes@[cidx as int].entity == c);
                                    assert(mc@.contains(cidx));
                                } else if !path@.contains(children@[u] as int) {
                                    let i = choose|i: int| 0 <= i < mid_nodes.len()
                                        && (#[trigger] mid_nodes[i].entity) == children@[u]
                                        && (attached(mid_nodes, i) || mid_roots.contains(i as usize)
                                            || mc0.contains(i as usize));
                                    assert(nodes@[i] == mid_nodes[i]);
                                    assert(nodes@[i].entity == children@[u]);
                                    if attached(mid_nodes, i) {
                                        assert(attached(nodes@, i));
                                    } else if mid_roots.contains(i as usize) {
                                        if !roots@.contains(i as usize) {
                                            assert(attached(nodes@, i));
                                        }
                                    } else if mc0.contains(i as usize) {
                                        let u2 = choose|u2: int| 0 <= u2 < mc0.len()
                                            && (#[trigger] mc0[u2]) == i as usize;
                                        assert(mc@[u2] == i as usize);
                                        assert(mc@.contains(i as usize));
                                    }
                                }
                            }
                            assert forall|u: int, v: int| #![trigger children@[u], roots@[v]]
                                0 <= u < t + 1 && 0 <= v < roots@.len()
                                implies nodes@[roots@[v] as int].entity != children@[u] by {
                                assert(mid_roots.contains(roots@[v]));
                                let v0i = choose|v0i: int| 0 <= v0i < mid_roots.len()
                                    && mid_roots[v0i] == roots@[v];
                                assert((mid_roots[v0i] as int) < mid_nodes.len());
                                assert(nodes@[roots@[v] as int] == mid_nodes[roots@[v] as int]);
                                if u == t as int {
                                    if mid_nodes[roots@[v] as int].entity == c {
                                        assert(has_entity(mid_nodes, c as int));
                                        assert(!v0[c as int]);
                                        assert(false);
                                    }
                                } else {
                                    assert(mid_nodes[mid_roots[v0i] as int].entity != children@[u]);
                                }
                            }
                            assert forall|r: usize| roots0.contains(r) && !roots@.contains(r)
                                implies attached(nodes@, r as int) || mc@.contains(r) by {
                                if mid_roots.contains(r) {
                                    assert(attached(nodes@, r as int));
                                } else {
                                    assert(attached(mid_nodes, r as int) || mc0.contains(r));
                                    if attached(mid_nodes, r as int) {
                                        assert(attached(nodes@, r as int));
                                    } else {
                                        let u2 = choose|u2: int| 0 <= u2 < mc0.len()
                                            && (#[trigger] mc0[u2]) == r;
                                        assert(mc@[u2] == r);
                                        assert(mc@.contains(r));
                                    }
                                }
                            }
                            assert forall|x: int| #[trigger] pcur.contains(x) implies path@.contains(x)
                                || exists|u: int| 0 <= u < mc@.len()
                                    && nodes@[(#[trigger] mc@[u]) as int].entity as int == x by {
                                if !path@.contains(x) {
                                    if x == c as int {
                                        assert(mc@[mc@.len() - 1] == cidx);
                                        assert(nodes@[(mc@[mc@.len() - 1]) as int].entity as int == x);
                                    } else {
                                        assert(p0.contains(x));
                                        let u = choose|u: int| 0 <= u < mc0.len()
                                            && mid_nodes[(#[trigger] mc0[u]) as int].entity as int == x;
                                        assert(mc@[u] == mc0[u]);
                                        assert(nodes@[mc0[u] as int] == mid_nodes[mc0[u] as int]);
                                        assert(nodes@[(mc@[u]) as int].entity as int == x);
                                    }
                                }
                            }
                            lemma_count_false_le(v0.update(c as int, true), visited@);
                        }
                    }
                }
            }
            t += 1;
        }
        let idx = nodes.len();
        let ghost nsp = nodes@;
        nodes.push(TreeNode { entity: e, children: mc });
        proof {
            assert(nodes@[idx as int].entity == e);
            assert(reaches(*w, e as int, e as int, 0));
            assert forall|i: int| nodes0.len() <= i < nodes@.len()
                implies reaches_any(*w, (#[trigger] nodes@[i]).entity as int, e as int) by {
                if i < idx as int {
                    assert(nodes@[i] == nsp[i]);
                } else {
                    assert(reaches_any(*w, e as int, e as int));
                }
            }
            lemma_push_node(*w, nsp, nodes@, roots@, visited@, path@, pcur,
                nodes@[idx as int].children@, children@, e, idx);
        }
        idx
    }

    /// Offer a candidate dirty root: if it is not yet part of any tree,
    /// explore it and record the finished tree as a new root of the forest.
    fn explore_tree_dfs(
        w: &World,
        nodes: &mut Vec<TreeNode>,
        roots: &mut Vec<usize>,
        visited: &mut Vec<bool>,
        e: usize,
    )
        requires
            w.wf(),
            ci(*w, old(nodes)@, old(roots)@, old(visited)@, Set::empty()),
            e < w.recs@.len(),
            in_forest(*w, e as int),
        ensures
            ci(*w, final(nodes)@, final(roots)@, final(visited)@, Set::empty()),
            final(visited)@.len() == old(visited)@.len(),
            final(visited)@[e as int],
            forall|x: int| 0 <= x < final(visited)@.len() && old(visited)@[x] ==> final(visited)@[x],
            // A repeated candidate is a no-op.
            old(visited)@[e as int] ==> final(nodes)@ == old(nodes)@
                && final(roots)@ == old(roots)@ && final(visited)@ == old(visited)@,
            // A fresh candidate ends as the newest root of the forest; every
            // other listed root already was one.
            !old(visited)@[e as int] ==> final(roots)@.len() >= 1
                && ((final(roots)@[final(roots)@.len() - 1] as int) < final(nodes)@.len())
                && final(nodes)@[final(roots)@[final(roots)@.len() - 1] as int].entity == e
                && (forall|v: int| 0 <= v < final(roots)@.len() - 1
                    ==> old(roots)@.contains(#[trigger] final(roots)@[v])),
            // Existing nodes are never rewritten, only attached to.
            final(nodes)@.len() >= old(nodes)@.len(),
            forall|i: int| 0 <= i < old(nodes)@.len() ==> final(nodes)@[i] == old(nodes)@[i],
    {
        if visited[e] {
            return;
        }
        let ghost v0 = visited@;
        visited[e] = true;
        let ghost p = Set::empty().insert(e as int);
        proof {
            assert(!has_entity(old(nodes)@, e as int));
            assert forall|x: int| 0 <= x < w.n()
                implies ((#[trigger] visited@[x]) <==> (has_entity(nodes@, x) || p.contains(x))) by {
                if x != e as int {
                    assert(visited@[x] == v0[x]);
                }
            }
            assert forall|j: int, c2: int| #![trigger nodes@[j].entity, w.recs@[c2]]
                (0 <= j < nodes@.len() && 0 <= c2 < w.n()
                    && w.parent_of(c2) == Some(nodes@[j].entity))
                implies (p.contains(c2) || exists|i: int| 0 <= i < nodes@.len()
                    && (#[trigger] nodes@[i].entity) as int == c2
                    && (attached(nodes@, i) || roots@.contains(i as usize))) by {
                assert(Set::empty().contains(c2) || exists|i: int| 0 <= i < nodes@.len()
                    && (#[trigger] nodes@[i].entity) as int == c2
                    && (attached(nodes@, i) || roots@.contains(i as usize)));
            }
            assert(ci(*w, nodes@, roots@, visited@, p));
        }
        let ghost pre_nodes = nodes@;
        let ghost pre_roots = roots@;
        let idx = Self::explore_dfs(w, nodes, roots, visited, e, Ghost(p));
        let ghost rpre = roots@;
        roots.push(idx);
        let wn = visited.len();
        proof {
            assert(w.recs@.len() == wn as int);
            lemma_finish_root(*w, pre_nodes, pre_roots, nodes@, rpre, roots@,
                visited@, p, e, idx);
            assert(roots@[roots@.len() - 1] == idx);
            assert(nodes@[idx as int].entity == e);
            assert forall|v: int| 0 <= v < roots@.len() - 1
                implies pre_roots.contains(#[trigger] roots@[v]) by {
                assert(roots@[v] == rpre[v]);
                assert(rpre.contains(rpre[v]));
            }
        }
    }

    /// Forest Construction for the current store snapshot: offer every
    /// candidate from both discovery scans in turn. The result is the forest
    /// the snapshot determines: it holds exactly the entities owed a
    /// recomputation (so every entity either scan returned appears in exactly
    /// one tree, exactly once), its edges are the current parent relations,
    /// and the order the scans were consumed in cannot be told from it.
    pub fn build_forest(w: &World) -> (f: Forest)
        requires
            w.wf(),
        ensures
            forest_built(*w, f.nodes@, f.roots@),
            forall|x: int| 0 <= x < w.n() && w.dirty(x) ==> has_entity(f.nodes@, x),
            forall|e: int| 0 <= e < w.n() ==> (in_forest(*w, e) <==> has_entity(f.nodes@, e)),
    {
        let n = w.len();
        let mut nodes: Vec<TreeNode> = Vec::new();
        let mut roots: Vec<usize> = Vec::new();
        let mut visited: Vec<bool> = Vec::new();
        while visited.len() < n
            invariant
                visited@.len() <= n as int,
                n as int == w.recs@.len(),
                forall|x: int| 0 <= x < visited@.len() ==> !(#[trigger] visited@[x]),
            decreases n - visited.len(),
        {
            visited.push(false);
        }
        proof {
            assert forall|x: int| 0 <= x < w.n()
                implies ((#[trigger] visited@[x]) <==> (has_entity(nodes@, x)
                    || Set::<int>::empty().contains(x))) by {
                assert(!visited@[x]);
            }
            assert(ci(*w, nodes@, roots@, visited@, Set::empty()));
        }
        let rel = w.query_changed_relation();
        let mut t: usize = 0;
        while t < rel.len()
            invariant
                w.wf(),
                ci(*w, nodes@, roots@, visited@, Set::empty()),
                visited@.len() == w.recs@.len(),
                forall|u: int| 0 <= u < rel@.len()
                    ==> ((#[trigger] rel@[u]) as int) < w.n()
                        && w.recs@[rel@[u] as int].parent_changed,
                forall|u: int| 0 <= u < t ==> visited@[(#[trigger] rel@[u]) as int],
            decreases rel@.len() - t,
        {
            let e = rel[t];
            proof {
                lemma_dirty_in_forest(*w, e as int);
            }
            Self::explore_tree_dfs(w, &mut nodes, &mut roots, &mut visited, e);
            t += 1;
        }
        let trs = w.query_changed_transform();
        let mut t2: usize = 0;
        while t2 < trs.len()
            invariant
                w.wf(),
                ci(*w, nodes@, roots@, visited@, Set::empty()),
                visited@.len() == w.recs@.len(),
                forall|u: int| 0 <= u < trs@.len()
                    ==> ((#[trigger] trs@[u]) as int) < w.n()
                        && w.recs@[trs@[u] as int].transform_changed,
                forall|u: int| 0 <= u < rel@.len() ==> ((#[trigger] rel@[u]) as int) < w.n(),
                forall|u: int| 0 <= u < rel@.len() ==> visited@[(#[trigger] rel@[u]) as int],
                forall|u: int| 0 <= u < t2 ==> visited@[(#[trigger] trs@[u]) as int],
            decreases trs@.len() - t2,
        {
            let e = trs[t2];
            proof {
                lemma_dirty_in_forest(*w, e as int);
            }
            Self::explore_tree_dfs(w, &mut nodes, &mut roots, &mut visited, e);
            t2 += 1;
        }
        proof {
            assert forall|x: int| 0 <= x < w.n() && w.dirty(x)
                implies has_entity(nodes@, x) by {
                if w.recs@[x].parent_changed {
                    assert(rel@.contains(x as usize));
                    let u = choose|u: int| 0 <= u < rel@.len() && rel@[u] == x as usize;
                    assert(visited@[(rel@[u]) as int]);
                } else {
                    assert(trs@.contains(x as usize));
                    let u = choose|u: int| 0 <= u < trs@.len() && trs@[u] == x as usize;
                    assert(visited@[(trs@[u]) as int]);
                }
                assert(visited@[x]);
            }
            assert(forest_built(*w, nodes@, roots@));
            lemma_forest_complete(*w, nodes@, roots@);
        }
        Forest { nodes, roots }
    }

    /// Matrix Recompute, planning half: walk the finished forest from the
    /// roots down and compute every node's world matrix, the root's being its
    /// local matrix and every other node's its tree parent's world matrix
    /// times its own local matrix. Nothing is written yet; on an acyclic
    /// store the result at each position is exactly the owed matrix, and the
    /// walk fails exactly when a needed composition cannot fit.
    #[verifier::rlimit(100)]
    #[verifier::loop_isolation(false)]
    fn recompute_matrices(w: &World, nodes: &Vec<TreeNode>, roots: &Vec<usize>) -> (r: Result<Vec<Mat4>, TickError>)
        requires
            w.wf(),
            forest_built(*w, nodes@, roots@),
            forall|x: int| 0 <= x < w.n() && w.dirty(x) ==> has_entity(nodes@, x),
        ensures
            acyclic(*w) && all_fits(*w) ==> r is Ok,
            r is Err ==> !(acyclic(*w) && all_fits(*w)),
            r matches Ok(gs) ==> gs@.len() == nodes@.len()
                && (forall|j: int| 0 <= j < gs@.len() ==> (#[trigger] gs@[j]).wf())
                && (acyclic(*w) ==> forall|j: int| 0 <= j < nodes@.len()
                    ==> gs@[j]@ == global_target(*w, nodes@[j].entity as int)),
    {
        let n_nodes = nodes.len();
        let mut gs: Vec<Mat4> = Vec::new();
        while gs.len() < n_nodes
            invariant
                gs@.len() <= n_nodes as int,
                forall|j: int| 0 <= j < gs@.len() ==> (#[trigger] gs@[j]).wf(),
            decreases n_nodes - gs.len(),
        {
            gs.push(mat_identity());
        }
        let mut i: usize = n_nodes;
        while i > 0
            invariant
                i <= n_nodes as int,
                gs@.len() == nodes@.len(),
                forall|j: int| 0 <= j < gs@.len() ==> (#[trigger] gs@[j]).wf(),
                acyclic(*w) ==> forall|j: int| i <= j < nodes@.len()
                    ==> gs@[j]@ == global_target(*w, (#[trigger] nodes@[j]).entity as int),
            decreases i,
        {
            i -= 1;
            let e = nodes[i].entity;
            proof {
                assert((e as int) < w.recs@.len());
                assert(in_forest(*w, e as int));
            }
            let local = match w.get_transform(e).matrix() {
                Some(m) => m,
                None => {
                    proof {
                        if all_fits(*w) {
                            assert(local_fits(w.recs@[e as int].transform));
                            assert(false);
                        }
                    }
                    return Err(TickError::MatrixOverflow);
                }
            };
            let g: Mat4;
            if index_in(roots, i) {
                proof {
                    if acyclic(*w) {
                        lemma_root_target_local(*w, nodes@, roots@, i as int);
                    }
                }
                g = local;
            } else {
                let j = match find_parent_node(nodes, i) {
                    Some(j) => j,
                    None => {
                        proof {
                            assert(!attached(nodes@, i as int));
                            assert(Set::<int>::empty().contains(nodes@[i as int].entity as int));
                            assert(false);
                        }
                        return Err(TickError::MatrixOverflow);
                    }
                };
                proof {
                    let k = choose|k: int| 0 <= k < nodes@[j as int].children@.len()
                        && nodes@[j as int].children@[k] == i;
                    assert((nodes@[j as int].children@[k] as int) < j as int);
                    if acyclic(*w) {
                        lemma_child_target(*w, nodes@, i as int, j as int);
                        assert(gs@[j as int]@ == global_target(*w, nodes@[j as int].entity as int));
                    }
                }
                let pg = gs[j];
                g = match mat_mul_checked(&pg, &local) {
                    Some(m) => m,
                    None => {
                        proof {
                            if acyclic(*w) && all_fits(*w) {
                                assert(mat_in_range(global_target(*w, nodes@[i as int].entity as int)));
                                assert(false);
                            }
                        }
                        return Err(TickError::MatrixOverflow);
                    }
                };
            }
            gs[i] = g;
        }
        Ok(gs)
    }

    /// One tick: discover the changed entities, build the forest of
    /// everything owed a recomputation, and rewrite exactly those entities'
    /// world matrices top-down; a completed tick clears every change flag.
    /// On an acyclic store the tick succeeds exactly when every owed
    /// composition fits the entry range, and then every entity in the forest
    /// carries its owed matrix; a failed tick leaves the store untouched.
    /// Translation, rotation, scale and the parent relations are never
    /// written, and entities outside the forest keep their world matrices.
    #[verifier::rlimit(100)]
    #[verifier::loop_isolation(false)]
    pub fn run_now(&self, world: &mut World) -> (r: Result<(), TickError>)
        requires
            old(world).wf(),
        ensures
            final(world).wf(),
            final(world).n() == old(world).n(),
            forall|e: int| 0 <= e < old(world).n()
                ==> final(world).recs@[e].parent == old(world).recs@[e].parent
                    && final(world).recs@[e].transform == (Transform {
                        global_matrix: final(world).recs@[e].transform.global_matrix,
                        ..old(world).recs@[e].transform
                    }),
            forall|e: int| 0 <= e < old(world).n() && !in_forest(*old(world), e)
                ==> final(world).recs@[e].transform.global_matrix
                    == old(world).recs@[e].transform.global_matrix,
            r is Ok ==> forall|e: int| 0 <= e < old(world).n() ==> !final(world).dirty(e),
            r is Err ==> *final(world) == *old(world),
            acyclic(*old(world)) && all_fits(*old(world)) ==> r is Ok,
            r is Err ==> !(acyclic(*old(world)) && all_fits(*old(world))),
            r is Ok && acyclic(*old(world)) ==> forall|e: int|
                0 <= e < old(world).n() && in_forest(*old(world), e)
                ==> final(world).recs@[e].transform.global_matrix@
                    == global_target(*old(world), e),
    {
        let f = Self::build_forest(world);
        let gs = match Self::recompute_matrices(world, &f.nodes, &f.roots) {
            Ok(gs) => gs,
            Err(er) => {
                return Err(er);
            }
        };
        let mut i: usize = 0;
        while i < f.nodes.len()
            invariant
                world.wf(),
                world.n() == old(world).n(),
                i <= f.nodes@.len(),
                forall|e: int| 0 <= e < old(world).n()
                    ==> world.recs@[e].parent == old(world).recs@[e].parent
                        && world.recs@[e].transform_changed == old(world).recs@[e].transform_changed
                        && world.recs@[e].parent_changed == old(world).recs@[e].parent_changed
                        && world.recs@[e].transform == (Transform {
                            global_matrix: world.recs@[e].transform.global_matrix,
                            ..old(world).recs@[e].transform
                        }),
                forall|e: int| 0 <= e < old(world).n() && !has_entity(f.nodes@, e)
                    ==> world.recs@[e] == old(world).recs@[e],
                forall|j: int| 0 <= j < i
                    ==> world.recs@[(#[trigger] f.nodes@[j]).entity as int].transform.global_matrix
                        == gs@[j],
            decreases f.nodes@.len() - i,
        {
            let e = f.nodes[i].entity;
            proof {
                assert((e as int) < old(world).recs@.len());
            }
            world.write_global_matrix(e, gs[i]);
            proof {
                assert forall|j: int| 0 <= j < i + 1
                    implies world.recs@[(#[trigger] f.nodes@[j]).entity as int].transform.global_matrix
                        == gs@[j] by {
                    if j < i as int {
                        assert(f.nodes@[j].entity != f.nodes@[i as int].entity);
                    }
                }
            }
            i += 1;
        }
        world.clear_flags();
        proof {
            assert forall|e: int| 0 <= e < old(world).n() && in_forest(*old(world), e)
                && acyclic(*old(world))
                implies world.recs@[e].transform.global_matrix@
                    == global_target(*old(world), e) by {
                assert(has_entity(f.nodes@, e));
                let j = choose|j: int| 0 <= j < f.nodes@.len()
                    && ((#[trigger] f.nodes@[j].entity) as int) == e;
                assert(world.recs@[f.nodes@[j].entity as int].transform.global_matrix == gs@[j]);
            }
        }
        Ok(())
    }
}

} // verus!
