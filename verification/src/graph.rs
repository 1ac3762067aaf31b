//! The dependency graph of a DAG as a mathematical object: edges, paths,
//! the invariants that additions keep, and the measure by which traversals
//! end.

use crate::hash::HashWriter;
use crate::node::NodeView;
use vstd::prelude::*;

verus! {

/// A dependency graph: the nodes by the identifier each is kept under.
pub type Graph = Map<Seq<u8>, NodeView>;

/// The node kept under `from` depends directly on `to`.
pub open spec fn edge(g: Graph, from: Seq<u8>, to: Seq<u8>) -> bool {
    g.contains_key(from) && g[from].depends_on(to)
}

/// `p` is a path along dependency edges none of whose nodes, but possibly
/// the first, is in `avoid`.
pub open spec fn links(g: Graph, avoid: Set<Seq<u8>>, p: Seq<Seq<u8>>) -> bool {
    &&& p.len() > 0
    &&& forall|i: int| 0 <= i < p.len() - 1 ==> edge(g, #[trigger] p[i], p[i + 1])
    &&& forall|i: int| 1 <= i < p.len() ==> !avoid.contains(#[trigger] p[i])
}

/// `to` can be reached from `from` along dependency edges without entering
/// `avoid` on the way or at the end. Every identifier reaches itself.
pub open spec fn descends(g: Graph, avoid: Set<Seq<u8>>, from: Seq<u8>, to: Seq<u8>) -> bool {
    exists|p: Seq<Seq<u8>>| #[trigger] links(g, avoid, p) && p[0] == from && p.last() == to
}

/// `to` is `from` itself or one of the nodes that `from` depends on,
/// directly or through other nodes.
pub open spec fn reaches(g: Graph, from: Seq<u8>, to: Seq<u8>) -> bool {
    descends(g, Set::empty(), from, to)
}

/// `a` is one of the nodes that `b` depends on, directly or through others.
pub open spec fn is_ancestor(g: Graph, a: Seq<u8>, b: Seq<u8>) -> bool {
    a != b && reaches(g, b, a)
}

/// Some node of the graph depends directly on `k`.
pub open spec fn has_dependent(g: Graph, k: Seq<u8>) -> bool {
    exists|m: Seq<u8>| edge(g, m, k)
}

/// Every node is kept under the identifier that its content gives it.
pub open spec fn keyed_by_id<HW: HashWriter>(g: Graph) -> bool {
    forall|k: Seq<u8>| #[trigger] g.contains_key(k) ==> g[k].id::<HW>() == k
}

/// Whatever a node of the graph depends on is in the graph.
pub open spec fn closed_under_dependencies(g: Graph) -> bool {
    forall|k: Seq<u8>, d: Seq<u8>| #[trigger] edge(g, k, d) ==> g.contains_key(d)
}

/// `roots` holds exactly the nodes of the graph that no node depends on.
pub open spec fn is_frontier(g: Graph, roots: Set<Seq<u8>>) -> bool {
    forall|k: Seq<u8>|
        #![trigger roots.contains(k)]
        #![trigger g.contains_key(k)]
        roots.contains(k) <==> g.contains_key(k) && !has_dependent(g, k)
}

/// `rank` numbers the nodes below `bound` so that every node has a higher
/// number than each node it depends on.
pub open spec fn ranked(g: Graph, rank: spec_fn(Seq<u8>) -> nat, bound: nat) -> bool {
    &&& forall|k: Seq<u8>| #[trigger] g.contains_key(k) ==> rank(k) < bound
    &&& forall|k: Seq<u8>, d: Seq<u8>| #[trigger] edge(g, k, d) ==> rank(d) < rank(k)
}

/// The graph has no cycle: its nodes can be ranked.
pub open spec fn acyclic(g: Graph) -> bool {
    exists|rank: spec_fn(Seq<u8>) -> nat, bound: nat| ranked(g, rank, bound)
}

/// The invariants of a DAG with the nodes `g` and the root frontier `roots`.
pub open spec fn well_formed<HW: HashWriter>(g: Graph, roots: Set<Seq<u8>>) -> bool {
    &&& keyed_by_id::<HW>(g)
    &&& closed_under_dependencies(g)
    &&& is_frontier(g, roots)
    &&& acyclic(g)
}

/// Every identifier reaches itself.
pub proof fn lemma_descends_self(g: Graph, avoid: Set<Seq<u8>>, a: Seq<u8>)
    ensures
        descends(g, avoid, a, a),
{
    let p = seq![a];
    assert(links(g, avoid, p));
    assert(p[0] == a && p.last() == a);
}

/// A path can be extended by one more edge at its end.
pub proof fn lemma_descends_append(
    g: Graph,
    avoid: Set<Seq<u8>>,
    a: Seq<u8>,
    b: Seq<u8>,
    c: Seq<u8>,
)
    requires
        descends(g, avoid, a, b),
        edge(g, b, c),
        !avoid.contains(c),
    ensures
        descends(g, avoid, a, c),
{
    let p = choose|p: Seq<Seq<u8>>| #[trigger] links(g, avoid, p) && p[0] == a && p.last() == b;
    let q = p.push(c);
    assert forall|i: int| 0 <= i < q.len() - 1 implies edge(g, #[trigger] q[i], q[i + 1]) by {
        if i < p.len() - 1 {
            assert(edge(g, p[i], p[i + 1]));
        }
    }
    assert forall|i: int| 1 <= i < q.len() implies !avoid.contains(#[trigger] q[i]) by {
        if i < p.len() {
            assert(!avoid.contains(p[i]));
        }
    }
    assert(links(g, avoid, q));
    assert(q[0] == a && q.last() == c);
}

/// A path between two different identifiers starts with an edge: it gives
/// the second node of one such path.
pub proof fn lemma_descends_unfold(g: Graph, avoid: Set<Seq<u8>>, a: Seq<u8>, b: Seq<u8>) -> (d:
    Seq<u8>)
    requires
        descends(g, avoid, a, b),
        a != b,
    ensures
        edge(g, a, d),
        !avoid.contains(d),
        descends(g, avoid, d, b),
{
    let p = choose|p: Seq<Seq<u8>>| #[trigger] links(g, avoid, p) && p[0] == a && p.last() == b;
    assert(p.len() >= 2);
    let q = p.skip(1);
    assert(edge(g, p[0], p[1]));
    assert(!avoid.contains(p[1]));
    assert forall|i: int| 0 <= i < q.len() - 1 implies edge(g, #[trigger] q[i], q[i + 1]) by {
        assert(edge(g, p[i + 1], p[i + 1 + 1]));
    }
    assert forall|i: int| 1 <= i < q.len() implies !avoid.contains(#[trigger] q[i]) by {
        assert(!avoid.contains(p[i + 1]));
    }
    assert(links(g, avoid, q));
    assert(q[0] == p[1] && q.last() == b);
    p[1]
}

/// A path between two different identifiers ends with an edge: it gives the
/// last node before the end of one such path.
pub proof fn lemma_descends_unfold_last(
    g: Graph,
    avoid: Set<Seq<u8>>,
    a: Seq<u8>,
    b: Seq<u8>,
) -> (m: Seq<u8>)
    requires
        descends(g, avoid, a, b),
        a != b,
    ensures
        edge(g, m, b),
        !avoid.contains(b),
        descends(g, avoid, a, m),
{
    let p = choose|p: Seq<Seq<u8>>| #[trigger] links(g, avoid, p) && p[0] == a && p.last() == b;
    assert(p.len() >= 2);
    let q = p.drop_last();
    let n = p.len() - 2;
    assert(edge(g, p[n], p[n + 1]));
    assert(!avoid.contains(p[p.len() - 1]));
    assert forall|i: int| 0 <= i < q.len() - 1 implies edge(g, #[trigger] q[i], q[i + 1]) by {
        assert(edge(g, p[i], p[i + 1]));
    }
    assert forall|i: int| 1 <= i < q.len() implies !avoid.contains(#[trigger] q[i]) by {
        assert(!avoid.contains(p[i]));
    }
    assert(links(g, avoid, q));
    assert(q[0] == a && q.last() == p[n]);
    p[n]
}

/// Along a path the rank falls by at least one at every edge.
proof fn lemma_path_rank(
    g: Graph,
    rank: spec_fn(Seq<u8>) -> nat,
    bound: nat,
    avoid: Set<Seq<u8>>,
    p: Seq<Seq<u8>>,
)
    requires
        ranked(g, rank, bound),
        links(g, avoid, p),
    ensures
        rank(p.last()) + p.len() - 1 <= rank(p[0]),
    decreases p.len(),
{
    if p.len() > 1 {
        let q = p.drop_last();
        assert forall|i: int| 0 <= i < q.len() - 1 implies edge(g, #[trigger] q[i], q[i + 1]) by {
            assert(edge(g, p[i], p[i + 1]));
        }
        assert forall|i: int| 1 <= i < q.len() implies !avoid.contains(#[trigger] q[i]) by {
            assert(!avoid.contains(p[i]));
        }
        lemma_path_rank(g, rank, bound, avoid, q);
        let n = p.len() - 2;
        assert(edge(g, p[n], p[n + 1]));
    }
}

/// A node ranks above every other node that it reaches.
pub proof fn lemma_reaches_rank(
    g: Graph,
    rank: spec_fn(Seq<u8>) -> nat,
    bound: nat,
    a: Seq<u8>,
    b: Seq<u8>,
)
    requires
        ranked(g, rank, bound),
        reaches(g, a, b),
        a != b,
    ensures
        rank(b) < rank(a),
{
    let avoid = Set::<Seq<u8>>::empty();
    let p = choose|p: Seq<Seq<u8>>| #[trigger] links(g, avoid, p) && p[0] == a && p.last() == b;
    lemma_path_rank(g, rank, bound, avoid, p);
}

/// In a graph without cycles, two different nodes do not reach each other.
pub proof fn lemma_reaches_antisymmetric(g: Graph, a: Seq<u8>, b: Seq<u8>)
    requires
        acyclic(g),
        reaches(g, a, b),
        reaches(g, b, a),
    ensures
        a == b,
{
    if a != b {
        let (rank, bound) = choose|rank: spec_fn(Seq<u8>) -> nat, bound: nat| ranked(g, rank, bound);
        lemma_reaches_rank(g, rank, bound, a, b);
        lemma_reaches_rank(g, rank, bound, b, a);
    }
}

/// The nodes and the root frontier of a DAG.
pub struct DagState {
    pub nodes: Graph,
    pub roots: Set<Seq<u8>>,
}

/// Everything that `v` depends on is in the graph.
pub open spec fn can_add(g: Graph, v: NodeView) -> bool {
    forall|d: Seq<u8>| #[trigger] v.dependency_ids.contains(d) ==> g.contains_key(d)
}

/// The state after the node `v` was offered to a DAG in the state `s`.
///
/// A node that is already there, or that depends on something that is not,
/// changes nothing. Any other node enters the graph under its identifier and
/// becomes a root, and the nodes it depends on stop being roots.
pub open spec fn after_add<HW: HashWriter>(s: DagState, v: NodeView) -> DagState {
    let id = v.id::<HW>();
    if s.nodes.contains_key(id) || !can_add(s.nodes, v) {
        s
    } else {
        DagState {
            nodes: s.nodes.insert(id, v),
            roots: s.roots.difference(v.dependency_ids.to_set()).insert(id),
        }
    }
}

/// Offering a node keeps the invariants of the DAG: the roots stay in the
/// graph, and they stay exactly the nodes that nothing depends on.
pub proof fn lemma_add_keeps_well_formed<HW: HashWriter>(s: DagState, v: NodeView)
    requires
        well_formed::<HW>(s.nodes, s.roots),
    ensures
        well_formed::<HW>(after_add::<HW>(s, v).nodes, after_add::<HW>(s, v).roots),
{
    let id = v.id::<HW>();
    let g = s.nodes;
    if !g.contains_key(id) && can_add(g, v) {
        let g2 = g.insert(id, v);
        let roots2 = s.roots.difference(v.dependency_ids.to_set()).insert(id);
        assert forall|k: Seq<u8>, d: Seq<u8>| #[trigger] edge(g2, k, d) implies g2.contains_key(d)
            && d != id && (k != id ==> edge(g, k, d)) by {
            if k == id {
                assert(v.dependency_ids.contains(d));
            } else {
                assert(edge(g, k, d));
            }
        }
        assert(keyed_by_id::<HW>(g2));
        assert(closed_under_dependencies(g2));
        assert forall|k: Seq<u8>|
            #![trigger roots2.contains(k)]
            #![trigger g2.contains_key(k)]
            roots2.contains(k) <==> g2.contains_key(k) && !has_dependent(g2, k) by {
            if k == id {
                if has_dependent(g2, k) {
                    let m = choose|m: Seq<u8>| edge(g2, m, k);
                    assert(edge(g2, m, k));
                }
            } else {
                if has_dependent(g2, k) {
                    let m = choose|m: Seq<u8>| edge(g2, m, k);
                    assert(edge(g2, m, k));
                    if m != id {
                        assert(edge(g, m, k));
                    }
                }
                if has_dependent(g, k) {
                    let m = choose|m: Seq<u8>| edge(g, m, k);
                    assert(edge(g2, m, k));
                }
                if v.dependency_ids.contains(k) {
                    assert(edge(g2, id, k));
                }
                assert(s.roots.contains(k) <==> g.contains_key(k) && !has_dependent(g, k));
            }
        }
        let (rank, bound) = choose|rank: spec_fn(Seq<u8>) -> nat, bound: nat| ranked(g, rank, bound);
        let rank2 = |k: Seq<u8>|
            if k == id {
                bound
            } else {
                rank(k)
            };
        let bound2 = bound + 1;
        assert forall|k: Seq<u8>| #[trigger] g2.contains_key(k) implies rank2(k) < bound2 by {
            if k != id {
                assert(g.contains_key(k));
            }
        }
        assert forall|k: Seq<u8>, d: Seq<u8>| #[trigger] edge(g2, k, d) implies rank2(d) < rank2(
            k,
        ) by {
            assert(g2.contains_key(d) && d != id);
            assert(g.contains_key(d));
            if k != id {
                assert(edge(g, k, d));
            }
        }
        assert(ranked(g2, rank2, bound2));
    }
}

/// Offering the same node a second time changes nothing.
pub proof fn lemma_add_is_idempotent<HW: HashWriter>(s: DagState, v: NodeView)
    ensures
        after_add::<HW>(after_add::<HW>(s, v), v) == after_add::<HW>(s, v),
{
}

/// The empty DAG has the invariants.
pub proof fn lemma_empty_is_well_formed<HW: HashWriter>()
    ensures
        well_formed::<HW>(Map::empty(), Set::empty()),
{
    let g: Graph = Map::empty();
    let rank = |k: Seq<u8>| 0nat;
    assert(ranked(g, rank, 0nat));
    assert forall|k: Seq<u8>| !has_dependent(g, k) by {
        if has_dependent(g, k) {
            let m = choose|m: Seq<u8>| edge(g, m, k);
            assert(edge(g, m, k));
        }
    }
}

/// The number of nodes that a traversal from `k` visits when it follows
/// every dependency edge, to the depth `fuel`, without remembering where it
/// has been.
pub open spec fn unfold_size(g: Graph, k: Seq<u8>, fuel: nat) -> nat
    decreases fuel, 0nat, 0nat,
{
    if fuel > 0 && g.contains_key(k) {
        1 + unfold_sum(g, g[k].dependency_ids, (fuel - 1) as nat)
    } else {
        1
    }
}

/// The sum of `unfold_size` over the identifiers in `ds`.
pub open spec fn unfold_sum(g: Graph, ds: Seq<Seq<u8>>, fuel: nat) -> nat
    decreases fuel, 1nat, ds.len(),
{
    if ds.len() == 0 {
        0
    } else {
        unfold_size(g, ds[0], fuel) + unfold_sum(g, ds.skip(1), fuel)
    }
}

/// The work left for a traversal that still has `agenda` to visit: each entry
/// is an identifier with the depth to which it is followed.
pub open spec fn pending(g: Graph, agenda: Seq<(Seq<u8>, nat)>) -> nat
    decreases agenda.len(),
{
    if agenda.len() == 0 {
        0
    } else {
        unfold_size(g, agenda.last().0, agenda.last().1) + pending(g, agenda.drop_last())
    }
}

/// One more entry adds its own size to the work left.
pub proof fn lemma_pending_push(g: Graph, agenda: Seq<(Seq<u8>, nat)>, k: Seq<u8>, fuel: nat)
    ensures
        pending(g, agenda.push((k, fuel))) == pending(g, agenda) + unfold_size(g, k, fuel),
        unfold_size(g, k, fuel) >= 1,
{
    assert(agenda.push((k, fuel)).drop_last() =~= agenda);
}

/// The sum over the identifiers from position `j` on is the size at `j` plus
/// the sum from `j + 1` on.
pub proof fn lemma_unfold_sum_step(g: Graph, ds: Seq<Seq<u8>>, j: int, fuel: nat)
    requires
        0 <= j < ds.len(),
    ensures
        unfold_sum(g, ds.skip(j), fuel) == unfold_size(g, ds[j], fuel) + unfold_sum(
            g,
            ds.skip(j + 1),
            fuel,
        ),
        unfold_size(g, ds[j], fuel) >= 1,
{
    assert(ds.skip(j).skip(1) =~= ds.skip(j + 1));
}

/// `n` is a root or can be reached from a root through nodes that are not
/// in `search`.
pub open spec fn explored(g: Graph, roots: Set<Seq<u8>>, search: Set<Seq<u8>>, n: Seq<u8>) -> bool {
    exists|r: Seq<u8>| roots.contains(r) && #[trigger] descends(g, search, r, n)
}

/// The node `n` depends directly on a member of `search`.
pub open spec fn meets(g: Graph, search: Set<Seq<u8>>, n: Seq<u8>) -> bool {
    exists|d: Seq<u8>| #[trigger] edge(g, n, d) && search.contains(d)
}

/// `n` belongs to the next frontier above `search`: the descent from the
/// roots arrives at `n`, and `n` is a leaf or depends directly on a member
/// of `search`.
pub open spec fn on_next_frontier(
    g: Graph,
    roots: Set<Seq<u8>>,
    search: Set<Seq<u8>>,
    n: Seq<u8>,
) -> bool {
    &&& g.contains_key(n)
    &&& explored(g, roots, search, n)
    &&& (g[n].is_leaf() || meets(g, search, n))
}

/// The next frontier above `search`.
pub open spec fn next_frontier(g: Graph, roots: Set<Seq<u8>>, search: Set<Seq<u8>>) -> Set<
    Seq<u8>,
> {
    Set::new(|n: Seq<u8>| on_next_frontier(g, roots, search, n))
}

/// The roots are nodes of the graph, and no node depends on a root.
pub proof fn lemma_roots_are_undepended_nodes(g: Graph, roots: Set<Seq<u8>>)
    requires
        is_frontier(g, roots),
    ensures
        forall|r: Seq<u8>| #[trigger] roots.contains(r) ==> g.contains_key(r),
        forall|k: Seq<u8>, r: Seq<u8>| roots.contains(r) ==> !#[trigger] edge(g, k, r),
{
    assert forall|k: Seq<u8>, r: Seq<u8>| roots.contains(r) implies !#[trigger] edge(g, k, r) by {
        if edge(g, k, r) {
            assert(has_dependent(g, r));
        }
    }
}

/// Nothing but a root itself reaches a root.
pub proof fn lemma_only_a_root_reaches_itself(
    g: Graph,
    roots: Set<Seq<u8>>,
    a: Seq<u8>,
    r: Seq<u8>,
)
    requires
        is_frontier(g, roots),
        roots.contains(r),
        reaches(g, a, r),
    ensures
        a == r,
{
    if a != r {
        let m = lemma_descends_unfold_last(g, Set::empty(), a, r);
        assert(has_dependent(g, r));
    }
}

/// From every node one can climb to a root: it gives a root that reaches
/// the node `n`.
pub proof fn lemma_some_root_reaches(
    g: Graph,
    roots: Set<Seq<u8>>,
    rank: spec_fn(Seq<u8>) -> nat,
    bound: nat,
    n: Seq<u8>,
) -> (r: Seq<u8>)
    requires
        is_frontier(g, roots),
        ranked(g, rank, bound),
        g.contains_key(n),
    ensures
        roots.contains(r),
        reaches(g, r, n),
    decreases bound - rank(n),
{
    if roots.contains(n) {
        lemma_descends_self(g, Set::empty(), n);
        n
    } else {
        assert(has_dependent(g, n));
        let m = choose|m: Seq<u8>| edge(g, m, n);
        assert(edge(g, m, n));
        assert(g.contains_key(m));
        let r = lemma_some_root_reaches(g, roots, rank, bound, m);
        lemma_descends_append(g, Set::empty(), r, m, n);
        r
    }
}

/// Above the empty search set the next frontier is the set of all leaves.
pub proof fn lemma_frontier_above_nothing(g: Graph, roots: Set<Seq<u8>>)
    requires
        is_frontier(g, roots),
        acyclic(g),
    ensures
        next_frontier(g, roots, Set::empty()) == Set::new(
            |n: Seq<u8>| g.contains_key(n) && g[n].is_leaf(),
        ),
{
    let none = Set::<Seq<u8>>::empty();
    let leaves = Set::new(|n: Seq<u8>| g.contains_key(n) && g[n].is_leaf());
    let (rank, bound) = choose|rank: spec_fn(Seq<u8>) -> nat, bound: nat| ranked(g, rank, bound);
    assert forall|n: Seq<u8>| next_frontier(g, roots, none).contains(n) == leaves.contains(n) by {
        if g.contains_key(n) && g[n].is_leaf() {
            let r = lemma_some_root_reaches(g, roots, rank, bound, n);
            assert(descends(g, none, r, n));
        }
        if meets(g, none, n) {
            let d = choose|d: Seq<u8>| #[trigger] edge(g, n, d) && none.contains(d);
        }
    }
    assert(next_frontier(g, roots, none) =~= leaves);
}

/// Members of the search set that are not in the graph play no part.
pub proof fn lemma_frontier_ignores_strangers(
    g: Graph,
    roots: Set<Seq<u8>>,
    search: Set<Seq<u8>>,
)
    requires
        closed_under_dependencies(g),
    ensures
        next_frontier(g, roots, search) == next_frontier(g, roots, search.intersect(g.dom())),
{
    let known = search.intersect(g.dom());
    assert forall|p: Seq<Seq<u8>>| links(g, search, p) == links(g, known, p) by {
        if links(g, known, p) {
            assert forall|i: int| 1 <= i < p.len() implies !search.contains(#[trigger] p[i]) by {
                assert(edge(g, p[i - 1], p[i - 1 + 1]));
                assert(g.contains_key(p[i]));
                assert(!known.contains(p[i]));
            }
        }
        if links(g, search, p) {
            assert forall|i: int| 1 <= i < p.len() implies !known.contains(#[trigger] p[i]) by {
                assert(!search.contains(p[i]));
            }
        }
    }
    assert forall|n: Seq<u8>|
        next_frontier(g, roots, search).contains(n) == next_frontier(g, roots, known).contains(
            n,
        ) by {
        if explored(g, roots, search, n) {
            let r = choose|r: Seq<u8>| roots.contains(r) && #[trigger] descends(g, search, r, n);
            let p = choose|p: Seq<Seq<u8>>| #[trigger]
                links(g, search, p) && p[0] == r && p.last() == n;
            assert(links(g, known, p));
            assert(descends(g, known, r, n));
        }
        if explored(g, roots, known, n) {
            let r = choose|r: Seq<u8>| roots.contains(r) && #[trigger] descends(g, known, r, n);
            let p = choose|p: Seq<Seq<u8>>| #[trigger]
                links(g, known, p) && p[0] == r && p.last() == n;
            assert(links(g, search, p));
            assert(descends(g, search, r, n));
        }
        if meets(g, search, n) {
            let d = choose|d: Seq<u8>| #[trigger] edge(g, n, d) && search.contains(d);
            assert(g.contains_key(d));
            assert(edge(g, n, d) && known.contains(d));
        }
        if meets(g, known, n) {
            let d = choose|d: Seq<u8>| #[trigger] edge(g, n, d) && known.contains(d);
            assert(edge(g, n, d) && search.contains(d));
        }
    }
    assert(next_frontier(g, roots, search) =~= next_frontier(g, roots, known));
}

} // verus!
