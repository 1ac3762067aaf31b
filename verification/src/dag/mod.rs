//! The Merkle DAG: a growing set of content-addressed nodes with the
//! frontier of its roots.

use crate::graph::{
    after_add, can_add, descends, edge, explored, lemma_add_keeps_well_formed,
    lemma_descends_append, lemma_descends_self, lemma_descends_unfold, lemma_empty_is_well_formed,
    lemma_pending_push, lemma_unfold_sum_step, meets, next_frontier, on_next_frontier, pending,
    ranked, reaches, unfold_size, unfold_sum, well_formed, DagState, Graph,
};
use crate::hash::HashWriter;
use crate::idset::{copy_bytes, ids_view, lemma_push_to_set, strictly_increasing, IdSet};
use crate::lex::bytes_equal;
use crate::node::{node_digest, Node, NodeView};
use crate::store::{BTreeStore, Store, StoreError};
use std::marker::PhantomData;
use vstd::pervasive::unreached;
use vstd::prelude::*;

mod ancestry;
mod iter;
pub use ancestry::{
    compare_spec, lemma_compare_exact, lemma_compare_meaning, lemma_roots_are_uncomparable,
    lemma_some_root_is_after,
};
pub use iter::Missing;

verus! {

/// How two nodes of a DAG stand to each other.
#[derive(PartialEq, Eq, Debug, Clone, Copy, Structural)]
pub enum NodeCompare {
    /// The left node depends, directly or through others, on the right one.
    After,
    /// The right node depends, directly or through others, on the left one.
    Before,
    /// Both are the same node.
    Equivalent,
    /// Neither depends on the other.
    Uncomparable,
}

/// The identifiers that the nodes in `nodes` carry, in the same order.
pub open spec fn node_ids<HW: HashWriter>(nodes: Seq<Node<HW>>) -> Seq<Seq<u8>> {
    nodes.map_values(|n: Node<HW>| n.spec_id())
}

/// Some entry of `agenda` leads to `x` without entering `search`.
spec fn covered(g: Graph, search: Set<Seq<u8>>, agenda: Seq<(Seq<u8>, nat)>, x: Seq<u8>) -> bool {
    exists|i: int| 0 <= i < agenda.len() && descends(g, search, (#[trigger] agenda[i]).0, x)
}

/// Some identifier of `ds` from position `j` on is outside `search` and
/// leads to `x` without entering `search`.
spec fn covered_from(g: Graph, search: Set<Seq<u8>>, ds: Seq<Seq<u8>>, j: int, x: Seq<u8>) -> bool {
    exists|m: int|
        j <= m < ds.len() && !search.contains(#[trigger] ds[m]) && descends(g, search, ds[m], x)
}

/// Some identifier of `ds` from position `j` on is in `search`.
spec fn meets_from(search: Set<Seq<u8>>, ds: Seq<Seq<u8>>, j: int) -> bool {
    exists|m: int| j <= m < ds.len() && search.contains(#[trigger] ds[m])
}

/// A Merkle DAG over the store `S` and the hash algorithm `HW`.
///
/// The DAG holds its nodes in the store and keeps the set of its roots, the
/// nodes that no other node depends on. Nodes are only ever added, and a
/// node can be added only after everything it depends on.
#[derive(Debug)]
pub struct Merkle<S: Store<HW>, HW: HashWriter> {
    roots: IdSet,
    nodes: S,
    _phantom_node: PhantomData<HW>,
}

impl<S: Store<HW>, HW: HashWriter> Merkle<S, HW> {
    /// The store that holds the nodes.
    pub closed spec fn spec_nodes(&self) -> S {
        self.nodes
    }

    /// The set that holds the roots.
    pub closed spec fn spec_roots(&self) -> IdSet {
        self.roots
    }

    /// The nodes of the DAG, by identifier.
    pub open spec fn graph(&self) -> Graph {
        self.spec_nodes().contents()
    }

    /// The identifiers of the roots.
    pub open spec fn frontier(&self) -> Set<Seq<u8>> {
        self.spec_roots()@
    }

    /// The nodes and the roots together.
    pub open spec fn state(&self) -> DagState {
        DagState { nodes: self.graph(), roots: self.frontier() }
    }

    /// Whether no operation on the store can fail.
    pub open spec fn infallible(&self) -> bool {
        self.spec_nodes().infallible()
    }

    /// The invariants of the DAG: every node is kept under its own
    /// identifier, whatever a node depends on is in the DAG, the roots are
    /// exactly the nodes that nothing depends on, and no node depends on
    /// itself, directly or through others.
    pub open spec fn wf(&self) -> bool {
        &&& self.spec_roots().wf()
        &&& self.spec_nodes().inv()
        &&& well_formed::<HW>(self.graph(), self.frontier())
    }

    /// The DAG without nodes, over the empty store `s`.
    pub fn new(s: S) -> (dag: Self)
        requires
            s.inv(),
            s.contents() == Map::<Seq<u8>, NodeView>::empty(),
        ensures
            dag.wf(),
            dag.spec_nodes() == s,
            dag.frontier() == Set::<Seq<u8>>::empty(),
    {
        proof {
            lemma_empty_is_well_formed::<HW>();
        }
        Merkle { nodes: s, roots: IdSet::new(), _phantom_node: PhantomData }
    }

    /// Adds the node with the payload `item` that depends on
    /// `dependency_ids`, and gives its identifier.
    ///
    /// A node that the DAG already has is not added again. A node that
    /// depends on something that the DAG does not have is refused with
    /// `NoSuchDependents`. Whenever an error is returned the DAG is as it
    /// was.
    pub fn add_node(&mut self, item: Vec<u8>, dependency_ids: IdSet) -> (r: Result<
        Vec<u8>,
        StoreError,
    >)
        requires
            old(self).wf(),
            dependency_ids.wf(),
        ensures
            final(self).wf(),
            final(self).infallible() == old(self).infallible(),
            ({
                let v = NodeView { item: item@, dependency_ids: dependency_ids.listing() };
                let before = old(self).state();
                match r {
                    Ok(id) => {
                        &&& id@ == node_digest::<HW>(item@, dependency_ids.listing())
                        &&& before.nodes.contains_key(id@) || can_add(before.nodes, v)
                        &&& final(self).state() == after_add::<HW>(before, v)
                    },
                    Err(StoreError::NoSuchDependents) => {
                        &&& !before.nodes.contains_key(v.id::<HW>())
                        &&& !can_add(before.nodes, v)
                        &&& final(self).state() == before
                    },
                    Err(StoreError::StoreFailure(_)) => {
                        &&& !old(self).infallible()
                        &&& final(self).state() == before
                    },
                }
            }),
    {
        let ghost v = NodeView { item: item@, dependency_ids: dependency_ids.listing() };
        let ghost before = self.state();
        let node = Node::<HW>::new(item, dependency_ids);
        let id = copy_bytes(node.id());
        match self.nodes.contains(id.as_slice()) {
            Err(e) => {
                return Err(e);
            },
            Ok(true) => {
                return Ok(id);
            },
            Ok(false) => {},
        }
        let mut root_removals: Vec<Vec<u8>> = Vec::new();
        let deps = node.dependency_ids();
        let n = deps.len();
        let mut i: usize = 0;
        assert(v.dependency_ids.take(0) =~= Seq::<Seq<u8>>::empty());
        assert(ids_view(root_removals@) =~= Seq::<Seq<u8>>::empty());
        while i < n
            invariant
                self.wf(),
                self.state() == before,
                before == old(self).state(),
                v == (NodeView { item: item@, dependency_ids: dependency_ids.listing() }),
                self.infallible() == old(self).infallible(),
                !before.nodes.contains_key(v.id::<HW>()),
                deps.wf(),
                deps.listing() == v.dependency_ids,
                n == v.dependency_ids.len(),
                i <= n,
                forall|j: int| 0 <= j < i ==> before.nodes.contains_key(#[trigger] v.dependency_ids[j]),
                ids_view(root_removals@).to_set() == before.roots.intersect(
                    v.dependency_ids.take(i as int).to_set(),
                ),
            decreases n - i,
        {
            let dep = deps.get(i);
            assert(dep@ == v.dependency_ids[i as int]);
            match self.nodes.contains(dep.as_slice()) {
                Err(e) => {
                    return Err(e);
                },
                Ok(false) => {
                    assert(v.dependency_ids.contains(dep@));
                    return Err(StoreError::NoSuchDependents);
                },
                Ok(true) => {},
            }
            let ghost removed = ids_view(root_removals@);
            let ghost seen = v.dependency_ids.take(i as int);
            proof {
                lemma_push_to_set(seen, dep@);
                lemma_push_to_set(removed, dep@);
                assert(v.dependency_ids.take(i + 1) =~= seen.push(dep@));
            }
            if self.roots.contains(dep.as_slice()) {
                root_removals.push(copy_bytes(dep.as_slice()));
                assert(ids_view(root_removals@) =~= removed.push(dep@));
                assert(removed.to_set().insert(dep@) =~= before.roots.intersect(
                    seen.to_set().insert(dep@),
                ));
            } else {
                assert(removed.to_set() =~= before.roots.intersect(seen.to_set().insert(dep@)));
            }
            i += 1;
        }
        assert(v.dependency_ids.take(n as int) =~= v.dependency_ids);
        assert(can_add(before.nodes, v)) by {
            assert forall|d: Seq<u8>| #[trigger]
                v.dependency_ids.contains(d) implies before.nodes.contains_key(d) by {
                let j = choose|j: int| 0 <= j < v.dependency_ids.len() && v.dependency_ids[j] == d;
                assert(before.nodes.contains_key(v.dependency_ids[j]));
            }
        }
        match self.nodes.store(node) {
            Err(e) => {
                return Err(e);
            },
            Ok(_) => {},
        }
        let ghost removals = ids_view(root_removals@);
        let m = root_removals.len();
        let mut j: usize = 0;
        assert(removals.take(0) =~= Seq::<Seq<u8>>::empty());
        assert(self.roots@ =~= before.roots.difference(removals.take(0).to_set()));
        while j < m
            invariant
                self.roots.wf(),
                self.nodes.inv(),
                self.nodes.contents() == before.nodes.insert(v.id::<HW>(), v),
                self.infallible() == old(self).infallible(),
                m == root_removals@.len(),
                removals == ids_view(root_removals@),
                j <= m,
                self.roots@ == before.roots.difference(removals.take(j as int).to_set()),
            decreases m - j,
        {
            let ghost done = removals.take(j as int);
            proof {
                lemma_push_to_set(done, removals[j as int]);
                assert(removals.take(j + 1) =~= done.push(removals[j as int]));
                assert(removals[j as int] == root_removals@[j as int]@);
            }
            self.roots.remove(root_removals[j].as_slice());
            assert(self.roots@ =~= before.roots.difference(done.to_set().insert(removals[j as int])));
            j += 1;
        }
        self.roots.insert(copy_bytes(id.as_slice()));
        proof {
            assert(removals.take(m as int) =~= removals);
            assert(before.roots.difference(removals.to_set()) =~= before.roots.difference(
                v.dependency_ids.to_set(),
            ));
            lemma_add_keeps_well_formed::<HW>(before, v);
            assert(self.frontier() =~= after_add::<HW>(before, v).roots);
        }
        Ok(id)
    }

    /// Whether the DAG has a node with the identifier `id`.
    pub fn check_for_node(&self, id: &[u8]) -> (r: Result<bool, StoreError>)
        requires
            self.wf(),
        ensures
            match r {
                Ok(b) => b == self.graph().contains_key(id@),
                Err(e) => e is StoreFailure && !self.infallible(),
            },
    {
        self.nodes.contains(id)
    }

    /// The node with the identifier `id`, if the DAG has it.
    pub fn get_node_by_id(&self, id: &[u8]) -> (r: Result<Option<Node<HW>>, StoreError>)
        requires
            self.wf(),
        ensures
            match r {
                Ok(Some(node)) => {
                    &&& self.graph().contains_key(id@)
                    &&& node@ == self.graph()[id@]
                    &&& node.wf()
                    &&& node.spec_id() == id@
                },
                Ok(None) => !self.graph().contains_key(id@),
                Err(e) => e is StoreFailure && !self.infallible(),
            },
    {
        let r = self.nodes.get(id);
        proof {
            if let Ok(Some(node)) = &r {
                node.lemma_wf();
            }
        }
        r
    }

    /// The identifiers of the roots: the nodes that no other node depends on.
    pub fn get_roots(&self) -> (roots: &IdSet)
        ensures
            *roots == self.spec_roots(),
            roots@ == self.frontier(),
    {
        &self.roots
    }

    /// The store that holds the nodes of the DAG.
    pub fn get_nodes(&self) -> (nodes: &S)
        ensures
            *nodes == self.spec_nodes(),
            nodes.contents() == self.graph(),
    {
        &self.nodes
    }

    /// Compares two nodes by their identifiers.
    ///
    /// `Equivalent` when both are the same identifier; `Before` when `right`
    /// depends on `left`, directly or through other nodes; `After` when
    /// `left` depends on `right`; `Uncomparable` otherwise.
    pub fn compare(&self, left: &[u8], right: &[u8]) -> (r: Result<NodeCompare, StoreError>)
        requires
            self.wf(),
        ensures
            match r {
                Ok(c) => c == compare_spec(self.graph(), left@, right@),
                Err(e) => e is StoreFailure && !self.infallible() && left@ != right@,
            },
    {
        if bytes_equal(left, right) {
            return Ok(NodeCompare::Equivalent);
        }
        match self.search_graph(right, left) {
            Err(e) => {
                return Err(e);
            },
            Ok(true) => {
                return Ok(NodeCompare::Before);
            },
            Ok(false) => {},
        }
        match self.search_graph(left, right) {
            Err(e) => Err(e),
            Ok(true) => Ok(NodeCompare::After),
            Ok(false) => Ok(NodeCompare::Uncomparable),
        }
    }

    /// An iterator over the frontiers above `search_nodes`, one batch of
    /// nodes at a time.
    pub fn gap_fill_iter<'dag>(&'dag self, search_nodes: IdSet) -> (missing: Missing<'dag, S, HW>)
        ensures
            missing.spec_dag() == *self,
            missing.spec_root_nodes() == search_nodes,
    {
        Missing::new(self, search_nodes)
    }

    /// The nodes of the next frontier above `search_nodes`, in ascending
    /// order of identifier.
    ///
    /// The descent starts at every root and follows the dependency edges,
    /// but never enters a member of `search_nodes`. Of the nodes it arrives
    /// at, those belong to the frontier that are leaves or depend directly
    /// on a member of `search_nodes`. Members of `search_nodes` that the DAG
    /// does not have play no part.
    pub fn find_next_non_descendant_nodes(&self, search_nodes: &IdSet) -> (r: Result<
        Vec<Node<HW>>,
        StoreError,
    >)
        requires
            self.wf(),
            search_nodes.wf(),
        ensures
            match r {
                Ok(nodes) => {
                    &&& node_ids(nodes@).to_set() == next_frontier(
                        self.graph(),
                        self.frontier(),
                        search_nodes@,
                    )
                    &&& strictly_increasing(node_ids(nodes@))
                    &&& forall|i: int|
                        0 <= i < nodes@.len() ==> {
                            &&& (#[trigger] nodes@[i]).wf()
                            &&& self.graph().contains_key(nodes@[i].spec_id())
                            &&& nodes@[i]@ == self.graph()[nodes@[i].spec_id()]
                        }
                },
                Err(e) => e is StoreFailure && !self.infallible(),
            },
    {
        let ghost g = self.graph();
        let ghost roots = self.frontier();
        let ghost search = search_nodes@;
        let ghost (rank, bound) = choose|rank: spec_fn(Seq<u8>) -> nat, bound: nat|
            ranked(g, rank, bound);
        let mut stack: Vec<Vec<u8>> = Vec::new();
        let ghost mut agenda: Seq<(Seq<u8>, nat)> = Seq::empty();
        let root_count = self.roots.len();
        let mut r: usize = 0;
        while r < root_count
            invariant
                self.wf(),
                g == self.graph(),
                roots == self.frontier(),
                root_count == self.roots.listing().len(),
                r <= root_count,
                agenda.len() == stack@.len(),
                agenda.len() == r,
                forall|i: int|
                    0 <= i < agenda.len() ==> {
                        &&& (#[trigger] stack@[i])@ == agenda[i].0
                        &&& agenda[i].0 == self.roots.listing()[i]
                        &&& agenda[i].1 == rank(agenda[i].0)
                    },
            decreases root_count - r,
        {
            let root = self.roots.get(r);
            stack.push(copy_bytes(root.as_slice()));
            proof {
                agenda = agenda.push((root@, rank(root@)));
            }
            r += 1;
        }
        let mut ids = IdSet::new();
        proof {
            assert forall|i: int| 0 <= i < agenda.len() implies g.contains_key(
                (#[trigger] agenda[i]).0,
            ) && explored(g, roots, search, agenda[i].0) by {
                assert(stack@[i]@ == agenda[i].0);
                assert(roots.contains(self.roots.listing()[i]));
                lemma_descends_self(g, search, agenda[i].0);
            }
            assert forall|x: Seq<u8>| #[trigger]
                on_next_frontier(g, roots, search, x) implies covered(g, search, agenda, x) by {
                let root = choose|root: Seq<u8>|
                    roots.contains(root) && #[trigger] descends(g, search, root, x);
                let i = choose|i: int|
                    0 <= i < self.roots.listing().len() && self.roots.listing()[i] == root;
                assert(stack@[i]@ == agenda[i].0);
                assert(descends(g, search, agenda[i].0, x));
            }
        }
        while stack.len() > 0
            invariant
                self.wf(),
                search_nodes.wf(),
                g == self.graph(),
                roots == self.frontier(),
                search == search_nodes@,
                ranked(g, rank, bound),
                ids.wf(),
                agenda.len() == stack@.len(),
                forall|i: int|
                    0 <= i < agenda.len() ==> {
                        &&& (#[trigger] stack@[i])@ == agenda[i].0
                        &&& g.contains_key(agenda[i].0)
                        &&& rank(agenda[i].0) <= agenda[i].1
                        &&& explored(g, roots, search, agenda[i].0)
                    },
                forall|x: Seq<u8>| #[trigger] ids@.contains(x) ==> on_next_frontier(g, roots, search, x),
                forall|x: Seq<u8>| #[trigger]
                    on_next_frontier(g, roots, search, x) ==> ids@.contains(x) || covered(
                        g,
                        search,
                        agenda,
                        x,
                    ),
            decreases pending(g, agenda),
        {
            let ghost agenda_before = agenda;
            let ghost (k, fuel) = agenda.last();
            let node_id = stack.pop().unwrap();
            proof {
                agenda = agenda.drop_last();
            }
            let ghost rest = agenda;
            let node = match self.nodes.get(node_id.as_slice()) {
                Err(e) => {
                    return Err(e);
                },
                Ok(None) => {
                    return unreached();
                },
                Ok(Some(node)) => node,
            };
            proof {
                node.lemma_wf();
            }
            let deps = node.dependency_ids();
            let n = deps.len();
            let ghost ds = deps.listing();
            if n == 0 {
                ids.insert(copy_bytes(node.id()));
            }
            proof {
                if n > 0 {
                    assert(g[k].dependency_ids.contains(ds[0]));
                    assert(edge(g, k, ds[0]));
                    assert(fuel > 0);
                }
                assert(ds.skip(0) =~= ds);
                assert forall|x: Seq<u8>| #[trigger]
                    on_next_frontier(g, roots, search, x) implies ids@.contains(x) || covered(
                    g,
                    search,
                    agenda,
                    x,
                ) || covered_from(g, search, ds, 0, x) || (x == k && meets_from(search, ds, 0)) by {
                    if !ids@.contains(x) {
                        assert(covered(g, search, agenda_before, x));
                        let i = choose|i: int|
                            0 <= i < agenda_before.len() && descends(
                                g,
                                search,
                                (#[trigger] agenda_before[i]).0,
                                x,
                            );
                        if i == agenda_before.len() - 1 {
                            if x == k {
                                let d = choose|d: Seq<u8>| #[trigger]
                                    edge(g, x, d) && search.contains(d);
                                let m = choose|m: int| 0 <= m < ds.len() && ds[m] == d;
                                assert(search.contains(ds[m]));
                            } else {
                                let d = lemma_descends_unfold(g, search, k, x);
                                let m = choose|m: int| 0 <= m < ds.len() && ds[m] == d;
                                assert(!search.contains(ds[m]) && descends(g, search, ds[m], x));
                            }
                        } else {
                            assert(descends(g, search, agenda[i].0, x));
                        }
                    }
                }
            }
            let mut j: usize = 0;
            while j < n
                invariant
                    self.wf(),
                    search_nodes.wf(),
                    g == self.graph(),
                    roots == self.frontier(),
                    search == search_nodes@,
                    ranked(g, rank, bound),
                    ids.wf(),
                    node.wf(),
                    node.spec_id() == k,
                    deps.wf(),
                    ds == deps.listing(),
                    ds == g[k].dependency_ids,
                    n == ds.len(),
                    j <= n,
                    g.contains_key(k),
                    explored(g, roots, search, k),
                    rank(k) <= fuel,
                    n > 0 ==> fuel > 0,
                    agenda.len() == stack@.len(),
                    forall|i: int|
                        0 <= i < agenda.len() ==> {
                            &&& (#[trigger] stack@[i])@ == agenda[i].0
                            &&& g.contains_key(agenda[i].0)
                            &&& rank(agenda[i].0) <= agenda[i].1
                            &&& explored(g, roots, search, agenda[i].0)
                        },
                    pending(g, agenda) + unfold_sum(g, ds.skip(j as int), (fuel - 1) as nat)
                        <= pending(g, rest) + unfold_sum(g, ds, (fuel - 1) as nat),
                    forall|x: Seq<u8>| #[trigger]
                        ids@.contains(x) ==> on_next_frontier(g, roots, search, x),
                    forall|x: Seq<u8>| #[trigger]
                        on_next_frontier(g, roots, search, x) ==> ids@.contains(x) || covered(
                            g,
                            search,
                            agenda,
                            x,
                        ) || covered_from(g, search, ds, j as int, x) || (x == k && meets_from(
                            search,
                            ds,
                            j as int,
                        )),
                decreases n - j,
            {
                let dep = deps.get(j);
                let ghost agenda_old = agenda;
                let ghost ids_old = ids@;
                proof {
                    assert(g[k].dependency_ids.contains(ds[j as int]));
                    assert(edge(g, k, dep@));
                    lemma_unfold_sum_step(g, ds, j as int, (fuel - 1) as nat);
                }
                if search_nodes.contains(dep.as_slice()) {
                    ids.insert(copy_bytes(node.id()));
                    proof {
                        assert(meets(g, search, k));
                    }
                } else {
                    stack.push(copy_bytes(dep.as_slice()));
                    proof {
                        agenda = agenda.push((dep@, (fuel - 1) as nat));
                        lemma_pending_push(g, agenda_old, dep@, (fuel - 1) as nat);
                        assert forall|i: int| 0 <= i < agenda_old.len() implies agenda[i]
                            == agenda_old[i] by {}
                        let root = choose|root: Seq<u8>|
                            roots.contains(root) && #[trigger] descends(g, search, root, k);
                        lemma_descends_append(g, search, root, k, dep@);
                    }
                }
                proof {
                    assert forall|x: Seq<u8>| #[trigger]
                        on_next_frontier(g, roots, search, x) implies ids@.contains(x) || covered(
                        g,
                        search,
                        agenda,
                        x,
                    ) || covered_from(g, search, ds, j + 1, x) || (x == k && meets_from(
                        search,
                        ds,
                        j + 1,
                    )) by {
                        if ids_old.contains(x) {
                        } else if covered(g, search, agenda_old, x) {
                            let i = choose|i: int|
                                0 <= i < agenda_old.len() && descends(
                                    g,
                                    search,
                                    (#[trigger] agenda_old[i]).0,
                                    x,
                                );
                            assert(agenda[i] == agenda_old[i]);
                            assert(descends(g, search, agenda[i].0, x));
                        } else if covered_from(g, search, ds, j as int, x) {
                            let m = choose|m: int|
                                j <= m < ds.len() && !search.contains(#[trigger] ds[m]) && descends(
                                    g,
                                    search,
                                    ds[m],
                                    x,
                                );
                            if m == j {
                                assert(agenda[agenda.len() - 1].0 == dep@);
                                assert(descends(g, search, agenda[agenda.len() - 1].0, x));
                            } else {
                                assert(j + 1 <= m);
                            }
                        } else {
                            let m = choose|m: int|
                                j <= m < ds.len() && search.contains(#[trigger] ds[m]);
                            if m == j {
                            } else {
                                assert(j + 1 <= m);
                            }
                        }
                    }
                }
                j += 1;
            }
            proof {
                assert(ds.skip(n as int) =~= Seq::<Seq<u8>>::empty());
                assert(agenda_before.drop_last() == rest);
                assert(unfold_size(g, k, fuel) >= 1);
            }
        }
        let mut result: Vec<Node<HW>> = Vec::new();
        let count = ids.len();
        let mut i: usize = 0;
        assert(node_ids(result@) =~= ids.listing().take(0));
        while i < count
            invariant
                self.wf(),
                g == self.graph(),
                ids.wf(),
                count == ids.listing().len(),
                i <= count,
                forall|x: Seq<u8>| #[trigger] ids@.contains(x) ==> g.contains_key(x),
                node_ids(result@) == ids.listing().take(i as int),
                forall|m: int|
                    0 <= m < result@.len() ==> {
                        &&& (#[trigger] result@[m]).wf()
                        &&& g.contains_key(result@[m].spec_id())
                        &&& result@[m]@ == g[result@[m].spec_id()]
                    },
            decreases count - i,
        {
            let id = ids.get(i);
            let ghost fetched = result@;
            match self.nodes.get(id.as_slice()) {
                Err(e) => {
                    return Err(e);
                },
                Ok(None) => {
                    return unreached();
                },
                Ok(Some(node)) => {
                    proof {
                        node.lemma_wf();
                    }
                    result.push(node);
                },
            }
            i += 1;
            proof {
                assert(node_ids(result@) =~= node_ids(fetched).push(id@));
                assert(ids.listing().take(i as int) =~= ids.listing().take(i - 1).push(id@));
            }
        }
        proof {
            assert(ids.listing().take(count as int) =~= ids.listing());
            assert(node_ids(result@).to_set() =~= next_frontier(g, roots, search)) by {
                assert forall|x: Seq<u8>| ids@.contains(x) == next_frontier(
                    g,
                    roots,
                    search,
                ).contains(x) by {
                    if on_next_frontier(g, roots, search, x) {
                        assert(!covered(g, search, agenda, x));
                    }
                }
            }
        }
        Ok(result)
    }

    /// Whether `search_id` is `root_id` itself or can be reached from it
    /// along dependency edges.
    ///
    /// The search goes depth first from `root_id` and stops at the first
    /// match. An identifier that the DAG does not have reaches only itself.
    /// Every dependency that the search meets is in the store, because the
    /// DAG is closed under dependencies.
    pub fn search_graph(&self, root_id: &[u8], search_id: &[u8]) -> (r: Result<bool, StoreError>)
        requires
            self.wf(),
        ensures
            match r {
                Ok(b) => b == reaches(self.graph(), root_id@, search_id@),
                Err(e) => e is StoreFailure && !self.infallible() && root_id@ != search_id@,
            },
    {
        let ghost g = self.graph();
        let ghost none = Set::<Seq<u8>>::empty();
        if bytes_equal(root_id, search_id) {
            proof {
                lemma_descends_self(g, none, root_id@);
            }
            return Ok(true);
        }
        let root_node = match self.nodes.get(root_id) {
            Err(e) => {
                return Err(e);
            },
            Ok(None) => {
                proof {
                    if reaches(g, root_id@, search_id@) {
                        let d = lemma_descends_unfold(g, none, root_id@, search_id@);
                    }
                }
                return Ok(false);
            },
            Ok(Some(node)) => node,
        };
        let ghost (rank, bound) = choose|rank: spec_fn(Seq<u8>) -> nat, bound: nat|
            ranked(g, rank, bound);
        let mut stack: Vec<Node<HW>> = Vec::new();
        stack.push(root_node);
        let ghost mut agenda: Seq<(Seq<u8>, nat)> = seq![(root_id@, rank(root_id@))];
        proof {
            lemma_descends_self(g, none, root_id@);
            assert(agenda[0].0 == root_id@);
        }
        while stack.len() > 0
            invariant
                self.wf(),
                g == self.graph(),
                none == Set::<Seq<u8>>::empty(),
                ranked(g, rank, bound),
                root_id@ != search_id@,
                agenda.len() == stack@.len(),
                forall|i: int|
                    0 <= i < agenda.len() ==> {
                        &&& (#[trigger] stack@[i]).wf()
                        &&& g.contains_key(agenda[i].0)
                        &&& stack@[i]@ == g[agenda[i].0]
                        &&& rank(agenda[i].0) <= agenda[i].1
                        &&& reaches(g, root_id@, agenda[i].0)
                    },
                reaches(g, root_id@, search_id@) ==> exists|i: int|
                    0 <= i < agenda.len() && reaches(g, (#[trigger] agenda[i]).0, search_id@)
                        && agenda[i].0 != search_id@,
            decreases pending(g, agenda),
        {
            let ghost agenda_before = agenda;
            let ghost (k, fuel) = agenda.last();
            let node = stack.pop().unwrap();
            proof {
                agenda = agenda.drop_last();
            }
            let ghost rest = agenda;
            let deps = node.dependency_ids();
            let n = deps.len();
            let ghost ds = deps.listing();
            proof {
                assert(ds == g[k].dependency_ids);
                if n > 0 {
                    assert(g[k].dependency_ids.contains(ds[0]));
                    assert(edge(g, k, ds[0]));
                    assert(fuel > 0);
                }
                assert(ds.skip(0) =~= ds);
                if reaches(g, root_id@, search_id@) {
                    let i = choose|i: int|
                        0 <= i < agenda_before.len() && reaches(
                            g,
                            (#[trigger] agenda_before[i]).0,
                            search_id@,
                        ) && agenda_before[i].0 != search_id@;
                    if i == agenda_before.len() - 1 {
                        let d = lemma_descends_unfold(g, none, k, search_id@);
                        let j = choose|j: int| 0 <= j < ds.len() && ds[j] == d;
                        assert(reaches(g, ds[j], search_id@));
                    } else {
                        assert(reaches(g, agenda[i].0, search_id@));
                    }
                }
            }
            let mut j: usize = 0;
            while j < n
                invariant
                    self.wf(),
                    g == self.graph(),
                    none == Set::<Seq<u8>>::empty(),
                    ranked(g, rank, bound),
                    root_id@ != search_id@,
                    deps.wf(),
                    ds == deps.listing(),
                    ds == g[k].dependency_ids,
                    n == ds.len(),
                    j <= n,
                    g.contains_key(k),
                    reaches(g, root_id@, k),
                    rank(k) <= fuel,
                    n > 0 ==> fuel > 0,
                    agenda.len() == stack@.len(),
                    forall|i: int|
                        0 <= i < agenda.len() ==> {
                            &&& (#[trigger] stack@[i]).wf()
                            &&& g.contains_key(agenda[i].0)
                            &&& stack@[i]@ == g[agenda[i].0]
                            &&& rank(agenda[i].0) <= agenda[i].1
                            &&& reaches(g, root_id@, agenda[i].0)
                        },
                    pending(g, agenda) + unfold_sum(g, ds.skip(j as int), (fuel - 1) as nat)
                        == pending(g, rest) + unfold_sum(g, ds, (fuel - 1) as nat),
                    reaches(g, root_id@, search_id@) ==> (exists|i: int|
                        0 <= i < agenda.len() && reaches(g, (#[trigger] agenda[i]).0, search_id@)
                            && agenda[i].0 != search_id@) || (exists|m: int|
                        j <= m < n && reaches(g, #[trigger] ds[m], search_id@)),
                decreases n - j,
            {
                let dep = deps.get(j);
                proof {
                    assert(g[k].dependency_ids.contains(ds[j as int]));
                    assert(edge(g, k, dep@));
                    lemma_descends_append(g, none, root_id@, k, dep@);
                    lemma_unfold_sum_step(g, ds, j as int, (fuel - 1) as nat);
                }
                if bytes_equal(search_id, dep.as_slice()) {
                    return Ok(true);
                }
                match self.nodes.get(dep.as_slice()) {
                    Err(e) => {
                        return Err(e);
                    },
                    Ok(None) => {
                        return unreached();
                    },
                    Ok(Some(next)) => {
                        let ghost agenda_old = agenda;
                        stack.push(next);
                        proof {
                            agenda = agenda.push((dep@, (fuel - 1) as nat));
                            lemma_pending_push(g, agenda_old, dep@, (fuel - 1) as nat);
                            assert(agenda[agenda.len() - 1].0 == dep@);
                            assert forall|i: int| 0 <= i < agenda_old.len() implies agenda[i]
                                == agenda_old[i] by {}
                            if reaches(g, root_id@, search_id@) {
                                if exists|i: int|
                                    0 <= i < agenda_old.len() && reaches(
                                        g,
                                        (#[trigger] agenda_old[i]).0,
                                        search_id@,
                                    ) && agenda_old[i].0 != search_id@ {
                                    let i = choose|i: int|
                                        0 <= i < agenda_old.len() && reaches(
                                            g,
                                            (#[trigger] agenda_old[i]).0,
                                            search_id@,
                                        ) && agenda_old[i].0 != search_id@;
                                    assert(reaches(g, agenda[i].0, search_id@));
                                } else {
                                    let m = choose|m: int|
                                        j <= m < n && reaches(g, #[trigger] ds[m], search_id@);
                                    if m == j {
                                        assert(reaches(g, agenda[agenda.len() - 1].0, search_id@));
                                    } else {
                                        assert(j + 1 <= m < n && reaches(g, ds[m], search_id@));
                                    }
                                }
                            }
                        }
                    },
                }
                j += 1;
            }
            proof {
                assert(ds.skip(n as int) =~= Seq::<Seq<u8>>::empty());
                assert(agenda_before.drop_last() == rest);
            }
        }
        Ok(false)
    }
}

impl<S: Store<HW> + Clone, HW: HashWriter> Clone for Merkle<S, HW> {
    /// A DAG with the same roots over a clone of the store.
    fn clone(&self) -> (dag: Self)
        ensures
            dag.frontier() == self.frontier(),
            dag.spec_roots().listing() == self.spec_roots().listing(),
            cloned::<S>(self.spec_nodes(), dag.spec_nodes()),
    {
        Merkle { roots: self.roots.clone(), nodes: self.nodes.clone(), _phantom_node: PhantomData }
    }
}

impl<HW: HashWriter> Default for Merkle<BTreeStore<HW>, HW> {
    /// The DAG without nodes, over a store in memory.
    fn default() -> (dag: Self)
        ensures
            dag.wf(),
            dag.infallible(),
            dag.graph() == Map::<Seq<u8>, NodeView>::empty(),
            dag.frontier() == Set::<Seq<u8>>::empty(),
    {
        Merkle::new(BTreeStore::new())
    }
}

} // verus!
