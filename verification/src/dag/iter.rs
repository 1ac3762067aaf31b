//! Walking a DAG upwards, frontier by frontier, from what another replica
//! already has.

use crate::dag::{node_ids, Merkle};
use crate::graph::next_frontier;
use crate::hash::HashWriter;
use crate::idset::{copy_bytes, lemma_push_to_set, strictly_increasing, IdSet};
use crate::node::Node;
use crate::store::{Store, StoreError};
use vstd::prelude::*;

verus! {

/// Produces, batch by batch, the nodes of a DAG that lie above a search set.
///
/// Each batch is the next frontier above the current search set; the
/// identifiers of the batch then become the search set for the next one.
pub struct Missing<'dag, S: Store<HW>, HW: HashWriter> {
    dag: &'dag Merkle<S, HW>,
    root_nodes: IdSet,
}

impl<'dag, S: Store<HW>, HW: HashWriter> Missing<'dag, S, HW> {
    /// The DAG that is walked.
    pub closed spec fn spec_dag(&self) -> Merkle<S, HW> {
        *self.dag
    }

    /// The set that holds the current search set.
    pub closed spec fn spec_root_nodes(&self) -> IdSet {
        self.root_nodes
    }

    /// The current search set.
    pub open spec fn search(&self) -> Set<Seq<u8>> {
        self.spec_root_nodes()@
    }

    /// The DAG has its invariants and the search set is in order.
    pub open spec fn wf(&self) -> bool {
        &&& self.spec_dag().wf()
        &&& self.spec_root_nodes().wf()
    }

    /// Starts above `root_nodes`, typically the roots of the other replica.
    pub fn new(dag: &'dag Merkle<S, HW>, root_nodes: IdSet) -> (missing: Self)
        ensures
            missing.spec_dag() == *dag,
            missing.spec_root_nodes() == root_nodes,
    {
        Missing { dag, root_nodes }
    }

    /// The next batch of nodes, in ascending order of identifier, or `None`
    /// when the next frontier is empty.
    ///
    /// With a batch, the search set becomes the set of the identifiers of
    /// the batch. At the end of the sequence, and when the store fails, the
    /// search set stays as it was.
    pub fn next_nodes(&mut self) -> (r: Result<Option<Vec<Node<HW>>>, StoreError>)
        requires
            old(self).wf(),
        ensures
            final(self).wf(),
            final(self).spec_dag() == old(self).spec_dag(),
            ({
                let dag = old(self).spec_dag();
                let frontier = next_frontier(dag.graph(), dag.frontier(), old(self).search());
                match r {
                    Ok(Some(nodes)) => {
                        &&& nodes@.len() > 0
                        &&& node_ids(nodes@).to_set() == frontier
                        &&& strictly_increasing(node_ids(nodes@))
                        &&& forall|i: int|
                            0 <= i < nodes@.len() ==> {
                                &&& (#[trigger] nodes@[i]).wf()
                                &&& dag.graph().contains_key(nodes@[i].spec_id())
                                &&& nodes@[i]@ == dag.graph()[nodes@[i].spec_id()]
                            }
                        &&& final(self).search() == frontier
                    },
                    Ok(None) => {
                        &&& frontier == Set::<Seq<u8>>::empty()
                        &&& final(self).search() == old(self).search()
                    },
                    Err(e) => {
                        &&& e is StoreFailure
                        &&& !dag.infallible()
                        &&& final(self).search() == old(self).search()
                    },
                }
            }),
    {
        let nodes = match self.dag.find_next_non_descendant_nodes(&self.root_nodes) {
            Err(e) => {
                return Err(e);
            },
            Ok(nodes) => nodes,
        };
        if nodes.len() == 0 {
            assert(node_ids(nodes@).to_set() =~= Set::<Seq<u8>>::empty());
            return Ok(None);
        }
        let mut found = IdSet::new();
        let mut i: usize = 0;
        assert(node_ids(nodes@).take(0) =~= Seq::<Seq<u8>>::empty());
        while i < nodes.len()
            invariant
                i <= nodes@.len(),
                found.wf(),
                found@ == node_ids(nodes@).take(i as int).to_set(),
            decreases nodes@.len() - i,
        {
            let ghost seen = node_ids(nodes@).take(i as int);
            let id = copy_bytes(nodes[i].id());
            proof {
                lemma_push_to_set(seen, id@);
                assert(node_ids(nodes@).take(i + 1) =~= seen.push(id@));
            }
            found.insert(id);
            i += 1;
        }
        assert(node_ids(nodes@).take(nodes@.len() as int) =~= node_ids(nodes@));
        self.root_nodes = found;
        Ok(Some(nodes))
    }
}

} // verus!
