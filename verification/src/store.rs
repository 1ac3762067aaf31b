//! Where a DAG keeps its nodes: the storage interface, and a store in memory.

use crate::hash::HashWriter;
use crate::idset::{copy_bytes, lemma_increasing_no_duplicates, IdSet};
use crate::node::{Node, NodeView};
use vstd::prelude::*;

verus! {

/// Why an operation on a store or on a DAG failed.
#[derive(Debug)]
pub enum StoreError {
    /// The backing store reported a fault, described by the text.
    StoreFailure(String),
    /// A node was to be added whose dependencies are not all in the DAG.
    NoSuchDependents,
}

impl Clone for StoreError {
    fn clone(&self) -> (e: Self)
        ensures
            e == *self,
    {
        match self {
            StoreError::StoreFailure(text) => StoreError::StoreFailure(text.clone()),
            StoreError::NoSuchDependents => StoreError::NoSuchDependents,
        }
    }
}

/// The backing storage of a DAG: nodes kept under their identifiers.
///
/// A store is modelled by the map from identifiers to the nodes kept under
/// them. An operation may fail with `StoreFailure` at any time, unless the
/// store declares itself `infallible`; a failed operation changes nothing.
/// `NoSuchDependents` is never returned by a store.
///
/// The three spec functions have default bodies only so that a store can be
/// written in code that is not verified, where they cannot be given. A store
/// that keeps the defaults has the empty map as its model: the contracts of
/// `contains`, `get` and `store` are false of it as soon as it holds a node,
/// and nothing that is proved of a DAG holds of a DAG over such a store. A
/// verified store states all three.
pub trait Store<HW: HashWriter>: Sized {
    /// The nodes in the store, by the identifier each is kept under.
    open spec fn contents(&self) -> Map<Seq<u8>, NodeView> {
        Map::empty()
    }

    /// What the store needs to hold of itself to work.
    open spec fn inv(&self) -> bool {
        true
    }

    /// Whether every operation on this store succeeds.
    open spec fn infallible(&self) -> bool {
        false
    }

    /// Whether a node is kept under `id`.
    fn contains(&self, id: &[u8]) -> (r: Result<bool, StoreError>)
        requires
            self.inv(),
        ensures
            match r {
                Ok(b) => b == self.contents().contains_key(id@),
                Err(e) => e is StoreFailure,
            },
            self.infallible() ==> r is Ok,
    ;

    /// The node kept under `id`, if there is one.
    fn get(&self, id: &[u8]) -> (r: Result<Option<Node<HW>>, StoreError>)
        requires
            self.inv(),
        ensures
            match r {
                Ok(Some(node)) => {
                    &&& self.contents().contains_key(id@)
                    &&& node@ == self.contents()[id@]
                    &&& node.wf()
                },
                Ok(None) => !self.contents().contains_key(id@),
                Err(e) => e is StoreFailure,
            },
            self.infallible() ==> r is Ok,
    ;

    /// Keeps `node` under its identifier, in place of any node kept there.
    fn store(&mut self, node: Node<HW>) -> (r: Result<(), StoreError>)
        requires
            old(self).inv(),
            node.wf(),
        ensures
            final(self).inv(),
            final(self).infallible() == old(self).infallible(),
            match r {
                Ok(_) => final(self).contents() == old(self).contents().insert(
                    node.spec_id(),
                    node@,
                ),
                Err(e) => e is StoreFailure && final(self).contents() == old(self).contents(),
            },
            old(self).infallible() ==> r is Ok,
    ;
}

/// A store in memory, with its nodes in ascending order of identifier.
#[derive(Debug)]
pub struct BTreeStore<HW: HashWriter> {
    ids: IdSet,
    nodes: Vec<Node<HW>>,
}

impl<HW: HashWriter> BTreeStore<HW> {
    /// The identifiers are in ascending order and each stands beside the
    /// node that carries it.
    pub closed spec fn wf(&self) -> bool {
        &&& self.ids.wf()
        &&& self.nodes@.len() == self.ids.listing().len()
        &&& forall|i: int|
            0 <= i < self.nodes@.len() ==> (#[trigger] self.nodes@[i]).wf() && self.nodes@[i].spec_id()
                == self.ids.listing()[i]
    }

    /// The nodes in the store, by identifier.
    pub closed spec fn map(&self) -> Map<Seq<u8>, NodeView> {
        Map::new(
            |k: Seq<u8>| self.ids@.contains(k),
            |k: Seq<u8>| self.nodes@[self.ids.listing().index_of(k)]@,
        )
    }

    /// The identifiers of the nodes in the store, in ascending order.
    pub closed spec fn keys(&self) -> Seq<Seq<u8>> {
        self.ids.listing()
    }

    proof fn lemma_entry(&self, i: int)
        requires
            self.wf(),
            0 <= i < self.nodes@.len(),
        ensures
            self.map().contains_key(self.ids.listing()[i]),
            self.map()[self.ids.listing()[i]] == self.nodes@[i]@,
    {
        let l = self.ids.listing();
        lemma_increasing_no_duplicates(l);
        assert(l.contains(l[i]));
        l.index_of_first_ensures(l[i]);
        assert(l.index_of(l[i]) == i);
    }

    /// The domain of the map is the set of keys, which is finite.
    pub proof fn lemma_keys(&self)
        requires
            self.wf(),
        ensures
            self.map().dom() == self.keys().to_set(),
            self.map().dom().finite(),
            self.map().dom().len() == self.keys().len(),
    {
        assert(self.map().dom() =~= self.keys().to_set());
        lemma_increasing_no_duplicates(self.keys());
        self.keys().unique_seq_to_set();
    }

    /// A store with no node in it.
    pub fn new() -> (s: Self)
        ensures
            s.wf(),
            s.map() == Map::<Seq<u8>, NodeView>::empty(),
    {
        let s = BTreeStore { ids: IdSet::new(), nodes: Vec::new() };
        assert(s.map() =~= Map::<Seq<u8>, NodeView>::empty());
        s
    }

    /// The number of nodes in the store.
    pub fn len(&self) -> (n: usize)
        requires
            self.wf(),
        ensures
            n == self.map().dom().len(),
    {
        proof {
            self.lemma_keys();
        }
        self.nodes.len()
    }

    /// Whether the store holds no node.
    pub fn is_empty(&self) -> (b: bool)
        requires
            self.wf(),
        ensures
            b == (self.map() == Map::<Seq<u8>, NodeView>::empty()),
    {
        let b = self.ids.is_empty();
        proof {
            if b {
                assert(self.map() =~= Map::<Seq<u8>, NodeView>::empty());
            } else {
                self.lemma_entry(0);
            }
        }
        b
    }
}

impl<HW: HashWriter> Clone for BTreeStore<HW> {
    /// A copy of the store, with a copy of every node.
    fn clone(&self) -> (s: Self)
        ensures
            s.wf() == self.wf(),
            s.keys() == self.keys(),
            self.wf() ==> s.map() == self.map(),
    {
        let mut nodes: Vec<Node<HW>> = Vec::new();
        let mut i: usize = 0;
        while i < self.nodes.len()
            invariant
                i <= self.nodes@.len(),
                nodes@.len() == i,
                forall|j: int|
                    0 <= j < i ==> {
                        &&& (#[trigger] nodes@[j])@ == self.nodes@[j]@
                        &&& nodes@[j].spec_id() == self.nodes@[j].spec_id()
                        &&& nodes@[j].wf() == self.nodes@[j].wf()
                    },
            decreases self.nodes@.len() - i,
        {
            nodes.push(self.nodes[i].clone());
            i += 1;
        }
        let s = BTreeStore { ids: self.ids.clone(), nodes };
        proof {
            if self.wf() {
                assert(s.wf());
                assert forall|k: Seq<u8>| s.map().contains_key(k) implies s.map()[k]
                    == self.map()[k] by {
                    let j = self.ids.listing().index_of(k);
                    lemma_increasing_no_duplicates(self.ids.listing());
                    self.ids.listing().index_of_first_ensures(k);
                    s.lemma_entry(j);
                    self.lemma_entry(j);
                }
                assert(s.map() =~= self.map());
            } else if s.wf() {
                assert forall|j: int| 0 <= j < self.nodes@.len() implies (
                #[trigger] self.nodes@[j]).wf() && self.nodes@[j].spec_id()
                    == self.ids.listing()[j] by {
                    assert(nodes@[j].wf());
                }
            }
        }
        s
    }
}

impl<HW: HashWriter> Default for BTreeStore<HW> {
    /// A store with no node in it.
    fn default() -> (s: Self)
        ensures
            s.wf(),
            s.map() == Map::<Seq<u8>, NodeView>::empty(),
    {
        BTreeStore::new()
    }
}

impl<HW: HashWriter> Store<HW> for BTreeStore<HW> {
    open spec fn contents(&self) -> Map<Seq<u8>, NodeView> {
        self.map()
    }

    open spec fn inv(&self) -> bool {
        self.wf()
    }

    open spec fn infallible(&self) -> bool {
        true
    }

    fn contains(&self, id: &[u8]) -> (r: Result<bool, StoreError>) {
        Ok(self.ids.contains(id))
    }

    fn get(&self, id: &[u8]) -> (r: Result<Option<Node<HW>>, StoreError>) {
        let (p, found) = self.ids.locate(id);
        if found {
            proof {
                self.lemma_entry(p as int);
            }
            Ok(Some(self.nodes[p].clone()))
        } else {
            Ok(None)
        }
    }

    fn store(&mut self, node: Node<HW>) -> (r: Result<(), StoreError>) {
        let id = copy_bytes(node.id());
        let (p, found) = self.ids.locate(id.as_slice());
        let ghost before = *self;
        if found {
            self.nodes.set(p, node);
        } else {
            self.ids.insert_at(p, id);
            self.nodes.insert(p, node);
        }
        proof {
            let l = before.ids.listing();
            let t = self.ids.listing();
            assert(self.wf()) by {
                assert forall|i: int| 0 <= i < self.nodes@.len() implies (
                #[trigger] self.nodes@[i]).wf() && self.nodes@[i].spec_id() == t[i] by {
                    if found {
                        if i != p {
                            assert(before.nodes@[i].wf());
                        }
                    } else {
                        if i < p {
                            assert(before.nodes@[i].wf());
                        } else if i > p {
                            assert(before.nodes@[i - 1].wf());
                        }
                    }
                }
            }
            let want = before.map().insert(node.spec_id(), node@);
            assert forall|k: Seq<u8>| self.map().contains_key(k) == want.contains_key(k) by {}
            assert forall|k: Seq<u8>| self.map().contains_key(k) implies self.map()[k] == want[k] by {
                let i = t.index_of(k);
                lemma_increasing_no_duplicates(t);
                t.index_of_first_ensures(k);
                self.lemma_entry(i);
                if k != node.spec_id() {
                    let j = l.index_of(k);
                    lemma_increasing_no_duplicates(l);
                    l.index_of_first_ensures(k);
                    before.lemma_entry(j);
                    if found {
                        assert(t[j] == k);
                        assert(i == j);
                    } else {
                        let j2 = if j < p { j } else { j + 1 };
                        assert(t[j2] == k);
                        assert(i == j2);
                    }
                } else {
                    assert(t[p as int] == k);
                    assert(i == p);
                }
            }
            assert(self.map() =~= want);
        }
        Ok(())
    }
}

} // verus!
