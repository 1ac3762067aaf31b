//! Content-addressed nodes.

use crate::hash::HashWriter;
use crate::idset::{copy_bytes, lemma_ascending_listing_unique, strictly_increasing, IdSet};
use crate::lex::bytes_equal;
use vstd::std_specs::cmp::{PartialEqSpec, PartialEqSpecImpl};
use std::marker::PhantomData;
use vstd::prelude::*;

verus! {

/// What a node is made from: its payload and the identifiers of the nodes it
/// depends on, in ascending order. Both identifiers of a node are functions
/// of these two.
pub struct NodeView {
    pub item: Seq<u8>,
    pub dependency_ids: Seq<Seq<u8>>,
}

/// The identifier of a payload alone: the digest after recording the payload.
pub open spec fn item_digest<HW: HashWriter>(item: Seq<u8>) -> Seq<u8> {
    HW::digest(seq![item])
}

/// The identifier of a node: the digest after recording the payload and then
/// each dependency identifier, in ascending order.
pub open spec fn node_digest<HW: HashWriter>(item: Seq<u8>, dependency_ids: Seq<Seq<u8>>) -> Seq<
    u8,
> {
    HW::digest(seq![item] + dependency_ids)
}

impl NodeView {
    /// The identifier of the node under the algorithm `HW`.
    pub open spec fn id<HW: HashWriter>(self) -> Seq<u8> {
        node_digest::<HW>(self.item, self.dependency_ids)
    }

    /// The identifier of the payload under the algorithm `HW`.
    pub open spec fn item_id<HW: HashWriter>(self) -> Seq<u8> {
        item_digest::<HW>(self.item)
    }

    /// Whether the node depends directly on `id`.
    pub open spec fn depends_on(self, id: Seq<u8>) -> bool {
        self.dependency_ids.contains(id)
    }

    /// Whether the node depends on nothing.
    pub open spec fn is_leaf(self) -> bool {
        self.dependency_ids.len() == 0
    }
}

/// A node that depends on nothing has the identifier of its payload.
pub proof fn lemma_leaf_id_is_item_id<HW: HashWriter>(v: NodeView)
    requires
        v.is_leaf(),
    ensures
        v.id::<HW>() == v.item_id::<HW>(),
{
    assert(seq![v.item] + v.dependency_ids =~= seq![v.item]);
}

/// Content addressing: two nodes built from the same payload and the same
/// dependencies carry the same two identifiers, and so are equal. A node
/// that is built again from the payload and the dependencies of another is
/// that node.
pub proof fn lemma_content_addressing<HW: HashWriter>(a: Node<HW>, b: Node<HW>)
    requires
        a.wf(),
        b.wf(),
        a@ == b@,
    ensures
        a.spec_id() == b.spec_id(),
        a.spec_item_id() == b.spec_item_id(),
        PartialEqSpec::eq_spec(&a, &b),
{
}

/// The identifier of a node does not depend on the order in which its
/// dependencies were given: two sets with the same members, however each
/// was put together, give the same identifier.
pub proof fn lemma_id_ignores_dependency_order<HW: HashWriter>(
    item: Seq<u8>,
    a: IdSet,
    b: IdSet,
)
    requires
        a.wf(),
        b.wf(),
        a@ == b@,
    ensures
        a.listing() == b.listing(),
        node_digest::<HW>(item, a.listing()) == node_digest::<HW>(item, b.listing()),
{
    lemma_ascending_listing_unique(a.listing(), b.listing());
}

/// A node of a Merkle DAG: a payload and a set of dependency identifiers,
/// together with the two identifiers derived from them under the hash
/// algorithm `HW`.
#[derive(Debug)]
pub struct Node<HW: HashWriter> {
    id: Vec<u8>,
    item: Vec<u8>,
    item_id: Vec<u8>,
    dependency_ids: IdSet,
    _phantom: PhantomData<HW>,
}

impl<HW: HashWriter> View for Node<HW> {
    type V = NodeView;

    closed spec fn view(&self) -> NodeView {
        NodeView { item: self.item@, dependency_ids: self.dependency_ids.listing() }
    }
}

impl<HW: HashWriter> Node<HW> {
    /// The identifier that the node carries.
    pub closed spec fn spec_id(&self) -> Seq<u8> {
        self.id@
    }

    /// The payload identifier that the node carries.
    pub closed spec fn spec_item_id(&self) -> Seq<u8> {
        self.item_id@
    }

    /// The identifiers that the node carries are the ones derived from its
    /// payload and dependencies, and the dependencies are in ascending order.
    pub closed spec fn wf(&self) -> bool {
        &&& self.dependency_ids.wf()
        &&& self.id@ == self@.id::<HW>()
        &&& self.item_id@ == self@.item_id::<HW>()
    }

    /// What `wf` says, in terms of the public spec functions.
    pub proof fn lemma_wf(&self)
        requires
            self.wf(),
        ensures
            self.spec_id() == self@.id::<HW>(),
            self.spec_item_id() == self@.item_id::<HW>(),
            strictly_increasing(self@.dependency_ids),
    {
    }

    /// Makes the node with the payload `item` that depends on
    /// `dependency_ids`.
    ///
    /// The payload is recorded first and gives the payload identifier; the
    /// dependency identifiers are recorded after it, in ascending order, and
    /// give the node identifier.
    pub fn new(item: Vec<u8>, dependency_ids: IdSet) -> (node: Self)
        requires
            dependency_ids.wf(),
        ensures
            node.wf(),
            node@ == (NodeView { item: item@, dependency_ids: dependency_ids.listing() }),
            node.spec_id() == node_digest::<HW>(item@, dependency_ids.listing()),
            node.spec_item_id() == item_digest::<HW>(item@),
    {
        let mut hw = HW::fresh();
        hw.record(item.as_slice());
        assert(hw.recorded() =~= seq![item@]);
        let item_id = hw.hash();
        let n = dependency_ids.len();
        let mut i: usize = 0;
        while i < n
            invariant
                dependency_ids.wf(),
                n == dependency_ids.listing().len(),
                i <= n,
                hw.recorded() == seq![item@] + dependency_ids.listing().take(i as int),
            decreases n - i,
        {
            hw.record(dependency_ids.get(i).as_slice());
            i += 1;
            assert(hw.recorded() =~= seq![item@] + dependency_ids.listing().take(i as int));
        }
        assert(dependency_ids.listing().take(n as int) =~= dependency_ids.listing());
        let id = hw.hash();
        Node { id, item, item_id, dependency_ids, _phantom: PhantomData }
    }

    /// The identifier of the node.
    pub fn id(&self) -> (id: &[u8])
        ensures
            id@ == self.spec_id(),
    {
        self.id.as_slice()
    }

    /// The payload.
    pub fn item(&self) -> (item: &[u8])
        ensures
            item@ == self@.item,
    {
        self.item.as_slice()
    }

    /// The identifier of the payload alone.
    pub fn item_id(&self) -> (item_id: &[u8])
        ensures
            item_id@ == self.spec_item_id(),
    {
        self.item_id.as_slice()
    }

    /// The identifiers of the nodes that this node depends on.
    pub fn dependency_ids(&self) -> (deps: &IdSet)
        ensures
            deps.listing() == self@.dependency_ids,
            self.wf() ==> deps.wf(),
    {
        &self.dependency_ids
    }

    /// The number of nodes that this node depends on.
    pub fn out_degree(&self) -> (n: usize)
        ensures
            n == self@.dependency_ids.len(),
    {
        self.dependency_ids.len()
    }
}

impl<HW: HashWriter> Clone for Node<HW> {
    fn clone(&self) -> (node: Self)
        ensures
            node@ == self@,
            node.spec_id() == self.spec_id(),
            node.spec_item_id() == self.spec_item_id(),
            node.wf() == self.wf(),
    {
        Node {
            id: copy_bytes(self.id.as_slice()),
            item: copy_bytes(self.item.as_slice()),
            item_id: copy_bytes(self.item_id.as_slice()),
            dependency_ids: self.dependency_ids.clone(),
            _phantom: PhantomData,
        }
    }
}

impl<HW: HashWriter> PartialEq for Node<HW> {
    /// Two nodes are equal when they agree in payload, dependencies and both
    /// identifiers.
    fn eq(&self, other: &Self) -> (b: bool) {
        bytes_equal(self.id.as_slice(), other.id.as_slice()) && bytes_equal(
            self.item.as_slice(),
            other.item.as_slice(),
        ) && bytes_equal(self.item_id.as_slice(), other.item_id.as_slice())
            && self.dependency_ids.same_as(&other.dependency_ids)
    }
}

impl<HW: HashWriter> PartialEqSpecImpl for Node<HW> {
    open spec fn obeys_eq_spec() -> bool {
        true
    }

    open spec fn eq_spec(&self, other: &Self) -> bool {
        &&& self.spec_id() == other.spec_id()
        &&& self.spec_item_id() == other.spec_item_id()
        &&& self@ == other@
    }
}

} // verus!
