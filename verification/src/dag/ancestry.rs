//! What comparing two nodes of a DAG means.

use crate::dag::NodeCompare;
use crate::graph::{
    acyclic, is_ancestor, is_frontier, lemma_only_a_root_reaches_itself,
    lemma_reaches_antisymmetric, lemma_some_root_reaches, ranked, reaches, Graph,
};
use vstd::prelude::*;

verus! {

/// How `left` stands to `right` in the graph `g`: the same node, one that
/// `right` depends on, one that depends on `right`, or neither.
pub open spec fn compare_spec(g: Graph, left: Seq<u8>, right: Seq<u8>) -> NodeCompare {
    if left == right {
        NodeCompare::Equivalent
    } else if reaches(g, right, left) {
        NodeCompare::Before
    } else if reaches(g, left, right) {
        NodeCompare::After
    } else {
        NodeCompare::Uncomparable
    }
}

/// Two identifiers compare as `Equivalent` exactly when they are the same;
/// `Before` says that the left one is an ancestor of the right one, `After`
/// that the right one is an ancestor of the left one, and `Uncomparable`
/// that neither is an ancestor of the other.
pub proof fn lemma_compare_meaning(g: Graph, x: Seq<u8>, y: Seq<u8>)
    ensures
        compare_spec(g, x, y) == NodeCompare::Equivalent <==> x == y,
        compare_spec(g, x, y) == NodeCompare::Before ==> is_ancestor(g, x, y),
        compare_spec(g, x, y) == NodeCompare::After ==> is_ancestor(g, y, x),
        compare_spec(g, x, y) == NodeCompare::Uncomparable ==> !is_ancestor(g, x, y)
            && !is_ancestor(g, y, x),
{
}

/// In a graph without cycles the comparison says exactly which of the two
/// is an ancestor of the other, and exchanging the two exchanges `Before`
/// and `After`.
pub proof fn lemma_compare_exact(g: Graph, x: Seq<u8>, y: Seq<u8>)
    requires
        acyclic(g),
    ensures
        compare_spec(g, x, y) == NodeCompare::Before <==> is_ancestor(g, x, y),
        compare_spec(g, x, y) == NodeCompare::After <==> is_ancestor(g, y, x),
        compare_spec(g, x, y) == NodeCompare::Before <==> compare_spec(g, y, x)
            == NodeCompare::After,
        compare_spec(g, x, y) == NodeCompare::Uncomparable <==> compare_spec(g, y, x)
            == NodeCompare::Uncomparable,
{
    if reaches(g, x, y) && reaches(g, y, x) {
        lemma_reaches_antisymmetric(g, x, y);
    }
}

/// Two different roots are uncomparable.
pub proof fn lemma_roots_are_uncomparable(
    g: Graph,
    roots: Set<Seq<u8>>,
    r1: Seq<u8>,
    r2: Seq<u8>,
)
    requires
        is_frontier(g, roots),
        roots.contains(r1),
        roots.contains(r2),
        r1 != r2,
    ensures
        compare_spec(g, r1, r2) == NodeCompare::Uncomparable,
{
    if reaches(g, r2, r1) {
        lemma_only_a_root_reaches_itself(g, roots, r2, r1);
    }
    if reaches(g, r1, r2) {
        lemma_only_a_root_reaches_itself(g, roots, r1, r2);
    }
}

/// Every node that is not a root lies below some root: there is a root that
/// compares as `After` to it.
pub proof fn lemma_some_root_is_after(g: Graph, roots: Set<Seq<u8>>, n: Seq<u8>)
    requires
        is_frontier(g, roots),
        acyclic(g),
        g.contains_key(n),
        !roots.contains(n),
    ensures
        exists|r: Seq<u8>| roots.contains(r) && #[trigger] compare_spec(g, r, n) == NodeCompare::After,
{
    let (rank, bound) = choose|rank: spec_fn(Seq<u8>) -> nat, bound: nat| ranked(g, rank, bound);
    let r = lemma_some_root_reaches(g, roots, rank, bound, n);
    if reaches(g, n, r) {
        lemma_only_a_root_reaches_itself(g, roots, n, r);
    }
    assert(compare_spec(g, r, n) == NodeCompare::After);
}

} // verus!
