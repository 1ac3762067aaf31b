//! Sets of identifiers, kept in ascending lexicographic order.

use crate::lex::{
    bytes_equal, lemma_lex_lt_irreflexive, lemma_lex_lt_total, lemma_lex_lt_transitive, lex_compare,
    lex_lt, LexOrder,
};
use vstd::prelude::*;

verus! {

/// The byte strings that a vector of byte vectors holds, in the same order.
pub open spec fn ids_view(v: Seq<Vec<u8>>) -> Seq<Seq<u8>> {
    v.map_values(|x: Vec<u8>| x@)
}

/// Every element comes strictly before all later ones.
pub open spec fn strictly_increasing(s: Seq<Seq<u8>>) -> bool {
    forall|i: int, j: int| 0 <= i < j < s.len() ==> lex_lt(#[trigger] s[i], #[trigger] s[j])
}

/// A strictly increasing sequence holds nothing twice.
pub proof fn lemma_increasing_no_duplicates(s: Seq<Seq<u8>>)
    requires
        strictly_increasing(s),
    ensures
        s.no_duplicates(),
{
    assert forall|i: int, j: int| 0 <= i < s.len() && 0 <= j < s.len() && i != j implies s[i]
        != s[j] by {
        lemma_lex_lt_irreflexive(s[i]);
        if i < j {
            assert(lex_lt(s[i], s[j]));
        } else {
            assert(lex_lt(s[j], s[i]));
        }
    }
}

/// A set has at most one ascending listing: two strictly increasing
/// sequences with the same elements are the same sequence.
pub proof fn lemma_ascending_listing_unique(a: Seq<Seq<u8>>, b: Seq<Seq<u8>>)
    requires
        strictly_increasing(a),
        strictly_increasing(b),
        a.to_set() == b.to_set(),
    ensures
        a == b,
    decreases a.len(),
{
    if a.len() == 0 {
        if b.len() > 0 {
            assert(b.to_set().contains(b[0]));
            assert(a.to_set().contains(b[0]));
        }
        assert(a =~= b);
    } else if b.len() == 0 {
        assert(a.to_set().contains(a[0]));
        assert(b.to_set().contains(a[0]));
    } else {
        // The first element of each is the least element of the common set.
        assert(a.to_set().contains(a[0]));
        assert(b.to_set().contains(a[0]));
        let j = choose|j: int| 0 <= j < b.len() && b[j] == a[0];
        assert(b.to_set().contains(b[0]));
        assert(a.to_set().contains(b[0]));
        let i = choose|i: int| 0 <= i < a.len() && a[i] == b[0];
        lemma_lex_lt_total(a[0], b[0]);
        if i > 0 {
            assert(lex_lt(a[0], a[i]));
        }
        if j > 0 {
            assert(lex_lt(b[0], b[j]));
        }
        assert(a[0] == b[0]);
        let a1 = a.skip(1);
        let b1 = b.skip(1);
        lemma_increasing_no_duplicates(a);
        lemma_increasing_no_duplicates(b);
        assert forall|x: Seq<u8>| a1.to_set().contains(x) == b1.to_set().contains(x) by {
            if a1.to_set().contains(x) {
                let k = choose|k: int| 0 <= k < a1.len() && a1[k] == x;
                assert(a[k + 1] == x);
                assert(a.to_set().contains(x));
                assert(b.to_set().contains(x));
                let m = choose|m: int| 0 <= m < b.len() && b[m] == x;
                assert(m != 0);
                assert(b1[m - 1] == x);
            }
            if b1.to_set().contains(x) {
                let k = choose|k: int| 0 <= k < b1.len() && b1[k] == x;
                assert(b[k + 1] == x);
                assert(b.to_set().contains(x));
                assert(a.to_set().contains(x));
                let m = choose|m: int| 0 <= m < a.len() && a[m] == x;
                assert(m != 0);
                assert(a1[m - 1] == x);
            }
        }
        assert(a1.to_set() =~= b1.to_set());
        assert(strictly_increasing(a1)) by {
            assert forall|p: int, q: int| 0 <= p < q < a1.len() implies lex_lt(
                #[trigger] a1[p],
                #[trigger] a1[q],
            ) by {
                assert(lex_lt(a[p + 1], a[q + 1]));
            }
        }
        assert(strictly_increasing(b1)) by {
            assert forall|p: int, q: int| 0 <= p < q < b1.len() implies lex_lt(
                #[trigger] b1[p],
                #[trigger] b1[q],
            ) by {
                assert(lex_lt(b[p + 1], b[q + 1]));
            }
        }
        lemma_ascending_listing_unique(a1, b1);
        assert(a =~= seq![a[0]] + a1);
        assert(b =~= seq![b[0]] + b1);
    }
}

/// Inserting into a sequence adds one element to the set of its elements.
pub proof fn lemma_insert_to_set(s: Seq<Seq<u8>>, p: int, x: Seq<u8>)
    requires
        0 <= p <= s.len(),
    ensures
        s.insert(p, x).to_set() == s.to_set().insert(x),
{
    let t = s.insert(p, x);
    assert forall|y: Seq<u8>| t.to_set().contains(y) == s.to_set().insert(x).contains(y) by {
        if t.to_set().contains(y) {
            let k = choose|k: int| 0 <= k < t.len() && t[k] == y;
            if k < p {
                assert(s[k] == y);
            } else if k > p {
                assert(s[k - 1] == y);
            }
        }
        if s.to_set().insert(x).contains(y) {
            if y == x {
                assert(t[p] == y);
            } else {
                let k = choose|k: int| 0 <= k < s.len() && s[k] == y;
                if k < p {
                    assert(t[k] == y);
                } else {
                    assert(t[k + 1] == y);
                }
            }
        }
    }
    assert(t.to_set() =~= s.to_set().insert(x));
}

/// Appending to a sequence adds one element to the set of its elements.
pub proof fn lemma_push_to_set(s: Seq<Seq<u8>>, x: Seq<u8>)
    ensures
        s.push(x).to_set() == s.to_set().insert(x),
{
    assert(s.push(x) =~= s.insert(s.len() as int, x));
    lemma_insert_to_set(s, s.len() as int, x);
}

/// Removing a position from a sequence without duplicates removes its
/// element from the set of elements.
pub proof fn lemma_remove_to_set(s: Seq<Seq<u8>>, p: int)
    requires
        0 <= p < s.len(),
        s.no_duplicates(),
    ensures
        s.remove(p).to_set() == s.to_set().remove(s[p]),
{
    let t = s.remove(p);
    assert forall|y: Seq<u8>| t.to_set().contains(y) == s.to_set().remove(s[p]).contains(y) by {
        if t.to_set().contains(y) {
            let k = choose|k: int| 0 <= k < t.len() && t[k] == y;
            if k < p {
                assert(s[k] == y);
            } else {
                assert(s[k + 1] == y);
            }
        }
        if s.to_set().remove(s[p]).contains(y) {
            let k = choose|k: int| 0 <= k < s.len() && s[k] == y;
            if k < p {
                assert(t[k] == y);
            } else {
                assert(t[k - 1] == y);
            }
        }
    }
    assert(t.to_set() =~= s.to_set().remove(s[p]));
}

/// Copies a byte string into a vector of its own.
pub fn copy_bytes(s: &[u8]) -> (v: Vec<u8>)
    ensures
        v@ == s@,
{
    let mut v: Vec<u8> = Vec::new();
    let mut i: usize = 0;
    while i < s.len()
        invariant
            i <= s.len(),
            v@ == s@.take(i as int),
        decreases s.len() - i,
    {
        v.push(s[i]);
        i += 1;
        assert(v@ =~= s@.take(i as int));
    }
    assert(s@.take(s.len() as int) =~= s@);
    v
}

/// A finite set of identifiers.
///
/// The identifiers are held in ascending lexicographic order, so that two
/// sets with the same members list them in the same sequence.
#[derive(Debug)]
pub struct IdSet {
    ids: Vec<Vec<u8>>,
}

impl View for IdSet {
    type V = Set<Seq<u8>>;

    /// The members of the set.
    open spec fn view(&self) -> Set<Seq<u8>> {
        self.listing().to_set()
    }
}

impl IdSet {
    /// The members in ascending order.
    pub closed spec fn listing(&self) -> Seq<Seq<u8>> {
        ids_view(self.ids@)
    }

    /// The listing is in strictly ascending order.
    pub open spec fn wf(&self) -> bool {
        strictly_increasing(self.listing())
    }

    /// The empty set.
    pub fn new() -> (s: IdSet)
        ensures
            s.wf(),
            s@ == Set::<Seq<u8>>::empty(),
            s.listing() == Seq::<Seq<u8>>::empty(),
    {
        let s = IdSet { ids: Vec::new() };
        assert(s.listing() =~= Seq::<Seq<u8>>::empty());
        assert(s@ =~= Set::<Seq<u8>>::empty());
        s
    }

    /// The number of members.
    pub fn len(&self) -> (n: usize)
        ensures
            n == self.listing().len(),
            self.wf() ==> n == self@.len(),
    {
        proof {
            if self.wf() {
                lemma_increasing_no_duplicates(self.listing());
                self.listing().unique_seq_to_set();
            }
        }
        self.ids.len()
    }

    /// Whether the set has no member.
    pub fn is_empty(&self) -> (b: bool)
        ensures
            b == self@.is_empty(),
            b == (self.listing().len() == 0),
    {
        let n = self.len();
        proof {
            if n == 0 {
                assert(self@ =~= Set::<Seq<u8>>::empty());
            } else {
                assert(self@.contains(self.listing()[0]));
            }
        }
        n == 0
    }

    /// The member at position `i` of the ascending listing.
    pub fn get(&self, i: usize) -> (id: &Vec<u8>)
        requires
            i < self.listing().len(),
        ensures
            id@ == self.listing()[i as int],
            self@.contains(id@),
    {
        assert(self.listing()[i as int] == self.ids@[i as int]@);
        &self.ids[i]
    }

    /// Finds where `id` stands in the ascending listing: the position of
    /// `id` itself when it is a member, else the position at which it would
    /// have to be inserted.
    pub(crate) fn locate(&self, id: &[u8]) -> (r: (usize, bool))
        requires
            self.wf(),
        ensures
            r.0 <= self.listing().len(),
            forall|j: int| 0 <= j < r.0 ==> lex_lt(#[trigger] self.listing()[j], id@),
            r.1 ==> r.0 < self.listing().len() && self.listing()[r.0 as int] == id@,
            !r.1 ==> forall|j: int|
                r.0 <= j < self.listing().len() ==> lex_lt(id@, #[trigger] self.listing()[j]),
            r.1 == self@.contains(id@),
    {
        let ghost l = self.listing();
        let mut lo: usize = 0;
        let mut hi: usize = self.ids.len();
        while lo < hi
            invariant
                l == self.listing(),
                l == ids_view(self.ids@),
                strictly_increasing(l),
                lo <= hi <= l.len(),
                forall|j: int| 0 <= j < lo ==> lex_lt(#[trigger] l[j], id@),
                forall|j: int| hi <= j < l.len() ==> lex_lt(id@, #[trigger] l[j]),
            decreases hi - lo,
        {
            let mid: usize = lo + (hi - lo) / 2;
            let probe = lex_compare(self.ids[mid].as_slice(), id);
            assert(l[mid as int] == self.ids@[mid as int]@);
            proof {
                lemma_lex_lt_total(l[mid as int], id@);
            }
            match probe {
                LexOrder::Less => {
                    assert forall|j: int| 0 <= j < mid + 1 implies lex_lt(#[trigger] l[j], id@) by {
                        if j < mid {
                            assert(lex_lt(l[j], l[mid as int]));
                            lemma_lex_lt_transitive(l[j], l[mid as int], id@);
                        }
                    }
                    lo = mid + 1;
                },
                LexOrder::Equal => {
                    assert(self@.contains(id@)) by {
                        assert(l[mid as int] == id@);
                    }
                    return (mid, true);
                },
                LexOrder::Greater => {
                    assert forall|j: int| mid <= j < l.len() implies lex_lt(id@, #[trigger] l[j]) by {
                        if mid < j {
                            assert(lex_lt(l[mid as int], l[j]));
                            lemma_lex_lt_transitive(id@, l[mid as int], l[j]);
                        }
                    }
                    hi = mid;
                },
            }
        }
        proof {
            if self@.contains(id@) {
                let k = choose|k: int| 0 <= k < l.len() && l[k] == id@;
                lemma_lex_lt_irreflexive(id@);
                if k < lo {
                    assert(lex_lt(l[k], id@));
                } else {
                    assert(lex_lt(id@, l[k]));
                }
            }
        }
        (lo, false)
    }

    /// Whether `id` is a member.
    pub fn contains(&self, id: &[u8]) -> (b: bool)
        requires
            self.wf(),
        ensures
            b == self@.contains(id@),
    {
        self.locate(id).1
    }

    /// Puts `id`, which is not a member, at its place `p` in the listing.
    pub(crate) fn insert_at(&mut self, p: usize, id: Vec<u8>)
        requires
            old(self).wf(),
            p <= old(self).listing().len(),
            forall|j: int| 0 <= j < p ==> lex_lt(#[trigger] old(self).listing()[j], id@),
            forall|j: int|
                p <= j < old(self).listing().len() ==> lex_lt(id@, #[trigger] old(self).listing()[j]),
        ensures
            final(self).wf(),
            final(self).listing() == old(self).listing().insert(p as int, id@),
            final(self)@ == old(self)@.insert(id@),
    {
        let ghost l = self.listing();
        let ghost x = id@;
        self.ids.insert(p, id);
        proof {
            let t = ids_view(self.ids@);
            assert(t =~= l.insert(p as int, x));
            lemma_insert_to_set(l, p as int, x);
            assert forall|i: int, j: int| 0 <= i < j < t.len() implies lex_lt(
                #[trigger] t[i],
                #[trigger] t[j],
            ) by {
                if j < p {
                    assert(lex_lt(l[i], l[j]));
                } else if j == p {
                    assert(lex_lt(l[i], x));
                } else if i < p {
                    assert(lex_lt(l[i], l[j - 1]));
                } else if i == p {
                    assert(lex_lt(x, l[j - 1]));
                } else {
                    assert(lex_lt(l[i - 1], l[j - 1]));
                }
            }
        }
    }

    /// Adds `id` to the set; says whether it was absent before.
    pub fn insert(&mut self, id: Vec<u8>) -> (fresh: bool)
        requires
            old(self).wf(),
        ensures
            final(self).wf(),
            final(self)@ == old(self)@.insert(id@),
            fresh == !old(self)@.contains(id@),
    {
        let (p, found) = self.locate(id.as_slice());
        if found {
            assert(self@ =~= self@.insert(id@));
            return false;
        }
        self.insert_at(p, id);
        true
    }

    /// Takes `id` out of the set; says whether it was a member.
    pub fn remove(&mut self, id: &[u8]) -> (present: bool)
        requires
            old(self).wf(),
        ensures
            final(self).wf(),
            final(self)@ == old(self)@.remove(id@),
            present == old(self)@.contains(id@),
    {
        let (p, found) = self.locate(id);
        if !found {
            assert(self@ =~= self@.remove(id@));
            return false;
        }
        let ghost l = self.listing();
        self.ids.remove(p);
        proof {
            let t = ids_view(self.ids@);
            assert(t =~= l.remove(p as int));
            lemma_increasing_no_duplicates(l);
            lemma_remove_to_set(l, p as int);
            assert forall|i: int, j: int| 0 <= i < j < t.len() implies lex_lt(
                #[trigger] t[i],
                #[trigger] t[j],
            ) by {
                let i0 = if i < p { i } else { i + 1 };
                let j0 = if j < p { j } else { j + 1 };
                assert(lex_lt(l[i0], l[j0]));
            }
        }
        true
    }

    /// The set of the byte strings that `ids` holds, whatever their order
    /// and however often each occurs.
    pub fn from_vec(ids: Vec<Vec<u8>>) -> (s: IdSet)
        ensures
            s.wf(),
            s@ == ids_view(ids@).to_set(),
    {
        let ghost all = ids_view(ids@).to_set();
        let mut rest = ids;
        let mut s = IdSet::new();
        while rest.len() > 0
            invariant
                s.wf(),
                s@.union(ids_view(rest@).to_set()) == all,
            decreases rest.len(),
        {
            let ghost before = ids_view(rest@);
            let id = rest.pop().unwrap();
            proof {
                assert(before =~= ids_view(rest@).push(id@));
                lemma_push_to_set(ids_view(rest@), id@);
            }
            s.insert(id);
            assert(s@.union(ids_view(rest@).to_set()) =~= all);
        }
        assert(s@ =~= all) by {
            assert(ids_view(rest@).to_set() =~= Set::<Seq<u8>>::empty());
        }
        s
    }

    /// Whether `other` has the same members.
    pub fn same_as(&self, other: &IdSet) -> (b: bool)
        ensures
            b == (self.listing() == other.listing()),
            self.wf() && other.wf() ==> b == (self@ == other@),
    {
        proof {
            if self.wf() && other.wf() && self@ == other@ {
                lemma_ascending_listing_unique(self.listing(), other.listing());
            }
        }
        if self.ids.len() != other.ids.len() {
            return false;
        }
        let mut i: usize = 0;
        while i < self.ids.len()
            invariant
                i <= self.ids.len(),
                self.ids.len() == other.ids.len(),
                self.wf() && other.wf() && self@ == other@ ==> self.listing() == other.listing(),
                forall|j: int| 0 <= j < i ==> self.listing()[j] == other.listing()[j],
            decreases self.ids.len() - i,
        {
            assert(self.listing()[i as int] == self.ids@[i as int]@);
            assert(other.listing()[i as int] == other.ids@[i as int]@);
            if !bytes_equal(self.ids[i].as_slice(), other.ids[i].as_slice()) {
                return false;
            }
            i += 1;
        }
        assert(self.listing() =~= other.listing());
        true
    }
}

impl Clone for IdSet {
    /// A copy of the set.
    fn clone(&self) -> (s: IdSet)
        ensures
            s@ == self@,
            s.listing() == self.listing(),
            s.wf() == self.wf(),
    {
        let mut ids: Vec<Vec<u8>> = Vec::new();
        let mut i: usize = 0;
        while i < self.ids.len()
            invariant
                i <= self.ids.len(),
                ids_view(ids@) == ids_view(self.ids@).take(i as int),
            decreases self.ids.len() - i,
        {
            let ghost copied = ids_view(ids@);
            let id = copy_bytes(self.ids[i].as_slice());
            ids.push(id);
            i += 1;
            assert(ids_view(ids@) =~= copied.push(self.ids@[i - 1]@));
            assert(ids_view(ids@) =~= ids_view(self.ids@).take(i as int));
        }
        assert(ids_view(self.ids@).take(self.ids.len() as int) =~= ids_view(self.ids@));
        IdSet { ids }
    }
}

} // verus!
