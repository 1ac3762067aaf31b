//! The streaming digest that gives nodes their identifiers.

use std::collections::hash_map::DefaultHasher;
use std::hash::Hasher;
use vstd::bytes::{spec_u64_to_le_bytes, u64_to_le_bytes};
use vstd::prelude::*;
use vstd::std_specs::hash::DefaultHasherAdditionalSpecFns;

verus! {

/// A hash algorithm with running state: byte strings are recorded one after
/// another, and the digest of what has been recorded can be asked for at any
/// time without disturbing the state.
///
/// The state is modelled by the byte strings recorded so far, one per call of
/// `record`, and the algorithm by `digest`, a function of that sequence.
pub trait HashWriter: Sized {
    /// The byte strings recorded so far, in the order of the calls.
    spec fn recorded(&self) -> Seq<Seq<u8>>;

    /// The digest of a sequence of recorded byte strings.
    spec fn digest(recorded: Seq<Seq<u8>>) -> Seq<u8>;

    /// A writer that has recorded nothing.
    fn fresh() -> (hw: Self)
        ensures
            hw.recorded() == Seq::<Seq<u8>>::empty(),
    ;

    /// Records `bs` after everything recorded before.
    fn record(&mut self, bs: &[u8])
        ensures
            final(self).recorded() == old(self).recorded().push(bs@),
    ;

    /// The digest of everything recorded so far. The state stays as it is.
    fn hash(&self) -> (d: Vec<u8>)
        ensures
            d@ == Self::digest(self.recorded()),
    ;
}

impl HashWriter for DefaultHasher {
    open spec fn recorded(&self) -> Seq<Seq<u8>> {
        self@
    }

    /// The eight bytes of the 64-bit hash, least significant first.
    open spec fn digest(recorded: Seq<Seq<u8>>) -> Seq<u8> {
        spec_u64_to_le_bytes(DefaultHasher::spec_finish(recorded))
    }

    fn fresh() -> (hw: Self) {
        DefaultHasher::new()
    }

    fn record(&mut self, bs: &[u8]) {
        self.write(bs);
    }

    fn hash(&self) -> (d: Vec<u8>) {
        u64_to_le_bytes(self.finish())
    }
}

} // verus!
