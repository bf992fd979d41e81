//! The registry of bytes whose range has to be shown by a lookup.

use vstd::prelude::*;

verus! {

/// Collects, for one segment of execution, every byte that a gadget relies on
/// to lie in `0..=255`.
pub struct Segment {
    /// The bytes registered so far, in the order of registration.
    pub byte_range_checks: Vec<u8>,
}

impl View for Segment {
    type V = Seq<u8>;

    open spec fn view(&self) -> Seq<u8> {
        self.byte_range_checks@
    }
}

impl Segment {
    /// A registry without entries.
    pub fn new() -> (segment: Segment)
        ensures
            segment@ == Seq::<u8>::empty(),
    {
        Segment { byte_range_checks: Vec::new() }
    }

    /// Registers each byte of `bytes`, in order.
    pub fn add_u8_range_checks(&mut self, bytes: &[u8])
        ensures
            final(self)@ == old(self)@ + bytes@,
    {
        let mut i: usize = 0;
        while i < bytes.len()
            invariant
                i <= bytes.len(),
                self@ == old(self)@ + bytes@.subrange(0, i as int),
            decreases bytes.len() - i,
        {
            self.byte_range_checks.push(bytes[i]);
            i += 1;
            assert(self@ =~= old(self)@ + bytes@.subrange(0, i as int));
        }
        assert(bytes@.subrange(0, i as int) =~= bytes@);
    }
}

} // verus!
