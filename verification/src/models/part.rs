use vstd::prelude::*;

verus! {

/// An order-tagged segment of text: the sequence index that restores the
/// original order, and the segment's bytes.
pub struct Part(pub usize, pub Vec<u8>);

} // verus!
