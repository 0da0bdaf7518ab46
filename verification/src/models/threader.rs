use vstd::prelude::*;

verus! {

/// How a benchmark run schedules its work: over the whole text at once, or
/// cut into parts that independent workers may handle.
#[derive(Clone, Copy, PartialEq, Eq, Structural, Debug)]
pub enum ThreadType {
    SingleThreaded,
    MultiThreaded,
}

} // verus!
