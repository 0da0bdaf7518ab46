use vstd::prelude::*;
use crate::algorithms::{display_name, Algorithm};

verus! {

/// What one benchmarked run measured: the algorithm's display name, the sizes
/// and payloads, the wall-clock time the caller observed (in nanoseconds),
/// and the bytes the encoding occupies. The compression ratio and bit rate
/// are the callers' quotients of `input_size` and `memory_used`.
pub struct CompressionMetric {
    pub algorithm: String,
    pub input_size: u64,
    pub encoded: Vec<u8>,
    pub decoded: Vec<u8>,
    pub time_taken_nanos: u64,
    pub memory_used: u64,
}

impl CompressionMetric {
    /// Gathers the outcome of one run into a metric: the input size is the
    /// decoded length, the memory proxy the encoded length.
    pub fn new(
        algorithm: Algorithm,
        encoded: Vec<u8>,
        decoded: Vec<u8>,
        time_taken_nanos: u64,
    ) -> (r: Self)
        requires
            encoded@.len() <= u64::MAX,
            decoded@.len() <= u64::MAX,
        ensures
            r.algorithm@ == display_name(algorithm),
            r.input_size == decoded@.len(),
            r.encoded@ == encoded@,
            r.decoded@ == decoded@,
            r.time_taken_nanos == time_taken_nanos,
            r.memory_used == encoded@.len(),
    {
        let input_size = decoded.len() as u64;
        let memory_used = encoded.len() as u64;
        CompressionMetric {
            algorithm: algorithm.name().to_string(),
            input_size,
            encoded,
            decoded,
            time_taken_nanos,
            memory_used,
        }
    }
}

} // verus!
