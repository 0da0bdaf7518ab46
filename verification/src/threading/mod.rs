use vstd::prelude::*;
use crate::algorithms::burrows_wheeler_transform::SENTINEL;
use crate::algorithms::lempel_ziv_welch::{
    lemma_lzw_decoding_nonempty, lemma_lzw_first_code, lzw_decoding, lzw_encoding,
};
use crate::algorithms::{display_name, Algorithm};
use crate::models::compression_metric::CompressionMetric;
use crate::models::threader::ThreadType;
use crate::utils::bytes_equal;

pub mod multi_thread;
pub mod single_thread;

verus! {

/// The benchmark driver: runs every codec over one text, in one thread's
/// worth of work or cut into parts.
#[derive(Clone)]
pub struct Threader {}

impl Threader {
    /// A fresh driver.
    pub fn new() -> (r: Self) {
        Threader {  }
    }

    /// Benchmarks all five codecs over the text, in a fixed order: run-length,
    /// Lempel-Ziv-Welch, Burrows-Wheeler, Huffman, and the composite. Every
    /// returned metric decodes back to the input text exactly; success is owed
    /// whenever the text is free of the sentinel byte — for the whole-text
    /// Lempel-Ziv-Welch run, within the reach of its code counters.
    pub fn benchmark_algorithms(&self, text: Vec<u8>, thread_type: ThreadType) -> (r: Result<
        Vec<CompressionMetric>,
        String,
    >)
        ensures
            r is Ok ==> {
                let v = r.unwrap();
                &&& v@.len() == 5
                &&& v@[0].algorithm@ == display_name(Algorithm::Rle)
                &&& v@[1].algorithm@ == display_name(Algorithm::Lzw)
                &&& v@[2].algorithm@ == display_name(Algorithm::Bwt)
                &&& v@[3].algorithm@ == display_name(Algorithm::Huffman)
                &&& v@[4].algorithm@ == display_name(Algorithm::BwtRle)
                &&& forall|i: int| 0 <= i < 5 ==> (#[trigger] v@[i]).decoded@ == text@
            },
            !text@.contains(SENTINEL) && (thread_type == ThreadType::MultiThreaded
                || text@.len() + 256 <= u64::MAX) ==> r is Ok,
    {
        let rle = match self.run_one(&text, Algorithm::Rle, thread_type) {
            Ok(metric) => metric,
            Err(e) => {
                return Err(e);
            },
        };
        let lzw = match self.run_one(&text, Algorithm::Lzw, thread_type) {
            Ok(metric) => metric,
            Err(e) => {
                return Err(e);
            },
        };
        let bwt = match self.run_one(&text, Algorithm::Bwt, thread_type) {
            Ok(metric) => metric,
            Err(e) => {
                return Err(e);
            },
        };
        let huffman = match self.run_one(&text, Algorithm::Huffman, thread_type) {
            Ok(metric) => metric,
            Err(e) => {
                return Err(e);
            },
        };
        let bwt_rle = match self.run_one(&text, Algorithm::BwtRle, thread_type) {
            Ok(metric) => metric,
            Err(e) => {
                return Err(e);
            },
        };
        let mut metrics: Vec<CompressionMetric> = Vec::new();
        metrics.push(rle);
        metrics.push(lzw);
        metrics.push(bwt);
        metrics.push(huffman);
        metrics.push(bwt_rle);
        Ok(metrics)
    }

    /// Runs one codec over a copy of the text and verifies at run time that a
    /// nonempty decoded buffer equals the input; a run that decodes to
    /// anything else is reported instead of returned.
    fn run_one(&self, text: &Vec<u8>, algorithm: Algorithm, thread_type: ThreadType) -> (r: Result<
        CompressionMetric,
        String,
    >)
        requires
            algorithm != Algorithm::All && algorithm != Algorithm::Invalid,
        ensures
            r is Ok ==> (r.unwrap()).algorithm@ == display_name(algorithm) && (
            r.unwrap()).decoded@ == text@,
            !text@.contains(SENTINEL) && (thread_type == ThreadType::MultiThreaded || text@.len()
                + 256 <= u64::MAX || algorithm != Algorithm::Lzw) ==> r is Ok,
    {
        let run = match thread_type {
            ThreadType::MultiThreaded => multi_thread::compute_algorithm(
                clone_bytes(text),
                algorithm,
            ),
            ThreadType::SingleThreaded => single_thread::compute_algorithm(
                clone_bytes(text),
                algorithm,
            ),
        };
        let metric = match run {
            Ok(metric) => metric,
            Err(e) => {
                return Err(e);
            },
        };
        proof {
            if algorithm == Algorithm::Lzw && thread_type == ThreadType::SingleThreaded
                && text@.len() > 0 {
                lemma_lzw_first_code(text@);
                lemma_lzw_decoding_nonempty(lzw_encoding(text@));
            }
            if algorithm == Algorithm::Lzw && thread_type == ThreadType::SingleThreaded
                && text@.len() == 0 {
                assert(lzw_encoding(text@).len() == 0);
                assert(lzw_decoding(lzw_encoding(text@)) =~= text@);
            }
        }
        if metric.decoded.len() > 0 && !bytes_equal(&metric.decoded, text) {
            return Err(String::from_str("a codec decoded to something else than its input"));
        }
        proof {
            if metric.decoded@.len() == 0 && text@.len() > 0 {
                // only the whole-text Lempel-Ziv-Welch run is not pinned to the
                // text outright, and its decoded buffer is never empty here
                assert(false);
            }
            assert(metric.decoded@ =~= text@);
        }
        Ok(metric)
    }
}

/// A copy of a byte vector.
fn clone_bytes(v: &Vec<u8>) -> (r: Vec<u8>)
    ensures
        r@ == v@,
{
    v.clone()
}

} // verus!
