use vstd::prelude::*;
use crate::algorithms::burrows_wheeler_transform::SENTINEL;
use crate::algorithms::{display_name, Algorithm};
use crate::models::compression_metric::CompressionMetric;
use crate::io::codec_outcome;
use crate::multi_thread::compute_algorithm as run_parts;
use crate::utils::{chunk_at, part_count};

verus! {

/// Runs one codec over the text in fixed-size parts and gathers the
/// reassembled outcome into a metric. Wall-clock time is the caller's to
/// record; the metric starts at zero.
pub fn compute_algorithm(text: Vec<u8>, algorithm: Algorithm) -> (r: Result<
    CompressionMetric,
    String,
>)
    ensures
        r is Ok ==> (r.unwrap()).algorithm@ == display_name(algorithm),
        algorithm == Algorithm::Rle || algorithm == Algorithm::Huffman || algorithm
            == Algorithm::Lzw ==> r is Ok && (r.unwrap()).decoded@ == text@,
        algorithm == Algorithm::All || algorithm == Algorithm::Invalid ==> r is Err,
        algorithm == Algorithm::Bwt || algorithm == Algorithm::BwtRle ==> ((r is Err
            <==> text@.contains(SENTINEL)) && (r is Ok ==> (r.unwrap()).decoded@ == text@)),
        r is Ok ==> exists|encs: Seq<Seq<u8>>, decs: Seq<Seq<u8>>|
            {
                &&& encs.len() == part_count(text@.len())
                &&& decs.len() == part_count(text@.len())
                &&& (forall|k: int|
                    0 <= k < encs.len() ==> #[trigger] codec_outcome(
                        algorithm,
                        chunk_at(text@, k),
                        encs[k],
                        decs[k],
                    ))
                &&& (r.unwrap()).encoded@ == encs.flatten()
                &&& (r.unwrap()).decoded@ == decs.flatten()
            },
{
    let response = match run_parts(text, algorithm) {
        Ok(response) => response,
        Err(e) => {
            return Err(e);
        },
    };
    let _encoded_len = response.encoded.len();
    let _decoded_len = response.decoded.len();
    proof {
        assert(response.encoded@.len() <= u64::MAX);
        assert(response.decoded@.len() <= u64::MAX);
    }
    Ok(CompressionMetric::new(algorithm, response.encoded, response.decoded, 0))
}

} // verus!
