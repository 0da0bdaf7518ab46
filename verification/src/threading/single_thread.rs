use vstd::prelude::*;
use crate::algorithms::burrows_wheeler_transform::SENTINEL;
use crate::algorithms::lempel_ziv_welch::{lzw_decoding, lzw_encoding, render_codes};
use crate::algorithms::run_length_encoding::{render_parts, rle_encoding};
use crate::algorithms::{display_name, Algorithm};
use crate::io::codec_outcome;
use crate::models::compression_metric::CompressionMetric;
use crate::single_thread::compute_algorithm as run_whole;

verus! {

/// Runs one codec over the whole text and gathers the outcome into a metric.
/// Wall-clock time is the caller's to record; the metric starts at zero.
pub fn compute_algorithm(text: Vec<u8>, algorithm: Algorithm) -> (r: Result<
    CompressionMetric,
    String,
>)
    ensures
        r is Ok ==> (r.unwrap()).algorithm@ == display_name(algorithm),
        algorithm == Algorithm::Rle ==> r is Ok && {
            let m = r.unwrap();
            &&& m.decoded@ == text@
            &&& m.encoded@ == render_parts(rle_encoding(text@))
        },
        algorithm == Algorithm::Huffman ==> r is Ok && (r.unwrap()).decoded@ == text@,
        algorithm == Algorithm::Lzw ==> r is Ok && {
            let m = r.unwrap();
            &&& m.decoded@ == lzw_decoding(lzw_encoding(text@))
            &&& m.encoded@ == render_codes(lzw_encoding(text@))
            &&& text@.len() + 256 <= u64::MAX ==> m.decoded@ == text@
        },
        r is Err <==> (algorithm == Algorithm::All || algorithm == Algorithm::Invalid || ((
        algorithm == Algorithm::Bwt || algorithm == Algorithm::BwtRle) && text@.contains(
            SENTINEL,
        ))),
        (algorithm == Algorithm::Bwt || algorithm == Algorithm::BwtRle) && !text@.contains(
            SENTINEL,
        ) ==> r is Ok && (r.unwrap()).decoded@ == text@,
        r is Ok ==> codec_outcome(
            algorithm,
            text@,
            (r.unwrap()).encoded@,
            (r.unwrap()).decoded@,
        ),
{
    let response = match run_whole(text, algorithm) {
        Ok(response) => response,
        Err(e) => {
            return Err(e);
        },
    };
    let _encoded_len = response.encoded.len();
    let _decoded_len = response.decoded.len();
    proof {
        assert(response.encoded@.len() <= u64::MAX);
        assert(response.decoded@.len() <= u64::MAX);
    }
    Ok(CompressionMetric::new(algorithm, response.encoded, response.decoded, 0))
}

} // verus!
