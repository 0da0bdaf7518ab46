use vstd::prelude::*;
use crate::algorithms::burrows_wheeler_transform::{
    lemma_bwt_round_trip, lemma_shifts_always_feasible, SENTINEL,
};
use crate::algorithms::lempel_ziv_welch::{
    lemma_lzw_first_code, lemma_lzw_round_trip, lzw_decoding, lzw_encoding, render_codes,
};
use crate::algorithms::run_length_encoding::{
    lemma_rle_round_trip, render_parts, rle_encoding,
};
use crate::algorithms::Algorithm;
use crate::io::{codec_outcome, decode_relation, decompressed_view, compressed_view, encode_relation, fresh_codec, new_codec, AnyCodec};
use crate::models::response::Response;

verus! {

/// Drives one codec over the whole text: build, encode, decode, and collect
/// the two buffers. The run-length and Huffman codecs are proven to hand the
/// text back unchanged; an unusable selection, a Burrows-Wheeler input holding
/// the sentinel, or an inversion that cannot pair its ranks is reported.
pub fn compute_algorithm(text: Vec<u8>, algorithm: Algorithm) -> (r: Result<Response, String>)
    ensures
        algorithm == Algorithm::All || algorithm == Algorithm::Invalid ==> r is Err,
        algorithm == Algorithm::Rle ==> r is Ok && {
            let resp = r.unwrap();
            &&& resp.decoded@ == text@
            &&& resp.encoded@ == render_parts(rle_encoding(text@))
        },
        algorithm == Algorithm::Huffman ==> r is Ok && (r.unwrap()).decoded@ == text@,
        algorithm == Algorithm::Lzw ==> r is Ok && {
            let resp = r.unwrap();
            &&& resp.decoded@ == lzw_decoding(lzw_encoding(text@))
            &&& resp.encoded@ == render_codes(lzw_encoding(text@))
            &&& text@.len() + 256 <= u64::MAX ==> resp.decoded@ == text@
        },
        r is Err <==> (algorithm == Algorithm::All || algorithm == Algorithm::Invalid || ((
        algorithm == Algorithm::Bwt || algorithm == Algorithm::BwtRle) && text@.contains(
            SENTINEL,
        ))),
        (algorithm == Algorithm::Bwt || algorithm == Algorithm::BwtRle) && !text@.contains(
            SENTINEL,
        ) ==> r is Ok && (r.unwrap()).decoded@ == text@,
        r is Ok ==> codec_outcome(
            algorithm,
            text@,
            (r.unwrap()).encoded@,
            (r.unwrap()).decoded@,
        ),
{
    let ghost t = text@;
    let _text_len = text.len();
    let mut codec = match new_codec(text, algorithm) {
        Ok(codec) => codec,
        Err(e) => {
            return Err(e);
        },
    };
    let ghost fresh = codec;
    codec.encode();
    let ghost encoded_state = codec;
    proof {
        if algorithm == Algorithm::Lzw && t.len() > 0 {
            lemma_lzw_first_code(t);
        }
        if algorithm == Algorithm::Lzw && t.len() + 256 <= u64::MAX {
            lemma_lzw_round_trip(t);
        }
    }
    proof {
        match &codec {
            AnyCodec::Bwt(b) => {
                lemma_shifts_always_feasible(b.encoded@);
            },
            AnyCodec::BwtRle(b) => {
                lemma_shifts_always_feasible(b.bwt.encoded@);
                lemma_rle_round_trip(b.bwt.encoded@);
            },
            _ => {},
        }
    }
    match codec.decode() {
        Ok(_) => {},
        Err(_) => {
            proof {
                assert(false);
            }
            return Err(String::from_str("the encoded state cannot be decoded"));
        },
    }
    let ghost decoded_state = codec;
    let mut response = Response::build();
    response.set_encoded(codec.compressed());
    response.set_decoded(codec.decompressed());
    proof {
        assert(fresh_codec(fresh, algorithm, t));
        assert(encode_relation(fresh, encoded_state));
        assert(decode_relation(encoded_state, decoded_state, Ok(())));
        assert(codec_outcome(
            algorithm,
            t,
            compressed_view(decoded_state),
            decompressed_view(decoded_state),
        ));
        if algorithm == Algorithm::Rle {
            lemma_rle_round_trip(t);
        }
        if (algorithm == Algorithm::Bwt || algorithm == Algorithm::BwtRle) && !t.contains(
            SENTINEL,
        ) {
            let tt = t + seq![SENTINEL];
            assert(tt.last() == SENTINEL);
            assert forall|q: int| 0 <= q < tt.len() - 1 implies tt[q] != SENTINEL by {
                assert(tt[q] == t[q]);
                if t[q] == SENTINEL {
                    assert(t.contains(SENTINEL));
                }
            }
            assert(tt.drop_last() =~= t);
            if algorithm == Algorithm::Bwt {
                let mid = encoded_state->Bwt_0;
                assert(mid.text@ == tt);
                lemma_bwt_round_trip(tt, mid.suffix_indices@, mid.original_pos as int);
            } else {
                let mid = encoded_state->BwtRle_0;
                assert(mid.bwt.text@ == tt);
                lemma_bwt_round_trip(tt, mid.bwt.suffix_indices@, mid.bwt.original_pos as int);
            }
        }
    }
    Ok(response)
}

/// Benchmarks the four standalone codecs over the text, in a fixed order:
/// Huffman, Lempel-Ziv-Welch, Burrows-Wheeler, run-length.
pub fn benchmark_algorithms(text: Vec<u8>) -> (r: Result<Vec<Response>, String>)
    ensures
        r is Ok ==> {
            let v = r.unwrap();
            &&& v@.len() == 4
            &&& v@[0].decoded@ == text@
            &&& v@[1].decoded@ == lzw_decoding(lzw_encoding(text@))
            &&& (text@.len() + 256 <= u64::MAX ==> v@[1].decoded@ == text@)
            &&& v@[1].encoded@ == render_codes(lzw_encoding(text@))
            &&& v@[2].decoded@ == text@
            &&& v@[3].decoded@ == text@
            &&& v@[3].encoded@ == render_parts(rle_encoding(text@))
        },
        r is Err <==> text@.contains(SENTINEL),
{
    let huffman = match compute_algorithm(clone_bytes(&text), Algorithm::Huffman) {
        Ok(resp) => resp,
        Err(e) => {
            return Err(e);
        },
    };
    let lzw = match compute_algorithm(clone_bytes(&text), Algorithm::Lzw) {
        Ok(resp) => resp,
        Err(e) => {
            return Err(e);
        },
    };
    let bwt = match compute_algorithm(clone_bytes(&text), Algorithm::Bwt) {
        Ok(resp) => resp,
        Err(e) => {
            return Err(e);
        },
    };
    let rle = match compute_algorithm(text, Algorithm::Rle) {
        Ok(resp) => resp,
        Err(e) => {
            return Err(e);
        },
    };
    let mut responses: Vec<Response> = Vec::new();
    responses.push(huffman);
    responses.push(lzw);
    responses.push(bwt);
    responses.push(rle);
    Ok(responses)
}

/// A copy of a byte vector.
fn clone_bytes(v: &Vec<u8>) -> (r: Vec<u8>)
    ensures
        r@ == v@,
{
    v.clone()
}

} // verus!
