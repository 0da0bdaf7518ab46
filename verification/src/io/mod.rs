use vstd::prelude::*;
use crate::algorithms::burrows_wheeler_run_length::BurrowsWheelerRunLength;
use crate::algorithms::burrows_wheeler_transform::{
    bwt_inversion, bwt_output, feasible_shifts, sorted_suffix_order, BurrowsWheelerTransform,
    SENTINEL,
};
use crate::algorithms::huffman::{bits_only, huffman_decode, huffman_encode, table_view, Huffman};
use crate::algorithms::lempel_ziv_welch::{
    lzw_decoding, lzw_encoding, render_codes, LempelZivWelch,
};
use crate::algorithms::run_length_encoding::{
    parts_view, render_parts, rle_encoding, rle_expansion, RunLengthEncoding,
};
use crate::algorithms::Algorithm;
use crate::errors::CodecError;

pub mod args;

verus! {

/// One codec of any of the five kinds, behind a single interface.
pub enum AnyCodec {
    Rle(RunLengthEncoding),
    Huffman(Huffman),
    Bwt(BurrowsWheelerTransform),
    Lzw(LempelZivWelch),
    BwtRle(BurrowsWheelerRunLength),
}

/// What a freshly built codec looks like: the right variant for the selected
/// algorithm, holding the given text with empty working buffers.
pub open spec fn fresh_codec(c: AnyCodec, algorithm: Algorithm, text: Seq<u8>) -> bool {
    match c {
        AnyCodec::Rle(r) => algorithm == Algorithm::Rle && r.text@ == text && r.encoded@.len()
            == 0 && r.decoded@.len() == 0,
        AnyCodec::Huffman(h) => algorithm == Algorithm::Huffman && h.wf() && h.text@ == text
            && h.root is None && h.encoded@.len() == 0 && h.decoded@.len() == 0,
        AnyCodec::Bwt(b) => algorithm == Algorithm::Bwt && b.text@ == text + seq![SENTINEL]
            && b.encoded@.len() == 0 && b.decoded@.len() == 0,
        AnyCodec::Lzw(l) => algorithm == Algorithm::Lzw && l.text@ == text && l.encoded@.len()
            == 0 && l.output@.len() == 0,
        AnyCodec::BwtRle(b) => algorithm == Algorithm::BwtRle && b.bwt.text@ == text + seq![
            SENTINEL,
        ] && b.bwt.encoded@.len() == 0 && b.bwt.decoded@.len() == 0 && b.rle is None,
    }
}

/// The states in which each codec accepts the next call: the Huffman codec
/// needs its frequency table consistent, the Burrows-Wheeler ones their
/// sentinel-terminated text.
pub open spec fn codec_ready(c: AnyCodec) -> bool {
    match c {
        AnyCodec::Rle(r) => true,
        AnyCodec::Huffman(h) => h.wf(),
        AnyCodec::Bwt(b) => b.text@.len() >= 1,
        AnyCodec::Lzw(l) => true,
        AnyCodec::BwtRle(b) => b.bwt.text@.len() >= 1,
    }
}

/// What encode leaves behind, for each codec kind: the exact encoded state
/// over the unchanged text.
pub open spec fn encode_relation(pre: AnyCodec, post: AnyCodec) -> bool {
    match (pre, post) {
        (AnyCodec::Rle(a), AnyCodec::Rle(b)) => {
            &&& b.text@ == a.text@
            &&& b.decoded@ == a.decoded@
            &&& parts_view(b.encoded@) == rle_encoding(a.text@)
        },
        (AnyCodec::Huffman(a), AnyCodec::Huffman(b)) => {
            &&& b.wf()
            &&& b.text@ == a.text@
            &&& b.decoded@ == a.decoded@
            &&& b.encoded@ == huffman_encode(table_view(b.char_encodings@), a.text@)
            &&& huffman_decode(b.root, b.encoded@) == a.text@
            &&& bits_only(b.encoded@)
        },
        (AnyCodec::Bwt(a), AnyCodec::Bwt(b)) => {
            &&& b.text@ == a.text@
            &&& b.decoded@ == a.decoded@
            &&& sorted_suffix_order(b.suffix_indices@, b.text@)
            &&& b.original_pos < b.suffix_indices@.len()
            &&& b.suffix_indices@[b.original_pos as int] == 0
            &&& b.encoded@ == bwt_output(b.text@, b.suffix_indices@)
        },
        (AnyCodec::Lzw(a), AnyCodec::Lzw(b)) => {
            &&& b.text@ == a.text@
            &&& b.output@ == a.output@
            &&& b.encoded@ == lzw_encoding(a.text@)
        },
        (AnyCodec::BwtRle(a), AnyCodec::BwtRle(b)) => {
            &&& b.bwt.text@ == a.bwt.text@
            &&& b.bwt.decoded@ == a.bwt.decoded@
            &&& sorted_suffix_order(b.bwt.suffix_indices@, b.bwt.text@)
            &&& b.bwt.original_pos < b.bwt.suffix_indices@.len()
            &&& b.bwt.suffix_indices@[b.bwt.original_pos as int] == 0
            &&& b.bwt.encoded@ == bwt_output(b.bwt.text@, b.bwt.suffix_indices@)
            &&& b.rle is Some
            &&& (b.rle.unwrap()).text@ == b.bwt.encoded@
            &&& parts_view((b.rle.unwrap()).encoded@) == rle_encoding(b.bwt.encoded@)
            &&& (b.rle.unwrap()).decoded@ == Seq::<u8>::empty()
        },
        _ => false,
    }
}

/// What decode leaves behind, for each codec kind: the exact decoded state
/// over the unchanged encoded buffers, and exactly when it reports a failure.
pub open spec fn decode_relation(pre: AnyCodec, post: AnyCodec, r: Result<
    (),
    CodecError,
>) -> bool {
    match (pre, post) {
        (AnyCodec::Rle(a), AnyCodec::Rle(b)) => {
            &&& r is Ok
            &&& b.text@ == a.text@
            &&& b.encoded@ == a.encoded@
            &&& b.decoded@ == rle_expansion(parts_view(a.encoded@))
        },
        (AnyCodec::Huffman(a), AnyCodec::Huffman(b)) => {
            &&& r is Ok
            &&& b.wf()
            &&& b.text@ == a.text@
            &&& b.encoded@ == a.encoded@
            &&& b.root == a.root
            &&& b.decoded@ == huffman_decode(a.root, a.encoded@)
        },
        (AnyCodec::Bwt(a), AnyCodec::Bwt(b)) => {
            &&& b.text@ == a.text@
            &&& b.encoded@ == a.encoded@
            &&& b.suffix_indices@ == a.suffix_indices@
            &&& b.original_pos == a.original_pos
            &&& (r is Ok <==> (a.encoded@.len() == 0 || (a.original_pos < a.encoded@.len()
                && feasible_shifts(a.encoded@))))
            &&& r is Ok ==> b.decoded@ == bwt_inversion(a.encoded@, a.original_pos as int)
            &&& r is Err ==> b.decoded@ == a.decoded@ && r == Result::<(), CodecError>::Err(
                CodecError::MissingEncodedState,
            )
        },
        (AnyCodec::Lzw(a), AnyCodec::Lzw(b)) => {
            &&& b.text@ == a.text@
            &&& b.encoded@ == a.encoded@
            &&& (r is Err <==> (a.encoded@.len() > 0 && a.encoded@[0] >= 256))
            &&& r is Err ==> b.output@ == a.output@ && r == Result::<(), CodecError>::Err(
                CodecError::MissingEncodedState,
            )
            &&& r is Ok ==> b.output@ == lzw_decoding(a.encoded@)
        },
        (AnyCodec::BwtRle(a), AnyCodec::BwtRle(b)) => bwtrle_decode_relation(a, b, r),
        _ => false,
    }
}

/// What the composite codec's decode leaves behind: the run-length expansion
/// of the stored intermediate, the mismatch report when it disagrees with the
/// transform output, and the inversion otherwise.
pub open spec fn bwtrle_decode_relation(
    a: BurrowsWheelerRunLength,
    b: BurrowsWheelerRunLength,
    r: Result<(), CodecError>,
) -> bool {
    b.bwt.text@ == a.bwt.text@ && b.bwt.encoded@ == a.bwt.encoded@ && b.bwt.suffix_indices@
        == a.bwt.suffix_indices@ && b.bwt.original_pos == a.bwt.original_pos && if a.rle is None {
        r == Result::<(), CodecError>::Err(CodecError::MissingEncodedState) && b.rle is None
            && b.bwt.decoded@ == a.bwt.decoded@
    } else {
        let expanded = rle_expansion(parts_view((a.rle.unwrap()).encoded@));
        b.rle is Some && (b.rle.unwrap()).encoded@ == (a.rle.unwrap()).encoded@ && (
        b.rle.unwrap()).decoded@ == expanded && if expanded != a.bwt.encoded@ {
            r == Result::<(), CodecError>::Err(CodecError::IntermediateMismatch)
                && b.bwt.decoded@ == a.bwt.decoded@
        } else {
            (r is Ok <==> (a.bwt.encoded@.len() == 0 || (a.bwt.original_pos < a.bwt.encoded@.len()
                && feasible_shifts(a.bwt.encoded@)))) && (r is Ok ==> b.bwt.decoded@
                == bwt_inversion(a.bwt.encoded@, a.bwt.original_pos as int)) && (r is Err ==> r
                == Result::<(), CodecError>::Err(CodecError::MissingEncodedState)
                && b.bwt.decoded@ == a.bwt.decoded@)
        }
    }
}

/// The rendered form of each codec's encoded state.
pub open spec fn compressed_view(c: AnyCodec) -> Seq<u8> {
    match c {
        AnyCodec::Rle(r) => render_parts(parts_view(r.encoded@)),
        AnyCodec::Huffman(h) => h.encoded@,
        AnyCodec::Bwt(b) => b.encoded@,
        AnyCodec::Lzw(l) => render_codes(l.encoded@),
        AnyCodec::BwtRle(b) => if b.rle is Some {
            render_parts(parts_view((b.rle.unwrap()).encoded@))
        } else {
            Seq::empty()
        },
    }
}

/// Each codec's decoded text.
pub open spec fn decompressed_view(c: AnyCodec) -> Seq<u8> {
    match c {
        AnyCodec::Rle(r) => r.decoded@,
        AnyCodec::Huffman(h) => h.decoded@,
        AnyCodec::Bwt(b) => b.decoded@,
        AnyCodec::Lzw(l) => l.output@,
        AnyCodec::BwtRle(b) => b.bwt.decoded@,
    }
}

impl AnyCodec {
    /// Runs the wrapped codec's encoder.
    pub fn encode(&mut self)
        requires
            codec_ready(*old(self)),
        ensures
            encode_relation(*old(self), *final (self)),
            codec_ready(*final (self)),
    {
        match self {
            AnyCodec::Rle(c) => c.encode(),
            AnyCodec::Huffman(c) => c.encode(),
            AnyCodec::Bwt(c) => c.encode(),
            AnyCodec::Lzw(c) => c.encode(),
            AnyCodec::BwtRle(c) => c.encode(),
        }
    }

    /// Runs the wrapped codec's decoder.
    pub fn decode(&mut self) -> (r: Result<(), CodecError>)
        requires
            codec_ready(*old(self)),
        ensures
            decode_relation(*old(self), *final (self), r),
            codec_ready(*final (self)),
    {
        match self {
            AnyCodec::Rle(c) => {
                c.decode();
                Ok(())
            },
            AnyCodec::Huffman(c) => {
                c.decode();
                Ok(())
            },
            AnyCodec::Bwt(c) => c.decode(),
            AnyCodec::Lzw(c) => c.decode(),
            AnyCodec::BwtRle(c) => c.decode(),
        }
    }

    /// The rendered encoded state.
    pub fn compressed(&self) -> (r: Vec<u8>)
        ensures
            r@ == compressed_view(*self),
    {
        match self {
            AnyCodec::Rle(c) => c.compressed(),
            AnyCodec::Huffman(c) => c.compressed(),
            AnyCodec::Bwt(c) => c.compressed(),
            AnyCodec::Lzw(c) => c.compressed(),
            AnyCodec::BwtRle(c) => {
                match &c.rle {
                    Some(rle) => rle.compressed(),
                    None => Vec::new(),
                }
            },
        }
    }

    /// A copy of the decoded text.
    pub fn decompressed(&self) -> (r: Vec<u8>)
        ensures
            r@ == decompressed_view(*self),
    {
        match self {
            AnyCodec::Rle(c) => c.decompressed(),
            AnyCodec::Huffman(c) => c.decompressed(),
            AnyCodec::Bwt(c) => c.decompressed(),
            AnyCodec::Lzw(c) => c.decompressed(),
            AnyCodec::BwtRle(c) => c.decompressed(),
        }
    }
}

/// What one run leaves behind: a codec of the selected kind, built fresh over
/// the given text, encoded and decoded exactly as its contracts say, with the
/// two rendered buffers read back.
pub open spec fn codec_outcome(
    algorithm: Algorithm,
    text: Seq<u8>,
    enc: Seq<u8>,
    dec: Seq<u8>,
) -> bool {
    exists|built: AnyCodec, encoded: AnyCodec, decoded: AnyCodec|
        {
            &&& #[trigger] fresh_codec(built, algorithm, text)
            &&& #[trigger] encode_relation(built, encoded)
            &&& #[trigger] decode_relation(encoded, decoded, Ok(()))
            &&& enc == compressed_view(decoded)
            &&& dec == decompressed_view(decoded)
        }
}

/// Builds the codec the algorithm selects, over the given text. The selection
/// of all algorithms at once or of the invalid sentinel names no codec, and
/// the Burrows-Wheeler codecs reject text holding their sentinel byte.
pub fn new_codec(text: Vec<u8>, algorithm: Algorithm) -> (r: Result<AnyCodec, String>)
    ensures
        r is Err <==> (algorithm == Algorithm::All || algorithm == Algorithm::Invalid || ((
        algorithm == Algorithm::Bwt || algorithm == Algorithm::BwtRle) && text@.contains(
            SENTINEL,
        ))),
        r is Ok ==> fresh_codec(r.unwrap(), algorithm, text@) && codec_ready(r.unwrap()),
{
    match algorithm {
        Algorithm::Rle => Ok(AnyCodec::Rle(RunLengthEncoding::new(text))),
        Algorithm::Huffman => Ok(AnyCodec::Huffman(Huffman::new(text))),
        Algorithm::Bwt => {
            match BurrowsWheelerTransform::new(text) {
                Ok(c) => Ok(AnyCodec::Bwt(c)),
                Err(_) => Err(String::from_str("the text must not contain the sentinel byte")),
            }
        },
        Algorithm::Lzw => Ok(AnyCodec::Lzw(LempelZivWelch::new(text))),
        Algorithm::BwtRle => {
            match BurrowsWheelerRunLength::new(text) {
                Ok(c) => Ok(AnyCodec::BwtRle(c)),
                Err(_) => Err(String::from_str("the text must not contain the sentinel byte")),
            }
        },
        _ => Err(String::from_str("invalid algorithm")),
    }
}

} // verus!
