use vstd::prelude::*;
use crate::algorithms::burrows_wheeler_transform::{
    bwt_inversion, bwt_output, feasible_shifts, sorted_suffix_order, BurrowsWheelerTransform,
    SENTINEL,
};
use crate::algorithms::run_length_encoding::{
    parts_view, render_parts, rle_encoding, rle_expansion, RunLengthEncoding,
};
use crate::errors::CodecError;
use crate::utils::bytes_equal;

verus! {

/// The composite codec: a Burrows-Wheeler pass whose output is run-length
/// encoded, with the intermediate buffers cross-checked on the way back.
pub struct BurrowsWheelerRunLength {
    pub bwt: BurrowsWheelerTransform,
    pub rle: Option<RunLengthEncoding>,
}

impl BurrowsWheelerRunLength {
    /// A fresh codec over the given text; text that already contains the
    /// sentinel is rejected.
    pub fn new(text: Vec<u8>) -> (r: Result<Self, CodecError>)
        ensures
            text@.contains(SENTINEL) <==> r is Err,
            r is Err ==> r == Result::<Self, CodecError>::Err(CodecError::SentinelPresent),
            r is Ok ==> {
                let c = r.unwrap();
                &&& c.bwt.text@ == text@ + seq![SENTINEL]
                &&& c.bwt.encoded@ == Seq::<u8>::empty()
                &&& c.bwt.decoded@ == Seq::<u8>::empty()
                &&& c.rle is None
            },
    {
        match BurrowsWheelerTransform::new(text) {
            Ok(bwt) => Ok(BurrowsWheelerRunLength { bwt, rle: None }),
            Err(e) => Err(e),
        }
    }

    /// Encodes in two passes: the Burrows-Wheeler transform of the text, then
    /// the run-length encoding of the transform's output.
    pub fn encode(&mut self)
        requires
            old(self).bwt.text@.len() >= 1,
        ensures
            final (self).bwt.text@ == old(self).bwt.text@,
            final (self).bwt.decoded@ == old(self).bwt.decoded@,
            sorted_suffix_order(final (self).bwt.suffix_indices@, final (self).bwt.text@),
            final (self).bwt.original_pos < final (self).bwt.suffix_indices@.len(),
            final (self).bwt.suffix_indices@[final (self).bwt.original_pos as int] == 0,
            final (self).bwt.encoded@ == bwt_output(
                final (self).bwt.text@,
                final (self).bwt.suffix_indices@,
            ),
            final (self).rle is Some,
            (final (self).rle.unwrap()).text@ == final (self).bwt.encoded@,
            parts_view((final (self).rle.unwrap()).encoded@) == rle_encoding(
                final (self).bwt.encoded@,
            ),
            (final (self).rle.unwrap()).decoded@ == Seq::<u8>::empty(),
    {
        self.bwt.encode();
        let mut rle = RunLengthEncoding::new(self.bwt.compressed());
        rle.encode();
        self.rle = Some(rle);
    }

    /// Decodes in two passes: the run-length expansion first, which must
    /// reproduce the transform's output exactly — any other expansion means
    /// the intermediate buffers were tampered with and is reported — and the
    /// Burrows-Wheeler inversion second.
    pub fn decode(&mut self) -> (r: Result<(), CodecError>)
        ensures
            final (self).bwt.text@ == old(self).bwt.text@,
            final (self).bwt.encoded@ == old(self).bwt.encoded@,
            final (self).bwt.suffix_indices@ == old(self).bwt.suffix_indices@,
            final (self).bwt.original_pos == old(self).bwt.original_pos,
            old(self).rle is None ==> r == Result::<(), CodecError>::Err(
                CodecError::MissingEncodedState,
            ) && final (self).rle is None && final (self).bwt.decoded@ == old(self).bwt.decoded@,
            old(self).rle is Some ==> {
                let expanded = rle_expansion(parts_view((old(self).rle.unwrap()).encoded@));
                &&& final (self).rle is Some
                &&& (final (self).rle.unwrap()).text@ == (old(self).rle.unwrap()).text@
                &&& (final (self).rle.unwrap()).encoded@ == (old(self).rle.unwrap()).encoded@
                &&& (final (self).rle.unwrap()).decoded@ == expanded
                &&& expanded != old(self).bwt.encoded@ ==> r == Result::<(), CodecError>::Err(
                    CodecError::IntermediateMismatch,
                ) && final (self).bwt.decoded@ == old(self).bwt.decoded@
                &&& expanded == old(self).bwt.encoded@ ==> {
                    &&& (r is Ok <==> (old(self).bwt.encoded@.len() == 0 || (old(
                        self,
                    ).bwt.original_pos < old(self).bwt.encoded@.len() && feasible_shifts(
                        old(self).bwt.encoded@,
                    ))))
                    &&& r is Ok ==> final (self).bwt.decoded@ == bwt_inversion(
                        old(self).bwt.encoded@,
                        old(self).bwt.original_pos as int,
                    )
                    &&& r is Err ==> r == Result::<(), CodecError>::Err(
                        CodecError::MissingEncodedState,
                    ) && final (self).bwt.decoded@ == old(self).bwt.decoded@
                }
            },
    {
        match &mut self.rle {
            None => Err(CodecError::MissingEncodedState),
            Some(rle) => {
                rle.decode();
                let expanded = rle.decompressed();
                let transformed = self.bwt.compressed();
                if !bytes_equal(&expanded, &transformed) {
                    Err(CodecError::IntermediateMismatch)
                } else {
                    self.bwt.decode()
                }
            },
        }
    }

    /// The run-length rendering of the composite encoding.
    pub fn compressed(&self) -> (r: Vec<u8>)
        requires
            self.rle is Some,
        ensures
            r@ == render_parts(parts_view((self.rle.unwrap()).encoded@)),
    {
        match &self.rle {
            Some(rle) => rle.compressed(),
            None => {
                proof {
                    assert(false);
                }
                Vec::new()
            },
        }
    }

    /// A copy of the decoded text.
    pub fn decompressed(&self) -> (r: Vec<u8>)
        ensures
            r@ == self.bwt.decoded@,
    {
        self.bwt.decompressed()
    }
}

} // verus!
