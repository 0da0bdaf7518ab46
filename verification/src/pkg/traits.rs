use vstd::prelude::*;
use crate::errors::CodecError;
use crate::io::{
    codec_ready, compressed_view, decode_relation, decompressed_view, encode_relation, AnyCodec,
};

verus! {

/// The uniform contract every codec serves: encode, decode, and read both
/// buffers back. Each implementation says through the spec members what its
/// two passes leave behind.
pub trait Codec: Sized {
    /// The states in which the codec accepts the next call.
    spec fn ready(&self) -> bool;

    /// What encode leaves behind, in terms of the state it started from.
    spec fn encode_spec(&self, pre: Self) -> bool;

    /// What decode leaves behind and when it fails, in terms of the state it
    /// started from.
    spec fn decode_spec(&self, pre: Self, r: Result<(), CodecError>) -> bool;

    /// The rendered encoded state.
    spec fn compressed_spec(&self) -> Seq<u8>;

    /// The decoded text.
    spec fn decompressed_spec(&self) -> Seq<u8>;

    fn encode(&mut self)
        requires
            old(self).ready(),
        ensures
            final (self).ready(),
            final (self).encode_spec(*old(self)),
    ;

    fn decode(&mut self) -> (r: Result<(), CodecError>)
        requires
            old(self).ready(),
        ensures
            final (self).ready(),
            final (self).decode_spec(*old(self), r),
    ;

    fn compressed(&self) -> (r: Vec<u8>)
        ensures
            r@ == self.compressed_spec(),
    ;

    fn decompressed(&self) -> (r: Vec<u8>)
        ensures
            r@ == self.decompressed_spec(),
    ;
}

/// A reader of text input: a file, an argument list, or any other source.
pub trait Reader {
    fn read(&mut self) -> Result<Vec<u8>, String>;
}

/// A writer of result data: a file or any other sink.
pub trait Writer {
    fn write(&self, data: &[u8]) -> Result<(), String>;
}

impl Codec for AnyCodec {
    open spec fn ready(&self) -> bool {
        codec_ready(*self)
    }

    open spec fn encode_spec(&self, pre: Self) -> bool {
        encode_relation(pre, *self)
    }

    open spec fn decode_spec(&self, pre: Self, r: Result<(), CodecError>) -> bool {
        decode_relation(pre, *self, r)
    }

    open spec fn compressed_spec(&self) -> Seq<u8> {
        compressed_view(*self)
    }

    open spec fn decompressed_spec(&self) -> Seq<u8> {
        decompressed_view(*self)
    }

    fn encode(&mut self) {
        AnyCodec::encode(self)
    }

    fn decode(&mut self) -> (r: Result<(), CodecError>) {
        AnyCodec::decode(self)
    }

    fn compressed(&self) -> (r: Vec<u8>) {
        AnyCodec::compressed(self)
    }

    fn decompressed(&self) -> (r: Vec<u8>) {
        AnyCodec::decompressed(self)
    }
}

} // verus!
