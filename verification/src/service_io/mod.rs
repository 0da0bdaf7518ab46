use vstd::prelude::*;
use crate::algorithms::burrows_wheeler_transform::SENTINEL;
use crate::algorithms::Algorithm;
use crate::io::{codec_ready, fresh_codec, new_codec as build_codec, AnyCodec};

pub mod args;

verus! {

/// Builds the codec the algorithm selects, over the given text, or nothing
/// where no codec can be built: for the all-at-once and invalid selections,
/// and for Burrows-Wheeler text holding the sentinel byte.
pub fn new_codec(text: Vec<u8>, algorithm: Algorithm) -> (r: Option<AnyCodec>)
    ensures
        r is None <==> (algorithm == Algorithm::All || algorithm == Algorithm::Invalid || ((
        algorithm == Algorithm::Bwt || algorithm == Algorithm::BwtRle) && text@.contains(
            SENTINEL,
        ))),
        r is Some ==> fresh_codec(r.unwrap(), algorithm, text@) && codec_ready(r.unwrap()),
{
    match build_codec(text, algorithm) {
        Ok(codec) => Some(codec),
        Err(_) => None,
    }
}

} // verus!
