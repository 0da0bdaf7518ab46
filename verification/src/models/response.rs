use vstd::prelude::*;

verus! {

/// The outcome of one codec run: the encoded and decoded buffers.
#[derive(Clone, Debug)]
pub struct Response {
    pub encoded: Vec<u8>,
    pub decoded: Vec<u8>,
}

impl Response {
    /// An empty response.
    pub fn build() -> (r: Self)
        ensures
            r.encoded@ == Seq::<u8>::empty(),
            r.decoded@ == Seq::<u8>::empty(),
    {
        Response { encoded: Vec::new(), decoded: Vec::new() }
    }

    /// Replaces the encoded buffer.
    pub fn set_encoded(&mut self, encoded: Vec<u8>)
        ensures
            final (self).encoded@ == encoded@,
            final (self).decoded@ == old(self).decoded@,
    {
        self.encoded = encoded;
    }

    /// Replaces the decoded buffer.
    pub fn set_decoded(&mut self, decoded: Vec<u8>)
        ensures
            final (self).decoded@ == decoded@,
            final (self).encoded@ == old(self).encoded@,
    {
        self.decoded = decoded;
    }
}

} // verus!
