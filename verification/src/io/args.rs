use vstd::prelude::*;
use crate::algorithms::Algorithm;

verus! {

/// Whether the byte is ASCII whitespace.
pub open spec fn is_space(b: u8) -> bool {
    b == 32 || b == 9 || b == 10 || b == 13 || b == 12 || b == 11
}

/// The command-line selection for one run: the file to compress and the codec
/// to use.
pub struct Argument {
    pub file_name: Vec<u8>,
    pub algorithm: Algorithm,
}

impl Argument {
    /// A copy of the file name.
    pub fn file_name(&self) -> (r: Vec<u8>)
        ensures
            r@ == self.file_name@,
    {
        self.file_name.clone()
    }

    /// The selected algorithm.
    pub fn algorithm(&self) -> (r: Algorithm)
        ensures
            r == self.algorithm,
    {
        self.algorithm
    }

    /// Strips every whitespace byte out of the file name, and rejects a name
    /// with nothing else in it.
    pub fn validate_file_name(&mut self) -> (r: Result<(), String>)
        ensures
            final (self).algorithm == old(self).algorithm,
            final (self).file_name@ == old(self).file_name@.filter(|b: u8| !is_space(b)),
            r is Ok <==> final (self).file_name@.len() > 0,
    {
        let n = self.file_name.len();
        let mut name: Vec<u8> = Vec::new();
        let mut i: usize = 0;
        proof {
            assert(self.file_name@.take(0).filter(|b: u8| !is_space(b)) =~= Seq::<u8>::empty());
        }
        while i < n
            invariant
                i <= n,
                n == self.file_name@.len(),
                name@ == self.file_name@.take(i as int).filter(|b: u8| !is_space(b)),
            decreases n - i,
        {
            let b = self.file_name[i];
            proof {
                assert(self.file_name@.take(i + 1).drop_last() =~= self.file_name@.take(i as int));
                assert(self.file_name@.take(i + 1).last() == self.file_name@[i as int]);
                reveal_with_fuel(Seq::filter, 2);
            }
            if !(b == 32 || b == 9 || b == 10 || b == 13 || b == 12 || b == 11) {
                name.push(b);
            }
            i = i + 1;
        }
        proof {
            assert(self.file_name@.take(n as int) =~= self.file_name@);
        }
        self.file_name = name;
        if self.file_name.len() == 0 {
            return Err(String::from_str("file name cannot be empty"));
        }
        Ok(())
    }
}

} // verus!
