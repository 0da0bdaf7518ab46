use vstd::prelude::*;

pub mod burrows_wheeler_run_length;
pub mod burrows_wheeler_transform;
pub mod huffman;
pub mod lempel_ziv_welch;
pub mod run_length_encoding;

verus! {

/// The closed set of codec selections: the five codecs, the request for all of
/// them, and a sentinel for an unrecognized selection string.
#[derive(Clone, Copy, PartialEq, Eq, Structural, Debug)]
pub enum Algorithm {
    Rle,
    Huffman,
    Bwt,
    Lzw,
    BwtRle,
    All,
    Invalid,
}

/// ASCII lowering of one byte: the letters `A` through `Z` gain 32, everything
/// else is unchanged.
pub open spec fn lower_byte(b: u8) -> u8 {
    if 65 <= b <= 90 {
        (b + 32) as u8
    } else {
        b
    }
}

/// ASCII lowering of a whole byte sequence.
pub open spec fn lower_bytes(s: Seq<u8>) -> Seq<u8> {
    s.map_values(|b: u8| lower_byte(b))
}

/// Whether `l` spells `rle`.
pub open spec fn spells_rle(l: Seq<u8>) -> bool {
    l.len() == 3 && l[0] == 114 && l[1] == 108 && l[2] == 101
}

/// Whether `l` spells `huffman`.
pub open spec fn spells_huffman(l: Seq<u8>) -> bool {
    l.len() == 7 && l[0] == 104 && l[1] == 117 && l[2] == 102 && l[3] == 102 && l[4] == 109
        && l[5] == 97 && l[6] == 110
}

/// Whether `l` spells `bwt`.
pub open spec fn spells_bwt(l: Seq<u8>) -> bool {
    l.len() == 3 && l[0] == 98 && l[1] == 119 && l[2] == 116
}

/// Whether `l` spells `lzw`.
pub open spec fn spells_lzw(l: Seq<u8>) -> bool {
    l.len() == 3 && l[0] == 108 && l[1] == 122 && l[2] == 119
}

/// Whether `l` spells `bwtrle`.
pub open spec fn spells_bwtrle(l: Seq<u8>) -> bool {
    l.len() == 6 && l[0] == 98 && l[1] == 119 && l[2] == 116 && l[3] == 114 && l[4] == 108 && l[5]
        == 101
}

/// Whether `l` spells `all`.
pub open spec fn spells_all(l: Seq<u8>) -> bool {
    l.len() == 3 && l[0] == 97 && l[1] == 108 && l[2] == 108
}

/// The algorithm a selection string names, compared without regard to case;
/// anything unrecognized maps to the `Invalid` sentinel.
pub open spec fn parse_algorithm(s: Seq<u8>) -> Algorithm {
    let l = lower_bytes(s);
    if spells_rle(l) {
        Algorithm::Rle
    } else if spells_huffman(l) {
        Algorithm::Huffman
    } else if spells_bwt(l) {
        Algorithm::Bwt
    } else if spells_lzw(l) {
        Algorithm::Lzw
    } else if spells_bwtrle(l) {
        Algorithm::BwtRle
    } else if spells_all(l) {
        Algorithm::All
    } else {
        Algorithm::Invalid
    }
}

/// The canonical display name of each algorithm.
pub open spec fn display_name(a: Algorithm) -> Seq<char> {
    match a {
        Algorithm::Rle => "RLE"@,
        Algorithm::Huffman => "Huffman"@,
        Algorithm::Bwt => "BWT"@,
        Algorithm::Lzw => "LZW"@,
        Algorithm::BwtRle => "BWTRLE"@,
        Algorithm::All => "ALL"@,
        Algorithm::Invalid => "invalid"@,
    }
}

impl Algorithm {
    /// The canonical display name of this algorithm.
    pub fn name(&self) -> (r: &'static str)
        ensures
            r@ == display_name(*self),
    {
        match self {
            Algorithm::Rle => "RLE",
            Algorithm::Huffman => "Huffman",
            Algorithm::Bwt => "BWT",
            Algorithm::Lzw => "LZW",
            Algorithm::BwtRle => "BWTRLE",
            Algorithm::All => "ALL",
            Algorithm::Invalid => "invalid",
        }
    }
}

impl core::default::Default for Algorithm {
    /// The default selection is the Huffman codec.
    fn default() -> (r: Self)
        ensures
            r == Algorithm::Huffman,
    {
        Algorithm::Huffman
    }
}

impl vstd::std_specs::convert::FromSpecImpl<Vec<u8>> for Algorithm {
    open spec fn obeys_from_spec() -> bool {
        true
    }

    open spec fn from_spec(v: Vec<u8>) -> Algorithm {
        parse_algorithm(v@)
    }
}

impl core::convert::From<Vec<u8>> for Algorithm {
    /// Parses a selection string, without regard to case; an unrecognized
    /// string gives the `Invalid` sentinel.
    fn from(value: Vec<u8>) -> (r: Algorithm) {
        let n = value.len();
        let mut l: Vec<u8> = Vec::new();
        let mut i: usize = 0;
        while i < n
            invariant
                n == value@.len(),
                i <= n,
                l@ == lower_bytes(value@.take(i as int)),
            decreases n - i,
        {
            let b = value[i];
            let low: u8 = if 65 <= b && b <= 90 {
                b + 32
            } else {
                b
            };
            l.push(low);
            proof {
                assert(l@ =~= lower_bytes(value@.take(i + 1)));
            }
            i = i + 1;
        }
        proof {
            assert(value@.take(n as int) =~= value@);
        }
        if l.len() == 3 && l[0] == 114 && l[1] == 108 && l[2] == 101 {
            Algorithm::Rle
        } else if l.len() == 7 && l[0] == 104 && l[1] == 117 && l[2] == 102 && l[3] == 102 && l[4]
            == 109 && l[5] == 97 && l[6] == 110 {
            Algorithm::Huffman
        } else if l.len() == 3 && l[0] == 98 && l[1] == 119 && l[2] == 116 {
            Algorithm::Bwt
        } else if l.len() == 3 && l[0] == 108 && l[1] == 122 && l[2] == 119 {
            Algorithm::Lzw
        } else if l.len() == 6 && l[0] == 98 && l[1] == 119 && l[2] == 116 && l[3] == 114 && l[4]
            == 108 && l[5] == 101 {
            Algorithm::BwtRle
        } else if l.len() == 3 && l[0] == 97 && l[1] == 108 && l[2] == 108 {
            Algorithm::All
        } else {
            Algorithm::Invalid
        }
    }
}

} // verus!
