use vstd::prelude::*;
use crate::errors::CodecError;
use crate::utils::bytes_equal;
use crate::numeral::{dec_digits, u64_to_decimal};

verus! {

/// The dictionary's entries as byte sequences.
pub open spec fn dict_view(d: Seq<Vec<u8>>) -> Seq<Seq<u8>> {
    d.map_values(|v: Vec<u8>| v@)
}

/// Some dictionary entry equals the pattern `p`.
pub open spec fn has_pattern(dict: Seq<Seq<u8>>, p: Seq<u8>) -> bool {
    exists|i: int| 0 <= i < dict.len() && dict[i] == p
}

/// `i` is the first dictionary entry equal to `p`.
pub open spec fn is_first_index(dict: Seq<Seq<u8>>, p: Seq<u8>, i: int) -> bool {
    &&& 0 <= i < dict.len()
    &&& dict[i] == p
    &&& forall|j: int| 0 <= j < i ==> dict[j] != p
}

/// The code of a pattern: the first dictionary index holding it.
pub open spec fn code_of_pattern(dict: Seq<Seq<u8>>, p: Seq<u8>) -> int {
    choose|i: int| is_first_index(dict, p, i)
}

/// A pattern that occurs at all occurs at a unique first index.
proof fn lemma_first_index(dict: Seq<Seq<u8>>, p: Seq<u8>, w: int)
    requires
        0 <= w < dict.len(),
        dict[w] == p,
    ensures
        is_first_index(dict, p, code_of_pattern(dict, p)),
        forall|i: int, j: int|
            is_first_index(dict, p, i) && is_first_index(dict, p, j) ==> i == j,
    decreases w,
{
    if forall|j: int| 0 <= j < w ==> dict[j] != p {
        assert(is_first_index(dict, p, w));
    } else {
        let w2 = choose|j: int| 0 <= j < w && dict[j] == p;
        lemma_first_index(dict, p, w2);
    }
    assert forall|i: int, j: int|
        is_first_index(dict, p, i) && is_first_index(dict, p, j) implies i == j by {
        if i < j {
            assert(dict[i] != p);
        }
        if j < i {
            assert(dict[j] != p);
        }
    }
}

/// The dictionary every run starts from: one entry per byte value, the code of
/// a single-byte pattern being the byte itself.
pub open spec fn seed_dictionary() -> Seq<Seq<u8>> {
    Seq::new(256, |i: int| seq![i as u8])
}

/// One step of the adaptive encoder, fed the next byte `c`: the pending
/// pattern grows while the dictionary knows it; otherwise the pattern's code
/// is emitted, the grown pattern enters the dictionary, and the pattern
/// restarts from `c`.
pub open spec fn lzw_step(
    state: (Seq<Seq<u8>>, Seq<u8>, Seq<u64>),
    c: u8,
) -> (Seq<Seq<u8>>, Seq<u8>, Seq<u64>) {
    let cand = state.1 + seq![c];
    if has_pattern(state.0, cand) {
        (state.0, cand, state.2)
    } else {
        (state.0.push(cand), seq![c], state.2.push(code_of_pattern(state.0, state.1) as u64))
    }
}

/// The encoder state after consuming the nonempty text `t`: the dictionary,
/// the pending pattern, and the codes emitted so far.
pub open spec fn lzw_state(t: Seq<u8>) -> (Seq<Seq<u8>>, Seq<u8>, Seq<u64>)
    decreases t.len(),
{
    if t.len() <= 1 {
        (seed_dictionary(), t, Seq::empty())
    } else {
        lzw_step(lzw_state(t.drop_last()), t.last())
    }
}

/// The full encoding of a text: the emitted codes, with the final pending
/// pattern's code flushed; empty text yields no codes.
pub open spec fn lzw_encoding(t: Seq<u8>) -> Seq<u64> {
    if t.len() == 0 {
        Seq::empty()
    } else {
        let state = lzw_state(t);
        state.2.push(code_of_pattern(state.0, state.1) as u64)
    }
}

/// One step of the decoder, fed the next code: a known code looks its pattern
/// up, the one not-yet-inserted code synthesizes it from the previous pattern;
/// the dictionary then grows by the previous pattern extended with the new
/// pattern's first byte.
pub open spec fn lzw_decode_step(
    state: (Seq<Seq<u8>>, Seq<u8>, Seq<u8>),
    code: u64,
) -> (Seq<Seq<u8>>, Seq<u8>, Seq<u8>) {
    let (dict, prev, out) = state;
    let cur = if code < dict.len() {
        dict[code as int]
    } else {
        prev + seq![prev[0]]
    };
    (dict.push(prev + seq![cur[0]]), cur, out + cur)
}

/// The decoder state after consuming the nonempty code sequence `codes`.
pub open spec fn lzw_decode_state(codes: Seq<u64>) -> (Seq<Seq<u8>>, Seq<u8>, Seq<u8>)
    decreases codes.len(),
{
    if codes.len() <= 1 {
        let first = seed_dictionary()[codes[0] as int];
        (seed_dictionary(), first, first)
    } else {
        lzw_decode_step(lzw_decode_state(codes.drop_last()), codes.last())
    }
}

/// The full decoding of a code sequence; empty input and a first code outside
/// the seeded range yield nothing.
pub open spec fn lzw_decoding(codes: Seq<u64>) -> Seq<u8> {
    if codes.len() == 0 || codes[0] >= 256 {
        Seq::empty()
    } else {
        lzw_decode_state(codes).2
    }
}

/// The emitted codes rendered in decimal, one space between neighbours.
pub open spec fn render_codes(codes: Seq<u64>) -> Seq<u8>
    decreases codes.len(),
{
    if codes.len() == 0 {
        Seq::empty()
    } else if codes.len() == 1 {
        dec_digits(codes[0] as nat)
    } else {
        render_codes(codes.drop_last()) + seq![32u8] + dec_digits(codes.last() as nat)
    }
}

/// The Lempel-Ziv-Welch codec: the input text, the emitted codes, and the
/// text expanded back from the codes.
pub struct LempelZivWelch {
    pub text: Vec<u8>,
    pub encoded: Vec<u64>,
    pub output: Vec<u8>,
}

/// Finds the first dictionary entry equal to `p`, if any.
fn find_pattern(dict: &Vec<Vec<u8>>, p: &Vec<u8>) -> (r: Option<usize>)
    ensures
        match r {
            Some(i) => is_first_index(dict_view(dict@), p@, i as int) && i == code_of_pattern(
                dict_view(dict@),
                p@,
            ),
            None => !has_pattern(dict_view(dict@), p@),
        },
{
    let n = dict.len();
    let mut i: usize = 0;
    while i < n
        invariant
            n == dict@.len(),
            i <= n,
            forall|j: int| 0 <= j < i ==> dict_view(dict@)[j] != p@,
        decreases n - i,
    {
        if bytes_equal(&dict[i], p) {
            proof {
                lemma_first_index(dict_view(dict@), p@, i as int);
                assert(is_first_index(dict_view(dict@), p@, i as int));
            }
            return Some(i);
        }
        i = i + 1;
    }
    None
}

impl LempelZivWelch {
    /// A fresh codec over the given text, with empty working buffers.
    pub fn new(text: Vec<u8>) -> (r: Self)
        ensures
            r.text@ == text@,
            r.encoded@ == Seq::<u64>::empty(),
            r.output@ == Seq::<u8>::empty(),
    {
        LempelZivWelch { text, encoded: Vec::new(), output: Vec::new() }
    }

    /// Runs the adaptive encoder over the text and stores the emitted codes.
    pub fn encode(&mut self)
        ensures
            final (self).text@ == old(self).text@,
            final (self).output@ == old(self).output@,
            final (self).encoded@ == lzw_encoding(old(self).text@),
    {
        let n = self.text.len();
        if n == 0 {
            self.encoded = Vec::new();
            return ;
        }
        let mut dict: Vec<Vec<u8>> = Vec::new();
        let mut b: usize = 0;
        while b < 256
            invariant
                b <= 256,
                dict@.len() == b,
                dict_view(dict@) =~= seed_dictionary().take(b as int),
            decreases 256 - b,
        {
            let mut single: Vec<u8> = Vec::new();
            single.push(b as u8);
            dict.push(single);
            proof {
                assert(dict_view(dict@) =~= seed_dictionary().take(b + 1));
            }
            b = b + 1;
        }
        proof {
            assert(seed_dictionary().take(256) =~= seed_dictionary());
        }
        let mut pattern: Vec<u8> = Vec::new();
        pattern.push(self.text[0]);
        let mut encoded: Vec<u64> = Vec::new();
        proof {
            assert(self.text@.take(1) =~= seq![self.text@[0]]);
            assert(pattern@ =~= self.text@.take(1));
        }
        let mut i: usize = 1;
        while i < n
            invariant
                1 <= i <= n,
                n == self.text@.len(),
                (dict_view(dict@), pattern@, encoded@) == lzw_state(self.text@.take(i as int)),
            decreases n - i,
        {
            let c = self.text[i];
            let mut cand = pattern.clone();
            cand.push(c);
            let ghost st = lzw_state(self.text@.take(i as int));
            proof {
                assert(cand@ =~= st.1 + seq![c]);
                assert(self.text@.take(i + 1).drop_last() =~= self.text@.take(i as int));
                assert(self.text@.take(i + 1).last() == self.text@[i as int]);
            }
            match find_pattern(&dict, &cand) {
                Some(_) => {
                    pattern = cand;
                },
                None => {
                    match find_pattern(&dict, &pattern) {
                        Some(code) => {
                            encoded.push(code as u64);
                        },
                        None => {
                            proof {
                                lemma_state_pattern_present(self.text@.take(i as int));
                                assert(false);
                            }
                        },
                    }
                    dict.push(cand);
                    let mut fresh: Vec<u8> = Vec::new();
                    fresh.push(c);
                    pattern = fresh;
                    proof {
                        assert(dict_view(dict@) =~= st.0.push(st.1 + seq![c]));
                        assert(pattern@ =~= seq![c]);
                    }
                },
            }
            i = i + 1;
        }
        proof {
            assert(self.text@.take(n as int) =~= self.text@);
        }
        match find_pattern(&dict, &pattern) {
            Some(code) => {
                encoded.push(code as u64);
            },
            None => {
                proof {
                    lemma_state_pattern_present(self.text@);
                    assert(false);
                }
            },
        }
        self.encoded = encoded;
    }

    /// Runs the decoder over the stored codes. A first code outside the seeded
    /// byte range cannot name a pattern and is reported; an empty code
    /// sequence yields empty output.
    pub fn decode(&mut self) -> (r: Result<(), CodecError>)
        ensures
            final (self).text@ == old(self).text@,
            final (self).encoded@ == old(self).encoded@,
            r is Err <==> (old(self).encoded@.len() > 0 && old(self).encoded@[0] >= 256),
            r is Err ==> final (self).output@ == old(self).output@ && r == Result::<
                (),
                CodecError,
            >::Err(CodecError::MissingEncodedState),
            r is Ok ==> final (self).output@ == lzw_decoding(old(self).encoded@),
    {
        let m = self.encoded.len();
        if m == 0 {
            self.output = Vec::new();
            return Ok(());
        }
        if self.encoded[0] >= 256 {
            return Err(CodecError::MissingEncodedState);
        }
        let mut dict: Vec<Vec<u8>> = Vec::new();
        let mut b: usize = 0;
        while b < 256
            invariant
                b <= 256,
                dict@.len() == b,
                dict_view(dict@) =~= seed_dictionary().take(b as int),
            decreases 256 - b,
        {
            let mut single: Vec<u8> = Vec::new();
            single.push(b as u8);
            dict.push(single);
            proof {
                assert(dict_view(dict@) =~= seed_dictionary().take(b + 1));
            }
            b = b + 1;
        }
        proof {
            assert(seed_dictionary().take(256) =~= seed_dictionary());
        }
        let first_code = self.encoded[0];
        let prev = dict[first_code as usize].clone();
        let mut out = prev.clone();
        let mut prev: Vec<u8> = prev;
        proof {
            assert(seed_dictionary()[first_code as int].len() == 1);
            assert(prev@ == seed_dictionary()[first_code as int]);
            assert((dict_view(dict@), prev@, out@) == lzw_decode_state(self.encoded@.take(1)));
        }
        let mut i: usize = 1;
        while i < m
            invariant
                1 <= i <= m,
                m == self.encoded@.len(),
                prev@.len() >= 1,
                forall|j: int| 0 <= j < dict@.len() ==> (#[trigger] dict_view(dict@)[j]).len() >= 1,
                (dict_view(dict@), prev@, out@) == lzw_decode_state(self.encoded@.take(i as int)),
            decreases m - i,
        {
            let code = self.encoded[i];
            let ghost st = lzw_decode_state(self.encoded@.take(i as int));
            proof {
                assert(self.encoded@.take(i + 1).drop_last() =~= self.encoded@.take(i as int));
                assert(self.encoded@.take(i + 1).last() == self.encoded@[i as int]);
            }
            let cur: Vec<u8> = if code < dict.len() as u64 {
                dict[code as usize].clone()
            } else {
                let mut synth = prev.clone();
                synth.push(prev[0]);
                synth
            };
            proof {
                if code < dict@.len() {
                    assert(cur@ == dict_view(dict@)[code as int]);
                } else {
                    assert(cur@ =~= st.1 + seq![st.1[0]]);
                }
                assert(cur@.len() >= 1);
            }
            let mut grown = prev.clone();
            grown.push(cur[0]);
            proof {
                assert(grown@ =~= st.1 + seq![cur@[0]]);
            }
            dict.push(grown);
            out.extend_from_slice(cur.as_slice());
            proof {
                assert(dict_view(dict@) =~= st.0.push(st.1 + seq![cur@[0]]));
                assert(out@ =~= st.2 + cur@);
            }
            prev = cur;
            i = i + 1;
        }
        proof {
            assert(self.encoded@.take(m as int) =~= self.encoded@);
        }
        self.output = out;
        Ok(())
    }

    /// The stored codes rendered in decimal, separated by single spaces.
    pub fn compressed(&self) -> (r: Vec<u8>)
        ensures
            r@ == render_codes(self.encoded@),
    {
        let mut r: Vec<u8> = Vec::new();
        let m = self.encoded.len();
        let mut j: usize = 0;
        while j < m
            invariant
                m == self.encoded@.len(),
                j <= m,
                r@ == render_codes(self.encoded@.take(j as int)),
            decreases m - j,
        {
            if j > 0 {
                r.push(32);
            }
            let mut digits = u64_to_decimal(self.encoded[j]);
            r.append(&mut digits);
            proof {
                let codes = self.encoded@;
                assert(codes.take(j + 1).drop_last() =~= codes.take(j as int));
                assert(codes.take(j + 1).last() == codes[j as int]);
                if j == 0 {
                    assert(r@ =~= render_codes(codes.take(1)));
                } else {
                    assert(r@ =~= render_codes(codes.take(j + 1)));
                }
            }
            j = j + 1;
        }
        proof {
            assert(self.encoded@.take(m as int) =~= self.encoded@);
        }
        r
    }

    /// A copy of the decoded text.
    pub fn decompressed(&self) -> (r: Vec<u8>)
        ensures
            r@ == self.output@,
    {
        self.output.clone()
    }
}

/// How the decoder's state trails the encoder's after the same codes: the
/// decoder's dictionary misses exactly the encoder's newest entry, which joins
/// the decoder's last pattern with the first byte of the pending one; the
/// decoded output and the pending pattern together are the text.
pub open spec fn decoder_trails_encoder(t: Seq<u8>) -> bool {
    let enc = lzw_state(t);
    let dec = lzw_decode_state(enc.2);
    &&& dec.0 == enc.0.drop_last()
    &&& enc.0.last() == dec.1 + seq![enc.1[0]]
    &&& dec.1.len() >= 1
    &&& t == dec.2 + enc.1
    &&& enc.2[0] < 256
}

/// The joint walk of encoder and decoder over a text: the pending pattern is
/// never empty, every dictionary entry is nonempty, the dictionary grows by
/// at most one entry per byte, and once anything has been emitted the decoder
/// trails the encoder exactly.
proof fn lemma_lzw_simulation(t: Seq<u8>)
    requires
        t.len() >= 1,
        t.len() + 256 <= u64::MAX,
    ensures
        lzw_state(t).1.len() >= 1,
        forall|j: int|
            0 <= j < lzw_state(t).0.len() ==> (#[trigger] lzw_state(t).0[j]).len() >= 1,
        lzw_state(t).0.len() <= 256 + t.len(),
        lzw_state(t).2.len() == 0 ==> lzw_state(t).0 == seed_dictionary() && lzw_state(t).1 == t
            && t.len() == 1,
        lzw_state(t).2.len() >= 1 ==> decoder_trails_encoder(t),
    decreases t.len(),
{
    lemma_state_pattern_present(t);
    if t.len() == 1 {
        assert(lzw_state(t).1 =~= seq![t[0]]);
        assert(forall|j: int|
            0 <= j < seed_dictionary().len() ==> (#[trigger] seed_dictionary()[j]).len() >= 1);
    } else {
        lemma_lzw_simulation(t.drop_last());
        lemma_state_pattern_present(t.drop_last());
        let p = t.drop_last();
        let c = t.last();
        let st = lzw_state(p);
        let dE = st.0;
        let pat = st.1;
        let out = st.2;
        let cand = pat + seq![c];
        assert(t =~= p + seq![c]);
        if has_pattern(dE, cand) {
            // the pattern grows; nothing is emitted and no dictionary changes
            if out.len() == 0 {
                // impossible: the seeded dictionary holds no multi-byte pattern
                let w = choose|i: int| 0 <= i < dE.len() && dE[i] == cand;
                assert(dE[w] == seq![w as u8]);
                assert(cand.len() >= 2);
                assert(false);
            }
            let dec = lzw_decode_state(out);
            assert(cand[0] == pat[0]);
            assert(t =~= (dec.2 + pat) + seq![c]);
            assert((dec.2 + pat) + seq![c] =~= dec.2 + cand);
            assert(lzw_state(t) == (dE, cand, out));
        } else {
            // an emission: the encoder inserts the grown pattern, the decoder
            // catches up by one entry
            let xi = code_of_pattern(dE, pat);
            let w = choose|i: int| 0 <= i < dE.len() && dE[i] == pat;
            lemma_first_index(dE, pat, w);
            assert(is_first_index(dE, pat, xi));
            let x = xi as u64;
            assert(0 <= xi < dE.len());
            assert(dE.len() <= 256 + p.len());
            assert(xi == x as int);
            let out2 = out.push(x);
            assert(lzw_state(t) == (dE.push(cand), seq![c], out2));
            assert(forall|j: int|
                0 <= j < dE.push(cand).len() ==> (#[trigger] dE.push(cand)[j]).len() >= 1);
            if out.len() == 0 {
                // the first emission: the pattern is still a single seeded byte
                assert(dE == seed_dictionary());
                assert(pat == p && p.len() == 1);
                assert(pat =~= seq![p[0]]);
                lemma_seed_code(p[0]);
                assert(xi == p[0] as int);
                assert(out2.len() == 1);
                assert(out2[0] == x);
                let dec2 = lzw_decode_state(out2);
                assert(dec2.0 == seed_dictionary());
                assert(dec2.1 == seed_dictionary()[xi]);
                assert(seed_dictionary()[xi] == seq![p[0]]);
                assert(dec2.1 == pat);
                assert(dE.push(cand).drop_last() =~= dE);
                assert(dE.push(cand).last() == cand);
                assert(cand == dec2.1 + seq![c]);
                assert(t =~= dec2.2 + seq![c]);
            } else {
                let dec = lzw_decode_state(out);
                assert(out2.drop_last() =~= out);
                assert(out2.last() == x);
                assert(out2.len() >= 2);
                let dec2 = lzw_decode_state(out2);
                assert(dec2 == lzw_decode_step(dec, x));
                // the emitted code decodes to the emitted pattern
                let cur = if x < dec.0.len() {
                    dec.0[x as int]
                } else {
                    dec.1 + seq![dec.1[0]]
                };
                assert(dec.0.len() == dE.len() - 1);
                if xi < dE.len() - 1 {
                    assert(dec.0[xi] == dE.drop_last()[xi]);
                    assert(dE.drop_last()[xi] == dE[xi]);
                    assert(cur == pat);
                } else {
                    assert(xi == dE.len() - 1);
                    assert(dE[xi] == dE.last());
                    assert(pat == dec.1 + seq![pat[0]]);
                    assert(pat[0] == dec.1[0]) by {
                        assert((dec.1 + seq![pat[0]])[0] == dec.1[0]);
                    }
                    assert(cur == dec.1 + seq![dec.1[0]]);
                    assert(cur =~= pat);
                }
                assert(cur == pat);
                assert(cur[0] == pat[0]);
                assert(dec2.0 == dec.0.push(dec.1 + seq![cur[0]]));
                assert(dec.1 + seq![cur[0]] == dE.last());
                assert(dec2.0 =~= dE.drop_last().push(dE.last()));
                assert(dE.drop_last().push(dE.last()) =~= dE);
                assert(dE.push(cand).drop_last() =~= dE);
                assert(dE.push(cand).last() == cand);
                assert(dec2.1 == cur);
                assert(cand == dec2.1 + seq![c]);
                assert(dec2.2 == dec.2 + cur);
                assert(t =~= (dec.2 + pat) + seq![c]);
                assert(t =~= dec2.2 + seq![c]);
                assert(out2[0] == out[0]);
            }
        }
    }
}

/// Round trip of the Lempel-Ziv-Welch codec: decoding the encoding of any
/// text gives the text back.
pub proof fn lemma_lzw_round_trip(t: Seq<u8>)
    requires
        t.len() + 256 <= u64::MAX,
    ensures
        lzw_decoding(lzw_encoding(t)) == t,
{
    if t.len() == 0 {
        assert(lzw_decoding(lzw_encoding(t)) =~= t);
    } else {
        lemma_lzw_simulation(t);
        lemma_state_pattern_present(t);
        let st = lzw_state(t);
        let dE = st.0;
        let pat = st.1;
        let out = st.2;
        let xi = code_of_pattern(dE, pat);
        let w = choose|i: int| 0 <= i < dE.len() && dE[i] == pat;
        lemma_first_index(dE, pat, w);
        assert(is_first_index(dE, pat, xi));
        let x = xi as u64;
        assert(0 <= xi < dE.len());
        assert(dE.len() <= 256 + t.len());
        assert(xi == x as int);
        let codes = out.push(x);
        assert(lzw_encoding(t) == codes);
        if out.len() == 0 {
            assert(dE == seed_dictionary());
            assert(pat == t && t.len() == 1);
            assert(pat =~= seq![t[0]]);
            lemma_seed_code(t[0]);
            assert(xi == t[0] as int);
            assert(codes.len() == 1);
            assert(codes[0] == x);
            assert(codes[0] < 256);
            let dec = lzw_decode_state(codes);
            assert(dec.2 == seed_dictionary()[xi]);
            assert(seed_dictionary()[xi] == seq![t[0]]);
            assert(lzw_decoding(codes) =~= t);
        } else {
            let dec = lzw_decode_state(out);
            assert(codes.drop_last() =~= out);
            assert(codes.last() == x);
            assert(codes.len() >= 2);
            assert(codes[0] == out[0]);
            assert(codes[0] < 256);
            let dec2 = lzw_decode_state(codes);
            assert(dec2 == lzw_decode_step(dec, x));
            let cur = if x < dec.0.len() {
                dec.0[x as int]
            } else {
                dec.1 + seq![dec.1[0]]
            };
            assert(dec.0.len() == dE.len() - 1);
            if xi < dE.len() - 1 {
                assert(dec.0[xi] == dE.drop_last()[xi]);
                assert(dE.drop_last()[xi] == dE[xi]);
                assert(cur == pat);
            } else {
                assert(xi == dE.len() - 1);
                assert(dE[xi] == dE.last());
                assert(pat == dec.1 + seq![pat[0]]);
                assert(pat[0] == dec.1[0]) by {
                    assert((dec.1 + seq![pat[0]])[0] == dec.1[0]);
                }
                assert(cur == dec.1 + seq![dec.1[0]]);
                assert(cur =~= pat);
            }
            assert(dec2.2 == dec.2 + cur);
            assert(lzw_decoding(codes) == dec2.2);
            assert(dec2.2 =~= t);
        }
    }
}

/// Decoding a code sequence that starts in the seeded range yields at least
/// one byte.
pub proof fn lemma_lzw_decoding_nonempty(codes: Seq<u64>)
    requires
        codes.len() >= 1,
        codes[0] < 256,
    ensures
        lzw_decoding(codes).len() >= 1,
    decreases codes.len(),
{
    if codes.len() == 1 {
        assert(seed_dictionary()[codes[0] as int] == seq![codes[0] as u8]);
    } else {
        assert(codes.drop_last()[0] == codes[0]);
        lemma_lzw_decoding_nonempty(codes.drop_last());
        assert(lzw_decode_state(codes) == lzw_decode_step(
            lzw_decode_state(codes.drop_last()),
            codes.last(),
        ));
    }
}

/// Every code the encoder emits first, including the flushed one, names a
/// seeded single-byte pattern: the first code of an encoding is always below
/// the seeded range's end, so decoding what was encoded never reports a
/// failure.
pub proof fn lemma_lzw_first_code(t: Seq<u8>)
    requires
        t.len() >= 1,
    ensures
        lzw_encoding(t).len() >= 1,
        lzw_encoding(t)[0] < 256,
    decreases t.len(),
{
    lemma_lzw_emitted_low(t);
    let st = lzw_state(t);
    let flushed = code_of_pattern(st.0, st.1) as u64;
    assert(lzw_encoding(t) == st.2.push(flushed));
    if st.2.len() == 0 {
        assert(lzw_encoding(t)[0] == flushed);
    } else {
        assert(lzw_encoding(t)[0] == st.2[0]);
    }
}

/// While nothing has been emitted the dictionary is still the seed and the
/// pending pattern a single byte; afterwards the first emitted code names a
/// seeded pattern.
proof fn lemma_lzw_emitted_low(t: Seq<u8>)
    requires
        t.len() >= 1,
    ensures
        lzw_state(t).2.len() == 0 ==> lzw_state(t).0 == seed_dictionary() && lzw_state(t).1.len()
            == 1 && 0 <= code_of_pattern(lzw_state(t).0, lzw_state(t).1) < 256,
        lzw_state(t).2.len() >= 1 ==> lzw_state(t).2[0] < 256,
    decreases t.len(),
{
    if t.len() == 1 {
        let st = lzw_state(t);
        assert(st.1 =~= seq![t[0]]);
        lemma_seed_code(t[0]);
    } else {
        lemma_lzw_emitted_low(t.drop_last());
        let st = lzw_state(t.drop_last());
        let cand = st.1 + seq![t.last()];
        if has_pattern(st.0, cand) {
            if st.2.len() == 0 {
                // the candidate is in the seed, so it is a single byte and the
                // grown pattern a single byte as well: impossible unless the
                // old pattern was empty, which it never is
                let w = choose|i: int| 0 <= i < st.0.len() && st.0[i] == cand;
                assert(seed_dictionary()[w] == seq![w as u8]);
                assert(cand.len() == 1);
                assert(st.1.len() == 0);
                assert(lzw_state(t.drop_last()).1.len() == 1);
                assert(false);
            }
        } else {
            let emitted = code_of_pattern(st.0, st.1) as u64;
            assert(lzw_state(t).2 == st.2.push(emitted));
            if st.2.len() == 0 {
                assert(lzw_state(t).2[0] == emitted);
            } else {
                assert(lzw_state(t).2[0] == st.2[0]);
            }
        }
    }
}

/// A single-byte pattern's code is the byte itself.
proof fn lemma_seed_code(c: u8)
    ensures
        code_of_pattern(seed_dictionary(), seq![c]) == c as int,
{
    assert(seed_dictionary()[c as int] == seq![c]);
    lemma_first_index(seed_dictionary(), seq![c], c as int);
    assert forall|j: int| 0 <= j < c as int implies seed_dictionary()[j] != seq![c] by {
        assert(seed_dictionary()[j] == seq![j as u8]);
        assert(seed_dictionary()[j][0] == j as u8);
    }
    assert(is_first_index(seed_dictionary(), seq![c], c as int));
}

/// The encoder's pending pattern is always present in its dictionary, which
/// always retains the seeded single-byte entries.
proof fn lemma_state_pattern_present(t: Seq<u8>)
    requires
        t.len() >= 1,
    ensures
        has_pattern(lzw_state(t).0, lzw_state(t).1),
        lzw_state(t).0.len() >= 256,
        forall|b: int| 0 <= b < 256 ==> lzw_state(t).0[b] == seq![b as u8],
    decreases t.len(),
{
    if t.len() == 1 {
        assert(lzw_state(t).1 =~= seq![t[0]]);
        assert(seed_dictionary()[t[0] as int] == seq![t[0]]);
    } else {
        lemma_state_pattern_present(t.drop_last());
        let st = lzw_state(t.drop_last());
        let cand = st.1 + seq![t.last()];
        if has_pattern(st.0, cand) {
        } else {
            let grown = st.0.push(cand);
            assert(lzw_state(t).1 =~= seq![t.last()]);
            assert(grown[t.last() as int] == seq![t.last() as u8]);
        }
    }
}

} // verus!
