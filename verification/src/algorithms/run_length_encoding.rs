use vstd::prelude::*;
use crate::numeral::{dec_digits, u64_to_decimal};

verus! {

/// One run of identical bytes: the byte value and how many times it repeats
/// (always at least once).
#[derive(Clone, Copy, PartialEq, Eq, Structural, Debug)]
pub struct RlePart(pub u8, pub u64);

/// The mathematical image of a run: a byte and an unbounded count.
pub open spec fn part_view(p: RlePart) -> (u8, nat) {
    (p.0, p.1 as nat)
}

/// The mathematical image of a sequence of runs.
pub open spec fn parts_view(s: Seq<RlePart>) -> Seq<(u8, nat)> {
    s.map_values(|p: RlePart| part_view(p))
}

/// Feeding one more byte into a run-length encoding: the last run grows by one
/// when the byte matches it, and a fresh run of length one starts otherwise.
pub open spec fn rle_step(parts: Seq<(u8, nat)>, b: u8) -> Seq<(u8, nat)> {
    if parts.len() > 0 && parts.last().0 == b {
        parts.update(parts.len() - 1, (b, (parts.last().1 + 1) as nat))
    } else {
        parts.push((b, 1nat))
    }
}

/// The run-length encoding of a byte sequence: maximal runs, in text order.
pub open spec fn rle_encoding(t: Seq<u8>) -> Seq<(u8, nat)>
    decreases t.len(),
{
    if t.len() == 0 {
        Seq::empty()
    } else {
        rle_step(rle_encoding(t.drop_last()), t.last())
    }
}

/// `n` copies of the byte `b`.
pub open spec fn repeat_byte(b: u8, n: nat) -> Seq<u8> {
    Seq::new(n, |i: int| b)
}

/// The expansion of a sequence of runs back into bytes, in order.
pub open spec fn rle_expansion(parts: Seq<(u8, nat)>) -> Seq<u8>
    decreases parts.len(),
{
    if parts.len() == 0 {
        Seq::empty()
    } else {
        rle_expansion(parts.drop_last()) + repeat_byte(parts.last().0, parts.last().1)
    }
}

/// Expanding after one encoding step appends exactly the byte that was fed in.
proof fn lemma_expansion_step(parts: Seq<(u8, nat)>, b: u8)
    ensures
        rle_expansion(rle_step(parts, b)) == rle_expansion(parts) + seq![b],
{
    if parts.len() > 0 && parts.last().0 == b {
        let c = parts.last().1;
        let grown = parts.update(parts.len() - 1, (b, (c + 1) as nat));
        assert(grown.drop_last() =~= parts.drop_last());
        assert(grown.last() == (b, (c + 1) as nat));
        assert(repeat_byte(b, c + 1) =~= repeat_byte(b, c) + seq![b]);
        assert(rle_expansion(grown) =~= rle_expansion(parts) + seq![b]);
    } else {
        let grown = parts.push((b, 1nat));
        assert(grown.drop_last() =~= parts);
        assert(repeat_byte(b, 1) =~= seq![b]);
        assert(rle_expansion(grown) =~= rle_expansion(parts) + seq![b]);
    }
}

/// Round trip of the run-length codec: expanding the encoding of any byte
/// sequence gives the sequence back.
pub proof fn lemma_rle_round_trip(t: Seq<u8>)
    ensures
        rle_expansion(rle_encoding(t)) == t,
    decreases t.len(),
{
    if t.len() == 0 {
        assert(rle_expansion(rle_encoding(t)) =~= t);
    } else {
        lemma_rle_round_trip(t.drop_last());
        lemma_expansion_step(rle_encoding(t.drop_last()), t.last());
        assert(rle_expansion(rle_encoding(t)) =~= t.drop_last() + seq![t.last()]);
        assert(t.drop_last() + seq![t.last()] =~= t);
    }
}

/// Every run the encoding produces is nonempty, and neighbouring runs carry
/// different bytes: the runs are maximal.
pub proof fn lemma_rle_runs_maximal(t: Seq<u8>)
    ensures
        forall|i: int| 0 <= i < rle_encoding(t).len() ==> #[trigger] rle_encoding(t)[i].1 >= 1,
        forall|i: int|
            0 <= i && i + 1 < rle_encoding(t).len() ==> #[trigger] rle_encoding(t)[i].0
                != rle_encoding(t)[i + 1].0,
    decreases t.len(),
{
    if t.len() > 0 {
        lemma_rle_runs_maximal(t.drop_last());
        let prev = rle_encoding(t.drop_last());
        let b = t.last();
        let cur = rle_encoding(t);
        assert(cur == rle_step(prev, b));
        if prev.len() > 0 && prev.last().0 == b {
            assert forall|i: int| 0 <= i < cur.len() implies #[trigger] cur[i].1 >= 1 by {
                if i < prev.len() - 1 {
                    assert(cur[i] == prev[i]);
                }
            }
            assert forall|i: int| 0 <= i && i + 1 < cur.len() implies #[trigger] cur[i].0
                != cur[i + 1].0 by {
                assert(cur[i].0 == prev[i].0);
                assert(cur[i + 1].0 == prev[i + 1].0);
            }
        } else {
            assert forall|i: int| 0 <= i < cur.len() implies #[trigger] cur[i].1 >= 1 by {
                if i < prev.len() {
                    assert(cur[i] == prev[i]);
                }
            }
            assert forall|i: int| 0 <= i && i + 1 < cur.len() implies #[trigger] cur[i].0
                != cur[i + 1].0 by {
                if i + 1 < prev.len() {
                    assert(cur[i].0 == prev[i].0);
                    assert(cur[i + 1].0 == prev[i + 1].0);
                } else {
                    assert(cur[i] == prev[i]);
                    assert(prev[i] == prev.last());
                }
            }
        }
    }
}

/// The opening bytes of one rendered run: `RlePart(`.
pub open spec fn render_open() -> Seq<u8> {
    seq![82u8, 108u8, 101u8, 80u8, 97u8, 114u8, 116u8, 40u8]
}

/// One run rendered in readable form: `RlePart(<byte>, <count>)`.
pub open spec fn render_part(p: (u8, nat)) -> Seq<u8> {
    render_open() + dec_digits(p.0 as nat) + seq![44u8, 32u8] + dec_digits(p.1) + seq![41u8]
}

/// All runs rendered in order, with nothing between them.
pub open spec fn render_parts(parts: Seq<(u8, nat)>) -> Seq<u8>
    decreases parts.len(),
{
    if parts.len() == 0 {
        Seq::empty()
    } else {
        render_parts(parts.drop_last()) + render_part(parts.last())
    }
}

/// The run-length codec: the input text, the runs computed from it, and the
/// text expanded back from the runs.
pub struct RunLengthEncoding {
    pub text: Vec<u8>,
    pub encoded: Vec<RlePart>,
    pub decoded: Vec<u8>,
}

impl RunLengthEncoding {
    /// A fresh codec over the given text, with empty working buffers.
    pub fn new(text: Vec<u8>) -> (r: Self)
        ensures
            r.text@ == text@,
            r.encoded@ == Seq::<RlePart>::empty(),
            r.decoded@ == Seq::<u8>::empty(),
    {
        RunLengthEncoding { text, encoded: Vec::new(), decoded: Vec::new() }
    }

    /// Scans the text and stores its maximal runs, in order.
    pub fn encode(&mut self)
        ensures
            final (self).text@ == old(self).text@,
            final (self).decoded@ == old(self).decoded@,
            parts_view(final (self).encoded@) == rle_encoding(old(self).text@),
    {
        let n = self.text.len();
        let mut encoded: Vec<RlePart> = Vec::new();
        let mut i: usize = 0;
        while i < n
            invariant
                n == self.text@.len(),
                i <= n,
                parts_view(encoded@) == rle_encoding(self.text@.take(i as int)),
                encoded@.len() > 0 ==> encoded@.last().1 <= i,
            decreases n - i,
        {
            let b = self.text[i];
            proof {
                assert(self.text@.take(i + 1).drop_last() =~= self.text@.take(i as int));
                assert(self.text@.take(i + 1).last() == self.text@[i as int]);
            }
            let len = encoded.len();
            if len > 0 && encoded[len - 1].0 == b {
                let count = encoded[len - 1].1;
                encoded[len - 1] = RlePart(b, count + 1);
                proof {
                    assert(parts_view(encoded@) =~= rle_step(
                        rle_encoding(self.text@.take(i as int)),
                        b,
                    ));
                }
            } else {
                encoded.push(RlePart(b, 1));
                proof {
                    assert(parts_view(encoded@) =~= rle_step(
                        rle_encoding(self.text@.take(i as int)),
                        b,
                    ));
                }
            }
            i = i + 1;
        }
        proof {
            assert(self.text@.take(n as int) =~= self.text@);
        }
        self.encoded = encoded;
    }

    /// Expands the stored runs back into bytes, in order.
    pub fn decode(&mut self)
        ensures
            final (self).text@ == old(self).text@,
            final (self).encoded@ == old(self).encoded@,
            final (self).decoded@ == rle_expansion(parts_view(old(self).encoded@)),
    {
        let mut decoded: Vec<u8> = Vec::new();
        let m = self.encoded.len();
        let mut j: usize = 0;
        while j < m
            invariant
                m == self.encoded@.len(),
                j <= m,
                decoded@ == rle_expansion(parts_view(self.encoded@).take(j as int)),
            decreases m - j,
        {
            let part = self.encoded[j];
            let mut k: u64 = 0;
            while k < part.1
                invariant
                    k <= part.1,
                    part == self.encoded@[j as int],
                    j < m == self.encoded@.len(),
                    decoded@ == rle_expansion(parts_view(self.encoded@).take(j as int))
                        + repeat_byte(part.0, k as nat),
                decreases part.1 - k,
            {
                decoded.push(part.0);
                proof {
                    assert(repeat_byte(part.0, (k + 1) as nat) =~= repeat_byte(part.0, k as nat)
                        + seq![part.0]);
                    assert(decoded@ =~= rle_expansion(parts_view(self.encoded@).take(j as int))
                        + repeat_byte(part.0, (k + 1) as nat));
                }
                k = k + 1;
            }
            proof {
                let pv = parts_view(self.encoded@);
                assert(pv.take(j + 1).drop_last() =~= pv.take(j as int));
                assert(pv.take(j + 1).last() == part_view(part));
                assert(decoded@ =~= rle_expansion(pv.take(j + 1)));
            }
            j = j + 1;
        }
        proof {
            assert(parts_view(self.encoded@).take(m as int) =~= parts_view(self.encoded@));
        }
        self.decoded = decoded;
    }

    /// The stored runs rendered in readable form, one `RlePart(byte, count)`
    /// after the other.
    pub fn compressed(&self) -> (r: Vec<u8>)
        ensures
            r@ == render_parts(parts_view(self.encoded@)),
    {
        let mut r: Vec<u8> = Vec::new();
        let m = self.encoded.len();
        let mut j: usize = 0;
        while j < m
            invariant
                m == self.encoded@.len(),
                j <= m,
                r@ == render_parts(parts_view(self.encoded@).take(j as int)),
            decreases m - j,
        {
            let part = self.encoded[j];
            let ghost before = r@;
            r.push(82);
            r.push(108);
            r.push(101);
            r.push(80);
            r.push(97);
            r.push(114);
            r.push(116);
            r.push(40);
            proof {
                assert(r@ =~= before + render_open());
            }
            let mut sym = u64_to_decimal(part.0 as u64);
            r.append(&mut sym);
            r.push(44);
            r.push(32);
            let mut count = u64_to_decimal(part.1);
            r.append(&mut count);
            r.push(41);
            proof {
                let pv = parts_view(self.encoded@);
                assert(r@ =~= before + render_part(part_view(part)));
                assert(pv.take(j + 1).drop_last() =~= pv.take(j as int));
                assert(pv.take(j + 1).last() == part_view(part));
                assert(r@ =~= render_parts(pv.take(j + 1)));
            }
            j = j + 1;
        }
        proof {
            assert(parts_view(self.encoded@).take(m as int) =~= parts_view(self.encoded@));
        }
        r
    }

    /// A copy of the decoded text.
    pub fn decompressed(&self) -> (r: Vec<u8>)
        ensures
            r@ == self.decoded@,
    {
        self.decoded.clone()
    }
}

} // verus!
