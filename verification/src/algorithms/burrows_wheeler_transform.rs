use vstd::prelude::*;
use crate::algorithms::huffman::{count_byte, lemma_count_byte_positive};
use crate::algorithms::run_length_encoding::repeat_byte;
use crate::errors::CodecError;

verus! {

/// The sentinel byte (`$`) appended to mark the rotation origin.
pub const SENTINEL: u8 = 36;

/// Lexicographic order on byte sequences: the empty sequence comes first, and
/// otherwise the first differing byte decides.
pub open spec fn lex_le(a: Seq<u8>, b: Seq<u8>) -> bool
    decreases a.len(),
{
    if a.len() == 0 {
        true
    } else if b.len() == 0 {
        false
    } else if a[0] < b[0] {
        true
    } else if a[0] > b[0] {
        false
    } else {
        lex_le(a.drop_first(), b.drop_first())
    }
}

/// Any two byte sequences compare, one way or the other.
pub proof fn lemma_lex_total(a: Seq<u8>, b: Seq<u8>)
    ensures
        lex_le(a, b) || lex_le(b, a),
    decreases a.len(),
{
    if a.len() > 0 && b.len() > 0 && a[0] == b[0] {
        lemma_lex_total(a.drop_first(), b.drop_first());
    }
}

/// Lexicographic order is transitive.
pub proof fn lemma_lex_trans(a: Seq<u8>, b: Seq<u8>, c: Seq<u8>)
    requires
        lex_le(a, b),
        lex_le(b, c),
    ensures
        lex_le(a, c),
    decreases a.len(),
{
    if a.len() > 0 && b.len() > 0 && c.len() > 0 && a[0] == b[0] && b[0] == c[0] {
        lemma_lex_trans(a.drop_first(), b.drop_first(), c.drop_first());
    }
}

/// The suffix of `t` that starts at `i`.
pub open spec fn suffix(t: Seq<u8>, i: int) -> Seq<u8> {
    t.skip(i)
}

/// `si` lists each position of `t` exactly once, ordered so that the suffixes
/// they start ascend lexicographically.
pub open spec fn sorted_suffix_order(si: Seq<usize>, t: Seq<u8>) -> bool {
    &&& si.len() == t.len()
    &&& forall|i: int| 0 <= i < si.len() ==> (#[trigger] si[i]) < t.len()
    &&& si.to_multiset() == Seq::new(t.len(), |i: int| i as usize).to_multiset()
    &&& forall|p: int, q: int|
        0 <= p < q < si.len() ==> lex_le(
            suffix(t, #[trigger] si[p] as int),
            suffix(t, #[trigger] si[q] as int),
        )
}

/// The position of the byte written for rank `i`: the one just before the
/// rotation start, wrapping to the end for the rotation that starts at zero.
pub open spec fn prev_position(start: usize, n: int) -> int {
    if start == 0 {
        n - 1
    } else {
        start - 1
    }
}

/// The transform output: for each rank, the byte preceding that rotation's
/// start.
pub open spec fn bwt_output(t: Seq<u8>, si: Seq<usize>) -> Seq<u8> {
    Seq::new(si.len(), |i: int| t[prev_position(si[i], t.len() as int)])
}

/// The positions at which the byte `b` occurs in `e`, ascending.
pub open spec fn occurrences(e: Seq<u8>, b: u8) -> Seq<int>
    decreases e.len(),
{
    if e.len() == 0 {
        Seq::empty()
    } else {
        occurrences(e.drop_last(), b) + if e.last() == b {
            seq![e.len() - 1]
        } else {
            Seq::empty()
        }
    }
}

/// The bytes of `e` with values below `bound`, in ascending value order.
pub open spec fn sorted_upto(e: Seq<u8>, bound: int) -> Seq<u8>
    decreases bound,
{
    if bound <= 0 {
        Seq::empty()
    } else {
        sorted_upto(e, bound - 1) + repeat_byte((bound - 1) as u8, count_byte(e, (bound - 1) as u8))
    }
}

/// The bytes of `e` in ascending value order.
pub open spec fn sorted_bytes(e: Seq<u8>) -> Seq<u8> {
    sorted_upto(e, 256)
}

/// The left-shift target for rank `i`: the `k`-th occurrence in `e` of the
/// byte at rank `i` of the sorted encoding, where `k` counts how often that
/// byte appeared among the earlier ranks. Out-of-range ranks and exhausted
/// occurrence lists fall back to position zero; `feasible_shifts` says when
/// the fallback is never taken.
pub open spec fn left_shift_at(e: Seq<u8>, i: int) -> int {
    let s = sorted_bytes(e);
    if 0 <= i < s.len() {
        let c = s[i];
        let k = count_byte(s.take(i), c);
        if k < occurrences(e, c).len() {
            occurrences(e, c)[k as int]
        } else {
            0
        }
    } else {
        0
    }
}

/// Every rank finds an unused occurrence of its byte.
pub open spec fn feasible_shifts(e: Seq<u8>) -> bool {
    forall|i: int|
        0 <= i < sorted_bytes(e).len() ==> count_byte(
            sorted_bytes(e).take(i),
            #[trigger] sorted_bytes(e)[i],
        ) < occurrences(e, sorted_bytes(e)[i]).len()
}

/// The position reached from `start` after following `k` left shifts.
pub open spec fn shift_chain(e: Seq<u8>, start: int, k: nat) -> int
    decreases k,
{
    if k == 0 {
        start
    } else {
        left_shift_at(e, shift_chain(e, start, (k - 1) as nat))
    }
}

/// The inversion of the transform: the bytes met along the left-shift chain
/// from `start`, with the trailing sentinel dropped.
pub open spec fn bwt_inversion(e: Seq<u8>, start: int) -> Seq<u8> {
    Seq::new(
        if e.len() > 0 {
            (e.len() - 1) as nat
        } else {
            0
        },
        |i: int|
            {
                let p = shift_chain(e, start, (i + 1) as nat);
                if 0 <= p < e.len() {
                    e[p]
                } else {
                    e[0]
                }
            },
    )
}

/// The Burrows-Wheeler codec: the sentinel-terminated text, the rotation
/// order found by the suffix sort, the rank of the unrotated text, and the
/// encoded and decoded buffers.
pub struct BurrowsWheelerTransform {
    pub text: Vec<u8>,
    pub suffix_indices: Vec<usize>,
    pub encoded: Vec<u8>,
    pub original_pos: usize,
    pub decoded: Vec<u8>,
}

/// Compares the suffixes of `text` starting at `a` and `b`.
fn suffix_le(text: &Vec<u8>, a: usize, b: usize) -> (r: bool)
    requires
        a <= text@.len(),
        b <= text@.len(),
    ensures
        r == lex_le(suffix(text@, a as int), suffix(text@, b as int)),
{
    let n = text.len();
    let mut k: usize = 0;
    while k < n - a && k < n - b && text[a + k] == text[b + k]
        invariant
            a <= n,
            b <= n,
            n == text@.len(),
            k <= n - a,
            k <= n - b,
            lex_le(suffix(text@, a as int), suffix(text@, b as int)) == lex_le(
                suffix(text@, a + k),
                suffix(text@, b + k),
            ),
            lex_le(suffix(text@, b as int), suffix(text@, a as int)) == lex_le(
                suffix(text@, b + k),
                suffix(text@, a + k),
            ),
        decreases n - a - k,
    {
        proof {
            assert(suffix(text@, a + k).drop_first() =~= suffix(text@, a + k + 1));
            assert(suffix(text@, b + k).drop_first() =~= suffix(text@, b + k + 1));
            assert(suffix(text@, a + k)[0] == text@[a + k]);
            assert(suffix(text@, b + k)[0] == text@[b + k]);
        }
        k = k + 1;
    }
    if k == n - a {
        proof {
            assert(suffix(text@, a + k).len() == 0);
        }
        true
    } else if k == n - b {
        proof {
            assert(suffix(text@, b + k).len() == 0);
            assert(suffix(text@, a + k).len() > 0);
        }
        false
    } else {
        proof {
            assert(suffix(text@, a + k)[0] == text@[a + k]);
            assert(suffix(text@, b + k)[0] == text@[b + k]);
        }
        text[a + k] < text[b + k]
    }
}

impl BurrowsWheelerTransform {
    /// A fresh codec over the given text with the sentinel appended; text that
    /// already contains the sentinel is rejected.
    pub fn new(text: Vec<u8>) -> (r: Result<Self, CodecError>)
        ensures
            text@.contains(SENTINEL) <==> r is Err,
            r is Err ==> r == Result::<Self, CodecError>::Err(CodecError::SentinelPresent),
            r is Ok ==> {
                let c = r.unwrap();
                &&& c.text@ == text@ + seq![SENTINEL]
                &&& c.suffix_indices@ == Seq::<usize>::empty()
                &&& c.encoded@ == Seq::<u8>::empty()
                &&& c.decoded@ == Seq::<u8>::empty()
                &&& c.original_pos == 0
            },
    {
        let n = text.len();
        let mut i: usize = 0;
        while i < n
            invariant
                n == text@.len(),
                i <= n,
                forall|j: int| 0 <= j < i ==> text@[j] != SENTINEL,
            decreases n - i,
        {
            if text[i] == SENTINEL {
                return Err(CodecError::SentinelPresent);
            }
            i = i + 1;
        }
        proof {
            if text@.contains(SENTINEL) {
                let w = choose|j: int| 0 <= j < text@.len() && text@[j] == SENTINEL;
                assert(false);
            }
        }
        let mut text = text;
        text.push(SENTINEL);
        Ok(
            BurrowsWheelerTransform {
                text,
                suffix_indices: Vec::new(),
                encoded: Vec::new(),
                original_pos: 0,
                decoded: Vec::new(),
            },
        )
    }

    /// Sorts the rotation start positions by their suffixes and records the
    /// rank of the unrotated text.
    fn populate_suffix_vector(&mut self)
        requires
            old(self).text@.len() >= 1,
        ensures
            final (self).text@ == old(self).text@,
            final (self).encoded@ == old(self).encoded@,
            final (self).decoded@ == old(self).decoded@,
            sorted_suffix_order(final (self).suffix_indices@, final (self).text@),
            final (self).original_pos < final (self).suffix_indices@.len(),
            final (self).suffix_indices@[final (self).original_pos as int] == 0,
    {
        let n = self.text.len();
        let ghost t = self.text@;
        let mut order: Vec<usize> = Vec::new();
        let mut i: usize = 0;
        while i < n
            invariant
                i <= n,
                order@.len() == i,
                forall|j: int| 0 <= j < i ==> order@[j] == j,
            decreases n - i,
        {
            order.push(i);
            i = i + 1;
        }
        proof {
            assert(order@ =~= Seq::new(t.len(), |k: int| k as usize));
        }
        let ghost identity = order@;

        // insertion sort on the rotation start positions
        let mut i: usize = 1;
        while i < n
            invariant
                1 <= i <= n || (n == 0 && i == 1),
                n == t.len(),
                self.text@ == t,
                order@.len() == n,
                order@.to_multiset() == identity.to_multiset(),
                forall|k: int| 0 <= k < n ==> (#[trigger] order@[k]) < n,
                forall|p: int, q: int|
                    0 <= p < q < i ==> lex_le(
                        suffix(t, #[trigger] order@[p] as int),
                        suffix(t, #[trigger] order@[q] as int),
                    ),
            decreases n - i,
        {
            let mut j: usize = i;
            while j > 0 && !suffix_le(&self.text, order[j - 1], order[j])
                invariant
                    j <= i < n == t.len(),
                    self.text@ == t,
                    order@.len() == n,
                    order@.to_multiset() == identity.to_multiset(),
                    forall|k: int| 0 <= k < n ==> (#[trigger] order@[k]) < n,
                    forall|p: int, q: int|
                        0 <= p < q <= i && q != j ==> lex_le(
                            suffix(t, #[trigger] order@[p] as int),
                            suffix(t, #[trigger] order@[q] as int),
                        ),
                    forall|q: int|
                        j < q <= i ==> lex_le(
                            suffix(t, order@[j as int] as int),
                            suffix(t, #[trigger] order@[q] as int),
                        ),
                decreases j,
            {
                let ghost before = order@;
                proof {
                    lemma_lex_total(
                        suffix(t, before[j - 1] as int),
                        suffix(t, before[j as int] as int),
                    );
                }
                let upper = order[j];
                let lower = order[j - 1];
                order[j - 1] = upper;
                order[j] = lower;
                proof {
                    assert(order@ =~= before.update(j - 1, before[j as int]).update(
                        j as int,
                        before[j - 1],
                    ));
                    crate::data_structures::priority_queue::lemma_swap_preserves_multiset(before, j - 1, j as int);
                    assert forall|p: int, q: int|
                        0 <= p < q <= i && q != j - 1 implies lex_le(
                        suffix(t, #[trigger] order@[p] as int),
                        suffix(t, #[trigger] order@[q] as int),
                    ) by {
                        if q == j {
                            if p < j - 1 {
                                assert(order@[p] == before[p]);
                                assert(lex_le(
                                    suffix(t, before[p] as int),
                                    suffix(t, before[j - 1] as int),
                                ));
                            }
                        } else {
                            if p == j - 1 {
                                assert(order@[p] == before[j as int]);
                                assert(lex_le(
                                    suffix(t, before[j as int] as int),
                                    suffix(t, before[q] as int),
                                ));
                            } else if p == j {
                                assert(order@[p] == before[j - 1]);
                                assert(lex_le(
                                    suffix(t, before[j - 1] as int),
                                    suffix(t, before[q] as int),
                                ));
                            } else {
                                assert(order@[p] == before[p]);
                                assert(order@[q] == before[q]);
                            }
                        }
                    }
                    assert forall|q: int|
                        j - 1 < q <= i implies lex_le(
                        suffix(t, order@[j - 1] as int),
                        suffix(t, #[trigger] order@[q] as int),
                    ) by {
                        if q == j {
                            assert(order@[q] == before[j - 1]);
                            assert(order@[j - 1] == before[j as int]);
                        } else {
                            assert(order@[q] == before[q]);
                            assert(lex_le(
                                suffix(t, before[j as int] as int),
                                suffix(t, before[q] as int),
                            ));
                        }
                    }
                }
                j = j - 1;
            }
            proof {
                assert forall|p: int, q: int|
                    0 <= p < q <= i implies lex_le(
                    suffix(t, #[trigger] order@[p] as int),
                    suffix(t, #[trigger] order@[q] as int),
                ) by {
                    if q == j {
                        assert(j > 0);
                        assert(lex_le(
                            suffix(t, order@[j - 1] as int),
                            suffix(t, order@[j as int] as int),
                        ));
                        if p < j - 1 {
                            lemma_lex_trans(
                                suffix(t, order@[p] as int),
                                suffix(t, order@[j - 1] as int),
                                suffix(t, order@[j as int] as int),
                            );
                        }
                    }
                }
            }
            i = i + 1;
        }

        // the unrotated text is the suffix that starts at position zero
        proof {
            broadcast use vstd::seq_lib::group_to_multiset_ensures;

            assert(identity[0] == 0);
            assert(identity.contains(0));
            assert(identity.to_multiset().contains(0));
            assert(order@.to_multiset().contains(0));
            assert(order@.contains(0));
        }
        let mut k: usize = 0;
        while k < n && order[k] != 0
            invariant
                k <= n,
                n == t.len(),
                order@.len() == n,
                order@.contains(0),
                forall|j: int| 0 <= j < k ==> order@[j] != 0,
            decreases n - k,
        {
            k = k + 1;
        }
        proof {
            if k == n {
                let w = choose|j: int| 0 <= j < order@.len() && order@[j] == 0;
                assert(false);
            }
        }
        self.original_pos = k;
        self.suffix_indices = order;
    }

    /// Fills the encoded buffer: for each rank, the byte just before that
    /// rotation's start, wrapping at the front.
    fn transform(&mut self)
        requires
            old(self).suffix_indices@.len() == old(self).text@.len(),
            forall|i: int|
                0 <= i < old(self).suffix_indices@.len() ==> (#[trigger] old(
                    self,
                ).suffix_indices@[i]) < old(self).text@.len(),
        ensures
            final (self).text@ == old(self).text@,
            final (self).suffix_indices@ == old(self).suffix_indices@,
            final (self).original_pos == old(self).original_pos,
            final (self).decoded@ == old(self).decoded@,
            final (self).encoded@ == bwt_output(old(self).text@, old(self).suffix_indices@),
    {
        let n = self.text.len();
        let mut encoded: Vec<u8> = Vec::new();
        let mut i: usize = 0;
        while i < n
            invariant
                i <= n,
                n == self.text@.len(),
                self.suffix_indices@.len() == n,
                forall|k: int| 0 <= k < n ==> (#[trigger] self.suffix_indices@[k]) < n,
                encoded@ == bwt_output(self.text@, self.suffix_indices@.take(i as int)),
            decreases n - i,
        {
            let idx = self.suffix_indices[i];
            let ch_idx = if idx == 0 {
                n - 1
            } else {
                idx - 1
            };
            encoded.push(self.text[ch_idx]);
            proof {
                assert(encoded@ =~= bwt_output(self.text@, self.suffix_indices@.take(i + 1)));
            }
            i = i + 1;
        }
        proof {
            assert(self.suffix_indices@.take(n as int) =~= self.suffix_indices@);
        }
        self.encoded = encoded;
    }

    /// Sorts the rotations and writes the transform output.
    pub fn encode(&mut self)
        requires
            old(self).text@.len() >= 1,
        ensures
            final (self).text@ == old(self).text@,
            final (self).decoded@ == old(self).decoded@,
            sorted_suffix_order(final (self).suffix_indices@, final (self).text@),
            final (self).original_pos < final (self).suffix_indices@.len(),
            final (self).suffix_indices@[final (self).original_pos as int] == 0,
            final (self).encoded@ == bwt_output(final (self).text@, final (self).suffix_indices@),
    {
        self.populate_suffix_vector();
        self.transform();
    }

    /// Inverts the transform: buckets the occurrences of each byte value in
    /// encoding order, pairs each rank of the sorted encoding with the next
    /// unused occurrence of its byte, and follows that left-shift chain from
    /// the recorded rank, dropping the trailing sentinel. An encoded buffer
    /// whose ranks cannot all be paired, or a recorded rank outside the
    /// buffer, is no transform output and is reported.
    pub fn decode(&mut self) -> (r: Result<(), CodecError>)
        ensures
            final (self).text@ == old(self).text@,
            final (self).encoded@ == old(self).encoded@,
            final (self).suffix_indices@ == old(self).suffix_indices@,
            final (self).original_pos == old(self).original_pos,
            r is Ok <==> (old(self).encoded@.len() == 0 || (old(self).original_pos < old(
                self,
            ).encoded@.len() && feasible_shifts(old(self).encoded@))),
            r is Err ==> final (self).decoded@ == old(self).decoded@ && r == Result::<
                (),
                CodecError,
            >::Err(CodecError::MissingEncodedState),
            r is Ok ==> final (self).decoded@ == bwt_inversion(
                old(self).encoded@,
                old(self).original_pos as int,
            ),
    {
        let n = self.encoded.len();
        let ghost e = self.encoded@;
        if n == 0 {
            self.decoded = Vec::new();
            proof {
                assert(self.decoded@ =~= bwt_inversion(e, self.original_pos as int));
            }
            return Ok(());
        }
        if self.original_pos >= n {
            return Err(CodecError::MissingEncodedState);
        }

        // counting sort of the encoded bytes
        let mut counts: Vec<u64> = Vec::new();
        let mut b: usize = 0;
        while b < 256
            invariant
                b <= 256,
                counts@.len() == b,
                forall|c: int| 0 <= c < b ==> counts@[c] == 0,
            decreases 256 - b,
        {
            counts.push(0);
            b = b + 1;
        }
        let mut k: usize = 0;
        proof {
            assert forall|c: int| 0 <= c < 256 implies counts@[c] == count_byte(
                e.take(0),
                c as u8,
            ) by {
                assert(e.take(0).len() == 0);
            }
        }
        while k < n
            invariant
                k <= n,
                n == e.len(),
                self.encoded@ == e,
                counts@.len() == 256,
                forall|c: int| 0 <= c < 256 ==> counts@[c] == count_byte(e.take(k as int), c as u8),
            decreases n - k,
        {
            let c = self.encoded[k];
            proof {
                crate::algorithms::huffman::lemma_count_byte_le_len(e.take(k as int), c);
            }
            let cur = counts[c as usize];
            counts[c as usize] = cur + 1;
            proof {
                assert forall|c2: int| 0 <= c2 < 256 implies counts@[c2] == count_byte(
                    e.take(k + 1),
                    c2 as u8,
                ) by {
                    assert(e.take(k + 1).drop_last() =~= e.take(k as int));
                    assert(e.take(k + 1).last() == e[k as int]);
                }
            }
            k = k + 1;
        }
        proof {
            assert(e.take(n as int) =~= e);
        }
        let mut sorted: Vec<u8> = Vec::new();
        let mut b: usize = 0;
        while b < 256
            invariant
                b <= 256,
                n == e.len(),
                self.encoded@ == e,
                counts@.len() == 256,
                forall|c: int| 0 <= c < 256 ==> counts@[c] == count_byte(e, c as u8),
                sorted@ == sorted_upto(e, b as int),
            decreases 256 - b,
        {
            let target = counts[b];
            let mut emitted: u64 = 0;
            proof {
                crate::algorithms::huffman::lemma_count_byte_le_len(e, b as u8);
                assert(sorted@ + repeat_byte(b as u8, 0nat) =~= sorted@);
            }
            while emitted < target
                invariant
                    emitted <= target,
                    target == count_byte(e, b as u8),
                    b < 256,
                    sorted@ == sorted_upto(e, b as int) + repeat_byte(b as u8, emitted as nat),
                decreases target - emitted,
            {
                sorted.push(b as u8);
                proof {
                    assert(sorted@ =~= sorted_upto(e, b as int) + repeat_byte(
                        b as u8,
                        (emitted + 1) as nat,
                    ));
                }
                emitted = emitted + 1;
            }
            proof {
                assert(sorted@ =~= sorted_upto(e, b + 1));
            }
            b = b + 1;
        }
        let ghost sb = sorted_bytes(e);
        proof {
            assert(sorted@ == sb);
            lemma_sorted_bytes_len(e, 256);
        }

        // bucket the occurrence positions of each byte value, in order
        let mut buckets: Vec<Vec<usize>> = Vec::new();
        let mut b: usize = 0;
        while b < 256
            invariant
                b <= 256,
                buckets@.len() == b,
                forall|c: int| 0 <= c < b ==> (#[trigger] buckets@[c])@.len() == 0,
            decreases 256 - b,
        {
            buckets.push(Vec::new());
            b = b + 1;
        }
        let mut k: usize = 0;
        proof {
            assert forall|c: int| 0 <= c < 256 implies positions_view(#[trigger] buckets@[c]@)
                == occurrences(e.take(0), c as u8) by {
                assert(e.take(0).len() == 0);
                assert(positions_view(buckets@[c]@) =~= occurrences(e.take(0), c as u8));
            }
        }
        while k < n
            invariant
                k <= n,
                n == e.len(),
                self.encoded@ == e,
                buckets@.len() == 256,
                forall|c: int|
                    0 <= c < 256 ==> positions_view(#[trigger] buckets@[c]@) == occurrences(
                        e.take(k as int),
                        c as u8,
                    ),
            decreases n - k,
        {
            let c = self.encoded[k];
            let ghost before = buckets@;
            let bucket = &mut buckets[c as usize];
            bucket.push(k);
            proof {
                assert forall|c2: int| 0 <= c2 < 256 implies positions_view(
                    #[trigger] buckets@[c2]@,
                ) == occurrences(e.take(k + 1), c2 as u8) by {
                    assert(e.take(k + 1).drop_last() =~= e.take(k as int));
                    assert(e.take(k + 1).last() == e[k as int]);
                    if c2 == c as int {
                        assert(buckets@[c2]@ =~= before[c2]@.push(k));
                        assert(positions_view(buckets@[c2]@) =~= occurrences(e.take(k as int), c2 as u8)
                            + seq![k as int]);
                    } else {
                        assert(buckets@[c2] == before[c2]);
                        assert(occurrences(e.take(k + 1), c2 as u8) =~= occurrences(
                            e.take(k as int),
                            c2 as u8,
                        ));
                    }
                }
            }
            k = k + 1;
        }
        proof {
            assert(e.take(n as int) =~= e);
        }

        // pair each rank with the next unused occurrence of its byte
        let mut heads: Vec<usize> = Vec::new();
        let mut b: usize = 0;
        while b < 256
            invariant
                b <= 256,
                heads@.len() == b,
                forall|c: int| 0 <= c < b ==> heads@[c] == 0,
            decreases 256 - b,
        {
            heads.push(0);
            b = b + 1;
        }
        let mut left_shifts: Vec<usize> = Vec::new();
        let mut i: usize = 0;
        proof {
            assert forall|c: int| 0 <= c < 256 implies heads@[c] == count_byte(
                sb.take(0),
                c as u8,
            ) by {
                assert(sb.take(0).len() == 0);
            }
        }
        while i < n
            invariant
                i <= n,
                n == e.len(),
                self.encoded@ == e,
                e == old(self).encoded@,
                self.text@ == old(self).text@,
                self.suffix_indices@ == old(self).suffix_indices@,
                self.original_pos == old(self).original_pos,
                self.decoded@ == old(self).decoded@,
                self.original_pos < n,
                sorted@ == sb,
                sb == sorted_bytes(e),
                sb.len() == n,
                heads@.len() == 256,
                buckets@.len() == 256,
                forall|c: int|
                    0 <= c < 256 ==> positions_view(#[trigger] buckets@[c]@) == occurrences(
                        e,
                        c as u8,
                    ),
                forall|c: int|
                    0 <= c < 256 ==> heads@[c] == count_byte(sb.take(i as int), c as u8),
                left_shifts@.len() == i,
                forall|j: int|
                    0 <= j < i ==> (#[trigger] left_shifts@[j]) as int == left_shift_at(e, j),
                forall|j: int| 0 <= j < i ==> (#[trigger] left_shifts@[j]) < n,
                forall|j: int|
                    0 <= j < i ==> count_byte(sb.take(j), sb[j]) < occurrences(e, sb[j]).len(),
            decreases n - i,
        {
            let c = sorted[i];
            let h = heads[c as usize];
            proof {
                assert(heads@[c as int] == count_byte(sb.take(i as int), c));
                assert(positions_view(buckets@[c as int]@).len() == occurrences(e, c).len());
            }
            if h >= buckets[c as usize].len() {
                return Err(CodecError::MissingEncodedState);
            }
            let target = buckets[c as usize][h];
            left_shifts.push(target);
            heads[c as usize] = h + 1;
            proof {
                lemma_occurrence_in_range(e, c, h as int);
                assert(target as int == occurrences(e, c)[h as int]);
                assert(target as int == left_shift_at(e, i as int));
                assert forall|c2: int| 0 <= c2 < 256 implies heads@[c2] == count_byte(
                    sb.take(i + 1),
                    c2 as u8,
                ) by {
                    assert(sb.take(i + 1).drop_last() =~= sb.take(i as int));
                    assert(sb.take(i + 1).last() == sb[i as int]);
                }
            }
            i = i + 1;
        }

        // follow the left shifts backwards from the recorded rank
        let mut out: Vec<u8> = Vec::new();
        let mut curr: usize = self.original_pos;
        let ghost start = self.original_pos as int;
        let mut step: usize = 0;
        while step < n - 1
            invariant
                step <= n - 1,
                1 <= n == e.len(),
                self.encoded@ == e,
                left_shifts@.len() == n,
                forall|j: int|
                    0 <= j < n ==> (#[trigger] left_shifts@[j]) as int == left_shift_at(e, j),
                forall|j: int| 0 <= j < n ==> (#[trigger] left_shifts@[j]) < n,
                curr < n,
                curr as int == shift_chain(e, start, step as nat),
                out@ == bwt_inversion(e, start).take(step as int),
            decreases n - step,
        {
            curr = left_shifts[curr];
            out.push(self.encoded[curr]);
            proof {
                assert(curr as int == shift_chain(e, start, (step + 1) as nat));
                assert(out@ =~= bwt_inversion(e, start).take(step + 1));
            }
            step = step + 1;
        }
        proof {
            assert(bwt_inversion(e, start).take(n - 1) =~= bwt_inversion(e, start));
        }
        self.decoded = out;
        Ok(())
    }

    /// A copy of the encoded bytes.
    pub fn compressed(&self) -> (r: Vec<u8>)
        ensures
            r@ == self.encoded@,
    {
        self.encoded.clone()
    }

    /// A copy of the decoded text.
    pub fn decompressed(&self) -> (r: Vec<u8>)
        ensures
            r@ == self.decoded@,
    {
        self.decoded.clone()
    }
}

/// Bucketed occurrence positions, as mathematical integers.
pub open spec fn positions_view(s: Seq<usize>) -> Seq<int> {
    s.map_values(|x: usize| x as int)
}

/// The sorted encoding is as long as the encoding itself.
proof fn lemma_sorted_bytes_len(e: Seq<u8>, bound: int)
    requires
        0 <= bound <= 256,
    ensures
        sorted_upto(e, bound).len() == sum_counts(e, bound),
        bound == 256 ==> sorted_upto(e, bound).len() == e.len(),
    decreases bound,
{
    if bound > 0 {
        lemma_sorted_bytes_len(e, bound - 1);
    }
    if bound == 256 {
        lemma_sum_counts_all(e);
    }
}

/// The total of the per-byte counts below `bound`.
pub open spec fn sum_counts(e: Seq<u8>, bound: int) -> nat
    decreases bound,
{
    if bound <= 0 {
        0
    } else {
        sum_counts(e, bound - 1) + count_byte(e, (bound - 1) as u8)
    }
}

/// Counting every byte value counts every position once.
proof fn lemma_sum_counts_all(e: Seq<u8>)
    ensures
        sum_counts(e, 256) == e.len(),
    decreases e.len(),
{
    if e.len() == 0 {
        lemma_sum_counts_zero(e, 256);
    } else {
        lemma_sum_counts_all(e.drop_last());
        lemma_sum_counts_step(e, 256);
    }
}

/// An empty sequence has no bytes to count.
proof fn lemma_sum_counts_zero(e: Seq<u8>, bound: int)
    requires
        e.len() == 0,
        0 <= bound,
    ensures
        sum_counts(e, bound) == 0,
    decreases bound,
{
    if bound > 0 {
        lemma_sum_counts_zero(e, bound - 1);
    }
}

/// Dropping the last byte lowers the total count by one, once the bound
/// passes that byte's value.
proof fn lemma_sum_counts_step(e: Seq<u8>, bound: int)
    requires
        e.len() >= 1,
        0 <= bound <= 256,
    ensures
        sum_counts(e, bound) == sum_counts(e.drop_last(), bound) + if (e.last() as int) < bound {
            1int
        } else {
            0int
        },
    decreases bound,
{
    if bound > 0 {
        lemma_sum_counts_step(e, bound - 1);
    }
}

/// Every recorded occurrence lies inside the sequence.
proof fn lemma_occurrence_in_range(e: Seq<u8>, b: u8, k: int)
    requires
        0 <= k < occurrences(e, b).len(),
    ensures
        0 <= occurrences(e, b)[k] < e.len(),
    decreases e.len(),
{
    if e.len() > 0 {
        if k < occurrences(e.drop_last(), b).len() {
            lemma_occurrence_in_range(e.drop_last(), b, k);
        }
    }
}

/// Byte counts add up across a concatenation.
proof fn lemma_count_concat(a: Seq<u8>, b: Seq<u8>, c: u8)
    ensures
        count_byte(a + b, c) == count_byte(a, c) + count_byte(b, c),
    decreases b.len(),
{
    if b.len() == 0 {
        assert(a + b =~= a);
    } else {
        lemma_count_concat(a, b.drop_last(), c);
        assert((a + b).drop_last() =~= a + b.drop_last());
        assert((a + b).last() == b.last());
    }
}

/// A run of one byte counts itself and nothing else.
proof fn lemma_count_repeat(b: u8, n: nat, c: u8)
    ensures
        count_byte(repeat_byte(b, n), c) == if b == c {
            n
        } else {
            0nat
        },
    decreases n,
{
    if n > 0 {
        lemma_count_repeat(b, (n - 1) as nat, c);
        assert(repeat_byte(b, n).drop_last() =~= repeat_byte(b, (n - 1) as nat));
        assert(repeat_byte(b, n).last() == b);
    }
}

/// Sorting by value keeps every byte's count, once the bound passes it.
proof fn lemma_count_sorted_upto(e: Seq<u8>, bound: int, c: u8)
    requires
        0 <= bound <= 256,
    ensures
        count_byte(sorted_upto(e, bound), c) == if (c as int) < bound {
            count_byte(e, c)
        } else {
            0nat
        },
    decreases bound,
{
    if bound > 0 {
        lemma_count_sorted_upto(e, bound - 1, c);
        lemma_count_concat(
            sorted_upto(e, bound - 1),
            repeat_byte((bound - 1) as u8, count_byte(e, (bound - 1) as u8)),
            c,
        );
        lemma_count_repeat((bound - 1) as u8, count_byte(e, (bound - 1) as u8), c);
    }
}

/// A byte occurs as often as it has recorded occurrences.
proof fn lemma_occurrences_count(e: Seq<u8>, c: u8)
    ensures
        occurrences(e, c).len() == count_byte(e, c),
    decreases e.len(),
{
    if e.len() > 0 {
        lemma_occurrences_count(e.drop_last(), c);
    }
}

/// Every rank of the sorted encoding finds an unused occurrence of its byte:
/// the inversion's pairing step never runs dry, so decoding fails only for a
/// recorded rank outside the buffer — never after an honest encode.
pub proof fn lemma_shifts_always_feasible(e: Seq<u8>)
    ensures
        feasible_shifts(e),
{
    let s = sorted_bytes(e);
    assert forall|i: int|
        0 <= i < s.len() implies count_byte(s.take(i), #[trigger] s[i]) < occurrences(
        e,
        s[i],
    ).len() by {
        let c = s[i];
        lemma_occurrences_count(e, c);
        lemma_count_sorted_upto(e, 256, c);
        assert(count_byte(s, c) == count_byte(e, c));
        assert(s =~= s.take(i) + s.skip(i));
        lemma_count_concat(s.take(i), s.skip(i), c);
        assert(s.skip(i) =~= seq![c] + s.skip(i + 1));
        lemma_count_concat(seq![c], s.skip(i + 1), c);
        assert(count_byte(seq![c], c) == 1) by {
            assert(seq![c].drop_last() =~= Seq::<u8>::empty());
            assert(seq![c].last() == c);
            assert(count_byte(seq![c].drop_last(), c) == 0);
            assert(count_byte(Seq::<u8>::empty(), c) == 0);
        }
        assert(count_byte(s.skip(i), c) >= 1);
    }
}

/// A byte's count is its multiplicity in the sequence's multiset.
proof fn lemma_count_is_multiplicity(y: Seq<u8>, c: u8)
    ensures
        count_byte(y, c) == y.to_multiset().count(c),
    decreases y.len(),
{
    broadcast use vstd::seq_lib::group_to_multiset_ensures, vstd::multiset::group_multiset_axioms;

    if y.len() == 0 {
        assert(y.to_multiset() =~= vstd::multiset::Multiset::<u8>::empty()) by {
            if y.to_multiset().count(c) > 0 {
            }
        }
        assert(forall|x: u8| !y.contains(x));
        assert(y.to_multiset().count(c) == 0) by {
            if y.to_multiset().count(c) > 0 {
                assert(y.contains(c));
            }
        }
    } else {
        lemma_count_is_multiplicity(y.drop_last(), c);
        assert(y =~= y.drop_last().push(y.last()));
        assert(y.to_multiset() == y.drop_last().to_multiset().insert(y.last()));
    }
}

/// Reading a sequence through two index lists that hold the same positions
/// (each the same number of times) yields the same values, as a collection.
proof fn lemma_reindex_multiset<A>(x: Seq<A>, idx: Seq<usize>, idy: Seq<usize>)
    requires
        forall|j: int| 0 <= j < idx.len() ==> (#[trigger] idx[j]) < x.len(),
        forall|j: int| 0 <= j < idy.len() ==> (#[trigger] idy[j]) < x.len(),
        idx.to_multiset() == idy.to_multiset(),
    ensures
        Seq::new(idx.len(), |j: int| x[idx[j] as int]).to_multiset() == Seq::new(
            idy.len(),
            |j: int| x[idy[j] as int],
        ).to_multiset(),
    decreases idx.len(),
{
    broadcast use vstd::seq_lib::group_to_multiset_ensures, vstd::multiset::group_multiset_axioms;

    if idx.len() == 0 {
        assert(idx.to_multiset().len() == idx.len());
        assert(idy.to_multiset().len() == idy.len());
        assert(idy.len() == 0);
        assert(Seq::new(idx.len(), |j: int| x[idx[j] as int]) =~= Seq::new(
            idy.len(),
            |j: int| x[idy[j] as int],
        ));
    } else {
        let v = idx.last();
        assert(idx.to_multiset().contains(v)) by {
            assert(idx.contains(v));
        }
        assert(idy.to_multiset().contains(v));
        assert(idy.contains(v));
        let p = choose|p: int| 0 <= p < idy.len() && idy[p] == v;
        let idy2 = idy.remove(p);
        assert(idy2.to_multiset() == idy.to_multiset().remove(v));
        assert(idx.drop_last().to_multiset() == idx.to_multiset().remove(v)) by {
            assert(idx =~= idx.drop_last().push(v));
            assert(idx.drop_last().push(v).to_multiset() == idx.drop_last().to_multiset().insert(
                v,
            ));
            assert(idx.drop_last().to_multiset() =~= idx.to_multiset().remove(v));
        }
        lemma_reindex_multiset(x, idx.drop_last(), idy2);
        let mx = Seq::new(idx.len(), |j: int| x[idx[j] as int]);
        let my = Seq::new(idy.len(), |j: int| x[idy[j] as int]);
        let mx2 = Seq::new((idx.len() - 1) as nat, |j: int| x[idx.drop_last()[j] as int]);
        let my2 = Seq::new(idy2.len(), |j: int| x[idy2[j] as int]);
        assert(mx =~= mx2.push(x[v as int]));
        assert(my2 =~= my.remove(p));
        assert(my[p] == x[v as int]);
        assert(my.remove(p).to_multiset() == my.to_multiset().remove(x[v as int]));
        assert(mx.to_multiset() == mx2.to_multiset().insert(x[v as int]));
        assert(my.to_multiset().contains(my[p]));
        assert(mx.to_multiset() =~= my.to_multiset());
    }
}

/// The positions of a sequence, in order.
pub open spec fn identity_order(n: nat) -> Seq<usize> {
    Seq::new(n, |i: int| i as usize)
}

/// The position just before each position, wrapping at the front, lists every
/// position exactly once.
proof fn lemma_prev_positions_complete(n: nat)
    requires
        1 <= n <= usize::MAX + 1,
    ensures
        Seq::new(n, |p: int| prev_position(p as usize, n as int) as usize).to_multiset()
            == identity_order(n).to_multiset(),
{
    broadcast use vstd::seq_lib::group_to_multiset_ensures, vstd::multiset::group_multiset_axioms;

    let pv = Seq::new(n, |p: int| prev_position(p as usize, n as int) as usize);
    let head = seq![(n - 1) as usize];
    let body = identity_order((n - 1) as nat);
    assert(pv =~= head + body);
    assert(identity_order(n) =~= body + head);
    crate::data_structures::priority_queue::lemma_concat_multiset(head, body);
    crate::data_structures::priority_queue::lemma_concat_multiset(body, head);
    assert((head + body).to_multiset() =~= (body + head).to_multiset());
}

/// The transform output and the first column hold exactly the text's bytes:
/// every byte value occurs in each as often as in the text.
proof fn lemma_columns_count(t: Seq<u8>, si: Seq<usize>, c: u8)
    requires
        1 <= t.len() <= usize::MAX + 1,
        sorted_suffix_order(si, t),
    ensures
        count_byte(bwt_output(t, si), c) == count_byte(t, c),
        count_byte(Seq::new(si.len(), |i: int| t[si[i] as int]), c) == count_byte(t, c),
{
    let n = t.len();
    let e = bwt_output(t, si);
    let f = Seq::new(si.len(), |i: int| t[si[i] as int]);
    let idn = identity_order(n);
    // the first column reads the text through the rotation order
    assert(f =~= Seq::new(si.len(), |j: int| t[si[j] as int]));
    lemma_reindex_multiset(t, si, idn);
    assert(Seq::new(idn.len(), |j: int| t[idn[j] as int]) =~= t);
    assert(f.to_multiset() == t.to_multiset());
    // the transform output reads the text through the shifted rotation order
    let pv = Seq::new(n, |p: int| prev_position(p as usize, n as int) as usize);
    let pidx = Seq::new(si.len(), |j: int| pv[si[j] as int]);
    lemma_reindex_multiset(pv, si, idn);
    assert(Seq::new(idn.len(), |j: int| pv[idn[j] as int]) =~= pv);
    assert(pidx.to_multiset() == pv.to_multiset());
    lemma_prev_positions_complete(n as nat);
    assert(pidx.to_multiset() == idn.to_multiset());
    lemma_reindex_multiset(t, pidx, idn);
    assert(e =~= Seq::new(pidx.len(), |j: int| t[pidx[j] as int]));
    assert(e.to_multiset() == t.to_multiset());
    lemma_count_is_multiplicity(e, c);
    lemma_count_is_multiplicity(f, c);
    lemma_count_is_multiplicity(t, c);
}

/// The value-sorted arrangement is ordered and bounded by its bound.
proof fn lemma_sorted_upto_ordered(e: Seq<u8>, bound: int)
    requires
        0 <= bound <= 256,
    ensures
        forall|p: int|
            0 <= p < sorted_upto(e, bound).len() ==> (#[trigger] sorted_upto(e, bound)[p] as int)
                < bound,
        forall|p: int, q: int|
            0 <= p <= q < sorted_upto(e, bound).len() ==> #[trigger] sorted_upto(e, bound)[p]
                <= #[trigger] sorted_upto(e, bound)[q],
    decreases bound,
{
    if bound > 0 {
        lemma_sorted_upto_ordered(e, bound - 1);
        let prefix = sorted_upto(e, bound - 1);
        let block = repeat_byte((bound - 1) as u8, count_byte(e, (bound - 1) as u8));
        let whole = sorted_upto(e, bound);
        assert(whole == prefix + block);
        assert forall|p: int| 0 <= p < whole.len() implies (#[trigger] whole[p] as int)
            < bound by {
            if p < prefix.len() {
                assert(whole[p] == prefix[p]);
            } else {
                assert(whole[p] == block[p - prefix.len()]);
            }
        }
        assert forall|p: int, q: int|
            0 <= p <= q < whole.len() implies #[trigger] whole[p] <= #[trigger] whole[q] by {
            if q < prefix.len() {
                assert(whole[p] == prefix[p] && whole[q] == prefix[q]);
            } else if p >= prefix.len() {
                assert(whole[p] == block[p - prefix.len()]);
                assert(whole[q] == block[q - prefix.len()]);
            } else {
                assert(whole[p] == prefix[p]);
                assert((prefix[p] as int) < bound - 1);
                assert(whole[q] == block[q - prefix.len()]);
            }
        }
    }
}

/// The first byte decides no more than the order: an earlier sequence never
/// starts with a later byte.
proof fn lemma_lex_le_first(a: Seq<u8>, b: Seq<u8>)
    requires
        lex_le(a, b),
        a.len() >= 1,
        b.len() >= 1,
    ensures
        a[0] <= b[0],
{
}

/// Two ordered sequences holding the same bytes are the same sequence.
proof fn lemma_sorted_unique(x: Seq<u8>, y: Seq<u8>)
    requires
        forall|p: int, q: int| 0 <= p <= q < x.len() ==> #[trigger] x[p] <= #[trigger] x[q],
        forall|p: int, q: int| 0 <= p <= q < y.len() ==> #[trigger] y[p] <= #[trigger] y[q],
        x.to_multiset() == y.to_multiset(),
    ensures
        x == y,
    decreases x.len(),
{
    broadcast use vstd::seq_lib::group_to_multiset_ensures, vstd::multiset::group_multiset_axioms;

    assert(x.to_multiset().len() == x.len());
    assert(y.to_multiset().len() == y.len());
    if x.len() == 0 {
        assert(x =~= y);
    } else {
        assert(x.last() == y.last()) by {
            assert(x.contains(x.last()));
            assert(x.to_multiset().contains(x.last()));
            assert(y.to_multiset().contains(x.last()));
            assert(y.contains(x.last()));
            let p = choose|p: int| 0 <= p < y.len() && y[p] == x.last();
            assert(x.last() <= y.last());
            assert(y.contains(y.last()));
            assert(y.to_multiset().contains(y.last()));
            assert(x.to_multiset().contains(y.last()));
            assert(x.contains(y.last()));
            let q = choose|q: int| 0 <= q < x.len() && x[q] == y.last();
            assert(y.last() <= x.last());
        }
        assert(x.drop_last().to_multiset() == x.to_multiset().remove(x.last())) by {
            assert(x =~= x.drop_last().push(x.last()));
            assert(x.drop_last().push(x.last()).to_multiset() == x.drop_last().to_multiset().insert(
                x.last(),
            ));
            assert(x.drop_last().to_multiset() =~= x.to_multiset().remove(x.last()));
        }
        assert(y.drop_last().to_multiset() == y.to_multiset().remove(y.last())) by {
            assert(y =~= y.drop_last().push(y.last()));
            assert(y.drop_last().push(y.last()).to_multiset() == y.drop_last().to_multiset().insert(
                y.last(),
            ));
            assert(y.drop_last().to_multiset() =~= y.to_multiset().remove(y.last()));
        }
        lemma_sorted_unique(x.drop_last(), y.drop_last());
        assert(x =~= x.drop_last().push(x.last()));
        assert(y =~= y.drop_last().push(y.last()));
        assert(x =~= y);
    }
}

/// The first column of the sorted rotations: sorting the transform output by
/// value gives exactly the first byte of each rotation, in rank order.
proof fn lemma_first_column(t: Seq<u8>, si: Seq<usize>)
    requires
        1 <= t.len() <= usize::MAX + 1,
        sorted_suffix_order(si, t),
    ensures
        sorted_bytes(bwt_output(t, si)) == Seq::new(si.len(), |i: int| t[si[i] as int]),
{
    broadcast use vstd::seq_lib::group_to_multiset_ensures, vstd::multiset::group_multiset_axioms;

    let e = bwt_output(t, si);
    let s = sorted_bytes(e);
    let f = Seq::new(si.len(), |i: int| t[si[i] as int]);
    lemma_sorted_upto_ordered(e, 256);
    assert forall|p: int, q: int|
        0 <= p <= q < f.len() implies #[trigger] f[p] <= #[trigger] f[q] by {
        if p < q {
            assert(lex_le(suffix(t, si[p] as int), suffix(t, si[q] as int)));
            lemma_lex_le_first(suffix(t, si[p] as int), suffix(t, si[q] as int));
            assert(suffix(t, si[p] as int)[0] == t[si[p] as int]);
            assert(suffix(t, si[q] as int)[0] == t[si[q] as int]);
        }
    }
    assert forall|c: u8| s.to_multiset().count(c) == f.to_multiset().count(c) by {
        lemma_count_sorted_upto(e, 256, c);
        lemma_columns_count(t, si, c);
        lemma_count_is_multiplicity(s, c);
        lemma_count_is_multiplicity(f, c);
    }
    assert(s.to_multiset() =~= f.to_multiset());
    lemma_sorted_unique(s, f);
}

/// Each position below `n` occurs exactly once in the position list.
proof fn lemma_identity_count(n: nat, v: usize)
    requires
        n <= usize::MAX + 1,
    ensures
        identity_order(n).to_multiset().count(v) == if (v as int) < n {
            1nat
        } else {
            0nat
        },
    decreases n,
{
    broadcast use vstd::seq_lib::group_to_multiset_ensures, vstd::multiset::group_multiset_axioms;

    if n == 0 {
        assert(identity_order(0) =~= Seq::<usize>::empty());
        if identity_order(0nat).to_multiset().count(v) > 0 {
            assert(identity_order(0nat).contains(v));
        }
    } else {
        lemma_identity_count((n - 1) as nat, v);
        assert(identity_order(n) =~= identity_order((n - 1) as nat).push((n - 1) as usize));
        assert(identity_order(n).to_multiset() == identity_order(
            (n - 1) as nat,
        ).to_multiset().insert((n - 1) as usize));
    }
}

/// No rotation start appears twice in the sorted order.
proof fn lemma_order_distinct(t: Seq<u8>, si: Seq<usize>, i: int, j: int)
    requires
        t.len() <= usize::MAX + 1,
        sorted_suffix_order(si, t),
        0 <= i < si.len(),
        0 <= j < si.len(),
        i != j,
    ensures
        si[i] != si[j],
{
    broadcast use vstd::seq_lib::group_to_multiset_ensures, vstd::multiset::group_multiset_axioms;

    if si[i] == si[j] {
        let v = si[i];
        lemma_identity_count(t.len(), v);
        assert(si.to_multiset().count(v) == 1);
        let shorter = si.remove(i);
        assert(shorter.to_multiset() == si.to_multiset().remove(v));
        let j2 = if j < i {
            j
        } else {
            j - 1
        };
        assert(shorter[j2] == v);
        assert(shorter.contains(v));
        assert(shorter.to_multiset().count(v) > 0);
        assert(false);
    }
}

/// The rank at which the rotation starting at `p` stands in the sorted order.
pub open spec fn rank_in(si: Seq<usize>, p: usize) -> int {
    choose|r: int| 0 <= r < si.len() && si[r] == p
}

/// Every rotation start has exactly one rank.
proof fn lemma_rank_in(t: Seq<u8>, si: Seq<usize>, p: usize)
    requires
        t.len() <= usize::MAX + 1,
        sorted_suffix_order(si, t),
        (p as int) < t.len(),
    ensures
        0 <= rank_in(si, p) < si.len(),
        si[rank_in(si, p)] == p,
        forall|r: int| 0 <= r < si.len() && si[r] == p ==> r == rank_in(si, p),
{
    broadcast use vstd::seq_lib::group_to_multiset_ensures, vstd::multiset::group_multiset_axioms;

    assert(identity_order(t.len())[p as int] == p);
    assert(identity_order(t.len()).contains(p));
    assert(si.to_multiset().contains(p));
    assert(si.contains(p));
    let w = choose|r: int| 0 <= r < si.len() && si[r] == p;
    assert(si[rank_in(si, p)] == p);
    assert forall|r: int| 0 <= r < si.len() && si[r] == p implies r == rank_in(si, p) by {
        if r != rank_in(si, p) {
            lemma_order_distinct(t, si, r, rank_in(si, p));
        }
    }
}

/// Mutually ordered byte sequences are the same sequence.
proof fn lemma_lex_antisym(a: Seq<u8>, b: Seq<u8>)
    requires
        lex_le(a, b),
        lex_le(b, a),
    ensures
        a == b,
    decreases a.len(),
{
    if a.len() == 0 {
        assert(b.len() == 0);
        assert(a =~= b);
    } else {
        assert(b.len() > 0);
        assert(a[0] == b[0]);
        lemma_lex_antisym(a.drop_first(), b.drop_first());
        assert(a.drop_first() == b.drop_first());
        assert(a =~= seq![a[0]] + a.drop_first());
        assert(b =~= seq![b[0]] + b.drop_first());
        assert(a == b);
    }
}

/// A strictly earlier suffix stands at a strictly earlier rank.
proof fn lemma_rank_orders(t: Seq<u8>, si: Seq<usize>, i: int, j: int)
    requires
        t.len() <= usize::MAX + 1,
        sorted_suffix_order(si, t),
        0 <= i < si.len(),
        0 <= j < si.len(),
        lex_le(suffix(t, si[i] as int), suffix(t, si[j] as int)),
        si[i] != si[j],
    ensures
        i < j,
{
    assert(suffix(t, si[i] as int).len() == t.len() - si[i]);
    assert(suffix(t, si[j] as int).len() == t.len() - si[j]);
    if i == j {
        assert(false);
    }
    if i > j {
        assert(lex_le(suffix(t, si[j] as int), suffix(t, si[i] as int)));
        lemma_lex_antisym(suffix(t, si[i] as int), suffix(t, si[j] as int));
        assert(false);
    }
}

/// A suffix is its first byte followed by the next suffix.
proof fn lemma_suffix_unfold(t: Seq<u8>, p: int)
    requires
        0 <= p < t.len(),
    ensures
        suffix(t, p) == seq![t[p]] + suffix(t, p + 1),
{
    assert(suffix(t, p) =~= seq![t[p]] + suffix(t, p + 1));
}

/// Prepending the same byte to two sequences keeps their order unchanged.
proof fn lemma_lex_cons(c: u8, a: Seq<u8>, b: Seq<u8>)
    ensures
        lex_le(seq![c] + a, seq![c] + b) == lex_le(a, b),
{
    let ca = seq![c] + a;
    let cb = seq![c] + b;
    assert(ca[0] == c && cb[0] == c);
    assert(ca.drop_first() =~= a);
    assert(cb.drop_first() =~= b);
}

/// The occurrence list inverts position counting: the position of a byte is
/// listed at the index that counts that byte's earlier occurrences.
proof fn lemma_occ_at(e: Seq<u8>, c: u8, p: int)
    requires
        0 <= p < e.len(),
        e[p] == c,
    ensures
        count_byte(e.take(p), c) < occurrences(e, c).len(),
        occurrences(e, c)[count_byte(e.take(p), c) as int] == p,
    decreases e.len(),
{
    lemma_occurrences_count(e, c);
    if p == e.len() - 1 {
        assert(e.take(p) =~= e.drop_last());
        lemma_occurrences_count(e.drop_last(), c);
        assert(occurrences(e, c) == occurrences(e.drop_last(), c) + seq![e.len() - 1]);
        assert(occurrences(e, c)[occurrences(e.drop_last(), c).len() as int] == e.len() - 1);
    } else {
        assert(e.drop_last()[p] == c);
        lemma_occ_at(e.drop_last(), c, p);
        assert(e.drop_last().take(p) =~= e.take(p));
        if e.last() == c {
            assert(occurrences(e, c) == occurrences(e.drop_last(), c) + seq![e.len() - 1]);
        } else {
            assert(occurrences(e, c) =~= occurrences(e.drop_last(), c));
        }
    }
}

/// A byte that occurs at all occurs a last time, with every earlier
/// occurrence counted before it.
proof fn lemma_last_occ(x: Seq<u8>, c: u8)
    requires
        count_byte(x, c) >= 1,
    ensures
        exists|j: int|
            #![auto]
            0 <= j < x.len() && x[j] == c && count_byte(x.take(j), c) == count_byte(x, c) - 1 && (
            forall|q: int| j < q < x.len() ==> x[q] != c),
    decreases x.len(),
{
    if x.last() == c {
        let j = x.len() - 1;
        assert(x.take(j as int) =~= x.drop_last());
        assert(0 <= j < x.len() && x[j as int] == c && count_byte(x.take(j as int), c)
            == count_byte(x, c) - 1 && (forall|q: int| j < q < x.len() ==> x[q] != c));
    } else {
        lemma_last_occ(x.drop_last(), c);
        let j = choose|j: int|
            #![auto]
            0 <= j < x.drop_last().len() && x.drop_last()[j] == c && count_byte(
                x.drop_last().take(j),
                c,
            ) == count_byte(x.drop_last(), c) - 1 && (forall|q: int|
                j < q < x.drop_last().len() ==> x.drop_last()[q] != c);
        assert(x.drop_last().take(j) =~= x.take(j));
        assert(0 <= j < x.len() && x[j] == c && count_byte(x.take(j), c) == count_byte(x, c) - 1);
        assert forall|q: int| j < q < x.len() implies x[q] != c by {
            if q < x.len() - 1 {
                assert(x[q] == x.drop_last()[q]);
            }
        }
    }
}

/// The two columns count alike: the rank holding the rotation one step right
/// of rank `i` sees exactly as many earlier occurrences of their shared byte
/// in the transform output as rank `i` sees in the first column.
#[verifier::rlimit(100)]
#[verifier::spinoff_prover]
proof fn lemma_column_counts_agree(t: Seq<u8>, si: Seq<usize>, i: int)
    requires
        2 <= t.len() <= usize::MAX + 1,
        t.last() == SENTINEL,
        forall|q: int| 0 <= q < t.len() - 1 ==> t[q] != SENTINEL,
        sorted_suffix_order(si, t),
        0 <= i < si.len(),
        t[si[i] as int] != SENTINEL,
    ensures
        ({
            let e = bwt_output(t, si);
            let f = Seq::new(si.len(), |j: int| t[si[j] as int]);
            let c = t[si[i] as int];
            let r = rank_in(si, (si[i] + 1) as usize);
            &&& si[i] + 1 < t.len()
            &&& 0 <= r < si.len()
            &&& si[r] == si[i] + 1
            &&& e[r] == c
            &&& count_byte(e.take(r), c) == count_byte(f.take(i), c)
        }),
    decreases i,
{
    let n = t.len() as int;
    let e = bwt_output(t, si);
    let f = Seq::new(si.len(), |j: int| t[si[j] as int]);
    let c = t[si[i] as int];
    assert(si[i] != n - 1);
    lemma_rank_in(t, si, (si[i] + 1) as usize);
    let r = rank_in(si, (si[i] + 1) as usize);
    assert(prev_position(si[r], n) == si[i]);
    assert(e[r] == c);
    let k = count_byte(f.take(i), c);
    if k == 0 {
        if count_byte(e.take(r), c) > 0 {
            lemma_count_byte_positive(e.take(r), c);
            let q = choose|q: int| 0 <= q < r && (#[trigger] e.take(r)[q]) == c;
            assert(e[q] == c);
            assert(si[q] != 0) by {
                if si[q] == 0 {
                    assert(prev_position(si[q], n) == n - 1);
                    assert(e[q] == t[n - 1]);
                }
            }
            assert(prev_position(si[q], n) == si[q] - 1);
            assert(t[si[q] - 1] == c);
            lemma_rank_in(t, si, (si[q] - 1) as usize);
            let j = rank_in(si, (si[q] - 1) as usize);
            assert(f[j] == c);
            // the source order carries to the first column
            lemma_suffix_unfold(t, si[q] - 1);
            lemma_suffix_unfold(t, si[i] as int);
            assert(lex_le(suffix(t, si[q] as int), suffix(t, si[r] as int)));
            lemma_lex_cons(c, suffix(t, si[q] as int), suffix(t, si[i] + 1));
            assert(lex_le(suffix(t, si[j] as int), suffix(t, si[i] as int)));
            assert(si[j] != si[i]) by {
                if si[j] == si[i] {
                    assert(si[q] == si[r]);
                    lemma_order_distinct(t, si, q, r);
                }
            }
            lemma_rank_orders(t, si, j, i);
            assert(f.take(i)[j] == c);
            lemma_count_byte_positive(f.take(i), c);
            assert(false);
        }
    } else {
        lemma_last_occ(f.take(i), c);
        let j1 = choose|j: int|
            #![auto]
            0 <= j < f.take(i).len() && f.take(i)[j] == c && count_byte(f.take(i).take(j), c)
                == count_byte(f.take(i), c) - 1 && (forall|q: int|
                j < q < f.take(i).len() ==> f.take(i)[q] != c);
        assert(f[j1] == c);
        assert(t[si[j1] as int] == c);
        lemma_column_counts_agree(t, si, j1);
        let r1 = rank_in(si, (si[j1] + 1) as usize);
        assert(f.take(i).take(j1) =~= f.take(j1));
        assert(count_byte(e.take(r1), c) == k - 1);
        // the first-column order carries to the sources
        lemma_suffix_unfold(t, si[j1] as int);
        lemma_suffix_unfold(t, si[i] as int);
        assert(lex_le(suffix(t, si[j1] as int), suffix(t, si[i] as int)));
        lemma_lex_cons(c, suffix(t, si[j1] + 1), suffix(t, si[i] + 1));
        assert(lex_le(suffix(t, si[r1] as int), suffix(t, si[r] as int)));
        assert(si[r1] != si[r]) by {
            if si[r1] == si[r] {
                lemma_order_distinct(t, si, j1, i);
            }
        }
        lemma_rank_orders(t, si, r1, r);
        assert(e.take(r) =~= e.take(r1) + e.subrange(r1, r));
        lemma_count_concat(e.take(r1), e.subrange(r1, r), c);
        assert(e.subrange(r1, r) =~= seq![e[r1]] + e.subrange(r1 + 1, r));
        lemma_count_concat(seq![c], e.subrange(r1 + 1, r), c);
        assert(count_byte(seq![c], c) == 1) by {
            assert(seq![c].drop_last() =~= Seq::<u8>::empty());
            assert(seq![c].last() == c);
            assert(count_byte(Seq::<u8>::empty(), c) == 0);
        }
        assert(e[r1] == c);
        if count_byte(e.subrange(r1 + 1, r), c) > 0 {
            lemma_count_byte_positive(e.subrange(r1 + 1, r), c);
            let q2 = choose|q2: int|
                0 <= q2 < e.subrange(r1 + 1, r).len() && (#[trigger] e.subrange(r1 + 1, r)[q2])
                    == c;
            let q = r1 + 1 + q2;
            assert(e[q] == c);
            assert(r1 < q < r);
            assert(si[q] != 0) by {
                if si[q] == 0 {
                    assert(prev_position(si[q], n) == n - 1);
                    assert(e[q] == t[n - 1]);
                }
            }
            assert(prev_position(si[q], n) == si[q] - 1);
            assert(t[si[q] - 1] == c);
            lemma_rank_in(t, si, (si[q] - 1) as usize);
            let j2 = rank_in(si, (si[q] - 1) as usize);
            assert(f[j2] == c);
            lemma_suffix_unfold(t, si[q] - 1);
            // j1 < j2: the source at q comes after the source at r1
            assert(lex_le(suffix(t, si[r1] as int), suffix(t, si[q] as int)));
            lemma_lex_cons(c, suffix(t, si[j1] + 1), suffix(t, si[q] as int));
            assert(lex_le(suffix(t, si[j1] as int), suffix(t, si[j2] as int)));
            assert(si[j1] != si[j2]) by {
                if si[j1] == si[j2] {
                    assert(si[r1] == si[q]);
                    lemma_order_distinct(t, si, r1, q);
                }
            }
            lemma_rank_orders(t, si, j1, j2);
            // j2 < i: the source at q comes before the source at r
            assert(lex_le(suffix(t, si[q] as int), suffix(t, si[r] as int)));
            lemma_lex_cons(c, suffix(t, si[q] as int), suffix(t, si[i] + 1));
            assert(lex_le(suffix(t, si[j2] as int), suffix(t, si[i] as int)));
            assert(si[j2] != si[i]) by {
                if si[j2] == si[i] {
                    assert(si[q] == si[r]);
                    lemma_order_distinct(t, si, q, r);
                }
            }
            lemma_rank_orders(t, si, j2, i);
            assert(f.take(i)[j2] == c);
            assert(false);
        }
        assert(count_byte(e.take(r), c) == k);
    }
}

/// Each left shift steps one rotation to the right: the pairing lands on the
/// rank whose rotation starts one past the current one.
proof fn lemma_left_shift_tracks(t: Seq<u8>, si: Seq<usize>, i: int)
    requires
        2 <= t.len() <= usize::MAX + 1,
        t.last() == SENTINEL,
        forall|q: int| 0 <= q < t.len() - 1 ==> t[q] != SENTINEL,
        sorted_suffix_order(si, t),
        0 <= i < si.len(),
        t[si[i] as int] != SENTINEL,
    ensures
        left_shift_at(bwt_output(t, si), i) == rank_in(si, (si[i] + 1) as usize),
{
    let e = bwt_output(t, si);
    let f = Seq::new(si.len(), |j: int| t[si[j] as int]);
    let c = t[si[i] as int];
    let r = rank_in(si, (si[i] + 1) as usize);
    lemma_column_counts_agree(t, si, i);
    lemma_first_column(t, si);
    let s = sorted_bytes(e);
    assert(s == f);
    assert(s[i] == c);
    assert(s.take(i) == f.take(i));
    lemma_occ_at(e, c, r);
    assert(count_byte(e.take(r), c) == count_byte(s.take(i), c));
    assert(occurrences(e, c)[count_byte(s.take(i), c) as int] == r);
}

/// Following the left shifts from the unrotated text's rank visits the
/// rotation starts in text order.
proof fn lemma_chain_tracks(t: Seq<u8>, si: Seq<usize>, pos: int, k: nat)
    requires
        2 <= t.len() <= usize::MAX + 1,
        t.last() == SENTINEL,
        forall|q: int| 0 <= q < t.len() - 1 ==> t[q] != SENTINEL,
        sorted_suffix_order(si, t),
        0 <= pos < si.len(),
        si[pos] == 0,
        1 <= k <= t.len() - 1,
    ensures
        0 <= shift_chain(bwt_output(t, si), pos, k) < si.len(),
        si[shift_chain(bwt_output(t, si), pos, k)] == k,
    decreases k,
{
    let e = bwt_output(t, si);
    if k == 1 {
        assert(t[si[pos] as int] != SENTINEL);
        lemma_left_shift_tracks(t, si, pos);
        lemma_rank_in(t, si, 1);
        assert(shift_chain(e, pos, 1) == left_shift_at(e, pos));
    } else {
        lemma_chain_tracks(t, si, pos, (k - 1) as nat);
        let i = shift_chain(e, pos, (k - 1) as nat);
        assert(si[i] == k - 1);
        assert(t[si[i] as int] != SENTINEL);
        lemma_left_shift_tracks(t, si, i);
        lemma_rank_in(t, si, k as usize);
        assert(shift_chain(e, pos, k) == left_shift_at(e, i));
    }
}

/// Round trip of the Burrows-Wheeler transform: inverting the transform of a
/// sentinel-terminated text from the unrotated text's rank restores the text
/// without its sentinel.
pub proof fn lemma_bwt_round_trip(t: Seq<u8>, si: Seq<usize>, pos: int)
    requires
        1 <= t.len() <= usize::MAX + 1,
        t.last() == SENTINEL,
        forall|q: int| 0 <= q < t.len() - 1 ==> t[q] != SENTINEL,
        sorted_suffix_order(si, t),
        0 <= pos < si.len(),
        si[pos] == 0,
    ensures
        bwt_inversion(bwt_output(t, si), pos) == t.drop_last(),
{
    let n = t.len() as int;
    let e = bwt_output(t, si);
    assert(e.len() == n);
    if n == 1 {
        assert(bwt_inversion(e, pos) =~= t.drop_last());
    } else {
        assert forall|d: int| 0 <= d < n - 1 implies bwt_inversion(e, pos)[d] == t[d] by {
            lemma_chain_tracks(t, si, pos, (d + 1) as nat);
            let p = shift_chain(e, pos, (d + 1) as nat);
            assert(si[p] == d + 1);
            assert(prev_position(si[p], n) == d);
            assert(e[p] == t[d]);
        }
        assert(bwt_inversion(e, pos) =~= t.drop_last());
    }
}


} // verus!
