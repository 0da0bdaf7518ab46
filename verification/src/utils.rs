use vstd::prelude::*;
use crate::models::part::Part;

verus! {

/// Size of one parallel work unit, in bytes: text at or below this length is
/// kept whole, text above it is cut into windows of exactly this size plus a
/// shorter trailing remainder.
pub const CHUNK_SIZE: usize = 16384;

/// How many parts a text of length `n` is cut into. Empty text still yields
/// one (empty) part.
pub open spec fn part_count(n: nat) -> nat {
    if n == 0 {
        1
    } else {
        ((n + CHUNK_SIZE - 1) as nat) / (CHUNK_SIZE as nat)
    }
}

/// The bytes of the part with sequence index `i`: the `i`-th fixed-size
/// window, shortened at the end of the text.
pub open spec fn chunk_at(t: Seq<u8>, i: int) -> Seq<u8> {
    if (i + 1) * (CHUNK_SIZE as int) <= t.len() {
        t.subrange(i * (CHUNK_SIZE as int), (i + 1) * (CHUNK_SIZE as int))
    } else {
        t.subrange(i * (CHUNK_SIZE as int), t.len() as int)
    }
}

/// All the parts of a text, in sequence-index order.
pub open spec fn chunks_of(t: Seq<u8>) -> Seq<Seq<u8>> {
    Seq::new(part_count(t.len()), |i: int| chunk_at(t, i))
}

/// Partitions text into order-tagged segments: one part when the text is at
/// most `CHUNK_SIZE` bytes long, otherwise consecutive windows of exactly
/// `CHUNK_SIZE` bytes with a shorter trailing part for any remainder.
pub fn split_into_parts(text: Vec<u8>) -> (r: Vec<Part>)
    ensures
        r@.len() == part_count(text@.len()),
        forall|i: int|
            0 <= i < r@.len() ==> #[trigger] r@[i].0 == i && r@[i].1@ == chunk_at(text@, i),
{
    let n = text.len();
    let mut parts: Vec<Part> = Vec::new();
    let mut l: usize = 0;
    let ghost t = text@;

    while n - l > CHUNK_SIZE
        invariant
            n == t.len(),
            text@ == t,
            l <= n,
            l == parts@.len() * (CHUNK_SIZE as int),
            n > 0 ==> l < n,
            forall|i: int|
                0 <= i < parts@.len() ==> #[trigger] parts@[i].0 == i && parts@[i].1@ == chunk_at(
                    t,
                    i,
                ),
            parts@.len() * (CHUNK_SIZE as int) <= n,
        decreases n - l,
    {
        let window = copy_range(&text, l, l + CHUNK_SIZE);
        let idx = parts.len();
        proof {
            assert(window@ == chunk_at(t, parts@.len() as int));
        }
        parts.push(Part(idx, window));
        l = l + CHUNK_SIZE;
        proof {
            assert(parts@.len() * (CHUNK_SIZE as int) <= n) by (nonlinear_arith)
                requires
                    l == parts@.len() * (CHUNK_SIZE as int),
                    l <= n,
                    CHUNK_SIZE == 16384,
            ;
        }
    }

    let tail = copy_range(&text, l, n);
    let idx = parts.len();
    proof {
        assert((idx + 1) * (CHUNK_SIZE as int) == l + CHUNK_SIZE) by (nonlinear_arith)
            requires
                l == idx * (CHUNK_SIZE as int),
                CHUNK_SIZE == 16384,
        ;
        assert(tail@ == chunk_at(t, idx as int));
    }
    parts.push(Part(idx, tail));
    proof {
        if n == 0 {
            assert(parts@.len() == part_count(t.len()));
        } else {
            assert(parts@.len() == part_count(t.len())) by (nonlinear_arith)
                requires
                    parts@.len() == idx + 1,
                    l == idx * (CHUNK_SIZE as int),
                    n - l <= CHUNK_SIZE,
                    l < n,
                    n == t.len(),
                    0 < n,
                    CHUNK_SIZE == 16384,
                    part_count(t.len()) == ((n + CHUNK_SIZE - 1) as nat) / (CHUNK_SIZE as nat),
            ;
        }
    }
    parts
}

/// Copies the byte range `[from, to)` of `text` into a fresh vector.
fn copy_range(text: &Vec<u8>, from: usize, to: usize) -> (r: Vec<u8>)
    requires
        from <= to <= text@.len(),
    ensures
        r@ == text@.subrange(from as int, to as int),
{
    let mut r: Vec<u8> = Vec::new();
    let mut k: usize = from;
    while k < to
        invariant
            from <= k <= to <= text@.len(),
            r@ == text@.subrange(from as int, k as int),
        decreases to - k,
    {
        r.push(text[k]);
        proof {
            assert(text@.subrange(from as int, (k + 1) as int) =~= text@.subrange(
                from as int,
                k as int,
            ).push(text@[k as int]));
        }
        k = k + 1;
    }
    r
}

/// No part is longer than the window size.
pub proof fn lemma_chunk_len(t: Seq<u8>, i: int)
    requires
        0 <= i < part_count(t.len()),
    ensures
        chunk_at(t, i).len() <= CHUNK_SIZE,
{
    let c = CHUNK_SIZE as int;
    assert(0 <= i * c && i * c <= t.len() && ((i + 1) * c == i * c + c)) by (nonlinear_arith)
        requires
            0 <= i < part_count(t.len()),
            c == 16384,
            part_count(t.len()) == (if t.len() == 0 {
                1nat
            } else {
                ((t.len() + c - 1) as nat) / (c as nat)
            }),
    ;
}

/// Every byte of a part is a byte of the text it was cut from.
pub proof fn lemma_chunk_bytes_from_text(t: Seq<u8>, i: int, b: u8)
    requires
        0 <= i < part_count(t.len()),
        chunk_at(t, i).contains(b),
    ensures
        t.contains(b),
{
    let c = CHUNK_SIZE as int;
    assert(0 <= i * c && (i < part_count(t.len()) ==> i * c <= t.len())) by (nonlinear_arith)
        requires
            0 <= i < part_count(t.len()),
            c == 16384,
            part_count(t.len()) == (if t.len() == 0 {
                1nat
            } else {
                ((t.len() + c - 1) as nat) / (c as nat)
            }),
    ;
    let j = choose|j: int| 0 <= j < chunk_at(t, i).len() && chunk_at(t, i)[j] == b;
    assert(t[i * c + j] == b);
}

/// Whether the byte occurs in the vector.
pub fn contains_byte(v: &Vec<u8>, b: u8) -> (r: bool)
    ensures
        r == v@.contains(b),
{
    let n = v.len();
    let mut i: usize = 0;
    while i < n
        invariant
            n == v@.len(),
            i <= n,
            forall|j: int| 0 <= j < i ==> v@[j] != b,
        decreases n - i,
    {
        if v[i] == b {
            return true;
        }
        i = i + 1;
    }
    proof {
        if v@.contains(b) {
            let w = choose|j: int| 0 <= j < v@.len() && v@[j] == b;
            assert(false);
        }
    }
    false
}

/// Compares two byte vectors for equality.
pub fn bytes_equal(a: &Vec<u8>, b: &Vec<u8>) -> (r: bool)
    ensures
        r == (a@ == b@),
{
    if a.len() != b.len() {
        proof {
            assert(a@ != b@);
        }
        return false;
    }
    let n = a.len();
    let mut i: usize = 0;
    while i < n
        invariant
            n == a@.len() == b@.len(),
            i <= n,
            forall|j: int| 0 <= j < i ==> a@[j] == b@[j],
        decreases n - i,
    {
        if a[i] != b[i] {
            proof {
                assert(a@ != b@);
            }
            return false;
        }
        i = i + 1;
    }
    proof {
        assert(a@ =~= b@);
    }
    true
}

/// Concatenating the parts of a text, in sequence-index order, gives the text
/// back: the partition loses nothing and keeps the order.
pub proof fn lemma_chunks_cover(t: Seq<u8>)
    ensures
        chunks_of(t).flatten() == t,
{
    let c = CHUNK_SIZE as int;
    let n = t.len() as int;
    let chunks = chunks_of(t);
    chunks.lemma_flatten_and_flatten_alt_are_equivalent();
    lemma_chunks_prefix(t, chunks.len() as int);
    assert(part_count(t.len()) * c >= n) by (nonlinear_arith)
        requires
            c == 16384,
            n == t.len(),
            part_count(t.len()) == (if n == 0 {
                1nat
            } else {
                ((n + c - 1) as nat) / (c as nat)
            }),
    ;
    assert(chunks.take(chunks.len() as int) =~= chunks);
    assert(t.take(n) =~= t);
}

/// The first `k` parts of a text concatenate to its first `min(k * CHUNK_SIZE,
/// len)` bytes.
proof fn lemma_chunks_prefix(t: Seq<u8>, k: int)
    requires
        0 <= k <= part_count(t.len()),
    ensures
        chunks_of(t).take(k).flatten_alt() == t.take(
            if k * (CHUNK_SIZE as int) <= t.len() {
                k * (CHUNK_SIZE as int)
            } else {
                t.len() as int
            },
        ),
    decreases k,
{
    let c = CHUNK_SIZE as int;
    let n = t.len() as int;
    let chunks = chunks_of(t);
    if k == 0 {
        assert(chunks.take(0) =~= Seq::<Seq<u8>>::empty());
        assert(t.take(0) =~= Seq::<u8>::empty());
    } else {
        lemma_chunks_prefix(t, k - 1);
        assert((k - 1) * c == k * c - c) by (nonlinear_arith);
        assert(k - 1 < part_count(t.len()) ==> (k - 1) * c <= n) by (nonlinear_arith)
            requires
                c == 16384,
                n == t.len(),
                part_count(t.len()) == (if n == 0 {
                    1nat
                } else {
                    ((n + c - 1) as nat) / (c as nat)
                }),
        ;
        let prev_end: int = if (k - 1) * c <= n {
            (k - 1) * c
        } else {
            n
        };
        let this_end: int = if k * c <= n {
            k * c
        } else {
            n
        };
        assert(chunks.take(k).drop_last() =~= chunks.take(k - 1));
        assert(chunks.take(k).last() == chunk_at(t, k - 1));
        assert(chunks.take(k).flatten_alt() == chunks.take(k - 1).flatten_alt() + chunk_at(
            t,
            k - 1,
        ));
        assert(t.take(prev_end) + chunk_at(t, k - 1) =~= t.take(this_end));
    }
}

} // verus!
