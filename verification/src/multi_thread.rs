use vstd::prelude::*;
use crate::algorithms::burrows_wheeler_transform::{
    lemma_bwt_round_trip, lemma_shifts_always_feasible, SENTINEL,
};
use crate::algorithms::lempel_ziv_welch::{lemma_lzw_first_code, lemma_lzw_round_trip};
use crate::algorithms::run_length_encoding::lemma_rle_round_trip;
use crate::algorithms::Algorithm;
use crate::io::{
    codec_outcome, compressed_view, decode_relation, decompressed_view, encode_relation,
    fresh_codec, new_codec, AnyCodec,
};
use crate::models::part::Part;
use crate::models::response::Response;
use crate::utils::{
    chunk_at, chunks_of, contains_byte, lemma_chunk_bytes_from_text, lemma_chunk_len,
    lemma_chunks_cover, part_count, split_into_parts, CHUNK_SIZE,
};

verus! {

/// Some part carries the sequence index `k`.
pub open spec fn has_index(parts: Seq<Part>, k: int) -> bool {
    exists|j: int| 0 <= j < parts.len() && (#[trigger] parts[j].0) == k
}

/// The parts carry each sequence index below `len` exactly once: they are a
/// permutation of the segments of one text.
pub open spec fn indices_complete(parts: Seq<Part>) -> bool {
    &&& forall|k: int| 0 <= k < parts.len() ==> #[trigger] has_index(parts, k)
    &&& forall|i: int, j: int|
        0 <= i < parts.len() && 0 <= j < parts.len() && i != j ==> (#[trigger] parts[i].0)
            != (#[trigger] parts[j].0)
}

/// The payload of the part that carries sequence index `k`.
pub open spec fn indexed_payload(parts: Seq<Part>, k: int) -> Seq<u8> {
    parts[choose|j: int| 0 <= j < parts.len() && parts[j].0 == k].1@
}

/// All payloads, arranged by ascending sequence index.
pub open spec fn ordered_payloads(parts: Seq<Part>) -> Seq<Seq<u8>> {
    Seq::new(parts.len(), |k: int| indexed_payload(parts, k))
}

/// Decides whether a batch of parts carries each sequence index below its
/// count exactly once: the reassembly's precondition, checkable at run time.
pub fn carries_every_index(parts: &Vec<Part>) -> (r: bool)
    ensures
        r == indices_complete(parts@),
{
    let n = parts.len();
    let mut a: usize = 0;
    while a < n
        invariant
            n == parts@.len(),
            a <= n,
            forall|i: int, j: int|
                0 <= i < a && 0 <= j < n && i != j ==> (#[trigger] parts@[i].0)
                    != (#[trigger] parts@[j].0),
        decreases n - a,
    {
        let mut b: usize = 0;
        while b < n
            invariant
                n == parts@.len(),
                a < n,
                b <= n,
                forall|j: int|
                    0 <= j < b && j != a ==> (#[trigger] parts@[j].0) != parts@[a as int].0,
            decreases n - b,
        {
            if b != a && parts[b].0 == parts[a].0 {
                return false;
            }
            b = b + 1;
        }
        a = a + 1;
    }
    let mut k: usize = 0;
    while k < n
        invariant
            n == parts@.len(),
            k <= n,
            forall|i: int, j: int|
                0 <= i < n && 0 <= j < n && i != j ==> (#[trigger] parts@[i].0)
                    != (#[trigger] parts@[j].0),
            forall|k2: int| 0 <= k2 < k ==> #[trigger] has_index(parts@, k2),
        decreases n - k,
    {
        let mut j: usize = 0;
        while j < n && parts[j].0 != k
            invariant
                n == parts@.len(),
                j <= n,
                k < n,
                forall|j2: int| 0 <= j2 < j ==> (#[trigger] parts@[j2].0) != k,
            decreases n - j,
        {
            j = j + 1;
        }
        if j == n {
            proof {
                if has_index(parts@, k as int) {
                    let w = choose|w: int|
                        0 <= w < parts@.len() && (#[trigger] parts@[w].0) == k as int;
                    assert(false);
                }
            }
            return false;
        }
        proof {
            assert(has_index(parts@, k as int));
        }
        k = k + 1;
    }
    true
}

/// Restores the original order of a batch of order-tagged results: the
/// payloads are concatenated by ascending sequence index, never by arrival
/// order.
pub fn reassemble(parts: &Vec<Part>) -> (r: Vec<u8>)
    requires
        indices_complete(parts@),
    ensures
        r@ == ordered_payloads(parts@).flatten(),
{
    let n = parts.len();
    let mut r: Vec<u8> = Vec::new();
    let mut k: usize = 0;
    proof {
        ordered_payloads(parts@).lemma_flatten_and_flatten_alt_are_equivalent();
    }
    while k < n
        invariant
            n == parts@.len(),
            k <= n,
            indices_complete(parts@),
            r@ == ordered_payloads(parts@).take(k as int).flatten_alt(),
        decreases n - k,
    {
        // find the part that carries sequence index k
        proof {
            assert(has_index(parts@, k as int));
        }
        let mut j: usize = 0;
        while j < n && parts[j].0 != k
            invariant
                n == parts@.len(),
                j <= n,
                k < n,
                indices_complete(parts@),
                exists|j2: int| j <= j2 < parts@.len() && (#[trigger] parts@[j2].0) == k,

            decreases n - j,
        {
            j = j + 1;
        }
        proof {
            assert(parts@[j as int].0 == k);
            let w = choose|j2: int| 0 <= j2 < parts@.len() && parts@[j2].0 == k as int;
            assert(parts@[w].0 == k);
            assert(w == j as int);
        }
        let payload = &parts[j].1;
        let mut b: usize = 0;
        let m = payload.len();
        while b < m
            invariant
                m == payload@.len(),
                b <= m,
                payload@ == indexed_payload(parts@, k as int),
                r@ == ordered_payloads(parts@).take(k as int).flatten_alt() + payload@.take(
                    b as int,
                ),
            decreases m - b,
        {
            r.push(payload[b]);
            proof {
                assert(payload@.take(b + 1) =~= payload@.take(b as int).push(payload@[b as int]));
                assert(r@ =~= ordered_payloads(parts@).take(k as int).flatten_alt()
                    + payload@.take(b + 1));
            }
            b = b + 1;
        }
        proof {
            let ops = ordered_payloads(parts@);
            assert(payload@.take(m as int) =~= payload@);
            assert(ops.take(k + 1).drop_last() =~= ops.take(k as int));
            assert(ops.take(k + 1).last() == indexed_payload(parts@, k as int));
            assert(r@ =~= ops.take(k + 1).flatten_alt());
        }
        k = k + 1;
    }
    proof {
        assert(ordered_payloads(parts@).take(n as int) =~= ordered_payloads(parts@));
    }
    r
}

/// Parts whose tags equal their positions carry every index once, and their
/// payloads are already in sequence order.
proof fn lemma_identity_order(parts: Seq<Part>)
    requires
        forall|k: int| 0 <= k < parts.len() ==> (#[trigger] parts[k].0) == k,
    ensures
        indices_complete(parts),
        forall|k: int| 0 <= k < parts.len() ==> indexed_payload(parts, k) == (
        #[trigger] parts[k]).1@,
{
    assert forall|k: int| 0 <= k < parts.len() implies #[trigger] has_index(parts, k) by {
        assert(parts[k].0 == k);
    }
    assert forall|k: int| 0 <= k < parts.len() implies indexed_payload(parts, k) == (
    #[trigger] parts[k]).1@ by {
        assert(parts[k].0 == k);
        let w = choose|j: int| 0 <= j < parts.len() && parts[j].0 == k;
        assert(parts[w].0 == w);
    }
}

/// Drives one codec over the text in fixed-size parts, one independent codec
/// instance per part, and reassembles both results by ascending sequence
/// index. Concatenating the decoded parts in that order reproduces the input
/// exactly for the codecs whose round trip is proven.
pub fn compute_algorithm(text: Vec<u8>, algorithm: Algorithm) -> (r: Result<Response, String>)
    ensures
        algorithm == Algorithm::All || algorithm == Algorithm::Invalid ==> r is Err,
        algorithm == Algorithm::Rle ==> r is Ok && (r.unwrap()).decoded@ == text@,
        algorithm == Algorithm::Huffman ==> r is Ok && (r.unwrap()).decoded@ == text@,
        algorithm == Algorithm::Lzw ==> r is Ok && (r.unwrap()).decoded@ == text@,
        algorithm == Algorithm::Bwt || algorithm == Algorithm::BwtRle ==> ((r is Err
            <==> text@.contains(SENTINEL)) && (r is Ok ==> (r.unwrap()).decoded@ == text@)),
        r is Ok ==> exists|encs: Seq<Seq<u8>>, decs: Seq<Seq<u8>>|
            {
                &&& encs.len() == part_count(text@.len())
                &&& decs.len() == part_count(text@.len())
                &&& (forall|k: int|
                    0 <= k < encs.len() ==> #[trigger] codec_outcome(
                        algorithm,
                        chunk_at(text@, k),
                        encs[k],
                        decs[k],
                    ))
                &&& (r.unwrap()).encoded@ == encs.flatten()
                &&& (r.unwrap()).decoded@ == decs.flatten()
            },
{
    let ghost t = text@;
    if (matches!(algorithm, Algorithm::Bwt) || matches!(algorithm, Algorithm::BwtRle))
        && contains_byte(&text, SENTINEL) {
        return Err(String::from_str("the text must not contain the sentinel byte"));
    }
    let parts = split_into_parts(text);
    let n = parts.len();
    let mut encoded_parts: Vec<Part> = Vec::new();
    let mut decoded_parts: Vec<Part> = Vec::new();
    let ghost mut encs: Seq<Seq<u8>> = Seq::empty();
    let ghost mut decs: Seq<Seq<u8>> = Seq::empty();
    let mut i: usize = 0;
    while i < n
        invariant
            i <= n,
            n == parts@.len() == part_count(t.len()),
            forall|k: int|
                0 <= k < n ==> (#[trigger] parts@[k]).0 == k && parts@[k].1@ == chunk_at(t, k),
            encoded_parts@.len() == i,
            decoded_parts@.len() == i,
            forall|k: int| 0 <= k < i ==> (#[trigger] encoded_parts@[k]).0 == k,
            forall|k: int| 0 <= k < i ==> (#[trigger] decoded_parts@[k]).0 == k,
            algorithm != Algorithm::All && algorithm != Algorithm::Invalid ==> forall|k: int|
                0 <= k < i ==> (#[trigger] decoded_parts@[k]).1@ == chunk_at(t, k),
            i > 0 ==> algorithm != Algorithm::All && algorithm != Algorithm::Invalid,
            algorithm == Algorithm::Bwt || algorithm == Algorithm::BwtRle ==> !t.contains(
                SENTINEL,
            ),
            encs.len() == i,
            decs.len() == i,
            forall|k: int|
                0 <= k < i ==> #[trigger] codec_outcome(algorithm, chunk_at(t, k), encs[k], decs[k]),
            forall|k: int| 0 <= k < i ==> (#[trigger] encoded_parts@[k]).1@ == encs[k],
            forall|k: int| 0 <= k < i ==> (#[trigger] decoded_parts@[k]).1@ == decs[k],
        decreases n - i,
    {
        let chunk = parts[i].1.clone();
        let _chunk_len = chunk.len();
        proof {
            assert(chunk@ == chunk_at(t, i as int));
        }
        let mut codec = match new_codec(chunk, algorithm) {
            Ok(codec) => codec,
            Err(e) => {
                proof {
                    if (algorithm == Algorithm::Bwt || algorithm == Algorithm::BwtRle)
                        && !t.contains(SENTINEL) {
                        lemma_chunk_bytes_from_text(t, i as int, SENTINEL);
                        assert(false);
                    }
                }
                return Err(e);
            },
        };
        let ghost built = codec;
        codec.encode();
        let ghost encoded_state = codec;
        proof {
            if algorithm == Algorithm::Lzw && chunk_at(t, i as int).len() > 0 {
                lemma_lzw_first_code(chunk_at(t, i as int));
            }
            if algorithm == Algorithm::Lzw {
                lemma_chunk_len(t, i as int);
                lemma_lzw_round_trip(chunk_at(t, i as int));
            }
            match &codec {
                AnyCodec::Bwt(b) => {
                    lemma_shifts_always_feasible(b.encoded@);
                },
                AnyCodec::BwtRle(b) => {
                    lemma_shifts_always_feasible(b.bwt.encoded@);
                    lemma_rle_round_trip(b.bwt.encoded@);
                },
                _ => {},
            }
        }
        match codec.decode() {
            Ok(_) => {},
            Err(_) => {
                proof {
                    assert(false);
                }
                return Err(String::from_str("the encoded state cannot be decoded"));
            },
        }
        let ghost decoded_state = codec;
        encoded_parts.push(Part(i, codec.compressed()));
        decoded_parts.push(Part(i, codec.decompressed()));
        proof {
            assert(fresh_codec(built, algorithm, chunk_at(t, i as int)));
            assert(encode_relation(built, encoded_state));
            assert(decode_relation(encoded_state, decoded_state, Ok(())));
            assert(codec_outcome(
                algorithm,
                chunk_at(t, i as int),
                compressed_view(decoded_state),
                decompressed_view(decoded_state),
            ));
            encs = encs.push(compressed_view(decoded_state));
            decs = decs.push(decompressed_view(decoded_state));
            if algorithm == Algorithm::Rle {
                lemma_rle_round_trip(chunk_at(t, i as int));
            }
            if algorithm == Algorithm::Bwt || algorithm == Algorithm::BwtRle {
                let chunk = chunk_at(t, i as int);
                assert(!chunk.contains(SENTINEL)) by {
                    if chunk.contains(SENTINEL) {
                        lemma_chunk_bytes_from_text(t, i as int, SENTINEL);
                    }
                }
                let tt = chunk + seq![SENTINEL];
                assert(tt.last() == SENTINEL);
                assert forall|q: int| 0 <= q < tt.len() - 1 implies tt[q] != SENTINEL by {
                    assert(tt[q] == chunk[q]);
                    if chunk[q] == SENTINEL {
                        assert(chunk.contains(SENTINEL));
                    }
                }
                assert(tt.drop_last() =~= chunk);
                if algorithm == Algorithm::Bwt {
                    let mid = encoded_state->Bwt_0;
                    assert(mid.text@ == tt);
                    lemma_bwt_round_trip(tt, mid.suffix_indices@, mid.original_pos as int);
                } else {
                    let mid = encoded_state->BwtRle_0;
                    assert(mid.bwt.text@ == tt);
                    lemma_bwt_round_trip(tt, mid.bwt.suffix_indices@, mid.bwt.original_pos as int);
                }
            }
        }
        i = i + 1;
    }
    proof {
        assert(part_count(t.len()) >= 1) by (nonlinear_arith)
            requires
                part_count(t.len()) == (if t.len() == 0 {
                    1nat
                } else {
                    ((t.len() + CHUNK_SIZE - 1) as nat) / (CHUNK_SIZE as nat)
                }),
                CHUNK_SIZE == 16384,
        ;
        lemma_identity_order(encoded_parts@);
        lemma_identity_order(decoded_parts@);
        if algorithm != Algorithm::All && algorithm != Algorithm::Invalid {
            assert forall|k: int|
                0 <= k < n implies ordered_payloads(decoded_parts@)[k] == chunks_of(t)[k] by {
                assert(indexed_payload(decoded_parts@, k) == decoded_parts@[k].1@);
                assert(decoded_parts@[k].1@ == chunk_at(t, k));
            }
            assert(ordered_payloads(decoded_parts@) =~= chunks_of(t));
            lemma_chunks_cover(t);
        }
    }
    proof {
        assert forall|k: int|
            0 <= k < n implies ordered_payloads(encoded_parts@)[k] == encs[k] by {
            assert(indexed_payload(encoded_parts@, k) == encoded_parts@[k].1@);
        }
        assert(ordered_payloads(encoded_parts@) =~= encs);
        assert forall|k: int|
            0 <= k < n implies ordered_payloads(decoded_parts@)[k] == decs[k] by {
            assert(indexed_payload(decoded_parts@, k) == decoded_parts@[k].1@);
        }
        assert(ordered_payloads(decoded_parts@) =~= decs);
    }
    let encoded_all = reassemble(&encoded_parts);
    let decoded_all = reassemble(&decoded_parts);
    let mut response = Response::build();
    response.set_encoded(encoded_all);
    response.set_decoded(decoded_all);
    Ok(response)
}

/// Benchmarks the four standalone codecs over the text, each run in
/// fixed-size parts: Huffman, Lempel-Ziv-Welch, Burrows-Wheeler, run-length.
pub fn benchmark_algorithms(text: Vec<u8>) -> (r: Result<Vec<Response>, String>)
    ensures
        r is Ok ==> {
            let v = r.unwrap();
            &&& v@.len() == 4
            &&& v@[0].decoded@ == text@
            &&& v@[1].decoded@ == text@
            &&& v@[3].decoded@ == text@
        },
        !text@.contains(SENTINEL) ==> r is Ok,
{
    let huffman = match compute_algorithm(clone_bytes(&text), Algorithm::Huffman) {
        Ok(resp) => resp,
        Err(e) => {
            return Err(e);
        },
    };
    let lzw = match compute_algorithm(clone_bytes(&text), Algorithm::Lzw) {
        Ok(resp) => resp,
        Err(e) => {
            return Err(e);
        },
    };
    let bwt = match compute_algorithm(clone_bytes(&text), Algorithm::Bwt) {
        Ok(resp) => resp,
        Err(e) => {
            return Err(e);
        },
    };
    let rle = match compute_algorithm(text, Algorithm::Rle) {
        Ok(resp) => resp,
        Err(e) => {
            return Err(e);
        },
    };
    let mut responses: Vec<Response> = Vec::new();
    responses.push(huffman);
    responses.push(lzw);
    responses.push(bwt);
    responses.push(rle);
    Ok(responses)
}

/// A copy of a byte vector.
fn clone_bytes(v: &Vec<u8>) -> (r: Vec<u8>)
    ensures
        r@ == v@,
{
    v.clone()
}

} // verus!
