use text_compressor::algorithms::burrows_wheeler_run_length::BurrowsWheelerRunLength;
use text_compressor::algorithms::burrows_wheeler_transform::BurrowsWheelerTransform;
use text_compressor::algorithms::huffman::Huffman;
use text_compressor::algorithms::lempel_ziv_welch::LempelZivWelch;
use text_compressor::algorithms::run_length_encoding::RunLengthEncoding;
use text_compressor::errors::CodecError;

#[test]
fn encoder_works() {
    let test_cases: Vec<(&[u8], &[u8])> = vec![
        (
            b"abracadabra!",
            b"RlePart(97, 1)RlePart(98, 1)RlePart(114, 1)RlePart(97, 1)RlePart(99, 1)RlePart(97, 1)RlePart(100, 1)RlePart(97, 1)RlePart(98, 1)RlePart(114, 1)RlePart(97, 1)RlePart(33, 1)",
        ),
        (b"aabbc", b"RlePart(97, 2)RlePart(98, 2)RlePart(99, 1)"),
        (b"aaaaaaaaaa", b"RlePart(97, 10)"),
    ];

    for test_case in test_cases {
        let mut rle = RunLengthEncoding::new(test_case.0.to_vec());
        rle.encode();
        assert_eq!(rle.compressed(), test_case.1.to_vec());
    }
}

#[test]
fn run_length_encoding_decoder_works() {
    let test_cases: Vec<&[u8]> = vec![b"abracadabra!", b"aabbc", b"aaaaaaaaaa"];

    for test_case in test_cases {
        let mut rle = RunLengthEncoding::new(test_case.to_vec());
        rle.encode();
        rle.decode();
        assert_eq!(rle.decompressed(), test_case.to_vec());
    }
}

#[test]
fn huffman_works() {
    let test_cases: Vec<&[u8]> = vec![b"abracadabra!", b"aabbc", b"aaaaaaaabbbbbbbccccdd", b"12ab"];

    for test_case in test_cases {
        let mut huffman = Huffman::new(test_case.to_vec());
        huffman.encode();
    }
}

#[test]
fn huffman_encoded_uses_branch_bytes_only() {
    let mut huffman = Huffman::new(b"abracadabra!".to_vec());
    huffman.encode();
    assert!(!huffman.encoded.is_empty());
    for b in &huffman.encoded {
        assert!(*b == b'0' || *b == b'1');
    }
}

#[test]
fn huffman_decoder_works() {
    let test_cases: Vec<&[u8]> = vec![b"abracadabra!", b"aabbc", b"aaaaaaaabbbbbbbccccdd", b"12ab"];

    for test_case in test_cases {
        let mut huffman = Huffman::new(test_case.to_vec());
        huffman.encode();
        huffman.decode();
        assert_eq!(huffman.decoded, test_case.to_vec());
    }
}

#[test]
fn huffman_degenerate_single_byte_round_trips() {
    // a one-leaf tree must not loop forever and must still round-trip
    let mut huffman = Huffman::new(b"aaaa".to_vec());
    huffman.encode();
    assert_eq!(huffman.compressed(), b"0000".to_vec());
    huffman.decode();
    assert_eq!(huffman.decompressed(), b"aaaa".to_vec());
}

#[test]
fn huffman_empty_input_round_trips() {
    let mut huffman = Huffman::new(Vec::new());
    huffman.encode();
    assert!(huffman.compressed().is_empty());
    huffman.decode();
    assert!(huffman.decompressed().is_empty());
}

#[test]
fn bwt_banana_matches_classical_output() {
    // the classical transform of banana with the sentinel appended
    let mut bwt = BurrowsWheelerTransform::new(b"banana".to_vec()).unwrap();
    bwt.encode();
    assert_eq!(bwt.compressed(), b"annb$aa".to_vec());
    bwt.decode().unwrap();
    assert_eq!(bwt.decompressed(), b"banana".to_vec());
}

#[test]
fn bwt_round_trips() {
    let test_cases: Vec<&[u8]> = vec![b"abracadabra!", b"mississippi", b"aabbc", b"x", b""];

    for test_case in test_cases {
        let mut bwt = BurrowsWheelerTransform::new(test_case.to_vec()).unwrap();
        bwt.encode();
        bwt.decode().unwrap();
        assert_eq!(bwt.decompressed(), test_case.to_vec());
    }
}

#[test]
fn bwt_rejects_sentinel_in_input() {
    match BurrowsWheelerTransform::new(b"pay$load".to_vec()) {
        Err(CodecError::SentinelPresent) => {}
        _ => panic!("a sentinel in the input must be rejected"),
    }
}

#[test]
fn lzw_round_trips() {
    let test_cases: Vec<&[u8]> = vec![
        b"TOBEORNOTTOBEORTOBEORNOT",
        b"abracadabra!",
        b"aaaaaaaaaaaaaaaaaaaaaaaaaaaaaaaa",
        b"ab",
        b"z",
    ];

    for test_case in test_cases {
        let mut lzw = LempelZivWelch::new(test_case.to_vec());
        lzw.encode();
        lzw.decode().unwrap();
        assert_eq!(lzw.decompressed(), test_case.to_vec());
    }
}

#[test]
fn lzw_compressed_renders_codes_with_spaces() {
    let mut lzw = LempelZivWelch::new(b"aba".to_vec());
    lzw.encode();
    assert_eq!(lzw.encoded, vec![97u64, 98u64, 97u64]);
    assert_eq!(lzw.compressed(), b"97 98 97".to_vec());
}

#[test]
fn lzw_empty_input_round_trips() {
    let mut lzw = LempelZivWelch::new(Vec::new());
    lzw.encode();
    assert!(lzw.encoded.is_empty());
    lzw.decode().unwrap();
    assert!(lzw.decompressed().is_empty());
}

#[test]
fn lzw_rejects_unknown_first_code() {
    let mut lzw = LempelZivWelch::new(Vec::new());
    lzw.encoded = vec![999u64];
    assert_eq!(lzw.decode(), Err(CodecError::MissingEncodedState));
}

#[test]
fn composite_round_trips() {
    let test_cases: Vec<&[u8]> = vec![b"banana", b"abracadabra!", b"aabbc", b""];

    for test_case in test_cases {
        let mut codec = BurrowsWheelerRunLength::new(test_case.to_vec()).unwrap();
        codec.encode();
        codec.decode().unwrap();
        assert_eq!(codec.decompressed(), test_case.to_vec());
    }
}

#[test]
fn composite_detects_corrupted_intermediate() {
    let mut codec = BurrowsWheelerRunLength::new(b"banana".to_vec()).unwrap();
    codec.encode();
    // tamper with the transform output after the run-length pass recorded it
    codec.bwt.encoded[0] = codec.bwt.encoded[0].wrapping_add(1);
    assert_eq!(codec.decode(), Err(CodecError::IntermediateMismatch));
}

#[test]
fn composite_decode_before_encode_is_reported() {
    let mut codec = BurrowsWheelerRunLength::new(b"banana".to_vec()).unwrap();
    assert_eq!(codec.decode(), Err(CodecError::MissingEncodedState));
}

#[test]
fn composite_rejects_sentinel_in_input() {
    match BurrowsWheelerRunLength::new(b"a$b".to_vec()) {
        Err(CodecError::SentinelPresent) => {}
        _ => panic!("a sentinel in the input must be rejected"),
    }
}

#[test]
fn rle_round_trips_on_printable_ascii() {
    let test_cases: Vec<&[u8]> = vec![
        b"",
        b"a",
        b"The quick brown fox jumps over the lazy dog 0123456789!",
        b"wwwwwwwwwwwwbbbwwwwwwwwwwwwbbb",
    ];

    for test_case in test_cases {
        let mut rle = RunLengthEncoding::new(test_case.to_vec());
        rle.encode();
        rle.decode();
        assert_eq!(rle.decompressed(), test_case.to_vec());
    }
}
