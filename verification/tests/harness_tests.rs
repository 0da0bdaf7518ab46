use text_compressor::algorithms::Algorithm;
use text_compressor::errors::ErrorKind;
use text_compressor::io::new_codec;
use text_compressor::io::args::Argument;
use text_compressor::models::compression_metric::CompressionMetric;
use text_compressor::models::dto::CompressRequest;
use text_compressor::models::part::Part;
use text_compressor::models::response::Response;
use text_compressor::models::threader::ThreadType;
use text_compressor::multi_thread;
use text_compressor::multi_thread::reassemble;
use text_compressor::service_io;
use text_compressor::single_thread;
use text_compressor::pkg::traits::Codec;
use text_compressor::threading::Threader;
use text_compressor::utils::split_into_parts;

#[test]
fn args_parsing_argument_works() {
    let file_name = b"dummy.txt".to_vec();
    let algorithm = Algorithm::Bwt;

    let args = Argument { file_name: file_name.clone(), algorithm };

    assert_eq!(args.file_name, file_name);
    assert_eq!(args.algorithm, algorithm);
}

#[test]
fn service_args_parsing_argument_works() {
    let file_name = b"dummy.txt".to_vec();
    let multithread = true;
    let cli = true;

    let args = service_io::args::Argument { file_name: file_name.clone(), multithread, cli };

    assert_eq!(args.file_name, file_name);
    assert_eq!(args.multithread, multithread);
    assert_eq!(args.cli, cli);
}

#[test]
fn validate_file_name_strips_whitespace() {
    let mut args = Argument { file_name: b"  du mmy\t.txt \n".to_vec(), algorithm: Algorithm::Rle };
    assert!(args.validate_file_name().is_ok());
    assert_eq!(args.file_name, b"dummy.txt".to_vec());

    let mut empty = Argument { file_name: b" \t \n".to_vec(), algorithm: Algorithm::Rle };
    assert!(empty.validate_file_name().is_err());
}

#[test]
fn splitter_boundary_cases() {
    // at the threshold: one part
    let exact = split_into_parts(vec![b'x'; 16384]);
    assert_eq!(exact.len(), 1);
    assert_eq!(exact[0].0, 0);
    assert_eq!(exact[0].1.len(), 16384);

    // one past the threshold: a full window and a single trailing byte
    let over = split_into_parts(vec![b'y'; 16385]);
    assert_eq!(over.len(), 2);
    assert_eq!(over[0].1.len(), 16384);
    assert_eq!(over[1].0, 1);
    assert_eq!(over[1].1.len(), 1);

    // below the threshold and empty: still a single part
    assert_eq!(split_into_parts(b"abc".to_vec()).len(), 1);
    let empty = split_into_parts(Vec::new());
    assert_eq!(empty.len(), 1);
    assert!(empty[0].1.is_empty());
}

#[test]
fn reassemble_orders_by_sequence_index_not_arrival() {
    // arrival order scrambled: the indices alone restore the text
    let parts = vec![
        Part(2, b"cc".to_vec()),
        Part(0, b"aa".to_vec()),
        Part(3, b"dd".to_vec()),
        Part(1, b"bb".to_vec()),
    ];
    assert_eq!(reassemble(&parts), b"aabbccdd".to_vec());
}

fn pattern_text(n: usize) -> Vec<u8> {
    (0..n).map(|i| b'a' + (i % 17) as u8).collect()
}

#[test]
fn reassembly_reproduces_input_across_sizes() {
    for n in [0usize, 1, 16384, 16385, 50000] {
        let text = pattern_text(n);
        let response = multi_thread::compute_algorithm(text.clone(), Algorithm::Rle).unwrap();
        assert_eq!(response.decoded, text);
    }
}

#[test]
fn reassembly_reproduces_input_for_huffman_chunks() {
    for n in [1usize, 16384, 16385, 50000] {
        let text = pattern_text(n);
        let response = multi_thread::compute_algorithm(text.clone(), Algorithm::Huffman).unwrap();
        assert_eq!(response.decoded, text);
    }
}

#[test]
fn reassembly_reproduces_input_for_lzw_chunks() {
    let text = pattern_text(600);
    let response = multi_thread::compute_algorithm(text.clone(), Algorithm::Lzw).unwrap();
    assert_eq!(response.decoded, text);
}

#[test]
fn single_thread_runs_all_codecs() {
    let text = b"she sells seashells by the seashore".to_vec();
    let responses = single_thread::benchmark_algorithms(text.clone()).unwrap();
    assert_eq!(responses.len(), 4);
    for response in &responses {
        assert_eq!(response.decoded, text);
    }
}

#[test]
fn multi_thread_runs_all_codecs() {
    let text = b"she sells seashells by the seashore".to_vec();
    let responses = multi_thread::benchmark_algorithms(text.clone()).unwrap();
    assert_eq!(responses.len(), 4);
    for response in &responses {
        assert_eq!(response.decoded, text);
    }
}

#[test]
fn new_codec_rejects_unusable_selections() {
    assert!(new_codec(b"abc".to_vec(), Algorithm::Invalid).is_err());
    assert!(new_codec(b"abc".to_vec(), Algorithm::All).is_err());
    assert!(new_codec(b"a$c".to_vec(), Algorithm::Bwt).is_err());
    assert!(new_codec(b"abc".to_vec(), Algorithm::Rle).is_ok());

    assert!(service_io::new_codec(b"abc".to_vec(), Algorithm::Invalid).is_none());
    assert!(service_io::new_codec(b"abc".to_vec(), Algorithm::Huffman).is_some());
}

#[test]
fn codec_runs_through_the_uniform_interface() {
    let mut codec = new_codec(b"tartar sauce".to_vec(), Algorithm::Rle).unwrap();
    codec.encode();
    codec.decode().unwrap();
    assert_eq!(codec.decompressed(), b"tartar sauce".to_vec());
    assert!(!codec.compressed().is_empty());
}

#[test]
fn threader_benchmarks_all_five_codecs() {
    let text = b"compression benchmark corpus".to_vec();
    let threader = Threader::new();
    for thread_type in [ThreadType::SingleThreaded, ThreadType::MultiThreaded] {
        let metrics = threader.benchmark_algorithms(text.clone(), thread_type).unwrap();
        assert_eq!(metrics.len(), 5);
        let names: Vec<&str> = metrics.iter().map(|m| m.algorithm.as_str()).collect();
        assert_eq!(names, vec!["RLE", "LZW", "BWT", "Huffman", "BWTRLE"]);
        for metric in &metrics {
            assert_eq!(metric.decoded, text);
            assert_eq!(metric.input_size as usize, text.len());
        }
    }
}

#[test]
fn metric_records_sizes_and_name() {
    let metric = CompressionMetric::new(Algorithm::Rle, b"enc".to_vec(), b"decoded".to_vec(), 42);
    assert_eq!(metric.algorithm, "RLE".to_string());
    assert_eq!(metric.input_size, 7);
    assert_eq!(metric.memory_used, 3);
    assert_eq!(metric.time_taken_nanos, 42);
}

#[test]
fn compress_request_validation() {
    let empty = CompressRequest { text: Vec::new(), multithread: false };
    let err = empty.validate().unwrap_err();
    assert_eq!(err.kind, ErrorKind::FailedAction);
    assert_eq!(err.status_code, 400);

    let fine = CompressRequest { text: b"payload".to_vec(), multithread: true };
    assert!(fine.validate().is_ok());
}

#[test]
fn response_buffers_are_settable() {
    let mut response = Response::build();
    assert!(response.encoded.is_empty());
    response.set_encoded(b"101".to_vec());
    response.set_decoded(b"abc".to_vec());
    assert_eq!(response.encoded, b"101".to_vec());
    assert_eq!(response.decoded, b"abc".to_vec());
}

fn round_trip_via_trait<C: Codec>(codec: &mut C) -> (Vec<u8>, Vec<u8>) {
    codec.encode();
    codec.decode().unwrap();
    (codec.compressed(), codec.decompressed())
}

#[test]
fn codec_contract_serves_every_variant() {
    let text = b"banana band".to_vec();
    for algorithm in [
        Algorithm::Rle,
        Algorithm::Huffman,
        Algorithm::Bwt,
        Algorithm::Lzw,
        Algorithm::BwtRle,
    ] {
        let mut codec = new_codec(text.clone(), algorithm).unwrap();
        let (compressed, decompressed) = round_trip_via_trait(&mut codec);
        assert!(!compressed.is_empty());
        assert_eq!(decompressed, text);
    }
}

#[test]
fn threader_rejects_sentinel_text() {
    let threader = Threader::new();
    for thread_type in [ThreadType::SingleThreaded, ThreadType::MultiThreaded] {
        assert!(threader.benchmark_algorithms(b"pay$load".to_vec(), thread_type).is_err());
    }
}

#[test]
fn threader_handles_empty_text() {
    let threader = Threader::new();
    let metrics = threader
        .benchmark_algorithms(Vec::new(), ThreadType::SingleThreaded)
        .unwrap();
    assert_eq!(metrics.len(), 5);
    for metric in &metrics {
        assert!(metric.decoded.is_empty());
    }
}
