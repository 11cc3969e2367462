use hypercube::header::Compression;
use hypercube::pipeline::{compress, decompress};
use hypercube::HypercubeError;
use std::io::Read;
use std::io::Write;

fn check_roundtrip(algorithm: Compression, data: &[u8]) {
    let compressed = compress(data, algorithm).unwrap();
    let decompressed = decompress(&compressed, algorithm).unwrap();
    assert_eq!(data, &decompressed[..]);
}

#[test]
fn test_zstd_roundtrip() {
    check_roundtrip(Compression::Zstd, b"Hello, World! This is a test of compression.");
}

#[test]
fn test_lz4_roundtrip() {
    check_roundtrip(Compression::Lz4, b"Hello, World! This is a test of compression.");
}

#[test]
fn test_brotli_roundtrip() {
    check_roundtrip(Compression::Brotli, b"Hello, World! This is a test of compression.");
}

#[test]
fn test_none_roundtrip() {
    check_roundtrip(
        Compression::Uncompressed,
        b"Hello, World! This is a test of compression.",
    );
}

#[test]
fn test_empty_data() {
    for alg in [
        Compression::Zstd,
        Compression::Lz4,
        Compression::Brotli,
        Compression::Uncompressed,
    ] {
        check_roundtrip(alg, b"");
    }
}

#[test]
fn test_large_data() {
    let data: Vec<u8> = (0..100_000).map(|i| (i % 256) as u8).collect();
    for alg in [
        Compression::Zstd,
        Compression::Lz4,
        Compression::Brotli,
        Compression::Uncompressed,
    ] {
        check_roundtrip(alg, &data);
    }
}

#[test]
fn compress_calls_each_backend_with_its_settings() {
    let data: Vec<u8> = (0..5000).map(|i| (i % 97) as u8).collect();
    assert_eq!(
        compress(&data, Compression::Zstd).unwrap(),
        zstd::encode_all(&data[..], 3).unwrap()
    );
    assert_eq!(
        compress(&data, Compression::Lz4).unwrap(),
        lz4_flex::compress_prepend_size(&data)
    );
    let mut expected = Vec::new();
    {
        let mut writer = brotli::CompressorWriter::new(&mut expected, 4096, 4, 22);
        writer.write_all(&data).unwrap();
    }
    assert_eq!(compress(&data, Compression::Brotli).unwrap(), expected);
    assert_eq!(compress(&data, Compression::Uncompressed).unwrap(), data);
    for algorithm in [Compression::Zstd, Compression::Lz4, Compression::Brotli] {
        let compressed = compress(&data, algorithm).unwrap();
        assert!(compressed.len() < data.len());
    }
}

#[test]
fn decompress_reads_what_each_backend_wrote() {
    let data: Vec<u8> = (0..3000).map(|i| (i % 31) as u8).collect();
    let frame = zstd::encode_all(&data[..], 19).unwrap();
    assert_eq!(decompress(&frame, Compression::Zstd).unwrap(), data);
    let block = lz4_flex::compress_prepend_size(&data);
    assert_eq!(decompress(&block, Compression::Lz4).unwrap(), data);
    let mut stream = Vec::new();
    {
        let mut writer = brotli::CompressorWriter::new(&mut stream, 1024, 9, 20);
        writer.write_all(&data).unwrap();
    }
    let mut check = Vec::new();
    brotli::Decompressor::new(&stream[..], 4096)
        .read_to_end(&mut check)
        .unwrap();
    assert_eq!(check, data);
    assert_eq!(decompress(&stream, Compression::Brotli).unwrap(), data);
    assert_eq!(decompress(&stream, Compression::Uncompressed).unwrap(), stream);
}

#[test]
fn lz4_frame_starts_with_the_original_size() {
    let data = vec![5u8; 1000];
    let compressed = compress(&data, Compression::Lz4).unwrap();
    assert_eq!(compressed[..4], 1000u32.to_le_bytes());
}

#[test]
fn decompression_errors_name_the_algorithm() {
    let garbage = [0xFFu8; 40];
    match decompress(&garbage, Compression::Zstd) {
        Err(HypercubeError::DecompressionError(message)) => {
            assert!(message.starts_with("zstd: "), "{}", message)
        }
        other => panic!("unexpected result: {:?}", other),
    }
    match decompress(&[1, 2], Compression::Lz4) {
        Err(HypercubeError::DecompressionError(message)) => {
            assert!(message.starts_with("lz4: "), "{}", message)
        }
        other => panic!("unexpected result: {:?}", other),
    }
    match decompress(&garbage, Compression::Brotli) {
        Err(HypercubeError::DecompressionError(message)) => {
            assert!(message.starts_with("brotli: "), "{}", message)
        }
        other => panic!("unexpected result: {:?}", other),
    }
    assert_eq!(decompress(&garbage, Compression::Uncompressed).unwrap(), garbage.to_vec());
}
