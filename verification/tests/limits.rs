use hypercube::header::{Aont, Compression, HashAlgorithm, VhcHeader};
use hypercube::partition::{create_partition, extract_partition};
use hypercube::pipeline::mac::truncate_mac;
use hypercube::pipeline::{compress, compute_mac, decompress, SequenceNumber, SequencedBlock};
use hypercube::vhc::{cover_partition, draw_cover, seal};
use hypercube::{HypercubeError, VhcFile};

fn noise(len: usize) -> Vec<u8> {
    let mut state: u64 = 0x9E3779B97F4A7C15;
    let mut out = Vec::with_capacity(len);
    while out.len() < len {
        state ^= state << 13;
        state ^= state >> 7;
        state ^= state << 17;
        out.extend_from_slice(&state.to_le_bytes());
    }
    out.truncate(len);
    out
}

#[test]
fn lz4_input_past_the_limit_is_not_handed_to_the_decoder() {
    // four size bytes, a token that opens a long length field, and a field
    // long enough to pass a 32-bit counter
    let mut input = vec![0u8; 4];
    input.push(0xF0);
    input.resize(5 + 16_843_011, 0xFF);
    match decompress(&input, Compression::Lz4) {
        Err(HypercubeError::DecompressionError(message)) => {
            assert_eq!(message, "lz4: input too long")
        }
        _ => panic!("expected a decompression error"),
    }
    // at the limit the decoder is asked, and rejects on its own
    input.truncate(16_843_009);
    match decompress(&input, Compression::Lz4) {
        Err(HypercubeError::DecompressionError(message)) => {
            assert!(message.starts_with("lz4: "));
            assert_ne!(message, "lz4: input too long");
        }
        _ => panic!("expected a decompression error"),
    }
}

#[test]
fn lz4_refuses_to_write_what_it_would_not_read() {
    let data = noise(17_000_000);
    match compress(&data, Compression::Lz4) {
        Err(HypercubeError::CompressionError(message)) => {
            assert_eq!(message, "lz4: block too long")
        }
        _ => panic!("expected a compression error"),
    }
    // what compresses well is written and read, however long it is
    let data = vec![7u8; 20_000_000];
    let block = compress(&data, Compression::Lz4).unwrap();
    assert!(block.len() < 16_843_009);
    assert_eq!(decompress(&block, Compression::Lz4).unwrap(), data);
}

#[test]
fn words_spell_algorithms_exactly() {
    assert_eq!(Compression::from_word(&"zstd".to_string()), Some(Compression::Zstd));
    assert_eq!(Compression::from_word(&"lz4".to_string()), Some(Compression::Lz4));
    assert_eq!(Compression::from_word(&"brotli".to_string()), Some(Compression::Brotli));
    assert_eq!(Compression::from_word(&"none".to_string()), Some(Compression::Uncompressed));
    assert_eq!(Compression::from_word(&"ZSTD".to_string()), None);
    assert_eq!(Compression::from_word(&"".to_string()), None);
    assert_eq!(Aont::from_word(&"rivest".to_string()), Some(Aont::Rivest));
    assert_eq!(Aont::from_word(&"oaep".to_string()), Some(Aont::Oaep));
    assert_eq!(Aont::from_word(&"Oaep".to_string()), None);
    assert_eq!(HashAlgorithm::from_word(&"sha3".to_string()), Some(HashAlgorithm::Sha3));
    assert_eq!(HashAlgorithm::from_word(&"blake3".to_string()), Some(HashAlgorithm::Blake3));
    assert_eq!(HashAlgorithm::from_word(&"sha256".to_string()), Some(HashAlgorithm::Sha256));
    assert_eq!(HashAlgorithm::from_word(&"sha-256".to_string()), None);
}

#[test]
fn truncate_mac_cuts_and_stretches_a_native_tag() {
    let native: Vec<u8> = (0u8..32).collect();
    assert_eq!(truncate_mac(&native, 0), Vec::<u8>::new());
    assert_eq!(truncate_mac(&native, 16), native[..16].to_vec());
    assert_eq!(truncate_mac(&native, 32), native);
    let mut expected = native.clone();
    let extension = blake3::hash(&expected);
    expected.extend_from_slice(extension.as_bytes());
    assert_eq!(truncate_mac(&native, 33), expected[..33].to_vec());
    assert_eq!(truncate_mac(&native, 64), expected);
    let extension = blake3::hash(&expected);
    expected.extend_from_slice(extension.as_bytes());
    assert_eq!(truncate_mac(&native, 65), expected[..65].to_vec());
}

#[test]
fn shorter_tags_begin_longer_tags() {
    let block = SequencedBlock::new(SequenceNumber::new(77), vec![4u8; 40]);
    for algorithm in [HashAlgorithm::Sha3, HashAlgorithm::Blake3, HashAlgorithm::Sha256] {
        let short = compute_mac(&block, b"secret", algorithm, 128);
        let native = compute_mac(&block, b"secret", algorithm, 256);
        let long = compute_mac(&block, b"secret", algorithm, 512);
        assert_eq!(short, native[..16].to_vec());
        assert_eq!(native, long[..32].to_vec());
    }
}

#[test]
fn a_cover_is_a_payload_of_the_cover_size_and_a_secret() {
    // seven data blocks of 64 bytes hold 448 bytes: 80 less for metadata and slack
    let header = VhcHeader::new(8, 8, 8, 64, 256).unwrap();
    let (payload, secret) = draw_cover(&header);
    assert_eq!(payload.len(), 448 - 16 - 64);
    assert_eq!(secret.len(), 32);
    let mut feistel = header;
    feistel.aont = Aont::Oaep;
    let (payload, _) = draw_cover(&feistel);
    assert_eq!(payload.len(), 512 - 16 - 64);
    let (other, other_secret) = draw_cover(&header);
    assert!(other != payload || other_secret != secret);
}

#[test]
fn a_cover_partition_gives_as_many_blocks_as_there_is_room_for() {
    let mut header = VhcHeader::new(8, 8, 8, 32, 128).unwrap();
    header.compression = Compression::Uncompressed;
    let payload = vec![9u8; 144];
    for room in [0usize, 1, 5, 8, 9, 100] {
        let blocks = cover_partition(&payload, b"cover", &header, room).unwrap();
        assert_eq!(blocks.len(), room.min(8));
        for block in &blocks {
            assert_eq!(block.len(), 64);
        }
    }
    // a whole share is a partition like any other
    let blocks = cover_partition(&payload, b"cover", &header, 8).unwrap();
    assert_eq!(extract_partition(&blocks, b"cover", &header).unwrap(), payload);
    // what does not fit its data blocks is refused
    match cover_partition(&[0u8; 300], b"cover", &header, 8) {
        Err(HypercubeError::DataTooLarge { data_size, max_size }) => {
            assert_eq!(data_size, 316);
            assert_eq!(max_size, 224);
        }
        _ => panic!("expected DataTooLarge"),
    }
}

#[test]
fn sealing_without_compression_never_fails_and_adds_whole_blocks() {
    for (block_size, aont) in [(32usize, Aont::Rivest), (34, Aont::Oaep), (100, Aont::Rivest)] {
        let mut header = VhcHeader::new(16, 16, 16, block_size, 512).unwrap();
        header.compression = Compression::Uncompressed;
        header.aont = aont;
        let mut vhc = VhcFile::new(header);
        let first = create_partition(b"kept", b"s", &header, None).unwrap().blocks;
        vhc.add_blocks(first.clone());
        // three blocks of another partition, so that the last cover share is cut
        let second = create_partition(b"cut", b"t", &header, None).unwrap().blocks;
        vhc.add_blocks(second[..3].to_vec());
        assert_eq!(seal(&mut vhc).unwrap(), 256 - 19);
        assert_eq!(vhc.blocks.len(), 256);
        for block in &vhc.blocks {
            assert_eq!(block.len(), header.total_block_size());
        }
        for block in first.iter().chain(second[..3].iter()) {
            assert!(vhc.blocks.contains(block));
        }
        assert_eq!(extract_partition(&vhc.blocks, b"s", &header).unwrap(), b"kept".to_vec());
    }
}
