use hypercube::header::{Aont, Compression, HashAlgorithm, PartitionMeta, VhcHeader};
use hypercube::HypercubeError;

#[test]
fn header_test_header_creation() {
    let header = VhcHeader::new(32, 32, 32, 64, 256).unwrap();
    assert_eq!(header.cube_id, 32);
    assert_eq!(header.dimension, 32);
    assert_eq!(header.blocks_per_partition, 32);
    assert_eq!(header.block_size, 64);
    assert_eq!(header.mac_bits, 256);
    assert_eq!(header.total_block_size(), 64 + 16 + 32);
}

#[test]
fn test_small_hypercube() {
    let header = VhcHeader::new(8, 8, 8, 32, 256).unwrap();
    assert_eq!(header.cube_id, 8);
    assert_eq!(header.dimension, 8);
    assert_eq!(header.blocks_per_partition, 8);
    assert_eq!(header.theoretical_block_count(), 64);
}

#[test]
fn header_test_invalid_geometry() {
    // Dimension must be multiple of 8
    assert!(VhcHeader::new(32, 5, 32, 64, 256).is_err());
    assert!(VhcHeader::new(32, 32, 5, 64, 256).is_err());
    // Block size must be even
    assert!(VhcHeader::new(32, 32, 32, 63, 256).is_err());
    assert!(VhcHeader::new(32, 32, 32, 0, 256).is_err());
}

#[test]
fn header_test_serialization() {
    let header = VhcHeader::new(32, 32, 32, 128, 512).unwrap();
    let bytes = header.to_bytes().unwrap();
    let restored = VhcHeader::from_bytes(&bytes).unwrap();

    assert_eq!(header.cube_id, restored.cube_id);
    assert_eq!(header.block_size, restored.block_size);
    assert_eq!(header.mac_bits, restored.mac_bits);
}

#[test]
fn test_partition_meta() {
    let meta = PartitionMeta {
        compressed_size: 1000,
        original_size: 12345,
    };
    let bytes = meta.to_bytes();
    let restored = PartitionMeta::from_bytes(&bytes).unwrap();
    assert_eq!(meta.compressed_size, restored.compressed_size);
    assert_eq!(meta.original_size, restored.original_size);
}

#[test]
fn geometry_errors_name_the_offending_value() {
    assert!(matches!(
        VhcHeader::new(32, 5, 32, 64, 256),
        Err(HypercubeError::InvalidDimension(5))
    ));
    assert!(matches!(
        VhcHeader::new(32, 0, 32, 64, 256),
        Err(HypercubeError::InvalidDimension(0))
    ));
    assert!(matches!(
        VhcHeader::new(32, 12, 32, 64, 256),
        Err(HypercubeError::InvalidDimension(12))
    ));
    assert!(matches!(
        VhcHeader::new(32, 32, 20, 64, 256),
        Err(HypercubeError::InvalidDimension(20))
    ));
    assert!(matches!(
        VhcHeader::new(32, 32, 32, 30, 256),
        Err(HypercubeError::InvalidBlockSize(30))
    ));
    assert!(matches!(
        VhcHeader::new(32, 32, 32, 33, 256),
        Err(HypercubeError::InvalidBlockSize(33))
    ));
    assert!(matches!(
        VhcHeader::new(32, 32, 32, 64, 192),
        Err(HypercubeError::InvalidMacBits(192))
    ));
    // the first rule broken decides
    assert!(matches!(
        VhcHeader::new(32, 5, 6, 7, 9),
        Err(HypercubeError::InvalidDimension(5))
    ));
    assert!(matches!(
        VhcHeader::new(32, 8, 6, 7, 9),
        Err(HypercubeError::InvalidDimension(6))
    ));
    assert!(matches!(
        VhcHeader::new(32, 8, 8, 7, 9),
        Err(HypercubeError::InvalidBlockSize(7))
    ));
}

#[test]
fn new_header_has_default_algorithms() {
    let header = VhcHeader::new(8, 8, 8, 32, 128).unwrap();
    assert_eq!(header.version, 1);
    assert_eq!(header.compression, Compression::Zstd);
    assert_eq!(header.aont, Aont::Rivest);
    assert_eq!(header.hash, HashAlgorithm::Sha3);
    assert_eq!(header.mac_bytes(), 16);
    assert_eq!(header.block_bits(), 256);
    assert_eq!(header.cube(), 8);
    assert_eq!(header.blocks_per_partition(), 8);
    assert_eq!(header.data_blocks_per_partition(), 7);
    assert_eq!(header.payload_capacity_bytes(), 32 * 64);
    assert_eq!(header.total_block_size(), 32 + 16 + 16);
}

#[test]
fn data_blocks_depend_on_the_transform() {
    let mut header = VhcHeader::new(16, 16, 16, 32, 256).unwrap();
    assert_eq!(header.data_blocks_per_partition(), 15);
    header.aont = Aont::Oaep;
    assert_eq!(header.data_blocks_per_partition(), 16);
}

#[test]
fn fragment_size_follows_the_sizing_rule() {
    assert_eq!(VhcHeader::calculate_fragment_size(0), 1);
    assert_eq!(VhcHeader::calculate_fragment_size(32), 2);
    assert_eq!(VhcHeader::calculate_fragment_size(64), 4);
    assert_eq!(VhcHeader::calculate_fragment_size(128), 8);
    assert_eq!(VhcHeader::calculate_fragment_size(4096), 256);
    assert_eq!(VhcHeader::calculate_fragment_size(65536), 256);
    // 34 = 2 * 17: growth stops at 2, which divides
    assert_eq!(VhcHeader::calculate_fragment_size(34), 2);
    // 100: growth reaches 8 (100 / 8 = 12 > 8, 100 / 16 = 6), halved to 4
    assert_eq!(VhcHeader::calculate_fragment_size(100), 4);
    // an odd size is only divided by 1
    assert_eq!(VhcHeader::calculate_fragment_size(33), 1);
    for block_size in [32usize, 34, 36, 48, 62, 64, 100, 256, 1000, 4096, 5000] {
        let f = VhcHeader::calculate_fragment_size(block_size);
        assert!(f >= 1 && f <= 256);
        assert_eq!(block_size % f, 0);
        assert_eq!(VhcHeader::new(8, 8, 8, block_size, 256).unwrap().fragment_size, f);
    }
    let header = VhcHeader::new(8, 8, 8, 64, 256).unwrap();
    assert_eq!(header.fragments_per_block(), 16);
}

#[test]
fn header_text_is_compact_json_in_field_order() {
    let header = VhcHeader::new(32, 32, 32, 64, 256).unwrap();
    let bytes = header.to_bytes().unwrap();
    let expected = "{\"version\":1,\"cube_id\":32,\"dimension\":32,\"blocks_per_partition\":32,\
\"block_size\":64,\"mac_bits\":256,\"compression\":\"zstd\",\"aont\":\"rivest\",\
\"hash\":\"sha3\",\"fragment_size\":4}";
    assert_eq!(String::from_utf8(bytes).unwrap(), expected);

    let mut other = VhcHeader::new(8, 8, 16, 1000, 128).unwrap();
    other.compression = Compression::Uncompressed;
    other.aont = Aont::Oaep;
    other.hash = HashAlgorithm::Blake3;
    other.version = 4_000_000_000;
    let expected = "{\"version\":4000000000,\"cube_id\":8,\"dimension\":8,\
\"blocks_per_partition\":16,\"block_size\":1000,\"mac_bits\":128,\"compression\":\"none\",\
\"aont\":\"oaep\",\"hash\":\"blake3\",\"fragment_size\":8}";
    assert_eq!(String::from_utf8(other.to_bytes().unwrap()).unwrap(), expected);
}

#[test]
fn header_text_is_what_serde_writes() {
    let header = VhcHeader::new(32, 32, 32, 128, 512).unwrap();
    let value: serde_json::Value =
        serde_json::from_slice(&header.to_bytes().unwrap()).unwrap();
    assert_eq!(value["version"], serde_json::Value::from(1u32));
    assert_eq!(value["cube_id"], serde_json::Value::from(32u64));
    assert_eq!(value["dimension"], serde_json::Value::from(32u64));
    assert_eq!(value["blocks_per_partition"], serde_json::Value::from(32u64));
    assert_eq!(value["block_size"], serde_json::Value::from(128u64));
    assert_eq!(value["mac_bits"], serde_json::Value::from(512u64));
    assert_eq!(value["compression"], serde_json::Value::from("zstd"));
    assert_eq!(value["aont"], serde_json::Value::from("rivest"));
    assert_eq!(value["hash"], serde_json::Value::from("sha3"));
    assert_eq!(value["fragment_size"], serde_json::Value::from(8u64));
    assert_eq!(value.as_object().unwrap().len(), 10);
}

#[test]
fn header_round_trip_gives_every_field_back() {
    let compressions = [
        Compression::Zstd,
        Compression::Lz4,
        Compression::Brotli,
        Compression::Uncompressed,
    ];
    let aonts = [Aont::Rivest, Aont::Oaep];
    let hashes = [HashAlgorithm::Sha3, HashAlgorithm::Blake3, HashAlgorithm::Sha256];
    for (i, compression) in compressions.iter().enumerate() {
        for aont in aonts.iter() {
            for hash in hashes.iter() {
                for mac_bits in [128usize, 256, 512] {
                    let mut header =
                        VhcHeader::new(8 * (i + 1), 8 * (i + 2), 64, 32 + 2 * i, mac_bits).unwrap();
                    header.compression = *compression;
                    header.aont = *aont;
                    header.hash = *hash;
                    header.version = 7 + i as u32;
                    let restored = VhcHeader::from_bytes(&header.to_bytes().unwrap()).unwrap();
                    assert_eq!(restored.version, header.version);
                    assert_eq!(restored.cube_id, header.cube_id);
                    assert_eq!(restored.dimension, header.dimension);
                    assert_eq!(restored.blocks_per_partition, header.blocks_per_partition);
                    assert_eq!(restored.block_size, header.block_size);
                    assert_eq!(restored.mac_bits, header.mac_bits);
                    assert_eq!(restored.compression, header.compression);
                    assert_eq!(restored.aont, header.aont);
                    assert_eq!(restored.hash, header.hash);
                    assert_eq!(restored.fragment_size, header.fragment_size);
                }
            }
        }
    }
}

#[test]
fn header_with_largest_numbers_round_trips() {
    let mut header = VhcHeader::new(8, 8, 8, 32, 256).unwrap();
    header.version = u32::MAX;
    header.cube_id = usize::MAX;
    let restored = VhcHeader::from_bytes(&header.to_bytes().unwrap()).unwrap();
    assert_eq!(restored.version, u32::MAX);
    assert_eq!(restored.cube_id, usize::MAX);
    header.cube_id = 0;
    let restored = VhcHeader::from_bytes(&header.to_bytes().unwrap()).unwrap();
    assert_eq!(restored.cube_id, 0);
}

fn text(version: &str, dimension: &str, rest: &str) -> Vec<u8> {
    format!(
        "{{\"version\":{},\"cube_id\":32,\"dimension\":{},\"blocks_per_partition\":32,{}",
        version, dimension, rest
    )
    .into_bytes()
}

const REST: &str = "\"block_size\":64,\"mac_bits\":256,\"compression\":\"zstd\",\
\"aont\":\"rivest\",\"hash\":\"sha3\",\"fragment_size\":4}";

#[test]
fn header_reader_rejects_what_is_no_header() {
    assert!(VhcHeader::from_bytes(&text("1", "32", REST)).is_ok());
    // not the text of a header
    for bad in [
        text("01", "32", REST),
        text("", "32", REST),
        text("-1", "32", REST),
        text("1.0", "32", REST),
        text("1 2", "32", REST),
        text("+1", "32", REST),
        text("1e0", "32", REST),
        text("\"1\"", "32", REST),
        text("4294967296", "32", REST),
        text("1", "99999999999999999999999", REST),
        text("1", "032", REST),
        text("1", "32", &REST.replace("zstd", "gzip")),
        text("1", "32", &REST.replace("zstd", "ZSTD")),
        text("1", "32", &REST.replace("rivest", "")),
        text("1", "32", &REST.replace("sha3", "sha-3")),
        text("1", "32", &REST.replace("\"fragment_size\":4}", "\"fragment_size\":4")),
        text("1", "32", &REST.replace("\"fragment_size\":4}", "\"fragment_size\":4}}")),
        text("1", "32", &REST.replace("\"fragment_size\":4}", "\"fragment_size\":4} x")),
        text("1", "32", &REST.replace("\"fragment_size\":4}", "\"fragment_size\":4,}")),
        text("1", "32", &REST.replace("\"fragment_size\":4}", "\"fragment_size\":4,\"version\":1}")),
        text("1", "32", &REST.replace("\"fragment_size\":4}", "\"fragment_size\":4,\"extra\":1}")),
        text("1", "32", &REST.replace("\"mac_bits\":256,", "\"mac_bits\":256,,")),
        text("1", "32", &REST.replace("\"mac_bits\":256,", "\"mac_bits\" 256,")),
        text("1", "32", &REST.replace("\"zstd\"", "zstd")),
        text("1", "32", &REST.replace("\"zstd\"", "\"zstd")),
        text("1", "32", &REST.replace("\"zstd\"", "\" zstd\"")),
        text("1", "32", &REST.replace("\"mac_bits\":256,", "")),
        text("1", "32", &REST.replace("mac_bits", "mac_bit")),
        b"".to_vec(),
        b"{}".to_vec(),
        b"null".to_vec(),
        b" ".to_vec(),
        b"{".to_vec(),
        b"[]".to_vec(),
        b"{\"version\":1".to_vec(),
    ] {
        assert!(
            matches!(VhcHeader::from_bytes(&bad), Err(HypercubeError::Json(_))),
            "{:?}",
            String::from_utf8_lossy(&bad)
        );
    }
}

#[test]
fn header_reader_checks_the_geometry() {
    assert!(matches!(
        VhcHeader::from_bytes(&text("1", "5", REST)),
        Err(HypercubeError::InvalidDimension(5))
    ));
    assert!(matches!(
        VhcHeader::from_bytes(&text("1", "32", &REST.replace("64", "63"))),
        Err(HypercubeError::InvalidBlockSize(63))
    ));
    assert!(matches!(
        VhcHeader::from_bytes(&text("1", "32", &REST.replace("256", "100"))),
        Err(HypercubeError::InvalidMacBits(100))
    ));
    assert!(matches!(
        VhcHeader::from_bytes(&text("1", "32", &REST.replace(":4}", ":0}"))),
        Err(HypercubeError::InvalidHeader(_))
    ));
    assert!(matches!(
        VhcHeader::from_bytes(&text("1", "32", &REST.replace(":4}", ":48}"))),
        Err(HypercubeError::InvalidHeader(_))
    ));
    // any fragment size that divides the block size is accepted
    let header = VhcHeader::from_bytes(&text("1", "32", &REST.replace(":4}", ":16}"))).unwrap();
    assert_eq!(header.fragment_size, 16);
    assert!(header.validate().is_ok());
}

#[test]
fn validate_reports_the_first_broken_rule() {
    let mut header = VhcHeader::new(8, 8, 8, 32, 256).unwrap();
    assert!(header.validate().is_ok());
    header.fragment_size = 3;
    assert!(matches!(header.validate(), Err(HypercubeError::InvalidHeader(_))));
    header.mac_bits = 64;
    assert!(matches!(header.validate(), Err(HypercubeError::InvalidMacBits(64))));
    header.block_size = 31;
    assert!(matches!(header.validate(), Err(HypercubeError::InvalidBlockSize(31))));
    header.blocks_per_partition = 9;
    assert!(matches!(header.validate(), Err(HypercubeError::InvalidDimension(9))));
    header.dimension = 7;
    assert!(matches!(header.validate(), Err(HypercubeError::InvalidDimension(7))));
}

#[test]
fn default_header_is_the_default_cube() {
    let header = VhcHeader::default();
    assert_eq!(header.version, 1);
    assert_eq!(header.cube_id, 1);
    assert_eq!(header.dimension, 32);
    assert_eq!(header.blocks_per_partition, 32);
    assert_eq!(header.block_size, 32);
    assert_eq!(header.mac_bits, 256);
    assert_eq!(header.fragment_size, 2);
    assert_eq!(Compression::default(), Compression::Zstd);
    assert_eq!(Aont::default(), Aont::Rivest);
    assert_eq!(HashAlgorithm::default(), HashAlgorithm::Sha3);
}

#[test]
fn partition_meta_is_two_little_endian_sizes() {
    let meta = PartitionMeta {
        compressed_size: 0x0102030405060708,
        original_size: 0x1112131415161718,
    };
    assert_eq!(
        meta.to_bytes(),
        [
            0x08, 0x07, 0x06, 0x05, 0x04, 0x03, 0x02, 0x01, 0x18, 0x17, 0x16, 0x15, 0x14, 0x13,
            0x12, 0x11
        ]
    );
    let mut longer = meta.to_bytes().to_vec();
    longer.extend_from_slice(&[9, 9, 9]);
    let restored = PartitionMeta::from_bytes(&longer).unwrap();
    assert_eq!(restored.compressed_size, 0x0102030405060708);
    assert_eq!(restored.original_size, 0x1112131415161718);
    assert_eq!(PartitionMeta::SIZE, 16);
}

#[test]
fn partition_meta_needs_sixteen_bytes() {
    match PartitionMeta::from_bytes(&[0u8; 15]) {
        Err(HypercubeError::InvalidFormat(message)) => assert_eq!(message, "Metadata too short"),
        other => panic!("unexpected result: {:?}", other),
    }
}

#[test]
fn algorithm_names_are_read_in_any_case() {
    assert_eq!("zstd".parse::<Compression>().unwrap(), Compression::Zstd);
    assert_eq!("ZSTD".parse::<Compression>().unwrap(), Compression::Zstd);
    assert_eq!("Lz4".parse::<Compression>().unwrap(), Compression::Lz4);
    assert_eq!("brotli".parse::<Compression>().unwrap(), Compression::Brotli);
    assert_eq!("None".parse::<Compression>().unwrap(), Compression::Uncompressed);
    assert_eq!(Compression::parse("zStD").unwrap(), Compression::Zstd);
    assert_eq!("rivest".parse::<Aont>().unwrap(), Aont::Rivest);
    assert_eq!("OAEP".parse::<Aont>().unwrap(), Aont::Oaep);
    assert_eq!(Aont::parse("Rivest").unwrap(), Aont::Rivest);
    assert_eq!("sha3".parse::<HashAlgorithm>().unwrap(), HashAlgorithm::Sha3);
    assert_eq!("Blake3".parse::<HashAlgorithm>().unwrap(), HashAlgorithm::Blake3);
    assert_eq!("SHA256".parse::<HashAlgorithm>().unwrap(), HashAlgorithm::Sha256);
    assert_eq!(HashAlgorithm::parse("sha256").unwrap(), HashAlgorithm::Sha256);
}

#[test]
fn unknown_algorithm_names_are_unsupported() {
    match "gzip".parse::<Compression>() {
        Err(HypercubeError::UnsupportedAlgorithm(message)) => {
            assert_eq!(message, "compression: gzip")
        }
        other => panic!("unexpected result: {:?}", other),
    }
    match "Feistel".parse::<Aont>() {
        Err(HypercubeError::UnsupportedAlgorithm(message)) => assert_eq!(message, "aont: Feistel"),
        other => panic!("unexpected result: {:?}", other),
    }
    match "md5".parse::<HashAlgorithm>() {
        Err(HypercubeError::UnsupportedAlgorithm(message)) => assert_eq!(message, "hash: md5"),
        other => panic!("unexpected result: {:?}", other),
    }
    assert!("".parse::<Compression>().is_err());
    assert!("zstd ".parse::<Compression>().is_err());
}

#[test]
fn header_reader_skips_white_space() {
    let plain = VhcHeader::from_bytes(&text("1", "32", REST)).unwrap();
    for spaced in [
        text(" 1", "32", REST),
        text("1 ", "32", REST),
        text("\t1\r\n", " 32 ", REST),
        text("1", "32", &REST.replace("\"fragment_size\":4}", "\"fragment_size\":4} ")),
        text("1", "32", &REST.replace("\"fragment_size\":4}", "\"fragment_size\" : 4 }\n")),
        text("1", "32", &REST.replace(",", " ,\n  ")),
        text("1", "32", &REST.replace(":\"", ": \"")),
    ] {
        let read = VhcHeader::from_bytes(&spaced).unwrap();
        assert_eq!(read.to_bytes().unwrap(), plain.to_bytes().unwrap());
    }
    let mut indented = b"\n{\n  ".to_vec();
    indented.extend_from_slice(&text("1", "32", REST)[1..]);
    let read = VhcHeader::from_bytes(&indented).unwrap();
    assert_eq!(read.to_bytes().unwrap(), plain.to_bytes().unwrap());
}

#[test]
fn header_reader_takes_keys_in_any_order() {
    let shuffled = "{\"hash\":\"blake3\",\"fragment_size\":8,\"aont\":\"oaep\",\
\"mac_bits\":128,\"compression\":\"lz4\",\"block_size\":64,\"version\":7,\
\"dimension\":16,\"blocks_per_partition\":8,\"cube_id\":9}";
    let read = VhcHeader::from_bytes(shuffled.as_bytes()).unwrap();
    assert_eq!(read.version, 7);
    assert_eq!(read.cube_id, 9);
    assert_eq!(read.dimension, 16);
    assert_eq!(read.blocks_per_partition, 8);
    assert_eq!(read.block_size, 64);
    assert_eq!(read.mac_bits, 128);
    assert_eq!(read.fragment_size, 8);
    assert!(matches!(read.compression, Compression::Lz4));
    assert!(matches!(read.aont, Aont::Oaep));
    assert!(matches!(read.hash, HashAlgorithm::Blake3));
    let written = read.to_bytes().unwrap();
    assert_ne!(written, shuffled.as_bytes());
    let again = VhcHeader::from_bytes(&written).unwrap();
    assert_eq!(again.to_bytes().unwrap(), written);
}

#[test]
fn header_reader_checks_the_geometry_of_any_spelling() {
    let shuffled = "{ \"hash\":\"sha3\", \"fragment_size\":4, \"aont\":\"rivest\", \
\"mac_bits\":100, \"compression\":\"none\", \"block_size\":64, \"version\":1, \
\"dimension\":32, \"blocks_per_partition\":32, \"cube_id\":32 }";
    assert!(matches!(
        VhcHeader::from_bytes(shuffled.as_bytes()),
        Err(HypercubeError::InvalidMacBits(100))
    ));
    let fixed = shuffled.replace("100", "512");
    let read = VhcHeader::from_bytes(fixed.as_bytes()).unwrap();
    assert_eq!(read.mac_bits, 512);
    assert!(matches!(read.compression, Compression::Uncompressed));
}

#[test]
fn both_readers_agree_on_the_written_text() {
    for (dimension, bits) in [(8usize, 128usize), (32, 256), (64, 512)] {
        let header = VhcHeader::new(dimension, dimension, dimension, 64, bits).unwrap();
        let written = header.to_bytes().unwrap();
        let loose = hypercube::header_json::read_loose(&written).unwrap();
        assert_eq!(loose.to_bytes().unwrap(), written);
        let strict = VhcHeader::from_bytes(&written).unwrap();
        assert_eq!(strict.to_bytes().unwrap(), written);
    }
    assert!(hypercube::header_json::read_loose(b"{}").is_none());
}
