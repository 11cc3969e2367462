use hypercube::cube::plan_header;
use hypercube::header::{Aont, Compression, HashAlgorithm, VhcHeader};
use hypercube::partition::extract_partition;
use hypercube::vhc::add_data;
use hypercube::{HypercubeError, VhcFile};

#[test]
fn planned_header_has_the_smallest_block_that_fits() {
    // 1000 bytes stored as they are: 1016 with metadata, over 31 data blocks
    // ceil(1016 / 31) = 33, made even
    let data = vec![1u8; 1000];
    let header = plan_header(
        &data,
        32,
        256,
        Compression::Uncompressed,
        Aont::Rivest,
        HashAlgorithm::Sha3,
    )
    .unwrap();
    assert_eq!(header.block_size, 34);
    assert_eq!(header.dimension, 32);
    assert_eq!(header.blocks_per_partition, 32);
    assert_eq!(header.cube_id, 32);
    assert_eq!(header.mac_bits, 256);
    assert_eq!(header.version, 1);
    assert_eq!(header.fragment_size, VhcHeader::calculate_fragment_size(34));
    assert!(header.validate().is_ok());
}

#[test]
fn planned_header_is_never_below_the_smallest_block() {
    let header = plan_header(
        b"tiny",
        8,
        128,
        Compression::Uncompressed,
        Aont::Oaep,
        HashAlgorithm::Blake3,
    )
    .unwrap();
    assert_eq!(header.block_size, 32);
    assert_eq!(header.aont, Aont::Oaep);
    assert_eq!(header.hash, HashAlgorithm::Blake3);
    assert_eq!(header.compression, Compression::Uncompressed);
    // 7 data blocks of 32 bytes hold 224 bytes: 208 of data just fit
    let header = plan_header(
        &[0u8; 208],
        8,
        128,
        Compression::Uncompressed,
        Aont::Rivest,
        HashAlgorithm::Sha3,
    )
    .unwrap();
    assert_eq!(header.block_size, 32);
    let header = plan_header(
        &[0u8; 209],
        8,
        128,
        Compression::Uncompressed,
        Aont::Rivest,
        HashAlgorithm::Sha3,
    )
    .unwrap();
    assert_eq!(header.block_size, 34);
}

#[test]
fn planned_header_refuses_bad_options() {
    assert!(matches!(
        plan_header(b"x", 12, 256, Compression::Zstd, Aont::Rivest, HashAlgorithm::Sha3),
        Err(HypercubeError::InvalidDimension(12))
    ));
    assert!(matches!(
        plan_header(b"x", 0, 256, Compression::Zstd, Aont::Rivest, HashAlgorithm::Sha3),
        Err(HypercubeError::InvalidDimension(0))
    ));
    assert!(matches!(
        plan_header(b"x", 8, 100, Compression::Zstd, Aont::Rivest, HashAlgorithm::Sha3),
        Err(HypercubeError::InvalidMacBits(100))
    ));
}

#[test]
fn a_planned_container_takes_its_first_payload() {
    let data: Vec<u8> = (0..3000).map(|i| (i * 13 % 251) as u8).collect();
    for compression in [
        Compression::Zstd,
        Compression::Lz4,
        Compression::Brotli,
        Compression::Uncompressed,
    ] {
        for aont in [Aont::Rivest, Aont::Oaep] {
            let header =
                plan_header(&data, 16, 256, compression, aont, HashAlgorithm::Sha256).unwrap();
            let mut vhc = VhcFile::new(header);
            let added = add_data(&mut vhc, &data, b"first").unwrap();
            assert_eq!(added, 16);
            assert_eq!(vhc.blocks.len(), 16);
            assert_eq!(extract_partition(&vhc.blocks, b"first", &header).unwrap(), data);
        }
    }
}

#[test]
fn add_data_fills_the_cube_partition_by_partition() {
    let mut header = VhcHeader::new(8, 8, 8, 32, 128).unwrap();
    header.compression = Compression::Uncompressed;
    let mut vhc = VhcFile::new(header);
    for round in 0u8..8 {
        let payload = vec![round; 10 + round as usize];
        assert_eq!(add_data(&mut vhc, &payload, &[round]).unwrap(), 8);
        assert_eq!(vhc.blocks.len(), 8 * (round as usize + 1));
    }
    for round in 0u8..8 {
        let payload = vec![round; 10 + round as usize];
        assert_eq!(extract_partition(&vhc.blocks, &[round], &header).unwrap(), payload);
    }
    let before = vhc.blocks.clone();
    assert!(matches!(
        add_data(&mut vhc, b"one too many", b"ninth"),
        Err(HypercubeError::FileFull(64))
    ));
    assert_eq!(vhc.blocks, before);
}

#[test]
fn add_data_refuses_what_does_not_fit_a_partition() {
    let mut header = VhcHeader::new(8, 8, 8, 32, 128).unwrap();
    header.compression = Compression::Uncompressed;
    let mut vhc = VhcFile::new(header);
    match add_data(&mut vhc, &[0u8; 300], b"s") {
        Err(HypercubeError::DataTooLarge { data_size, max_size }) => {
            assert_eq!(data_size, 316);
            assert_eq!(max_size, 224);
        }
        _ => panic!("expected DataTooLarge"),
    }
    assert!(vhc.blocks.is_empty());
}
