use hypercube::header::{Aont, Compression, HashAlgorithm, VhcHeader};
use hypercube::partition::{create_partition, extract_partition};
use hypercube::pipeline::{
    apply_aont, authenticate_blocks, calculate_fragment_size, compress, decompress, fragment_all,
    reverse_aont, segment, sequence_blocks, unfragment_all, unsegment, unsequence_blocks,
    verify_and_extract_blocks, AuthenticatedBlock,
};
use hypercube::vhc::{append_blocks, decode_file, encode_file, seal};
use hypercube::{HypercubeError, VhcFile};

struct PipelineFixture {
    original_data: Vec<u8>,
    compression: Compression,
    fragment_size: usize,
    frags_per_block: usize,
    compressed_len: usize,
    secret: Vec<u8>,
    hash: HashAlgorithm,
    mac_bits: usize,
    aont: Aont,
    authenticated: Vec<AuthenticatedBlock>,
}

fn pipeline_fixture() -> PipelineFixture {
    let original_data: Vec<u8> = (0..4096).map(|i| (i % 251) as u8).collect();
    let compression = Compression::Zstd;
    let block_size = 128;
    let fragment_size = calculate_fragment_size(block_size);
    let aont = Aont::Rivest;
    let hash = HashAlgorithm::Sha3;
    let mac_bits = 256;
    let secret = b"pipeline-fixture-secret".to_vec();

    let compressed = compress(&original_data, compression).expect("compress data");
    let compressed_len = compressed.len();
    let blocks = segment(&compressed, block_size);
    assert!(
        blocks.len() > 1,
        "fixture should generate multiple payload blocks for coverage"
    );
    let (fragments, frags_per_block) = fragment_all(&blocks, fragment_size);
    let fragments = apply_aont(fragments, aont, frags_per_block);
    let transformed_blocks = unfragment_all(&fragments, frags_per_block);

    let sequenced = sequence_blocks(transformed_blocks, 42);
    let authenticated = authenticate_blocks(sequenced, &secret, hash, mac_bits);

    PipelineFixture {
        original_data,
        compression,
        fragment_size,
        frags_per_block,
        compressed_len,
        secret,
        hash,
        mac_bits,
        aont,
        authenticated,
    }
}

#[test]
fn pipeline_transforms_roundtrip_to_original_data() {
    let fixture = pipeline_fixture();

    let verified = verify_and_extract_blocks(
        fixture.authenticated.clone(),
        &fixture.secret,
        fixture.hash,
        fixture.mac_bits,
    )
    .unwrap();
    let ordered_blocks = unsequence_blocks(verified).expect("sequences should be contiguous");

    let (fragments, frags_per_block) = fragment_all(&ordered_blocks, fixture.fragment_size);
    assert_eq!(frags_per_block, fixture.frags_per_block);
    let fragments = reverse_aont(fragments, fixture.aont, frags_per_block);

    let rebuilt_blocks = unfragment_all(&fragments, frags_per_block);
    let payload = unsegment(&rebuilt_blocks, fixture.compressed_len);
    let decompressed = decompress(&payload, fixture.compression).unwrap();

    assert_eq!(decompressed, fixture.original_data);
}

#[test]
fn pipeline_mac_verification_rejects_tampering() {
    let fixture = pipeline_fixture();
    let mut tampered = fixture.authenticated.clone();

    // Flip a bit inside the first block to invalidate the MAC
    tampered[0].data[0] ^= 0xAA;

    let err = verify_and_extract_blocks(
        tampered,
        &fixture.secret,
        fixture.hash,
        fixture.mac_bits,
    )
    .expect_err("tampered MAC must fail");

    match err {
        HypercubeError::MacVerificationFailed(index) => assert_eq!(index, 0),
        other => panic!("unexpected error type: {:?}", other),
    }
}

fn default_cube() -> VhcHeader {
    let mut header = VhcHeader::new(32, 32, 32, 32, 256).unwrap();
    header.compression = Compression::Zstd;
    header.aont = Aont::Rivest;
    header.hash = HashAlgorithm::Sha3;
    header
}

fn first_pattern() -> Vec<u8> {
    (0..5000).map(|i| ((i * 7 + 13) % 256) as u8).collect()
}

fn second_pattern() -> Vec<u8> {
    (0..5000).map(|i| ((i * 11 + 29) % 256) as u8).collect()
}

#[test]
fn hello_world_in_the_default_cube() {
    let header = default_cube();
    let payload = b"Hello, World!";
    assert_eq!(payload.len(), 13);
    let partition = create_partition(payload, b"my_secret", &header, None).unwrap();
    assert_eq!(partition.blocks.len(), 32);
    assert_eq!(
        extract_partition(&partition.blocks, b"my_secret", &header).unwrap(),
        payload.to_vec()
    );
    assert!(extract_partition(&partition.blocks, b"wrong", &header).is_err());
}

#[test]
fn two_partitions_concatenated_in_reverse_order() {
    let header = default_cube();
    let plain_one = first_pattern();
    let plain_two = second_pattern();
    let first = create_partition(&plain_one, b"s1", &header, None).unwrap().blocks;
    let second = create_partition(&plain_two, b"s2", &header, None).unwrap().blocks;
    assert_eq!(first.len(), 32);
    assert_eq!(second.len(), 32);
    let mut pool = second.clone();
    pool.extend(first.clone());
    assert_eq!(extract_partition(&pool, b"s1", &header).unwrap(), plain_one);
    assert_eq!(extract_partition(&pool, b"s2", &header).unwrap(), plain_two);
    match extract_partition(&pool, b"s3", &header) {
        Err(HypercubeError::IntegrityError(message)) => {
            assert_eq!(message, "No blocks authenticated with this secret")
        }
        other => panic!("unexpected result: {:?}", other),
    }
}

#[test]
fn a_sealed_container_still_gives_the_partition_back() {
    let header = default_cube();
    let plain_one = first_pattern();
    let bytes = encode_file(&VhcFile::new(header)).unwrap();
    let mut vhc = decode_file(&bytes).unwrap();
    let blocks = create_partition(&plain_one, b"s1", &header, None).unwrap().blocks;
    append_blocks(&mut vhc, &blocks).unwrap();
    let added = seal(&mut vhc).unwrap();
    assert_eq!(added, 1024 - 32);
    let bytes = encode_file(&vhc).unwrap();
    let sealed = decode_file(&bytes).unwrap();
    assert_eq!(sealed.blocks.len(), 32 * 32);
    assert_eq!(extract_partition(&sealed.blocks, b"s1", &header).unwrap(), plain_one);
    let mut again = sealed;
    assert_eq!(seal(&mut again).unwrap(), 0);
    assert_eq!(again.blocks.len(), 1024);
}

#[test]
fn a_flipped_byte_in_a_sealed_container_breaks_recovery() {
    let mut header = VhcHeader::new(8, 8, 8, 32, 256).unwrap();
    header.compression = Compression::Zstd;
    let data = first_pattern()[..60].to_vec();
    let mut vhc = VhcFile::new(header);
    let first = create_partition(&data, b"s1", &header, None).unwrap().blocks;
    let second = create_partition(b"second", b"s2", &header, None).unwrap().blocks;
    append_blocks(&mut vhc, &first).unwrap();
    append_blocks(&mut vhc, &second).unwrap();
    seal(&mut vhc).unwrap();
    assert_eq!(vhc.blocks.len(), 64);
    for position in 0..vhc.blocks.len() {
        let mut pool = vhc.blocks.clone();
        pool[position][0] ^= 0xFF;
        let owned_by_first = first.contains(&vhc.blocks[position]);
        let owned_by_second = second.contains(&vhc.blocks[position]);
        let one = extract_partition(&pool, b"s1", &header);
        let two = extract_partition(&pool, b"s2", &header);
        if owned_by_first {
            assert!(one.is_err());
        } else {
            assert_eq!(one.unwrap(), data);
        }
        if owned_by_second {
            assert!(two.is_err());
        } else {
            assert_eq!(two.unwrap(), b"second".to_vec());
        }
    }
}

#[test]
fn appends_between_reads_leave_the_first_partition_alone() {
    let header = default_cube();
    let plain_one = first_pattern();
    let mut vhc = VhcFile::new(header);
    let first = create_partition(&plain_one, b"s1", &header, None).unwrap().blocks;
    append_blocks(&mut vhc, &first).unwrap();
    let read_once = decode_file(&encode_file(&vhc).unwrap()).unwrap();
    assert_eq!(extract_partition(&read_once.blocks, b"s1", &header).unwrap(), plain_one);

    append_blocks(&mut vhc, &[]).unwrap();
    assert_eq!(vhc.blocks, read_once.blocks);
    let second = create_partition(&second_pattern(), b"s2", &header, None).unwrap().blocks;
    append_blocks(&mut vhc, &second).unwrap();

    let read_twice = decode_file(&encode_file(&vhc).unwrap()).unwrap();
    assert_eq!(read_twice.blocks.len(), 64);
    assert_eq!(extract_partition(&read_twice.blocks, b"s1", &header).unwrap(), plain_one);
    assert_eq!(
        extract_partition(&read_twice.blocks, b"s2", &header).unwrap(),
        second_pattern()
    );
}

#[test]
fn the_feistel_path_on_a_small_cube() {
    let mut header = VhcHeader::new(8, 8, 8, 32, 128).unwrap();
    header.compression = Compression::Uncompressed;
    header.aont = Aont::Oaep;
    header.hash = HashAlgorithm::Blake3;
    let payload: Vec<u8> = (0..40).map(|i| (i * 5 + 1) as u8).collect();
    let blocks = create_partition(&payload, b"secret", &header, None).unwrap().blocks;
    assert_eq!(blocks.len(), 8);
    assert_eq!(extract_partition(&blocks, b"secret", &header).unwrap(), payload);
    for position in 0..8 {
        for byte in [0usize, 15, 16, 30, 47, 48, 63] {
            for bit in [0u8, 7] {
                let mut pool = blocks.clone();
                pool[position][byte] ^= 1 << bit;
                let result = extract_partition(&pool, b"secret", &header);
                match result {
                    Err(HypercubeError::IntegrityError(_)) => {}
                    Err(_) => panic!("another error than an integrity error"),
                    Ok(recovered) => panic!("recovered {:?}", recovered),
                }
            }
        }
    }
}

#[test]
fn any_flipped_bit_in_a_package_partition_breaks_recovery() {
    let mut header = VhcHeader::new(8, 8, 8, 32, 128).unwrap();
    header.compression = Compression::Lz4;
    let payload: Vec<u8> = (0..100).map(|i| (i * 3) as u8).collect();
    let blocks = create_partition(&payload, b"secret", &header, None).unwrap().blocks;
    assert_eq!(blocks.len(), 8);
    for position in 0..8 {
        for byte in 0..64 {
            let mut pool = blocks.clone();
            pool[position][byte] ^= 0x10;
            assert!(extract_partition(&pool, b"secret", &header).is_err());
        }
    }
}
