use hmac::Mac;
use hypercube::header::HashAlgorithm;
use hypercube::pipeline::mac::constant_time_compare;
use hypercube::pipeline::sequence::SEQUENCE_SIZE;
use hypercube::pipeline::{
    authenticate_blocks, compute_mac, verify_and_extract_blocks, verify_mac, AuthenticatedBlock,
    SequenceNumber, SequencedBlock,
};
use hypercube::HypercubeError;

fn test_block() -> SequencedBlock {
    SequencedBlock::new(SequenceNumber::new(12345), vec![1, 2, 3, 4, 5, 6, 7, 8])
}

#[test]
fn test_compute_mac_sha3() {
    let block = test_block();
    let secret = b"secret key";
    let mac = compute_mac(&block, secret, HashAlgorithm::Sha3, 256);
    assert_eq!(mac.len(), 32);
}

#[test]
fn test_compute_mac_blake3() {
    let block = test_block();
    let secret = b"secret key";
    let mac = compute_mac(&block, secret, HashAlgorithm::Blake3, 256);
    assert_eq!(mac.len(), 32);
}

#[test]
fn test_compute_mac_sha256() {
    let block = test_block();
    let secret = b"secret key";
    let mac = compute_mac(&block, secret, HashAlgorithm::Sha256, 256);
    assert_eq!(mac.len(), 32);
}

#[test]
fn test_mac_different_sizes() {
    let block = test_block();
    let secret = b"secret key";

    let mac128 = compute_mac(&block, secret, HashAlgorithm::Sha3, 128);
    let mac256 = compute_mac(&block, secret, HashAlgorithm::Sha3, 256);
    let mac512 = compute_mac(&block, secret, HashAlgorithm::Sha3, 512);

    assert_eq!(mac128.len(), 16);
    assert_eq!(mac256.len(), 32);
    assert_eq!(mac512.len(), 64);
}

#[test]
fn test_verify_mac_valid() {
    let block = test_block();
    let secret = b"secret key";
    let mac = compute_mac(&block, secret, HashAlgorithm::Sha3, 256);

    let auth_block = AuthenticatedBlock {
        sequence_bytes: *block.sequence.as_bytes(),
        data: block.data,
        mac,
    };

    assert!(verify_mac(&auth_block, secret, HashAlgorithm::Sha3, 256));
}

#[test]
fn test_verify_mac_invalid_secret() {
    let block = test_block();
    let secret = b"secret key";
    let mac = compute_mac(&block, secret, HashAlgorithm::Sha3, 256);

    let auth_block = AuthenticatedBlock {
        sequence_bytes: *block.sequence.as_bytes(),
        data: block.data,
        mac,
    };

    assert!(!verify_mac(
        &auth_block,
        b"wrong key",
        HashAlgorithm::Sha3,
        256
    ));
}

#[test]
fn test_verify_mac_tampered_data() {
    let block = test_block();
    let secret = b"secret key";
    let mac = compute_mac(&block, secret, HashAlgorithm::Sha3, 256);

    let mut auth_block = AuthenticatedBlock {
        sequence_bytes: *block.sequence.as_bytes(),
        data: block.data,
        mac,
    };

    // Tamper with data
    auth_block.data[0] ^= 0xFF;

    assert!(!verify_mac(&auth_block, secret, HashAlgorithm::Sha3, 256));
}

#[test]
fn test_authenticate_verify_roundtrip() {
    let blocks: Vec<SequencedBlock> = (0..5)
        .map(|i| SequencedBlock::new(SequenceNumber::new(i as u128), vec![i as u8; 64]))
        .collect();

    let secret = b"my secret";
    let authenticated = authenticate_blocks(blocks.clone(), secret, HashAlgorithm::Sha3, 256);

    let extracted =
        verify_and_extract_blocks(authenticated, secret, HashAlgorithm::Sha3, 256).unwrap();

    assert_eq!(extracted.len(), blocks.len());
    for (orig, ext) in blocks.iter().zip(extracted.iter()) {
        assert_eq!(orig.sequence, ext.sequence);
        assert_eq!(orig.data, ext.data);
    }
}

#[test]
fn test_authenticated_block_serialization() {
    let auth_block = AuthenticatedBlock {
        sequence_bytes: [1u8; SEQUENCE_SIZE],
        data: vec![2, 3, 4, 5],
        mac: vec![6, 7, 8, 9, 10, 11, 12, 13],
    };

    let bytes = auth_block.to_bytes();
    let restored = AuthenticatedBlock::from_bytes(&bytes, 8).unwrap();

    assert_eq!(auth_block.sequence_bytes, restored.sequence_bytes);
    assert_eq!(auth_block.data, restored.data);
    assert_eq!(auth_block.mac, restored.mac);
}

#[test]
fn test_constant_time_compare() {
    assert!(constant_time_compare(&[1, 2, 3], &[1, 2, 3]));
    assert!(!constant_time_compare(&[1, 2, 3], &[1, 2, 4]));
    assert!(!constant_time_compare(&[1, 2, 3], &[1, 2]));
}

#[test]
fn constant_time_compare_sees_every_position() {
    assert!(constant_time_compare(&[], &[]));
    assert!(!constant_time_compare(&[0, 2, 3], &[1, 2, 3]));
    assert!(!constant_time_compare(&[1, 2, 3], &[1, 3, 3]));
    assert!(!constant_time_compare(&[0x80], &[0x00]));
    assert!(!constant_time_compare(&[1], &[]));
}

fn message(block: &SequencedBlock) -> Vec<u8> {
    let mut message = block.sequence.as_bytes().to_vec();
    message.extend_from_slice(&block.data);
    message
}

#[test]
fn sha3_tag_is_hmac_sha3_256_over_tag_and_payload() {
    let block = test_block();
    let secret = b"secret key";
    let mut mac = hmac::Hmac::<sha3::Sha3_256>::new_from_slice(secret).unwrap();
    mac.update(&message(&block));
    let expected = mac.finalize().into_bytes().to_vec();
    assert_eq!(compute_mac(&block, secret, HashAlgorithm::Sha3, 256), expected);
    assert_eq!(
        compute_mac(&block, secret, HashAlgorithm::Sha3, 128),
        expected[..16].to_vec()
    );
}

#[test]
fn sha256_tag_is_hmac_sha256_over_tag_and_payload() {
    let block = test_block();
    let secret = b"secret key";
    let mut mac = hmac::Hmac::<sha2::Sha256>::new_from_slice(secret).unwrap();
    mac.update(&message(&block));
    let expected = mac.finalize().into_bytes().to_vec();
    assert_eq!(compute_mac(&block, secret, HashAlgorithm::Sha256, 256), expected);
    assert_ne!(
        compute_mac(&block, secret, HashAlgorithm::Sha256, 256),
        compute_mac(&block, secret, HashAlgorithm::Sha3, 256)
    );
}

#[test]
fn blake3_tag_is_keyed_blake3_under_the_hashed_secret() {
    let block = test_block();
    let secret = b"secret key";
    let key = blake3::hash(secret);
    let expected = blake3::keyed_hash(key.as_bytes(), &message(&block))
        .as_bytes()
        .to_vec();
    assert_eq!(compute_mac(&block, secret, HashAlgorithm::Blake3, 256), expected);
    // a 32-byte secret is hashed all the same
    let secret = [3u8; 32];
    let key = blake3::hash(&secret);
    let expected = blake3::keyed_hash(key.as_bytes(), &message(&block))
        .as_bytes()
        .to_vec();
    assert_eq!(compute_mac(&block, &secret, HashAlgorithm::Blake3, 256), expected);
    assert_ne!(expected, blake3::keyed_hash(&secret, &message(&block)).as_bytes().to_vec());
}

#[test]
fn long_tags_are_stretched_with_blake3() {
    let block = test_block();
    let secret = b"secret key";
    let native = compute_mac(&block, secret, HashAlgorithm::Sha3, 256);
    let mut expected = native.clone();
    let extension = blake3::hash(&expected);
    expected.extend_from_slice(extension.as_bytes());
    assert_eq!(compute_mac(&block, secret, HashAlgorithm::Sha3, 512), expected);
    // a third round hashes everything so far
    let extension = blake3::hash(&expected);
    expected.extend_from_slice(extension.as_bytes());
    assert_eq!(
        compute_mac(&block, secret, HashAlgorithm::Sha3, 8 * 70),
        expected[..70].to_vec()
    );
    assert_eq!(compute_mac(&block, secret, HashAlgorithm::Sha3, 8 * 96), expected);
    assert_eq!(compute_mac(&block, secret, HashAlgorithm::Sha3, 0), Vec::<u8>::new());
    assert_eq!(compute_mac(&block, secret, HashAlgorithm::Sha3, 15), native[..1].to_vec());
}

#[test]
fn verify_mac_checks_tag_length_and_every_field() {
    let block = test_block();
    let secret = b"secret key";
    for algorithm in [HashAlgorithm::Sha3, HashAlgorithm::Blake3, HashAlgorithm::Sha256] {
        for bits in [128usize, 256, 512] {
            let mac = compute_mac(&block, secret, algorithm, bits);
            let good = AuthenticatedBlock {
                sequence_bytes: *block.sequence.as_bytes(),
                data: block.data.clone(),
                mac: mac.clone(),
            };
            assert!(verify_mac(&good, secret, algorithm, bits));
            let mut bad = good.clone();
            bad.sequence_bytes[15] ^= 1;
            assert!(!verify_mac(&bad, secret, algorithm, bits));
            let mut bad = good.clone();
            let last = bad.mac.len() - 1;
            bad.mac[last] ^= 1;
            assert!(!verify_mac(&bad, secret, algorithm, bits));
            let mut bad = good.clone();
            bad.mac.pop();
            assert!(!verify_mac(&bad, secret, algorithm, bits));
            if bits != 256 {
                assert!(!verify_mac(&good, secret, algorithm, 256));
            }
        }
    }
}

#[test]
fn verify_and_extract_reports_the_first_forged_block() {
    let blocks: Vec<SequencedBlock> = (0..5)
        .map(|i| SequencedBlock::new(SequenceNumber::new(i as u128), vec![i as u8; 64]))
        .collect();
    let secret = b"my secret";
    let mut authenticated = authenticate_blocks(blocks, secret, HashAlgorithm::Blake3, 128);
    authenticated[2].data[0] ^= 0xAA;
    authenticated[4].data[0] ^= 0xAA;
    match verify_and_extract_blocks(authenticated, secret, HashAlgorithm::Blake3, 128) {
        Err(HypercubeError::MacVerificationFailed(index)) => assert_eq!(index, 2),
        other => panic!("unexpected result: {:?}", other),
    }
    let empty = verify_and_extract_blocks(Vec::new(), secret, HashAlgorithm::Blake3, 128);
    assert_eq!(empty.unwrap().len(), 0);
}

#[test]
fn authenticated_block_needs_room_for_both_tags() {
    assert!(AuthenticatedBlock::from_bytes(&[0u8; 23], 8).is_none());
    let block = AuthenticatedBlock::from_bytes(&[5u8; 24], 8).unwrap();
    assert_eq!(block.sequence_bytes, [5u8; 16]);
    assert!(block.data.is_empty());
    assert_eq!(block.mac, vec![5u8; 8]);
    assert!(AuthenticatedBlock::from_bytes(&[0u8; 16], usize::MAX).is_none());
    let bytes: Vec<u8> = (0u8..40).collect();
    let block = AuthenticatedBlock::from_bytes(&bytes, 4).unwrap();
    assert_eq!(block.sequence_bytes.to_vec(), bytes[..16].to_vec());
    assert_eq!(block.data, bytes[16..36].to_vec());
    assert_eq!(block.mac, bytes[36..].to_vec());
    assert_eq!(block.to_bytes(), bytes);
}
