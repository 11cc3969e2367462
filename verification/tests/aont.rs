use hypercube::header::Aont;
use hypercube::pipeline::aont::{
    expand_hash, hash_indexed, oaep_aont_apply, oaep_aont_reverse, prf, rivest_aont_apply,
    rivest_aont_reverse, xor_bytes,
};
use hypercube::pipeline::{apply_aont, reverse_aont};
use sha3::Digest;

const TEST_FRAGS_PER_BLOCK: usize = 4;

#[test]
fn aont_test_rivest_aont_roundtrip() {
    let original: Vec<Vec<u8>> = (0..40) // 10 blocks * 4 frags
        .map(|i| vec![(i * 17) as u8; 32])
        .collect();

    let transformed = apply_aont(original.clone(), Aont::Rivest, TEST_FRAGS_PER_BLOCK);
    assert_eq!(transformed.len(), original.len() + TEST_FRAGS_PER_BLOCK); // one block added

    let recovered = reverse_aont(transformed, Aont::Rivest, TEST_FRAGS_PER_BLOCK);
    assert_eq!(recovered, original);
}

#[test]
fn test_rivest_aont_is_randomized() {
    let fragments: Vec<Vec<u8>> = (0..20).map(|i| vec![i as u8; 32]).collect();

    let t1 = apply_aont(fragments.clone(), Aont::Rivest, TEST_FRAGS_PER_BLOCK);
    let t2 = apply_aont(fragments.clone(), Aont::Rivest, TEST_FRAGS_PER_BLOCK);

    assert_ne!(t1, t2);
}

#[test]
fn aont_test_oaep_aont_roundtrip() {
    let original: Vec<Vec<u8>> = (0..10).map(|i| vec![(i * 17) as u8; 32]).collect();

    let transformed = apply_aont(original.clone(), Aont::Oaep, TEST_FRAGS_PER_BLOCK);
    assert_eq!(transformed.len(), original.len());

    let recovered = reverse_aont(transformed, Aont::Oaep, TEST_FRAGS_PER_BLOCK);
    assert_eq!(recovered, original);
}

#[test]
fn aont_test_aont_empty() {
    let empty: Vec<Vec<u8>> = vec![];
    let t = apply_aont(empty.clone(), Aont::Rivest, TEST_FRAGS_PER_BLOCK);
    assert!(t.is_empty());
}

#[test]
fn test_aont_single_block() {
    // 4 fragments = 1 block
    let single_block: Vec<Vec<u8>> = (0..4).map(|i| vec![i as u8; 32]).collect();
    let t = apply_aont(single_block.clone(), Aont::Rivest, TEST_FRAGS_PER_BLOCK);
    assert_eq!(t.len(), 8); // original 4 + key block 4
    let r = reverse_aont(t, Aont::Rivest, TEST_FRAGS_PER_BLOCK);
    assert_eq!(r, single_block);
}

#[test]
fn test_rivest_all_fragments_needed() {
    let original: Vec<Vec<u8>> = (0..40).map(|i| vec![i as u8; 32]).collect();
    let mut transformed = apply_aont(original.clone(), Aont::Rivest, TEST_FRAGS_PER_BLOCK);

    // Corrupt one fragment (not in key block)
    transformed[3][0] ^= 0xFF;

    let recovered = reverse_aont(transformed, Aont::Rivest, TEST_FRAGS_PER_BLOCK);
    assert_ne!(recovered, original);
}

fn sha3(parts: &[&[u8]]) -> Vec<u8> {
    let mut hasher = sha3::Sha3_256::new();
    for part in parts {
        hasher.update(part);
    }
    hasher.finalize().to_vec()
}

#[test]
fn prf_is_sha3_in_counter_mode() {
    let key = [7u8; 32];
    let mask = prf(&key, 5, 70);
    assert_eq!(mask.len(), 70);
    let mut expected = Vec::new();
    for ctr in 0u64..3 {
        expected.extend_from_slice(&sha3(&[
            b"hypercube_rivest_prf",
            &key,
            &5u64.to_le_bytes(),
            &ctr.to_le_bytes(),
        ]));
    }
    expected.truncate(70);
    assert_eq!(mask, expected);
    assert_eq!(prf(&key, 5, 0), Vec::<u8>::new());
    assert_eq!(prf(&key, 5, 32), expected[..32].to_vec());
    assert_ne!(prf(&key, 6, 32), expected[..32].to_vec());
}

#[test]
fn expand_hash_is_sha3_in_counter_mode() {
    let seed = [9u8; 32];
    let mut expected = Vec::new();
    for ctr in 0u64..2 {
        expected.extend_from_slice(&sha3(&[&seed, &ctr.to_le_bytes()]));
    }
    assert_eq!(expand_hash(&seed, 64), expected);
    assert_eq!(expand_hash(&seed, 33), expected[..33].to_vec());
    assert_eq!(expand_hash(&seed, 1), expected[..1].to_vec());
}

#[test]
fn hash_indexed_puts_the_index_in_front() {
    let data = [1u8, 2, 3];
    assert_eq!(hash_indexed(4, &data), sha3(&[&4u64.to_le_bytes(), &data]));
    assert_ne!(hash_indexed(4, &data), data.to_vec());
}

#[test]
fn xor_bytes_stops_at_the_shorter_input() {
    assert_eq!(xor_bytes(&[0xF0, 0x0F, 0xAA], &[0xFF, 0xFF]), vec![0x0F, 0xF0, 0xAA]);
    assert_eq!(xor_bytes(&[0xF0], &[0xFF, 0xFF]), vec![0x0F]);
    assert_eq!(xor_bytes(&[], &[0xFF]), Vec::<u8>::new());
}

#[test]
fn rivest_with_a_given_key_matches_the_package_transform() {
    let key = [0x42u8; 32];
    let fragments: Vec<Vec<u8>> = (0..6).map(|i| vec![i as u8; 8]).collect();
    let out = rivest_aont_apply(fragments.clone(), 4, &key);
    assert_eq!(out.len(), 10);

    let mut key_block = key.to_vec();
    for (i, fragment) in fragments.iter().enumerate() {
        let mut mask = sha3(&[
            b"hypercube_rivest_prf",
            &key,
            &(i as u64).to_le_bytes(),
            &0u64.to_le_bytes(),
        ]);
        mask.truncate(8);
        let masked: Vec<u8> = fragment.iter().zip(mask.iter()).map(|(a, b)| a ^ b).collect();
        assert_eq!(out[i], masked);
        let h = sha3(&[&(i as u64).to_le_bytes(), &masked]);
        for (k, byte) in key_block.iter_mut().enumerate() {
            *byte ^= h[k];
        }
    }
    // the key block: 32 bytes spread over four fragments of eight bytes
    for i in 0..4 {
        assert_eq!(out[6 + i], key_block[8 * i..8 * i + 8].to_vec());
    }
    assert_eq!(rivest_aont_reverse(out, 4), fragments);
    // the same key gives the same result
    assert_eq!(
        rivest_aont_apply(fragments.clone(), 4, &key),
        rivest_aont_apply(fragments.clone(), 4, &key)
    );
}

#[test]
fn rivest_key_block_is_padded_with_zeros() {
    let key = [1u8; 32];
    let fragments: Vec<Vec<u8>> = (0..3).map(|i| vec![i as u8; 24]).collect();
    let out = rivest_aont_apply(fragments.clone(), 3, &key);
    assert_eq!(out.len(), 6);
    // 32 key bytes: 24 in the first key fragment, 8 in the second, then zeros
    assert_eq!(out[4][8..], [0u8; 16]);
    assert_eq!(out[5], vec![0u8; 24]);
    assert_eq!(rivest_aont_reverse(out, 3), fragments);
}

#[test]
fn rivest_reverse_leaves_short_lists_alone() {
    let fragments: Vec<Vec<u8>> = (0..4).map(|i| vec![i as u8; 8]).collect();
    assert_eq!(rivest_aont_reverse(fragments.clone(), 4), fragments);
    assert_eq!(reverse_aont(Vec::new(), Aont::Rivest, 4), Vec::<Vec<u8>>::new());
}

#[test]
fn oaep_is_deterministic_and_changes_every_fragment() {
    let fragments: Vec<Vec<u8>> = (0..7).map(|i| vec![i as u8; 16]).collect();
    let a = oaep_aont_apply(fragments.clone());
    let b = oaep_aont_apply(fragments.clone());
    assert_eq!(a, b);
    assert_eq!(a.len(), 7);
    for i in 0..7 {
        assert_eq!(a[i].len(), 16);
        assert_ne!(a[i], fragments[i]);
    }
    assert_eq!(oaep_aont_reverse(a), fragments);
}

#[test]
fn oaep_follows_the_two_rounds() {
    let fragments: Vec<Vec<u8>> = (0..5).map(|i| vec![(i * 3) as u8; 4]).collect();
    let out = oaep_aont_apply(fragments.clone());
    // mid = 2: the hash of the left half masks the right half
    let left_hash = sha3(&[b"hypercube_aont_half", &fragments[0], &fragments[1]]);
    let mut mask = sha3(&[&left_hash, &0u64.to_le_bytes()]);
    mask.truncate(4);
    for j in 2..5 {
        let masked: Vec<u8> = fragments[j].iter().zip(mask.iter()).map(|(a, b)| a ^ b).collect();
        assert_eq!(out[j], masked);
    }
    let right_hash = sha3(&[b"hypercube_aont_half", &out[2], &out[3], &out[4]]);
    let mut mask = sha3(&[&right_hash, &0u64.to_le_bytes()]);
    mask.truncate(4);
    for j in 0..2 {
        let masked: Vec<u8> = fragments[j].iter().zip(mask.iter()).map(|(a, b)| a ^ b).collect();
        assert_eq!(out[j], masked);
    }
}

#[test]
fn oaep_leaves_fewer_than_two_fragments_alone() {
    let one = vec![vec![1u8, 2, 3]];
    assert_eq!(oaep_aont_apply(one.clone()), one);
    assert_eq!(oaep_aont_reverse(one.clone()), one);
    assert_eq!(apply_aont(Vec::new(), Aont::Oaep, 4), Vec::<Vec<u8>>::new());
}

#[test]
fn oaep_all_fragments_needed() {
    let original: Vec<Vec<u8>> = (0..16).map(|i| vec![i as u8; 32]).collect();
    for position in [0usize, 7, 8, 15] {
        let mut transformed = apply_aont(original.clone(), Aont::Oaep, 4);
        transformed[position][0] ^= 1;
        let recovered = reverse_aont(transformed, Aont::Oaep, 4);
        assert_ne!(recovered, original);
    }
}
