use hypercube::pipeline::{
    calculate_fragment_size, fragment_all, fragment_block, unfragment_all, unfragment_block,
};

#[test]
fn test_fragment_block() {
    let block: Vec<u8> = (0u16..256).map(|i| i as u8).collect();
    let fragments = fragment_block(&block, 64);
    assert_eq!(fragments.len(), 4);
    assert_eq!(fragments[0], (0u8..64).collect::<Vec<u8>>());
    assert_eq!(fragments[1], (64u8..128).collect::<Vec<u8>>());
    assert_eq!(fragments[2], (128u8..192).collect::<Vec<u8>>());
    assert_eq!(
        fragments[3],
        (192u16..256).map(|i| i as u8).collect::<Vec<u8>>()
    );
}

#[test]
fn test_fragment_unfragment_roundtrip() {
    let block: Vec<u8> = (0..4096).map(|i| (i % 256) as u8).collect();
    let fragments = fragment_block(&block, 64);
    let restored = unfragment_block(&fragments);
    assert_eq!(block, restored);
}

#[test]
fn test_fragment_all() {
    let blocks: Vec<Vec<u8>> = vec![
        (0u16..256).map(|i| i as u8).collect(),
        (0u16..256).map(|i| (255 - i) as u8).collect(),
    ];
    let (fragments, frags_per_block) = fragment_all(&blocks, 64);
    assert_eq!(frags_per_block, 4);
    assert_eq!(fragments.len(), 8);
}

#[test]
fn test_fragment_unfragment_all_roundtrip() {
    let blocks: Vec<Vec<u8>> = vec![
        (0..4096).map(|i| (i % 256) as u8).collect(),
        (0..4096).map(|i| (255 - i % 256) as u8).collect(),
        (0..4096).map(|i| ((i * 7) % 256) as u8).collect(),
    ];
    let fragment_size = 64;
    let (fragments, frags_per_block) = fragment_all(&blocks, fragment_size);
    let restored = unfragment_all(&fragments, frags_per_block);
    assert_eq!(blocks, restored);
}

#[test]
fn test_calculate_fragment_size() {
    assert_eq!(calculate_fragment_size(4096), 64);
    assert_eq!(calculate_fragment_size(2048), 64);
    assert_eq!(calculate_fragment_size(8192), 64);
    assert_eq!(calculate_fragment_size(65536), 64);
}

#[test]
fn preferred_fragment_size_follows_the_list() {
    assert_eq!(calculate_fragment_size(0), 64);
    assert_eq!(calculate_fragment_size(128), 64);
    assert_eq!(calculate_fragment_size(96), 32);
    assert_eq!(calculate_fragment_size(48), 16);
    assert_eq!(calculate_fragment_size(40), 8);
    assert_eq!(calculate_fragment_size(36), 4);
    assert_eq!(calculate_fragment_size(34), 2);
    assert_eq!(calculate_fragment_size(33), 1);
}

#[test]
fn fragment_all_keeps_the_order_of_blocks() {
    let blocks: Vec<Vec<u8>> = vec![vec![1, 2, 3, 4], vec![5, 6, 7, 8], vec![9, 10, 11, 12]];
    let (fragments, per_block) = fragment_all(&blocks, 2);
    assert_eq!(per_block, 2);
    assert_eq!(
        fragments,
        vec![vec![1, 2], vec![3, 4], vec![5, 6], vec![7, 8], vec![9, 10], vec![11, 12]]
    );
    let (fragments, per_block) = fragment_all(&[], 0);
    assert!(fragments.is_empty());
    assert_eq!(per_block, 0);
}

#[test]
fn unfragment_all_drops_what_does_not_fill_a_block() {
    let fragments: Vec<Vec<u8>> = vec![vec![1], vec![2], vec![3], vec![4], vec![5]];
    assert_eq!(unfragment_all(&fragments, 2), vec![vec![1, 2], vec![3, 4]]);
    assert_eq!(unfragment_all(&fragments, 5), vec![vec![1, 2, 3, 4, 5]]);
    assert_eq!(unfragment_all(&fragments, 6), Vec::<Vec<u8>>::new());
    assert_eq!(unfragment_all(&fragments, 0), Vec::<Vec<u8>>::new());
    assert_eq!(unfragment_all(&[], 3), Vec::<Vec<u8>>::new());
    assert_eq!(unfragment_block(&[]), Vec::<u8>::new());
}

#[test]
fn fragment_block_of_nothing_is_nothing() {
    assert_eq!(fragment_block(&[], 4), Vec::<Vec<u8>>::new());
    assert_eq!(fragment_block(&[7, 8], 2), vec![vec![7, 8]]);
}
