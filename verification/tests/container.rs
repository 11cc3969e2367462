use hypercube::header::{Aont, Compression, VhcHeader};
use hypercube::partition::{create_partition, extract_partition};
use hypercube::vhc::{
    append_blocks, count_blocks, decode_file, decode_header, encode_file, seal,
};
use hypercube::{HypercubeError, VhcFile};

#[test]
fn test_vhc_file_roundtrip() {
    // Create a container with some blocks (dimension 32, block_size 64)
    let header = VhcHeader::new(32, 32, 32, 64, 256).unwrap();
    let mut vhc = VhcFile::new(header);

    let block_size = vhc.header.total_block_size();
    let block1: Vec<u8> = (0..block_size).map(|i| (i % 256) as u8).collect();
    let block2: Vec<u8> = (0..block_size).map(|i| ((i + 100) % 256) as u8).collect();

    vhc.add_blocks(vec![block1.clone(), block2.clone()]);

    // Write
    let bytes = encode_file(&vhc).unwrap();

    // Read back
    let loaded = decode_file(&bytes).unwrap();

    assert_eq!(loaded.header.dimension, 32);
    assert_eq!(loaded.blocks.len(), 2);
    assert_eq!(loaded.blocks[0], block1);
    assert_eq!(loaded.blocks[1], block2);
}

#[test]
fn test_vhc_invalid_magic() {
    let result = decode_file(b"INVALID");
    assert!(result.is_err());
}

#[test]
fn test_append_blocks() {
    // Create initial container (dimension 32, block_size 64)
    let header = VhcHeader::new(32, 32, 32, 64, 256).unwrap();
    let block_size = header.total_block_size();
    let mut vhc = VhcFile::new(header);

    // Append some blocks
    let block1: Vec<u8> = vec![0xAA; block_size];
    let block2: Vec<u8> = vec![0xBB; block_size];
    append_blocks(&mut vhc, &[block1.clone(), block2.clone()]).unwrap();

    // Append more blocks
    let block3: Vec<u8> = vec![0xCC; block_size];
    append_blocks(&mut vhc, &[block3.clone()]).unwrap();

    // Write, read and verify
    let loaded = decode_file(&encode_file(&vhc).unwrap()).unwrap();
    assert_eq!(loaded.blocks.len(), 3);

    let mut actual = loaded.blocks.clone();
    actual.sort();
    let mut expected = vec![block1, block2, block3];
    expected.sort();
    assert_eq!(actual, expected);
}

#[test]
fn test_read_header_only() {
    let header = VhcHeader::new(32, 32, 32, 128, 512).unwrap();
    let block_size = header.total_block_size();
    let mut vhc = VhcFile::new(header);
    vhc.add_blocks(vec![vec![0u8; block_size]; 100]); // 100 blocks
    let bytes = encode_file(&vhc).unwrap();

    // Read just header
    let (header_only, _) = decode_header(&bytes).unwrap();
    assert_eq!(header_only.dimension, 32);
    assert_eq!(header_only.block_size, 128);
    assert_eq!(header_only.mac_bits, 512);

    // Get block count
    let count = count_blocks(&bytes).unwrap();
    assert_eq!(count, 100);
}

#[test]
fn vhc_read_write_roundtrip_via_public_api() {
    let header = VhcHeader::new(32, 32, 32, 64, 256).unwrap();
    let mut file = VhcFile::new(header.clone());

    let block = vec![0xAA; header.total_block_size()];
    file.add_blocks(vec![block.clone()]);

    let bytes = encode_file(&file).unwrap();
    let read_back = decode_file(&bytes).unwrap();

    assert_eq!(read_back.header.cube_id, header.cube_id);
    assert_eq!(read_back.blocks.len(), 1);
    assert_eq!(read_back.blocks[0], block);
}

#[test]
fn file_layout_is_magic_length_header_blocks() {
    let header = VhcHeader::new(8, 8, 8, 32, 128).unwrap();
    let mut file = VhcFile::new(header);
    assert_eq!(file.block_count(), 0);
    file.add_blocks(vec![vec![1u8; 64], vec![2u8; 64]]);
    assert_eq!(file.block_count(), 2);
    let bytes = encode_file(&file).unwrap();
    let text = header.to_bytes().unwrap();
    assert_eq!(bytes[..4], [b'V', b'H', b'C', 1]);
    assert_eq!(bytes[4..8], (text.len() as u32).to_le_bytes());
    assert_eq!(bytes[8..8 + text.len()], text[..]);
    assert_eq!(bytes[8 + text.len()..8 + text.len() + 64], [1u8; 64]);
    assert_eq!(bytes[8 + text.len() + 64..], [2u8; 64]);
    assert_eq!(bytes.len(), 8 + text.len() + 128);
    let (read, body_start) = decode_header(&bytes).unwrap();
    assert_eq!(body_start, 8 + text.len());
    assert_eq!(read.block_size, 32);
    // an empty container is header only
    let empty = encode_file(&VhcFile::new(header)).unwrap();
    assert_eq!(empty.len(), 8 + text.len());
    assert_eq!(decode_file(&empty).unwrap().blocks.len(), 0);
    assert_eq!(count_blocks(&empty).unwrap(), 0);
}

fn format_message(result: Result<VhcFile, HypercubeError>) -> String {
    match result {
        Err(HypercubeError::InvalidFormat(message)) => message,
        Err(_) => panic!("another error than a format error"),
        Ok(_) => panic!("the file was read"),
    }
}

#[test]
fn broken_files_are_format_errors() {
    let header = VhcHeader::new(8, 8, 8, 32, 128).unwrap();
    let mut file = VhcFile::new(header);
    file.add_blocks(vec![vec![1u8; 64]]);
    let good = encode_file(&file).unwrap();

    assert_eq!(format_message(decode_file(b"")), "Invalid VHC magic bytes");
    assert_eq!(format_message(decode_file(b"VHC")), "Invalid VHC magic bytes");
    assert_eq!(format_message(decode_file(b"VHC\x02....")), "Invalid VHC magic bytes");
    assert_eq!(format_message(decode_file(b"VHC\x01")), "Truncated VHC header");
    assert_eq!(format_message(decode_file(&good[..20])), "Truncated VHC header");
    let mut long = good.clone();
    long.push(0);
    assert_eq!(
        format_message(decode_file(&long)),
        "Block data is not a whole number of blocks"
    );
    assert_eq!(
        format_message(decode_file(&good[..good.len() - 1])),
        "Block data is not a whole number of blocks"
    );
    let mut bad_header = good.clone();
    bad_header[9] = b'x';
    assert!(matches!(decode_file(&bad_header), Err(HypercubeError::Json(_))));
    assert!(matches!(count_blocks(&bad_header), Err(HypercubeError::Json(_))));
    let mut invalid = VhcFile::new(header);
    invalid.header.dimension = 9;
    let bytes = encode_file(&invalid).unwrap();
    assert!(matches!(decode_file(&bytes), Err(HypercubeError::InvalidDimension(9))));
    assert!(matches!(decode_header(&bytes), Err(HypercubeError::InvalidDimension(9))));
}

#[test]
fn appending_nothing_changes_nothing() {
    let header = VhcHeader::new(8, 8, 8, 32, 128).unwrap();
    let mut vhc = VhcFile::new(header);
    let blocks: Vec<Vec<u8>> = (0..20).map(|i| vec![i as u8; 64]).collect();
    vhc.add_blocks(blocks.clone());
    let before = encode_file(&vhc).unwrap();
    append_blocks(&mut vhc, &[]).unwrap();
    assert_eq!(vhc.blocks, blocks);
    assert_eq!(encode_file(&vhc).unwrap(), before);
}

#[test]
fn appending_reshuffles_the_whole_pool() {
    let header = VhcHeader::new(16, 16, 16, 32, 128).unwrap();
    let mut vhc = VhcFile::new(header);
    let old: Vec<Vec<u8>> = (0..100).map(|i| vec![i as u8; 64]).collect();
    vhc.add_blocks(old.clone());
    let new: Vec<Vec<u8>> = (100..150).map(|i| vec![i as u8; 64]).collect();
    append_blocks(&mut vhc, &new).unwrap();
    assert_eq!(vhc.blocks.len(), 150);
    let mut concatenated = old.clone();
    concatenated.extend(new.clone());
    assert_ne!(vhc.blocks, concatenated);
    let mut sorted = vhc.blocks.clone();
    sorted.sort();
    assert_eq!(sorted, concatenated);
}

#[test]
fn the_pool_never_grows_past_the_cube() {
    let header = VhcHeader::new(8, 8, 8, 32, 128).unwrap();
    let mut vhc = VhcFile::new(header);
    let blocks: Vec<Vec<u8>> = (0..60).map(|i| vec![i as u8; 64]).collect();
    append_blocks(&mut vhc, &blocks).unwrap();
    let more: Vec<Vec<u8>> = (0..5).map(|i| vec![i as u8; 64]).collect();
    match append_blocks(&mut vhc, &more) {
        Err(HypercubeError::FileFull(capacity)) => assert_eq!(capacity, 64),
        _ => panic!("expected FileFull"),
    }
    assert_eq!(vhc.blocks.len(), 60);
    append_blocks(&mut vhc, &more[..4]).unwrap();
    assert_eq!(vhc.blocks.len(), 64);
    assert!(matches!(
        append_blocks(&mut vhc, &more[..1]),
        Err(HypercubeError::FileFull(64))
    ));
    assert!(append_blocks(&mut vhc, &[]).is_ok());
    assert_eq!(vhc.blocks.len(), 64);
}

#[test]
fn blocks_of_the_wrong_size_are_not_appended() {
    let header = VhcHeader::new(8, 8, 8, 32, 128).unwrap();
    let mut vhc = VhcFile::new(header);
    let blocks = vec![vec![0u8; 64], vec![0u8; 63]];
    match append_blocks(&mut vhc, &blocks) {
        Err(HypercubeError::InvalidFormat(message)) => {
            assert_eq!(message, "Block has the wrong size")
        }
        _ => panic!("expected a format error"),
    }
    assert!(vhc.blocks.is_empty());
}

#[test]
fn seal_fills_the_cube_and_is_idempotent() {
    let mut header = VhcHeader::new(8, 8, 8, 64, 128).unwrap();
    header.compression = Compression::Uncompressed;
    let mut vhc = VhcFile::new(header);
    let data = b"kept while the cube is sealed";
    let blocks = create_partition(data, b"s1", &header, None).unwrap().blocks;
    append_blocks(&mut vhc, &blocks).unwrap();
    let added = seal(&mut vhc).unwrap();
    assert_eq!(added, 56);
    assert_eq!(vhc.blocks.len(), 64);
    for block in &vhc.blocks {
        assert_eq!(block.len(), header.total_block_size());
        assert_eq!(vhc.blocks.iter().filter(|other| *other == block).count(), 1);
    }
    for block in &blocks {
        assert!(vhc.blocks.contains(block));
    }
    assert_eq!(extract_partition(&vhc.blocks, b"s1", &header).unwrap(), data.to_vec());
    let before = vhc.blocks.clone();
    assert_eq!(seal(&mut vhc).unwrap(), 0);
    assert_eq!(vhc.blocks, before);
}

#[test]
fn seal_cuts_the_last_cover_partition_to_what_is_left() {
    let mut header = VhcHeader::new(8, 8, 8, 32, 128).unwrap();
    header.compression = Compression::Uncompressed;
    header.aont = Aont::Oaep;
    let mut vhc = VhcFile::new(header);
    vhc.add_blocks((0..61).map(|i| vec![i as u8; 64]).collect());
    assert_eq!(seal(&mut vhc).unwrap(), 3);
    assert_eq!(vhc.blocks.len(), 64);
    let mut empty = VhcFile::new(header);
    assert_eq!(seal(&mut empty).unwrap(), 64);
    assert_eq!(empty.blocks.len(), 64);
}

#[test]
fn seal_refuses_an_overfull_container() {
    let header = VhcHeader::new(8, 8, 8, 32, 128).unwrap();
    let mut vhc = VhcFile::new(header);
    vhc.add_blocks((0..65).map(|i| vec![i as u8; 64]).collect());
    assert!(matches!(seal(&mut vhc), Err(HypercubeError::FileFull(64))));
    assert_eq!(vhc.blocks.len(), 65);
}
