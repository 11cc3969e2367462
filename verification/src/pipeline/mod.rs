//! The stages of the per-partition transform, leaves first.

pub mod aont;
pub mod compress;
pub mod fragment;
pub mod mac;
pub mod segment;
pub mod sequence;

pub use aont::{apply_aont, reverse_aont};
pub use compress::{compress, decompress};
pub use fragment::{
    calculate_fragment_size, fragment_all, fragment_block, unfragment_all, unfragment_block,
};
pub use mac::{
    authenticate_blocks, compute_mac, verify_and_extract_blocks, verify_mac, AuthenticatedBlock,
};
pub use segment::{block_count, segment, unsegment};
pub use sequence::{
    generate_sequence_base, sequence_blocks, unsequence_blocks, SequenceNumber, SequencedBlock,
    SEQUENCE_SIZE,
};
