//! What creating and recovering a partition mean, as functions on byte
//! sequences.

use crate::bytes::window;
use crate::header::{
    meta_bytes, meta_compressed_size, meta_original_size, Aont, VhcHeader, META_SIZE,
};
use crate::pipeline::aont::{aont_applied, aont_reversed};
use crate::pipeline::compress::decompressed;
use crate::pipeline::fragment::{all_fragments, regrouped};
use crate::pipeline::mac::mac_of;
use crate::pipeline::segment::segmented;
use crate::pipeline::sequence::{in_tag_order, is_run, wrapped, SEQUENCE_SIZE};
use vstd::bytes::{spec_u128_from_le_bytes, spec_u128_to_le_bytes};
use vstd::prelude::*;

verus! {

/// The compressed bytes with the two sizes in front.
pub open spec fn framed(compressed: Seq<u8>, original_len: nat) -> Seq<u8> {
    meta_bytes(compressed.len() as u64, original_len as u64) + compressed
}

/// `content` filled up with zeros to `size` bytes.
pub open spec fn padded(content: Seq<u8>, size: nat) -> Seq<u8> {
    window(content, 0, size)
}

/// Number of payload blocks that a partition is padded to: the number asked
/// for, or the header's number of data blocks.
pub open spec fn target_blocks(header: VhcHeader, pad_to_blocks: Option<usize>) -> nat {
    match pad_to_blocks {
        Some(blocks) => blocks as nat,
        None => header.spec_data_blocks(),
    }
}

/// Blocks that the transform adds to the payload blocks.
pub open spec fn key_blocks(aont: Aont) -> nat {
    match aont {
        Aont::Rivest => 1,
        Aont::Oaep => 0,
    }
}

/// The payload cut into blocks, fragmented, put through the all-or-nothing
/// transform under `key`, and regrouped into blocks.
pub open spec fn transformed(payload: Seq<u8>, header: VhcHeader, key: Seq<u8>) -> Seq<Seq<u8>> {
    let per_block = header.spec_fragments_per_block();
    let fragments = all_fragments(
        segmented(payload, header.block_size as nat),
        header.fragment_size as nat,
    );
    regrouped(aont_applied(fragments, header.aont, per_block, key), per_block)
}

/// One block as it is stored: sequence tag, payload, and the authentication
/// tag over both under `secret`.
pub open spec fn stored_block(tag: u128, data: Seq<u8>, secret: Seq<u8>, header: VhcHeader) -> Seq<
    u8,
> {
    let message = spec_u128_to_le_bytes(tag) + data;
    message + mac_of(secret, message, header.hash, header.mac_bits as nat)
}

/// The blocks as they are stored, tagged consecutively from `base` on.
pub open spec fn stored_blocks(
    blocks: Seq<Seq<u8>>,
    base: u128,
    secret: Seq<u8>,
    header: VhcHeader,
) -> Seq<Seq<u8>> {
    Seq::new(
        blocks.len(),
        |i: int| stored_block(wrapped(base + i), blocks[i], secret, header),
    )
}

/// The stored blocks of a partition: the compressed bytes are framed, padded
/// to `target` blocks, transformed under `key`, tagged from `base` on and
/// authenticated under `secret`.
pub open spec fn partition_blocks(
    compressed: Seq<u8>,
    original_len: nat,
    target: nat,
    secret: Seq<u8>,
    header: VhcHeader,
    key: Seq<u8>,
    base: u128,
) -> Seq<Seq<u8>> {
    stored_blocks(
        transformed(
            padded(framed(compressed, original_len), (header.block_size * target) as nat),
            header,
            key,
        ),
        base,
        secret,
        header,
    )
}

/// The sequence tag written at the start of a stored block.
pub open spec fn block_tag(block: Seq<u8>) -> u128 {
    spec_u128_from_le_bytes(block.take(SEQUENCE_SIZE as int))
}

/// The payload of a stored block.
pub open spec fn block_payload(block: Seq<u8>, header: VhcHeader) -> Seq<u8> {
    block.subrange(SEQUENCE_SIZE as int, SEQUENCE_SIZE + header.block_size)
}

/// The stored block has the size that the header gives, and its last bytes
/// are the authentication tag of the rest under `secret`.
pub open spec fn authenticates(block: Seq<u8>, secret: Seq<u8>, header: VhcHeader) -> bool {
    &&& block.len() == header.stored_block_size()
    &&& block.skip(SEQUENCE_SIZE + header.block_size) == mac_of(
        secret,
        block.take(SEQUENCE_SIZE + header.block_size),
        header.hash,
        header.mac_bits as nat,
    )
}

/// The test that winnowing applies to every block of the pool.
pub open spec fn authentic_under(secret: Seq<u8>, header: VhcHeader) -> spec_fn(Seq<u8>) -> bool {
    |block: Seq<u8>| authenticates(block, secret, header)
}

/// The blocks of the pool that authenticate under `secret`, in pool order.
pub open spec fn winnowed(pool: Seq<Seq<u8>>, secret: Seq<u8>, header: VhcHeader) -> Seq<Seq<u8>> {
    pool.filter(authentic_under(secret, header))
}

/// The blocks are those of a partition that holds `data`: stored blocks
/// under some 32-byte transform key and some first sequence tag.
pub open spec fn holds_partition(
    blocks: Seq<Seq<u8>>,
    data: Seq<u8>,
    target: nat,
    secret: Seq<u8>,
    header: VhcHeader,
) -> bool {
    exists|key: Seq<u8>, base: u128|
        key.len() == 32 && blocks == #[trigger] partition_blocks(
            crate::pipeline::compress::compressed(data, header.compression),
            data.len(),
            target,
            secret,
            header,
            key,
            base,
        )
}

/// The tags of stored blocks.
pub open spec fn block_tags(blocks: Seq<Seq<u8>>) -> Seq<u128> {
    Seq::new(blocks.len(), |i: int| block_tag(blocks[i]))
}

/// The payloads of stored blocks.
pub open spec fn block_payloads(blocks: Seq<Seq<u8>>, header: VhcHeader) -> Seq<Seq<u8>> {
    Seq::new(blocks.len(), |i: int| block_payload(blocks[i], header))
}

/// Blocks in pipeline order taken back through the transform and laid end to
/// end.
pub open spec fn restored(ordered: Seq<Seq<u8>>, header: VhcHeader) -> Seq<u8> {
    let per_block = header.spec_fragments_per_block();
    let fragments = all_fragments(ordered, header.fragment_size as nat);
    regrouped(aont_reversed(fragments, header.aont, per_block), per_block).flatten()
}

/// How recovery ends.
pub ghost enum Recovery {
    /// The payload came out.
    Recovered(Seq<u8>),
    /// No block of the pool authenticates under the secret.
    NothingAuthenticated,
    /// The tags of the authenticated blocks are not one contiguous run.
    BrokenSequence,
    /// The bytes behind the transform are too few to hold the two sizes.
    TooShort,
    /// The compressed size in the metadata reaches past the payload.
    BadMetadata,
    /// The backend rejects the compressed bytes.
    Undecodable,
    /// The decompressed bytes do not have the original size.
    SizeMismatch,
}

/// What is read from a payload that came back through the transform: the
/// sizes in front say where the compressed bytes end and how long their
/// content has to be.
pub open spec fn unframed(payload: Seq<u8>, header: VhcHeader) -> Recovery {
    if payload.len() < META_SIZE {
        Recovery::TooShort
    } else if META_SIZE + meta_compressed_size(payload) > payload.len() {
        Recovery::BadMetadata
    } else {
        match decompressed(
            payload.subrange(META_SIZE as int, META_SIZE + meta_compressed_size(payload)),
            header.compression,
        ) {
            None => Recovery::Undecodable,
            Some(content) => if content.len() != meta_original_size(payload) {
                Recovery::SizeMismatch
            } else {
                Recovery::Recovered(content)
            },
        }
    }
}

/// Recovery of the partition that `secret` owns from a pool of stored
/// blocks: winnow, order by tag, undo the transform, unframe.
pub open spec fn recovery(pool: Seq<Seq<u8>>, secret: Seq<u8>, header: VhcHeader) -> Recovery {
    let kept = winnowed(pool, secret, header);
    if kept.len() == 0 {
        Recovery::NothingAuthenticated
    } else if !is_run(block_tags(kept)) {
        Recovery::BrokenSequence
    } else {
        unframed(
            restored(in_tag_order(block_tags(kept), block_payloads(kept, header)), header),
            header,
        )
    }
}

} // verus!
