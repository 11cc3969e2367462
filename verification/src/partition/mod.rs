//! Creating a partition from a payload and recovering it from a pool of
//! blocks.
//!
//! A payload is compressed, framed with its sizes, padded to a fixed number
//! of blocks, put through the all-or-nothing transform, tagged with
//! consecutive sequence numbers and authenticated under the partition's
//! secret. Recovery runs the other way: it keeps the blocks of the pool that
//! authenticate under the secret, orders them by tag, undoes the transform
//! and unframes the payload.

pub mod laws;
pub mod model;
pub mod order;

use crate::backend::{os_random_bytes, random_bytes};
use crate::bytes::{append_bytes, copy_window, lemma_rows_push, rows, uniform};
use crate::error::{ErrorView, HypercubeError};
use crate::header::{Aont, PartitionMeta, VhcHeader, META_SIZE};
use crate::partition::laws::{
    lemma_kept_payloads, lemma_ordered_uniform, lemma_stored_blocks_uniform,
    lemma_transformed_shape,
};
use crate::partition::model::{
    authentic_under, authenticates, block_payload, block_payloads, block_tag, block_tags, framed,
    holds_partition, key_blocks, padded, partition_blocks, recovery, restored, stored_blocks,
    target_blocks, transformed, unframed, winnowed, Recovery,
};
use crate::pipeline::aont::{
    lemma_uniform_readable, oaep_aont_apply, reverse_aont, rivest_aont_apply, KEY_SIZE,
};
use crate::pipeline::compress::{
    compress, compressed, compression_refused, decompress, names_algorithm,
};
use crate::pipeline::fragment::{
    all_fragments, fragment_all, lemma_all_fragments_uniform, unfragment_all, unfragment_block,
};
use crate::pipeline::mac::{authenticate_blocks, verify_mac, AuthenticatedBlock};
use crate::pipeline::segment::{lemma_segmented_exact, segment};
use crate::pipeline::sequence::{
    generate_sequence_base, is_run, payloads_of, sequence_blocks, tags_of, unsequence_blocks,
    wrapped, SequenceNumber, SequencedBlock, SEQUENCE_SIZE,
};
use vstd::prelude::*;

verus! {

/// The stored blocks of a new partition.
pub struct CreatePartitionResult {
    /// Blocks ready for storage: sequence tag, payload, authentication tag.
    pub blocks: Vec<Vec<u8>>,
}

/// A size as it is reported in an error: the number itself, or the largest
/// number there is where it does not fit.
pub open spec fn reported_size(size: int) -> usize {
    if size > usize::MAX {
        usize::MAX
    } else {
        size as usize
    }
}

/// The message of an integrity error for each way in which recovery fails.
pub open spec fn failure_text(failure: Recovery) -> Seq<char> {
    match failure {
        Recovery::NothingAuthenticated => "No blocks authenticated with this secret"@,
        Recovery::BrokenSequence => "Invalid sequence numbers"@,
        Recovery::TooShort => "Data too short for metadata"@,
        Recovery::BadMetadata => "Invalid compressed size in metadata"@,
        Recovery::SizeMismatch => "Original size mismatch after decompression"@,
        _ => Seq::empty(),
    }
}

/// What the caller of `extract_partition` sees for each way in which
/// recovery ends: the payload, or an integrity error. Where the backend
/// rejected the compressed bytes, the message is the backend's own, with the
/// algorithm's name in front.
pub open spec fn reports(
    r: Result<Vec<u8>, HypercubeError>,
    outcome: Recovery,
    header: VhcHeader,
) -> bool {
    match outcome {
        Recovery::Recovered(payload) => r matches Ok(data) && data@ == payload,
        Recovery::Undecodable => r matches Err(e) && e@ is IntegrityError && names_algorithm(
            e@->IntegrityError_0,
            header.compression,
        ),
        failure => r matches Err(e) && e@ == ErrorView::IntegrityError(failure_text(failure)),
    }
}

/// The payload, framed and padded, fits `target` blocks of the header's
/// size.
pub open spec fn fits(compressed_len: nat, header: VhcHeader, target: nat) -> bool {
    META_SIZE + compressed_len <= header.block_size * target
}

/// The error `e` is one that creating a partition of `data`, padded to
/// `target` blocks, can end in, and it is the one owed: a compression error
/// as `compress` gives it; `InvalidDimension(0)` for a target of no blocks; `DataTooLarge` with both
/// sizes when the compressed and framed data does not fit the target.
pub open spec fn creation_refused(
    e: ErrorView,
    data: Seq<u8>,
    header: VhcHeader,
    target: nat,
) -> bool {
    ||| compression_refused(e, data, header.compression)
    ||| target == 0 && e == ErrorView::InvalidDimension(0)
    ||| target > 0 && !fits(compressed(data, header.compression).len(), header, target) && e
        == (ErrorView::DataTooLarge {
        data_size: reported_size(META_SIZE + compressed(data, header.compression).len()),
        max_size: (header.block_size * target) as usize,
    })
}

/// Builds the stored blocks of a partition from its compressed payload, with
/// the transform key and the first sequence tag given. The compressed bytes
/// are framed with both sizes, padded with zeros to `target_blocks` blocks,
/// transformed, tagged and authenticated.
///
/// Fails with `InvalidDimension(0)` for a target of zero blocks, and with
/// `DataTooLarge` exactly when the framed payload does not fit the target.
pub fn assemble_partition(
    compressed: &[u8],
    original_size: usize,
    secret: &[u8],
    header: &VhcHeader,
    target_blocks: usize,
    key: &[u8],
    sequence_base: u128,
) -> (r: Result<CreatePartitionResult, HypercubeError>)
    requires
        header.is_valid(),
        header.block_size * target_blocks <= usize::MAX,
        key@.len() == KEY_SIZE,
    ensures
        match r {
            Ok(partition) => {
                &&& target_blocks > 0
                &&& fits(compressed@.len(), *header, target_blocks as nat)
                &&& rows(partition.blocks@) == partition_blocks(
                    compressed@,
                    original_size as nat,
                    target_blocks as nat,
                    secret@,
                    *header,
                    key@,
                    sequence_base,
                )
                &&& partition.blocks@.len() == target_blocks + key_blocks(header.aont)
                &&& uniform(rows(partition.blocks@), header.stored_block_size())
            },
            Err(e) => if target_blocks == 0 {
                e@ == ErrorView::InvalidDimension(0)
            } else {
                !fits(compressed@.len(), *header, target_blocks as nat) && e@
                    == (ErrorView::DataTooLarge {
                    data_size: reported_size(META_SIZE + compressed@.len()),
                    max_size: (header.block_size * target_blocks) as usize,
                })
            },
        },
{
    if target_blocks == 0 {
        return Err(HypercubeError::InvalidDimension(0));
    }
    let target_bytes: usize = header.block_size * target_blocks;
    assert(target_bytes >= 32) by (nonlinear_arith)
        requires
            target_bytes == header.block_size * target_blocks,
            header.block_size >= 32,
            target_blocks >= 1,
    ;
    if compressed.len() > target_bytes - META_SIZE {
        return Err(
            HypercubeError::DataTooLarge {
                data_size: compressed.len().saturating_add(META_SIZE),
                max_size: target_bytes,
            },
        );
    }
    let meta = PartitionMeta {
        compressed_size: compressed.len() as u64,
        original_size: original_size as u64,
    };
    let mut content: Vec<u8> = Vec::with_capacity(target_bytes);
    append_bytes(&mut content, meta.to_bytes().as_slice());
    append_bytes(&mut content, compressed);
    assert(content@ == framed(compressed@, original_size as nat));
    let payload = copy_window(content.as_slice(), 0, target_bytes);
    let ghost key_view = key@;
    proof {
        lemma_segmented_exact(payload@, header.block_size as nat, target_blocks as nat);
        lemma_transformed_shape(payload@, *header, key_view, target_blocks as nat);
    }
    let blocks = segment(payload.as_slice(), header.block_size);
    proof {
        lemma_all_fragments_uniform(
            rows(blocks@),
            header.block_size as nat,
            header.fragment_size as nat,
        );
        let b = header.block_size as int;
        let f = header.fragment_size as int;
        vstd::arithmetic::div_mod::lemma_fundamental_div_mod(b, f);
        assert(b / f > 0) by (nonlinear_arith)
            requires
                b == f * (b / f),
                b >= 32,
                f > 0,
        ;
        assert(blocks@.len() * (b / f) > 0) by (nonlinear_arith)
            requires
                blocks@.len() > 0,
                b / f > 0,
        ;
        assert(rows(blocks@)[0] == blocks@[0]@);
    }
    let (fragments, frags_per_block) = fragment_all(blocks.as_slice(), header.fragment_size);
    assert(rows(fragments@)[0] == fragments@[0]@);
    let transformed_fragments = match header.aont {
        Aont::Rivest => rivest_aont_apply(fragments, frags_per_block, key),
        Aont::Oaep => oaep_aont_apply(fragments),
    };
    let transformed_blocks = unfragment_all(transformed_fragments.as_slice(), frags_per_block);
    assert(rows(transformed_blocks@) == transformed(payload@, *header, key_view));
    let sequenced = sequence_blocks(transformed_blocks, sequence_base);
    let authenticated = authenticate_blocks(sequenced, secret, header.hash, header.mac_bits);
    let ghost expected = stored_blocks(
        transformed(payload@, *header, key_view),
        sequence_base,
        secret@,
        *header,
    );
    proof {
        let plain = transformed(payload@, *header, key_view);
        assert forall|k: int| 0 <= k < authenticated@.len() implies (
        #[trigger] authenticated@[k]).stored() == expected[k] by {
            sequenced@[k].sequence.lemma_bytes();
            assert(tags_of(sequenced@)[k] == wrapped(sequence_base + k));
            assert(payloads_of(sequenced@)[k] == plain[k]);
            assert(authenticated@[k].authentic(secret@, header.hash, header.mac_bits as nat));
        }
    }
    let mut stored: Vec<Vec<u8>> = Vec::with_capacity(authenticated.len());
    let mut i: usize = 0;
    while i < authenticated.len()
        invariant
            i <= authenticated@.len(),
            authenticated@.len() == expected.len(),
            forall|k: int|
                0 <= k < authenticated@.len() ==> (#[trigger] authenticated@[k]).stored()
                    == expected[k],
            rows(stored@) == expected.take(i as int),
        decreases authenticated@.len() - i,
    {
        let bytes = authenticated[i].to_bytes();
        proof {
            lemma_rows_push(stored@, bytes);
            assert(expected.take(i as int).push(bytes@) =~= expected.take(i + 1));
        }
        stored.push(bytes);
        i += 1;
    }
    proof {
        assert(expected.take(expected.len() as int) =~= expected);
        lemma_stored_blocks_uniform(
            transformed(payload@, *header, key_view),
            sequence_base,
            secret@,
            *header,
        );
    }
    Ok(CreatePartitionResult { blocks: stored })
}

/// Creates a partition from `data`: compresses it and builds the stored
/// blocks under a fresh random transform key and a random first sequence
/// tag. Without `pad_to_blocks` the payload is padded to the header's number
/// of data blocks, so that the partition has exactly the header's number of
/// blocks per partition, whatever the size of the data.
///
/// Fails with a compression error where the backend fails, with
/// `InvalidDimension(0)` for a target of zero blocks, and with `DataTooLarge`
/// exactly when the compressed and framed data does not fit the target.
/// The padded payload has to be addressable on this machine.
pub fn create_partition(
    data: &[u8],
    secret: &[u8],
    header: &VhcHeader,
    pad_to_blocks: Option<usize>,
) -> (r: Result<CreatePartitionResult, HypercubeError>)
    requires
        header.is_valid(),
        header.block_size * target_blocks(*header, pad_to_blocks) <= usize::MAX,
    ensures
        match r {
            Ok(partition) => {
                let target = target_blocks(*header, pad_to_blocks);
                &&& target > 0
                &&& fits(compressed(data@, header.compression).len(), *header, target)
                &&& holds_partition(rows(partition.blocks@), data@, target, secret@, *header)
                &&& partition.blocks@.len() == target + key_blocks(header.aont)
                &&& pad_to_blocks is None ==> partition.blocks@.len()
                    == header.blocks_per_partition
                &&& uniform(rows(partition.blocks@), header.stored_block_size())
            },
            Err(e) => creation_refused(
                e@,
                data@,
                *header,
                target_blocks(*header, pad_to_blocks),
            ),
        },
{
    let packed = match compress(data, header.compression) {
        Ok(packed) => packed,
        Err(e) => {
            return Err(e);
        },
    };
    let target: usize = match pad_to_blocks {
        Some(blocks) => blocks,
        None => header.data_blocks_per_partition(),
    };
    let key = random_bytes(KEY_SIZE);
    let sequence_base = generate_sequence_base();
    let r = assemble_partition(
        packed.as_slice(),
        data.len(),
        secret,
        header,
        target,
        key.as_slice(),
        sequence_base,
    );
    proof {
        if r is Ok {
            let partition = r->Ok_0;
            assert(rows(partition.blocks@) == partition_blocks(
                compressed(data@, header.compression),
                data@.len(),
                target as nat,
                secret@,
                *header,
                key@,
                sequence_base,
            ));
        }
    }
    r
}

/// Recovers the partition that `secret` owns from a pool of stored blocks.
/// Blocks of another size than the header gives, and blocks whose
/// authentication tag is wrong under the secret, are passed over; the others
/// are ordered by sequence tag, taken back through the transform and
/// unframed.
///
/// Every failure is an integrity error: no block authenticates; the tags of
/// the authenticated blocks are not one contiguous run; the sizes in front
/// of the payload do not fit it; the backend rejects the compressed bytes;
/// the decompressed bytes do not have the original size.
pub fn extract_partition(all_blocks: &[Vec<u8>], secret: &[u8], header: &VhcHeader) -> (r: Result<
    Vec<u8>,
    HypercubeError,
>)
    requires
        header.is_valid(),
    ensures
        reports(r, recovery(rows(all_blocks@), secret@, *header), *header),
        r is Ok ==> is_run(block_tags(winnowed(rows(all_blocks@), secret@, *header))),
{
    let mac_bytes: usize = header.mac_bytes();
    let block_size: usize = header.block_size;
    let ghost pool = rows(all_blocks@);
    let ghost test = authentic_under(secret@, *header);
    let mut verified: Vec<SequencedBlock> = Vec::new();
    let mut i: usize = 0;
    assert(pool.take(0).filter(test) =~= Seq::<Seq<u8>>::empty()) by {
        pool.take(0).lemma_filter_len(test);
    }
    while i < all_blocks.len()
        invariant
            i <= all_blocks@.len(),
            header.is_valid(),
            mac_bytes == header.spec_mac_bytes(),
            block_size == header.block_size,
            pool == rows(all_blocks@),
            test == authentic_under(secret@, *header),
            verified@.len() == pool.take(i as int).filter(test).len(),
            tags_of(verified@) == block_tags(pool.take(i as int).filter(test)),
            payloads_of(verified@) == block_payloads(pool.take(i as int).filter(test), *header),
        decreases all_blocks@.len() - i,
    {
        let block = &all_blocks[i];
        let ghost kept = pool.take(i as int).filter(test);
        proof {
            pool.take(i as int).lemma_filter_push(pool[i as int], test);
            assert(pool.take(i as int).push(pool[i as int]) =~= pool.take(i + 1));
            assert(pool[i as int] == block@);
        }
        let mut keep: Option<SequencedBlock> = None;
        if block.len() >= SEQUENCE_SIZE + mac_bytes && block.len() - SEQUENCE_SIZE - mac_bytes
            == block_size {
            match AuthenticatedBlock::from_bytes(block.as_slice(), mac_bytes) {
                Some(candidate) => {
                    assert(candidate.message() =~= block@.take(SEQUENCE_SIZE + block_size));
                    assert(candidate.mac@ =~= block@.skip(SEQUENCE_SIZE + block_size));
                    if verify_mac(&candidate, secret, header.hash, header.mac_bits) {
                        assert(authenticates(block@, secret@, *header));
                        let AuthenticatedBlock { sequence_bytes, data, mac } = candidate;
                        keep = Some(
                            SequencedBlock {
                                sequence: SequenceNumber::from_bytes(sequence_bytes),
                                data,
                            },
                        );
                    } else {
                        assert(!authenticates(block@, secret@, *header));
                    }
                },
                None => {},
            }
        } else {
            assert(!authenticates(block@, secret@, *header));
        }
        match keep {
            Some(sequenced) => {
                let ghost before = verified@;
                assert(sequenced.sequence@ == block_tag(block@));
                assert(sequenced.data@ == block_payload(block@, *header));
                verified.push(sequenced);
                proof {
                    let now = kept.push(block@);
                    assert(tags_of(verified@) =~= tags_of(before).push(block_tag(block@)));
                    assert(block_tags(now) =~= block_tags(kept).push(block_tag(block@)));
                    assert(payloads_of(verified@) =~= payloads_of(before).push(
                        block_payload(block@, *header),
                    ));
                    assert(block_payloads(now, *header) =~= block_payloads(kept, *header).push(
                        block_payload(block@, *header),
                    ));
                }
            },
            None => {
                assert(!authenticates(block@, secret@, *header));
            },
        }
        i += 1;
    }
    assert(pool.take(all_blocks@.len() as int) =~= pool);
    let ghost kept = winnowed(pool, secret@, *header);
    if verified.len() == 0 {
        return Err(
            HypercubeError::IntegrityError(
                String::from_str("No blocks authenticated with this secret"),
            ),
        );
    }
    let ghost tags = tags_of(verified@);
    let ghost payloads = payloads_of(verified@);
    let ordered = match unsequence_blocks(verified) {
        Some(ordered) => ordered,
        None => {
            return Err(
                HypercubeError::IntegrityError(String::from_str("Invalid sequence numbers")),
            );
        },
    };
    proof {
        lemma_kept_payloads(pool, secret@, *header);
        lemma_ordered_uniform(tags, payloads, block_size as nat);
        lemma_all_fragments_uniform(rows(ordered@), block_size as nat, header.fragment_size as nat);
        lemma_uniform_readable(
            all_fragments(rows(ordered@), header.fragment_size as nat),
            header.spec_fragments_per_block(),
            header.fragment_size as nat,
        );
        assert(rows(ordered@)[0] == ordered@[0]@);
    }
    let (fragments, frags_per_block) = fragment_all(ordered.as_slice(), header.fragment_size);
    let plain_fragments = reverse_aont(fragments, header.aont, frags_per_block);
    let plain_blocks = unfragment_all(plain_fragments.as_slice(), frags_per_block);
    let payload = unfragment_block(plain_blocks.as_slice());
    assert(payload@ == restored(rows(ordered@), *header));
    if payload.len() < META_SIZE {
        return Err(
            HypercubeError::IntegrityError(String::from_str("Data too short for metadata")),
        );
    }
    let meta = match PartitionMeta::from_bytes(payload.as_slice()) {
        Ok(meta) => meta,
        Err(e) => {
            return Err(e);
        },
    };
    let available: usize = payload.len() - META_SIZE;
    if meta.compressed_size > available as u64 {
        return Err(
            HypercubeError::IntegrityError(
                String::from_str("Invalid compressed size in metadata"),
            ),
        );
    }
    let packed_end: usize = META_SIZE + meta.compressed_size as usize;
    let packed = vstd::slice::slice_subrange(payload.as_slice(), META_SIZE, packed_end);
    let data = match decompress(packed, header.compression) {
        Ok(data) => data,
        Err(HypercubeError::DecompressionError(detail)) => {
            return Err(HypercubeError::IntegrityError(detail));
        },
        Err(e) => {
            return Err(e);
        },
    };
    if data.len() as u64 != meta.original_size {
        return Err(
            HypercubeError::IntegrityError(
                String::from_str("Original size mismatch after decompression"),
            ),
        );
    }
    Ok(data)
}

/// Random bytes from the operating system, for cover payloads and secrets
/// that nobody keeps.
pub fn generate_chaff(size: usize) -> (chaff: Vec<u8>)
    ensures
        chaff@.len() == size,
{
    os_random_bytes(size)
}

} // verus!
