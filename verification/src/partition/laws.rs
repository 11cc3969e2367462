//! What holds of creating and recovering partitions.

use crate::bytes::uniform;
use crate::header::{lemma_meta_round_trip, meta_bytes, VhcHeader, META_SIZE};
use crate::partition::model::{
    authentic_under, authenticates, block_payload, block_payloads, block_tag, block_tags, framed,
    key_blocks, padded, partition_blocks, recovery, restored, stored_block, stored_blocks,
    transformed, unframed, winnowed, Recovery,
};
use crate::pipeline::aont::{aont_applied, lemma_aont_applied_shape, lemma_aont_round_trip};
use crate::pipeline::compress::{compressed, lossless};
use crate::pipeline::fragment::{
    all_fragments, lemma_all_fragments_uniform, lemma_fragment_regrouped, lemma_regroup_fragments,
    lemma_regrouped_uniform,
};
use crate::pipeline::mac::mac_of;
use crate::pipeline::segment::{lemma_segmented_exact, segmented};
use crate::pipeline::sequence::{
    in_tag_order, is_run, lemma_min_tag, min_tag, tags_from, wrapped, SEQUENCE_SIZE,
};
use vstd::bytes::{lemma_auto_spec_u128_to_from_le_bytes, spec_u128_to_le_bytes};
use vstd::prelude::*;

verus! {

/// The transformed blocks of a payload that fills `target` blocks all have
/// the block size, and there are `target` of them plus the key block.
pub proof fn lemma_transformed_shape(payload: Seq<u8>, header: VhcHeader, key: Seq<u8>, target: nat)
    requires
        header.is_valid(),
        target > 0,
        payload.len() == header.block_size * target,
    ensures
        uniform(transformed(payload, header, key), header.block_size as nat),
        transformed(payload, header, key).len() == target + key_blocks(header.aont),
{
    let b = header.block_size as nat;
    let f = header.fragment_size as nat;
    let per_block = header.spec_fragments_per_block();
    lemma_segmented_exact(payload, b, target);
    let blocks = segmented(payload, b);
    lemma_all_fragments_uniform(blocks, b, f);
    let fragments = all_fragments(blocks, f);
    vstd::arithmetic::div_mod::lemma_fundamental_div_mod(b as int, f as int);
    assert(per_block > 0 && per_block * f == b) by (nonlinear_arith)
        requires
            b == f * per_block,
            b >= 32,
            f > 0,
    ;
    assert(fragments.len() > 0) by (nonlinear_arith)
        requires
            fragments.len() == target * per_block,
            target > 0,
            per_block > 0,
    ;
    lemma_aont_applied_shape(fragments, header.aont, per_block, key, f);
    let applied = aont_applied(fragments, header.aont, per_block, key);
    lemma_regrouped_uniform(applied, f, per_block);
    let extra = key_blocks(header.aont);
    assert(applied.len() == (target + extra) * per_block) by (nonlinear_arith)
        requires
            applied.len() == target * per_block + extra * per_block,
    ;
    vstd::arithmetic::div_mod::lemma_div_multiples_vanish(
        (target + extra) as int,
        per_block as int,
    );
    assert((target + extra) * per_block == per_block * (target + extra)) by (nonlinear_arith);
}

/// Stored blocks all have the size that the header gives, when their
/// payloads have the block size.
pub proof fn lemma_stored_blocks_uniform(
    blocks: Seq<Seq<u8>>,
    base: u128,
    secret: Seq<u8>,
    header: VhcHeader,
)
    requires
        uniform(blocks, header.block_size as nat),
    ensures
        uniform(stored_blocks(blocks, base, secret, header), header.stored_block_size()),
{
    vstd::bytes::lemma_auto_spec_u128_to_from_le_bytes();
    let stored = stored_blocks(blocks, base, secret, header);
    assert forall|i: int| 0 <= i < stored.len() implies (#[trigger] stored[i]).len()
        == header.stored_block_size() by {
        assert(blocks[i].len() == header.block_size);
        assert(vstd::bytes::spec_u128_to_le_bytes(wrapped(base + i)).len() == 16);
    }
}

/// Every block that winnowing keeps has the stored size.
pub proof fn lemma_kept_payloads(pool: Seq<Seq<u8>>, secret: Seq<u8>, header: VhcHeader)
    ensures
        uniform(block_payloads(winnowed(pool, secret, header), header), header.block_size as nat),
{
    let kept = winnowed(pool, secret, header);
    let payloads = block_payloads(kept, header);
    assert forall|i: int| 0 <= i < payloads.len() implies (#[trigger] payloads[i]).len()
        == header.block_size by {
        pool.lemma_filter_pred(authentic_under(secret, header), i);
        assert(authenticates(kept[i], secret, header));
    }
}

/// Payloads of one size stay of one size when they are put in tag order.
pub proof fn lemma_ordered_uniform(tags: Seq<u128>, payloads: Seq<Seq<u8>>, size: nat)
    requires
        tags.len() == payloads.len(),
        tags.len() > 0,
        is_run(tags),
        uniform(payloads, size),
    ensures
        uniform(in_tag_order(tags, payloads), size),
        in_tag_order(tags, payloads).len() == tags.len(),
{
    let ordered = in_tag_order(tags, payloads);
    let base = crate::pipeline::sequence::min_tag(tags);
    assert forall|k: int| 0 <= k < ordered.len() implies (#[trigger] ordered[k]).len() == size by {
        let value = (base + k) as u128;
        assert(tags.contains(value));
        let at = tags.index_of(value);
        assert(0 <= at < tags.len());
        assert(payloads[at].len() == size);
    }
}


/// The tags counting up from `base` do not pass the largest number.
pub open spec fn run_fits(base: u128, count: nat) -> bool {
    base + count <= u128::MAX + 1
}

/// Tags that count up from `base` without wrapping are a run that starts at
/// `base`, and reading payloads in tag order leaves them in their order.
pub proof fn lemma_counted_tags(base: u128, payloads: Seq<Seq<u8>>)
    requires
        payloads.len() > 0,
        run_fits(base, payloads.len()),
    ensures
        is_run(tags_from(base, payloads.len())),
        min_tag(tags_from(base, payloads.len())) == base,
        in_tag_order(tags_from(base, payloads.len()), payloads) == payloads,
{
    let n = payloads.len();
    let tags = tags_from(base, n);
    assert forall|i: int| 0 <= i < n implies tags[i] == base + i by {
        assert(wrapped(base + i) == base + i);
    }
    lemma_min_tag(tags);
    let at = choose|i: int| 0 <= i < tags.len() && tags[i] == min_tag(tags);
    assert(tags[at] == base + at);
    assert(min_tag(tags) <= tags[0]);
    assert(min_tag(tags) == base);
    assert forall|k: int| 0 <= k < n implies tags.contains(#[trigger] ((base + k) as u128)) by {
        assert(tags[k] == base + k);
    }
    let ordered = in_tag_order(tags, payloads);
    assert forall|k: int| 0 <= k < n implies #[trigger] ordered[k] == payloads[k] by {
        assert(tags[k] == base + k);
        let found = tags.index_of((base + k) as u128);
        assert(0 <= found < n && tags[found] == base + k);
        assert(tags[found] == base + found);
    }
    assert(in_tag_order(tags, payloads) =~= payloads);
}

/// Winnowing keeps a pool as it is when every block authenticates.
pub proof fn lemma_all_kept(pool: Seq<Seq<u8>>, secret: Seq<u8>, header: VhcHeader)
    requires
        forall|i: int| 0 <= i < pool.len() ==> authenticates(#[trigger] pool[i], secret, header),
    ensures
        winnowed(pool, secret, header) == pool,
    decreases pool.len(),
{
    let test = authentic_under(secret, header);
    if pool.len() == 0 {
        pool.lemma_filter_len(test);
        assert(pool.filter(test) =~= pool);
    } else {
        let init = pool.drop_last();
        assert forall|i: int| 0 <= i < init.len() implies authenticates(
            #[trigger] init[i],
            secret,
            header,
        ) by {
            assert(init[i] == pool[i]);
        }
        lemma_all_kept(init, secret, header);
        init.lemma_filter_push(pool.last(), test);
        assert(init.push(pool.last()) =~= pool);
        assert(authenticates(pool[pool.len() - 1], secret, header));
    }
}

/// Winnowing keeps nothing of a pool in which no block authenticates.
pub proof fn lemma_none_kept(pool: Seq<Seq<u8>>, secret: Seq<u8>, header: VhcHeader)
    requires
        forall|i: int| 0 <= i < pool.len() ==> !authenticates(#[trigger] pool[i], secret, header),
    ensures
        winnowed(pool, secret, header).len() == 0,
    decreases pool.len(),
{
    let test = authentic_under(secret, header);
    if pool.len() == 0 {
        pool.lemma_filter_len(test);
    } else {
        let init = pool.drop_last();
        assert forall|i: int| 0 <= i < init.len() implies !authenticates(
            #[trigger] init[i],
            secret,
            header,
        ) by {
            assert(init[i] == pool[i]);
        }
        lemma_none_kept(init, secret, header);
        init.lemma_filter_push(pool.last(), test);
        assert(init.push(pool.last()) =~= pool);
        assert(!authenticates(pool[pool.len() - 1], secret, header));
    }
}

/// A stored block authenticates under the secret that it was made with, and
/// gives its tag and its payload back.
pub proof fn lemma_stored_block(tag: u128, data: Seq<u8>, secret: Seq<u8>, header: VhcHeader)
    requires
        data.len() == header.block_size,
    ensures
        authenticates(stored_block(tag, data, secret, header), secret, header),
        block_tag(stored_block(tag, data, secret, header)) == tag,
        block_payload(stored_block(tag, data, secret, header), header) == data,
        stored_block(tag, data, secret, header).take(SEQUENCE_SIZE + header.block_size)
            == spec_u128_to_le_bytes(tag) + data,
{
    lemma_auto_spec_u128_to_from_le_bytes();
    let tag_bytes = spec_u128_to_le_bytes(tag);
    let message = tag_bytes + data;
    let mac = mac_of(secret, message, header.hash, header.mac_bits as nat);
    let block = stored_block(tag, data, secret, header);
    assert(block.take(SEQUENCE_SIZE + header.block_size) =~= message);
    assert(block.skip(SEQUENCE_SIZE + header.block_size) =~= mac);
    assert(block.take(SEQUENCE_SIZE as int) =~= tag_bytes);
    assert(block.subrange(SEQUENCE_SIZE as int, SEQUENCE_SIZE + header.block_size) =~= data);
}

/// Blocks that went through the transform come back as the payload that
/// went in.
pub proof fn lemma_transform_undone(payload: Seq<u8>, header: VhcHeader, key: Seq<u8>, target: nat)
    requires
        header.is_valid(),
        key.len() == 32,
        target > 0,
        payload.len() == header.block_size * target,
    ensures
        restored(transformed(payload, header, key), header) == payload,
{
    let b = header.block_size as nat;
    let f = header.fragment_size as nat;
    let per_block = header.spec_fragments_per_block();
    lemma_segmented_exact(payload, b, target);
    let blocks = segmented(payload, b);
    lemma_all_fragments_uniform(blocks, b, f);
    let fragments = all_fragments(blocks, f);
    vstd::arithmetic::div_mod::lemma_fundamental_div_mod(b as int, f as int);
    assert(per_block > 0 && per_block * f == b) by (nonlinear_arith)
        requires
            b == f * per_block,
            b >= 32,
            f > 0,
    ;
    assert(fragments.len() > 0) by (nonlinear_arith)
        requires
            fragments.len() == target * per_block,
            target > 0,
            per_block > 0,
    ;
    lemma_aont_applied_shape(fragments, header.aont, per_block, key, f);
    let applied = aont_applied(fragments, header.aont, per_block, key);
    let extra = key_blocks(header.aont);
    assert(applied.len() == (target + extra) * per_block) by (nonlinear_arith)
        requires
            applied.len() == target * per_block + extra * per_block,
    ;
    vstd::arithmetic::div_mod::lemma_mod_multiples_basic(
        (target + extra) as int,
        per_block as int,
    );
    lemma_fragment_regrouped(applied, f, per_block);
    assert(fragments[0].len() == f);
    lemma_aont_round_trip(fragments, header.aont, per_block, key);
    lemma_regroup_fragments(blocks, b, f);
}

/// A payload that was framed and padded is read back: the sizes in front
/// find the compressed bytes, and a lossless backend gives the data.
pub proof fn lemma_unframed(data: Seq<u8>, header: VhcHeader, size: nat)
    requires
        data.len() <= usize::MAX,
        size <= usize::MAX,
        META_SIZE + compressed(data, header.compression).len() <= size,
        lossless(data, header.compression),
    ensures
        unframed(
            padded(framed(compressed(data, header.compression), data.len()), size),
            header,
        ) == Recovery::Recovered(data),
{
    let packed = compressed(data, header.compression);
    let content = framed(packed, data.len());
    let payload = padded(content, size);
    let rest = payload.skip(META_SIZE as int);
    lemma_meta_round_trip(packed.len() as u64, data.len() as u64, rest);
    assert(payload =~= meta_bytes(packed.len() as u64, data.len() as u64) + rest);
    assert(payload.subrange(META_SIZE as int, META_SIZE + packed.len()) =~= packed);
}

/// Stored blocks carry the tags counting up from `base` and the payloads
/// that they were made of.
pub proof fn lemma_stored_blocks_read(
    blocks: Seq<Seq<u8>>,
    base: u128,
    secret: Seq<u8>,
    header: VhcHeader,
)
    requires
        uniform(blocks, header.block_size as nat),
    ensures
        block_tags(stored_blocks(blocks, base, secret, header)) == tags_from(base, blocks.len()),
        block_payloads(stored_blocks(blocks, base, secret, header), header) == blocks,
{
    let stored = stored_blocks(blocks, base, secret, header);
    assert forall|i: int| 0 <= i < blocks.len() implies #[trigger] block_tags(stored)[i]
        == tags_from(base, blocks.len())[i] by {
        assert(blocks[i].len() == header.block_size);
        lemma_stored_block(wrapped(base + i), blocks[i], secret, header);
    }
    assert forall|i: int| 0 <= i < blocks.len() implies #[trigger] block_payloads(
        stored,
        header,
    )[i] == blocks[i] by {
        assert(blocks[i].len() == header.block_size);
        lemma_stored_block(wrapped(base + i), blocks[i], secret, header);
    }
    assert(block_tags(stored) =~= tags_from(base, blocks.len()));
    assert(block_payloads(stored, header) =~= blocks);
}

/// Recovery from exactly the blocks of a partition, in the order in which
/// they were made, gives the data back.
pub proof fn lemma_partition_recovered(
    kept: Seq<Seq<u8>>,
    data: Seq<u8>,
    target: nat,
    secret: Seq<u8>,
    header: VhcHeader,
    key: Seq<u8>,
    base: u128,
)
    requires
        header.is_valid(),
        key.len() == 32,
        target > 0,
        data.len() <= usize::MAX,
        header.block_size * target <= usize::MAX,
        META_SIZE + compressed(data, header.compression).len() <= header.block_size * target,
        run_fits(base, target + key_blocks(header.aont)),
        lossless(data, header.compression),
        kept == partition_blocks(
            compressed(data, header.compression),
            data.len(),
            target,
            secret,
            header,
            key,
            base,
        ),
    ensures
        kept.len() == target + key_blocks(header.aont),
        is_run(block_tags(kept)),
        block_tags(kept) == tags_from(base, kept.len()),
        unframed(
            restored(in_tag_order(block_tags(kept), block_payloads(kept, header)), header),
            header,
        ) == Recovery::Recovered(data),
{
    let size = (header.block_size * target) as nat;
    let payload = padded(framed(compressed(data, header.compression), data.len()), size);
    let plain = transformed(payload, header, key);
    assert(kept == stored_blocks(plain, base, secret, header));
    assert(payload.len() == size);
    lemma_transformed_shape(payload, header, key, target);
    lemma_stored_blocks_read(plain, base, secret, header);
    assert(block_tags(kept) == tags_from(base, plain.len()));
    assert(block_payloads(kept, header) == plain);
    lemma_counted_tags(base, plain);
    assert(in_tag_order(block_tags(kept), block_payloads(kept, header)) == plain);
    lemma_transform_undone(payload, header, key, target);
    assert(restored(plain, header) == payload);
    lemma_unframed(data, header, size);
}

/// Round trip. Recovering a partition from its own blocks under its own
/// secret gives the data back, whatever transform key was drawn, as long as
/// the sequence tags do not wrap and the compression backend is lossless on
/// the data.
pub proof fn lemma_create_then_recover(
    data: Seq<u8>,
    target: nat,
    secret: Seq<u8>,
    header: VhcHeader,
    key: Seq<u8>,
    base: u128,
)
    requires
        header.is_valid(),
        key.len() == 32,
        target > 0,
        data.len() <= usize::MAX,
        header.block_size * target <= usize::MAX,
        META_SIZE + compressed(data, header.compression).len() <= header.block_size * target,
        run_fits(base, target + key_blocks(header.aont)),
        lossless(data, header.compression),
    ensures
        recovery(
            partition_blocks(
                compressed(data, header.compression),
                data.len(),
                target,
                secret,
                header,
                key,
                base,
            ),
            secret,
            header,
        ) == Recovery::Recovered(data),
{
    let packed = compressed(data, header.compression);
    let size = (header.block_size * target) as nat;
    let payload = padded(framed(packed, data.len()), size);
    let plain = transformed(payload, header, key);
    let pool = partition_blocks(packed, data.len(), target, secret, header, key, base);
    lemma_transformed_shape(payload, header, key, target);
    assert forall|i: int| 0 <= i < pool.len() implies authenticates(
        #[trigger] pool[i],
        secret,
        header,
    ) by {
        assert(plain[i].len() == header.block_size);
        lemma_stored_block(wrapped(base + i), plain[i], secret, header);
    }
    lemma_all_kept(pool, secret, header);
    lemma_partition_recovered(pool, data, target, secret, header, key, base);
}

/// Wrong secret. A secret under which no block of the pool authenticates
/// recovers nothing: the outcome is the same as for a partition that does
/// not exist.
pub proof fn lemma_foreign_secret(pool: Seq<Seq<u8>>, secret: Seq<u8>, header: VhcHeader)
    requires
        forall|i: int| 0 <= i < pool.len() ==> !authenticates(#[trigger] pool[i], secret, header),
    ensures
        recovery(pool, secret, header) == Recovery::NothingAuthenticated,
{
    lemma_none_kept(pool, secret, header);
}

/// The tags of two secrets differ on the message of every one of the given
/// payload blocks, tagged from `base` on.
pub open spec fn tags_differ(
    blocks: Seq<Seq<u8>>,
    base: u128,
    secret: Seq<u8>,
    other: Seq<u8>,
    header: VhcHeader,
) -> bool {
    forall|i: int|
        0 <= i < blocks.len() ==> mac_of(
            other,
            spec_u128_to_le_bytes(wrapped(base + i)) + #[trigger] blocks[i],
            header.hash,
            header.mac_bits as nat,
        ) != mac_of(
            secret,
            spec_u128_to_le_bytes(wrapped(base + i)) + blocks[i],
            header.hash,
            header.mac_bits as nat,
        )
}

/// No block stored under `secret` authenticates under another secret whose
/// tags differ on the blocks' messages.
pub proof fn lemma_stored_blocks_foreign(
    blocks: Seq<Seq<u8>>,
    base: u128,
    secret: Seq<u8>,
    other: Seq<u8>,
    header: VhcHeader,
)
    requires
        uniform(blocks, header.block_size as nat),
        tags_differ(blocks, base, secret, other, header),
    ensures
        forall|i: int|
            0 <= i < blocks.len() ==> !authenticates(
                #[trigger] stored_blocks(blocks, base, secret, header)[i],
                other,
                header,
            ),
{
    let stored = stored_blocks(blocks, base, secret, header);
    assert forall|i: int| 0 <= i < blocks.len() implies !authenticates(
        #[trigger] stored[i],
        other,
        header,
    ) by {
        assert(blocks[i].len() == header.block_size);
        lemma_stored_block(wrapped(base + i), blocks[i], secret, header);
        let message = spec_u128_to_le_bytes(wrapped(base + i)) + blocks[i];
        assert(stored[i].skip(SEQUENCE_SIZE + header.block_size) == mac_of(
            secret,
            message,
            header.hash,
            header.mac_bits as nat,
        ));
    }
}

/// Wrong-secret rejection. Recovering a partition under another secret than
/// its own is an integrity failure in which nothing authenticates, provided
/// the other secret gives a different tag on every block of the partition.
pub proof fn lemma_wrong_secret_rejected(
    data: Seq<u8>,
    target: nat,
    secret: Seq<u8>,
    other: Seq<u8>,
    header: VhcHeader,
    key: Seq<u8>,
    base: u128,
)
    requires
        header.is_valid(),
        target > 0,
        META_SIZE + compressed(data, header.compression).len() <= header.block_size * target,
        tags_differ(
            transformed(
                padded(
                    framed(compressed(data, header.compression), data.len()),
                    (header.block_size * target) as nat,
                ),
                header,
                key,
            ),
            base,
            secret,
            other,
            header,
        ),
    ensures
        recovery(
            partition_blocks(
                compressed(data, header.compression),
                data.len(),
                target,
                secret,
                header,
                key,
                base,
            ),
            other,
            header,
        ) == Recovery::NothingAuthenticated,
{
    let payload = padded(
        framed(compressed(data, header.compression), data.len()),
        (header.block_size * target) as nat,
    );
    let plain = transformed(payload, header, key);
    lemma_transformed_shape(payload, header, key, target);
    lemma_stored_blocks_foreign(plain, base, secret, other, header);
    lemma_foreign_secret(stored_blocks(plain, base, secret, header), other, header);
}

} // verus!
