//! Recovery does not depend on the order of the pool.
//!
//! A container reshuffles all of its blocks whenever blocks are appended, so
//! nothing that recovery returns may depend on where a block stands. The
//! laws in this module prove that, and draw from it what holds of several
//! partitions in one pool.

use crate::header::{VhcHeader, META_SIZE};
use crate::partition::laws::{
    lemma_all_kept, lemma_foreign_secret, lemma_none_kept, lemma_partition_recovered,
    lemma_stored_block, lemma_stored_blocks_read, lemma_transformed_shape, run_fits,
};
use crate::partition::model::{
    authentic_under, authenticates, block_payloads, block_tags, framed, key_blocks, padded,
    partition_blocks, recovery, transformed, winnowed, Recovery,
};
use crate::pipeline::compress::{compressed, lossless};
use crate::pipeline::sequence::{
    in_tag_order, is_run, lemma_min_tag, min_tag, wrapped, SEQUENCE_SIZE,
};
use vstd::prelude::*;

verus! {

/// Filtering a sequence and then forgetting the order is forgetting the
/// order and then filtering.
pub proof fn lemma_filter_to_multiset<A>(items: Seq<A>, test: spec_fn(A) -> bool)
    ensures
        items.filter(test).to_multiset() == items.to_multiset().filter(test),
    decreases items.len(),
{
    broadcast use vstd::multiset::group_multiset_axioms;
    broadcast use vstd::seq_lib::group_to_multiset_ensures;

    if items.len() == 0 {
        items.lemma_filter_len(test);
        assert(items.filter(test) =~= Seq::<A>::empty());
        assert(items =~= Seq::<A>::empty());
        assert(items.filter(test).to_multiset() =~= items.to_multiset().filter(test));
    } else {
        let init = items.drop_last();
        let last = items.last();
        lemma_filter_to_multiset(init, test);
        init.lemma_filter_push(last, test);
        assert(init.push(last) =~= items);
        assert(items.to_multiset() =~= init.to_multiset().insert(last));
        if test(last) {
            assert(items.filter(test).to_multiset() =~= init.filter(test).to_multiset().insert(
                last,
            ));
        }
        assert(items.filter(test).to_multiset() =~= items.to_multiset().filter(test));
    }
}

/// Two sequences with the same items, each as often, have the same length
/// and the same members.
pub proof fn lemma_same_members<A>(first: Seq<A>, second: Seq<A>)
    requires
        first.to_multiset() == second.to_multiset(),
    ensures
        first.len() == second.len(),
        forall|item: A| first.contains(item) <==> second.contains(item),
{
    broadcast use vstd::seq_lib::group_to_multiset_ensures;

    assert(first.len() == first.to_multiset().len());
    assert(second.len() == second.to_multiset().len());
    assert forall|item: A| first.contains(item) <==> second.contains(item) by {
        assert(first.contains(item) <==> first.to_multiset().count(item) > 0);
        assert(second.contains(item) <==> second.to_multiset().count(item) > 0);
    }
}

/// The values `base`, `base + 1`, ... : `count` of them.
pub open spec fn run_values(base: u128, count: nat) -> Set<u128>
    decreases count,
{
    if count == 0 {
        Set::empty()
    } else {
        run_values(base, (count - 1) as nat).insert((base + count - 1) as u128)
    }
}

/// The values of a run that does not wrap are `count` different numbers.
pub proof fn lemma_run_values(base: u128, count: nat)
    requires
        run_fits(base, count),
    ensures
        run_values(base, count).finite(),
        run_values(base, count).len() == count,
        forall|value: u128|
            run_values(base, count).contains(value) <==> base <= value < base + count,
    decreases count,
{
    broadcast use vstd::set::group_set_axioms;

    if count > 0 {
        lemma_run_values(base, (count - 1) as nat);
    }
}

/// The tags of a run are all different.
pub proof fn lemma_run_no_duplicates(tags: Seq<u128>)
    requires
        is_run(tags),
    ensures
        tags.no_duplicates(),
{
    broadcast use vstd::set::group_set_axioms;
    broadcast use vstd::seq_lib::seq_to_set_is_finite;

    if tags.len() > 0 {
        let base = min_tag(tags);
        let values = run_values(base, tags.len());
        lemma_run_values(base, tags.len());
        assert forall|value: u128| values.contains(value) implies tags.to_set().contains(
            value,
        ) by {
            let k = value - base;
            assert(tags.contains(((base + k) as u128)));
        }
        assert(values.subset_of(tags.to_set()));
        vstd::set_lib::lemma_len_subset(values, tags.to_set());
        tags.lemma_cardinality_of_set();
        tags.lemma_no_dup_set_cardinality();
    }
}

/// The tags of equal collections of blocks have the same members.
proof fn lemma_same_tags(first: Seq<Seq<u8>>, second: Seq<Seq<u8>>)
    requires
        first.to_multiset() == second.to_multiset(),
    ensures
        forall|tag: u128| block_tags(first).contains(tag) ==> block_tags(second).contains(tag),
{
    lemma_same_members(first, second);
    assert forall|tag: u128| block_tags(first).contains(tag) implies block_tags(second).contains(
        tag,
    ) by {
        let i = choose|i: int| 0 <= i < first.len() && block_tags(first)[i] == tag;
        assert(first.contains(first[i]));
        assert(second.contains(first[i]));
        let j = choose|j: int| 0 <= j < second.len() && second[j] == first[i];
        assert(block_tags(second)[j] == tag);
    }
}

/// Equal collections of blocks have the same smallest tag, and the tags of
/// the one are a run exactly when the tags of the other are.
proof fn lemma_same_run(first: Seq<Seq<u8>>, second: Seq<Seq<u8>>)
    requires
        first.to_multiset() == second.to_multiset(),
    ensures
        first.len() == second.len(),
        min_tag(block_tags(first)) == min_tag(block_tags(second)),
        is_run(block_tags(first)) == is_run(block_tags(second)),
{
    lemma_same_members(first, second);
    lemma_same_tags(first, second);
    lemma_same_tags(second, first);
    let a = block_tags(first);
    let b = block_tags(second);
    if first.len() > 0 {
        lemma_min_tag(a);
        lemma_min_tag(b);
        assert(b.contains(min_tag(a)));
        assert(a.contains(min_tag(b)));
        let at_b = choose|i: int| 0 <= i < b.len() && b[i] == min_tag(a);
        let at_a = choose|i: int| 0 <= i < a.len() && a[i] == min_tag(b);
        assert(min_tag(b) <= b[at_b]);
        assert(min_tag(a) <= a[at_a]);
        if is_run(a) {
            assert forall|k: int| 0 <= k < b.len() implies b.contains(
                #[trigger] ((min_tag(b) + k) as u128),
            ) by {
                assert(a.contains(((min_tag(a) + k) as u128)));
            }
        }
        if is_run(b) {
            assert forall|k: int| 0 <= k < a.len() implies a.contains(
                #[trigger] ((min_tag(a) + k) as u128),
            ) by {
                assert(b.contains(((min_tag(b) + k) as u128)));
            }
        }
    }
}

/// Equal collections of blocks whose tags are a run give the same payloads
/// in tag order.
proof fn lemma_same_order(first: Seq<Seq<u8>>, second: Seq<Seq<u8>>, header: VhcHeader)
    requires
        first.to_multiset() == second.to_multiset(),
        is_run(block_tags(first)),
    ensures
        in_tag_order(block_tags(first), block_payloads(first, header)) == in_tag_order(
            block_tags(second),
            block_payloads(second, header),
        ),
{
    lemma_same_members(first, second);
    lemma_same_run(first, second);
    let a = block_tags(first);
    let b = block_tags(second);
    let base = min_tag(a);
    lemma_run_no_duplicates(b);
    let left = in_tag_order(a, block_payloads(first, header));
    let right = in_tag_order(b, block_payloads(second, header));
    assert forall|k: int| 0 <= k < left.len() implies #[trigger] left[k] == right[k] by {
        let value = (base + k) as u128;
        assert(a.contains(value));
        assert(b.contains(value));
        let i = a.index_of(value);
        let j = b.index_of(value);
        assert(0 <= i < a.len() && a[i] == value);
        assert(0 <= j < b.len() && b[j] == value);
        assert(first.contains(first[i]));
        assert(second.contains(first[i]));
        let at = choose|at: int| 0 <= at < second.len() && second[at] == first[i];
        assert(b[at] == value);
        assert(at == j);
    }
    assert(left =~= right);
}

/// Order independence. Two pools that hold the same blocks, each as often,
/// in whatever order, give the same recovery under every secret.
pub proof fn lemma_recovery_ignores_order(
    pool: Seq<Seq<u8>>,
    shuffled: Seq<Seq<u8>>,
    secret: Seq<u8>,
    header: VhcHeader,
)
    requires
        pool.to_multiset() == shuffled.to_multiset(),
    ensures
        recovery(pool, secret, header) == recovery(shuffled, secret, header),
{
    let test = authentic_under(secret, header);
    let first = winnowed(pool, secret, header);
    let second = winnowed(shuffled, secret, header);
    lemma_filter_to_multiset(pool, test);
    lemma_filter_to_multiset(shuffled, test);
    lemma_same_run(first, second);
    if first.len() > 0 && is_run(block_tags(first)) {
        lemma_same_order(first, second, header);
    }
}

/// Isolation. A pool that holds the blocks of two partitions, in whatever
/// order, gives each secret its own data back, provided no block of the one
/// partition authenticates under the secret of the other, the sequence tags
/// of neither wrap, and the compression backend is lossless on both
/// payloads.
pub proof fn lemma_two_partitions(
    pool: Seq<Seq<u8>>,
    first: Seq<Seq<u8>>,
    second: Seq<Seq<u8>>,
    first_data: Seq<u8>,
    second_data: Seq<u8>,
    target: nat,
    first_secret: Seq<u8>,
    second_secret: Seq<u8>,
    header: VhcHeader,
    first_key: Seq<u8>,
    second_key: Seq<u8>,
    first_base: u128,
    second_base: u128,
)
    requires
        header.is_valid(),
        target > 0,
        header.block_size * target <= usize::MAX,
        first_key.len() == 32,
        second_key.len() == 32,
        first_data.len() <= usize::MAX,
        second_data.len() <= usize::MAX,
        META_SIZE + compressed(first_data, header.compression).len() <= header.block_size
            * target,
        META_SIZE + compressed(second_data, header.compression).len() <= header.block_size
            * target,
        run_fits(first_base, target + key_blocks(header.aont)),
        run_fits(second_base, target + key_blocks(header.aont)),
        lossless(first_data, header.compression),
        lossless(second_data, header.compression),
        first == partition_blocks(
            compressed(first_data, header.compression),
            first_data.len(),
            target,
            first_secret,
            header,
            first_key,
            first_base,
        ),
        second == partition_blocks(
            compressed(second_data, header.compression),
            second_data.len(),
            target,
            second_secret,
            header,
            second_key,
            second_base,
        ),
        forall|i: int|
            0 <= i < second.len() ==> !authenticates(#[trigger] second[i], first_secret, header),
        forall|i: int|
            0 <= i < first.len() ==> !authenticates(#[trigger] first[i], second_secret, header),
        pool.to_multiset() == (first + second).to_multiset(),
    ensures
        recovery(pool, first_secret, header) == Recovery::Recovered(first_data),
        recovery(pool, second_secret, header) == Recovery::Recovered(second_data),
{
    let both = first + second;
    lemma_recovery_ignores_order(pool, both, first_secret, header);
    lemma_recovery_ignores_order(pool, both, second_secret, header);
    lemma_own_blocks_kept(first, first_data, target, first_secret, header, first_key, first_base);
    lemma_own_blocks_kept(
        second,
        second_data,
        target,
        second_secret,
        header,
        second_key,
        second_base,
    );
    lemma_none_kept(second, first_secret, header);
    lemma_none_kept(first, second_secret, header);
    Seq::filter_distributes_over_add(first, second, authentic_under(first_secret, header));
    Seq::filter_distributes_over_add(first, second, authentic_under(second_secret, header));
    assert(winnowed(both, first_secret, header) =~= first);
    assert(winnowed(both, second_secret, header) =~= second);
    lemma_partition_recovered(
        first,
        first_data,
        target,
        first_secret,
        header,
        first_key,
        first_base,
    );
    lemma_partition_recovered(
        second,
        second_data,
        target,
        second_secret,
        header,
        second_key,
        second_base,
    );
}

/// Every block of a partition authenticates under the partition's secret.
pub proof fn lemma_own_blocks_kept(
    blocks: Seq<Seq<u8>>,
    data: Seq<u8>,
    target: nat,
    secret: Seq<u8>,
    header: VhcHeader,
    key: Seq<u8>,
    base: u128,
)
    requires
        header.is_valid(),
        target > 0,
        META_SIZE + compressed(data, header.compression).len() <= header.block_size * target,
        blocks == partition_blocks(
            compressed(data, header.compression),
            data.len(),
            target,
            secret,
            header,
            key,
            base,
        ),
    ensures
        blocks.len() == target + key_blocks(header.aont),
        winnowed(blocks, secret, header) == blocks,
{
    let payload = padded(
        framed(compressed(data, header.compression), data.len()),
        (header.block_size * target) as nat,
    );
    let plain = transformed(payload, header, key);
    lemma_transformed_shape(payload, header, key, target);
    assert forall|i: int| 0 <= i < blocks.len() implies authenticates(
        #[trigger] blocks[i],
        secret,
        header,
    ) by {
        assert(plain[i].len() == header.block_size);
        lemma_stored_block(wrapped(base + i), plain[i], secret, header);
    }
    lemma_all_kept(blocks, secret, header);
}

/// A third secret, under which no block of the pool authenticates, recovers
/// nothing from a pool in any order.
pub proof fn lemma_stranger_recovers_nothing(
    pool: Seq<Seq<u8>>,
    blocks: Seq<Seq<u8>>,
    secret: Seq<u8>,
    header: VhcHeader,
)
    requires
        pool.to_multiset() == blocks.to_multiset(),
        forall|i: int| 0 <= i < blocks.len() ==> !authenticates(#[trigger] blocks[i], secret, header),
    ensures
        recovery(pool, secret, header) == Recovery::NothingAuthenticated,
{
    lemma_recovery_ignores_order(pool, blocks, secret, header);
    lemma_foreign_secret(blocks, secret, header);
}

/// Appending does not disturb. A pool that holds the old blocks and the
/// appended ones, in whatever order, gives a secret what the old pool gave
/// it, provided none of the appended blocks authenticates under that
/// secret.
pub proof fn lemma_append_keeps_recovery(
    pool: Seq<Seq<u8>>,
    appended: Seq<Seq<u8>>,
    after: Seq<Seq<u8>>,
    secret: Seq<u8>,
    header: VhcHeader,
)
    requires
        after.to_multiset() == (pool + appended).to_multiset(),
        forall|i: int|
            0 <= i < appended.len() ==> !authenticates(#[trigger] appended[i], secret, header),
    ensures
        recovery(after, secret, header) == recovery(pool, secret, header),
{
    lemma_recovery_ignores_order(after, pool + appended, secret, header);
    lemma_none_kept(appended, secret, header);
    Seq::filter_distributes_over_add(pool, appended, authentic_under(secret, header));
    assert(winnowed(pool + appended, secret, header) =~= winnowed(pool, secret, header));
}

/// A block whose authentication tag was changed, and nothing else, does not
/// authenticate any more.
pub proof fn lemma_changed_tag_rejected(
    block: Seq<u8>,
    changed: Seq<u8>,
    secret: Seq<u8>,
    header: VhcHeader,
)
    requires
        authenticates(block, secret, header),
        changed.len() == block.len(),
        changed.take(SEQUENCE_SIZE + header.block_size) == block.take(
            SEQUENCE_SIZE + header.block_size,
        ),
        changed != block,
    ensures
        !authenticates(changed, secret, header),
{
    let cut = SEQUENCE_SIZE + header.block_size;
    if changed.skip(cut) == block.skip(cut) {
        assert(changed =~= changed.take(cut) + changed.skip(cut));
        assert(block =~= block.take(cut) + block.skip(cut));
    }
}

/// All or nothing, for the blocks inside a run. When one block of a
/// partition, neither its first nor its last, is replaced by bytes that do
/// not authenticate, recovery fails: the tags of what is left are not one
/// run any more.
pub proof fn lemma_inner_block_lost(
    data: Seq<u8>,
    target: nat,
    secret: Seq<u8>,
    header: VhcHeader,
    key: Seq<u8>,
    base: u128,
    position: int,
    damaged: Seq<u8>,
)
    requires
        header.is_valid(),
        target > 0,
        META_SIZE + compressed(data, header.compression).len() <= header.block_size * target,
        run_fits(base, target + key_blocks(header.aont)),
        0 < position < target + key_blocks(header.aont) - 1,
        !authenticates(damaged, secret, header),
    ensures
        recovery(
            partition_blocks(
                compressed(data, header.compression),
                data.len(),
                target,
                secret,
                header,
                key,
                base,
            ).update(position, damaged),
            secret,
            header,
        ) == Recovery::BrokenSequence,
{
    let blocks = partition_blocks(
        compressed(data, header.compression),
        data.len(),
        target,
        secret,
        header,
        key,
        base,
    );
    let payload = padded(
        framed(compressed(data, header.compression), data.len()),
        (header.block_size * target) as nat,
    );
    let plain = transformed(payload, header, key);
    lemma_transformed_shape(payload, header, key, target);
    lemma_own_blocks_kept(blocks, data, target, secret, header, key, base);
    lemma_stored_blocks_read(plain, base, secret, header);
    let n = blocks.len() as int;
    let test = authentic_under(secret, header);
    let before = blocks.take(position);
    let behind = blocks.skip(position + 1);
    let pool = blocks.update(position, damaged);
    assert(pool =~= before + seq![damaged] + behind);
    assert forall|i: int| 0 <= i < n implies authenticates(#[trigger] blocks[i], secret, header) by {
        blocks.lemma_filter_pred(test, i);
    }
    assert forall|i: int| 0 <= i < before.len() implies authenticates(
        #[trigger] before[i],
        secret,
        header,
    ) by {
        assert(before[i] == blocks[i]);
    }
    assert forall|i: int| 0 <= i < behind.len() implies authenticates(
        #[trigger] behind[i],
        secret,
        header,
    ) by {
        assert(behind[i] == blocks[position + 1 + i]);
    }
    lemma_all_kept(before, secret, header);
    lemma_all_kept(behind, secret, header);
    lemma_none_kept(seq![damaged], secret, header);
    Seq::filter_distributes_over_add(before, seq![damaged], test);
    Seq::filter_distributes_over_add(before + seq![damaged], behind, test);
    let kept = winnowed(pool, secret, header);
    assert(kept =~= before + behind);
    let tags = block_tags(kept);
    assert forall|i: int| 0 <= i < tags.len() implies #[trigger] tags[i] == if i < position {
        base + i
    } else {
        base + i + 1
    } by {
        if i < position {
            assert(kept[i] == blocks[i]);
            assert(block_tags(blocks)[i] == wrapped(base + i));
        } else {
            assert(kept[i] == blocks[i + 1]);
            assert(block_tags(blocks)[i + 1] == wrapped(base + i + 1));
        }
    }
    lemma_min_tag(tags);
    let at = choose|i: int| 0 <= i < tags.len() && tags[i] == min_tag(tags);
    assert(min_tag(tags) <= tags[0]);
    assert(tags[at] >= base);
    assert(min_tag(tags) == base);
    if is_run(tags) {
        let missing = (base + position) as u128;
        assert(tags.contains(missing));
        let found = choose|i: int| 0 <= i < tags.len() && tags[i] == missing;
        assert(tags[found] == base + position);
    }
}

/// Contiguity. Whenever recovery gives a payload, the sequence tags of the
/// blocks it kept count up from the smallest one by one: every value of the
/// run occurs among them, and none occurs twice.
pub proof fn lemma_recovered_tags_are_a_run(
    pool: Seq<Seq<u8>>,
    secret: Seq<u8>,
    header: VhcHeader,
)
    requires
        recovery(pool, secret, header) is Recovered,
    ensures
        winnowed(pool, secret, header).len() > 0,
        is_run(block_tags(winnowed(pool, secret, header))),
        block_tags(winnowed(pool, secret, header)).no_duplicates(),
{
    lemma_run_no_duplicates(block_tags(winnowed(pool, secret, header)));
}

} // verus!
