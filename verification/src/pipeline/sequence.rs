//! Sequence tags: 128-bit numbers that restore the order of a partition's
//! blocks after the pool has been shuffled.
//!
//! A partition's blocks carry consecutive tags. Recovery sorts the blocks it
//! could authenticate by tag and accepts them only if the tags form one
//! contiguous run.

use crate::backend::random_u128;
use crate::bytes::{append_bytes, lemma_rows_push, rows};
use vstd::bytes::{
    lemma_auto_spec_u128_to_from_le_bytes, spec_u128_from_le_bytes, spec_u128_to_le_bytes,
    u128_from_le_bytes, u128_to_le_bytes,
};
use vstd::prelude::*;

verus! {

/// Size of a sequence tag in bytes.
pub const SEQUENCE_SIZE: usize = 16;

/// A 128-bit sequence number, kept as its sixteen little-endian bytes.
#[derive(Debug, Clone, Copy, PartialEq, Eq, PartialOrd, Ord)]
pub struct SequenceNumber([u8; 16]);

impl View for SequenceNumber {
    type V = u128;

    /// The number that the sixteen bytes encode.
    closed spec fn view(&self) -> u128 {
        spec_u128_from_le_bytes(self.0@)
    }
}

impl SequenceNumber {
    /// The sixteen bytes as they are written to a block.
    pub closed spec fn bytes(&self) -> Seq<u8> {
        self.0@
    }

    /// Bytes and number determine each other.
    pub proof fn lemma_bytes(&self)
        ensures
            self.bytes().len() == SEQUENCE_SIZE,
            self.bytes() == spec_u128_to_le_bytes(self@),
            self@ == spec_u128_from_le_bytes(self.bytes()),
    {
        lemma_auto_spec_u128_to_from_le_bytes();
    }

    /// The sequence number with the given value.
    pub fn new(value: u128) -> (r: SequenceNumber)
        ensures
            r@ == value,
            r.bytes() == spec_u128_to_le_bytes(value),
    {
        proof {
            lemma_auto_spec_u128_to_from_le_bytes();
        }
        let text = u128_to_le_bytes(value);
        let bytes = leading_tag(text.as_slice());
        assert(bytes@ =~= spec_u128_to_le_bytes(value));
        assert(spec_u128_from_le_bytes(spec_u128_to_le_bytes(value)) == value);
        assert(spec_u128_from_le_bytes(bytes@) == value);
        let r = SequenceNumber(bytes);
        assert(r.0@ == bytes@);
        assert(r@ == value);
        r
    }

    /// The sequence number that the sixteen bytes encode.
    pub fn from_bytes(bytes: [u8; 16]) -> (r: SequenceNumber)
        ensures
            r.bytes() == bytes@,
            r@ == spec_u128_from_le_bytes(bytes@),
    {
        SequenceNumber(bytes)
    }

    /// The sixteen little-endian bytes.
    pub fn as_bytes(&self) -> (r: &[u8; 16])
        ensures
            r@ == self.bytes(),
    {
        &self.0
    }

    /// The value as a number.
    pub fn to_u128(&self) -> (r: u128)
        ensures
            r == self@,
    {
        u128_from_le_bytes(self.0.as_slice())
    }

    /// Adds one, wrapping from the largest value to zero.
    pub fn increment(&mut self)
        ensures
            final(self)@ == if old(self)@ == u128::MAX {
                0
            } else {
                (old(self)@ + 1) as u128
            },
    {
        let value = self.to_u128();
        let next: u128 = if value == u128::MAX {
            0
        } else {
            value + 1
        };
        *self = SequenceNumber::new(next);
    }
}

impl Default for SequenceNumber {
    fn default() -> (r: SequenceNumber)
        ensures
            r@ == 0,
    {
        SequenceNumber::new(0)
    }
}

/// A block with its sequence number attached.
#[derive(Debug, Clone)]
pub struct SequencedBlock {
    pub sequence: SequenceNumber,
    pub data: Vec<u8>,
}

/// The tags of a list of sequenced blocks.
pub open spec fn tags_of(blocks: Seq<SequencedBlock>) -> Seq<u128> {
    Seq::new(blocks.len(), |i: int| blocks[i].sequence@)
}

/// The payloads of a list of sequenced blocks.
pub open spec fn payloads_of(blocks: Seq<SequencedBlock>) -> Seq<Seq<u8>> {
    Seq::new(blocks.len(), |i: int| blocks[i].data@)
}

/// The smallest tag; zero for an empty list.
pub open spec fn min_tag(tags: Seq<u128>) -> u128
    decreases tags.len(),
{
    if tags.len() == 0 {
        0
    } else if tags.len() == 1 {
        tags[0]
    } else {
        let rest = min_tag(tags.drop_last());
        if tags.last() < rest {
            tags.last()
        } else {
            rest
        }
    }
}

/// The tags are a contiguous run: counting up from the smallest, without
/// passing the largest number there is, every value occurs among them, as
/// many values as there are tags.
pub open spec fn is_run(tags: Seq<u128>) -> bool {
    tags.len() > 0 ==> {
        &&& min_tag(tags) + tags.len() - 1 <= u128::MAX
        &&& forall|k: int|
            0 <= k < tags.len() ==> tags.contains(#[trigger] ((min_tag(tags) + k) as u128))
    }
}

/// The payloads in the order of their tags, for tags that are a run.
pub open spec fn in_tag_order(tags: Seq<u128>, payloads: Seq<Seq<u8>>) -> Seq<Seq<u8>> {
    Seq::new(tags.len(), |k: int| payloads[tags.index_of((min_tag(tags) + k) as u128)])
}

/// A number reduced to 128 bits.
pub open spec fn wrapped(value: int) -> u128 {
    (value % (u128::MAX + 1)) as u128
}

/// Tags counting up from `base`, wrapping at the largest number.
pub open spec fn tags_from(base: u128, count: nat) -> Seq<u128> {
    Seq::new(count, |i: int| wrapped(base + i))
}

impl SequencedBlock {
    /// Attaches a sequence number to a payload.
    pub fn new(sequence: SequenceNumber, data: Vec<u8>) -> (r: SequencedBlock)
        ensures
            r.sequence == sequence,
            r.data == data,
    {
        SequencedBlock { sequence, data }
    }

    /// The sixteen tag bytes followed by the payload.
    pub fn to_bytes(&self) -> (bytes: Vec<u8>)
        ensures
            bytes@ == self.sequence.bytes() + self.data@,
    {
        let mut bytes: Vec<u8> = Vec::with_capacity(SEQUENCE_SIZE);
        append_bytes(&mut bytes, self.sequence.as_bytes().as_slice());
        append_bytes(&mut bytes, self.data.as_slice());
        bytes
    }

    /// Reads a tag and a payload back; `None` for fewer than sixteen bytes.
    pub fn from_bytes(bytes: &[u8]) -> (r: Option<SequencedBlock>)
        ensures
            bytes@.len() < SEQUENCE_SIZE ==> r is None,
            bytes@.len() >= SEQUENCE_SIZE ==> r is Some && r->Some_0.sequence.bytes()
                == bytes@.take(SEQUENCE_SIZE as int) && r->Some_0.data@ == bytes@.skip(
                SEQUENCE_SIZE as int,
            ),
    {
        if bytes.len() < SEQUENCE_SIZE {
            return None;
        }
        let tag = leading_tag(bytes);
        let data = vstd::slice::slice_to_vec(
            vstd::slice::slice_subrange(bytes, SEQUENCE_SIZE, bytes.len()),
        );
        assert(data@ =~= bytes@.skip(SEQUENCE_SIZE as int));
        Some(SequencedBlock { sequence: SequenceNumber::from_bytes(tag), data })
    }
}

/// The first sixteen bytes as an array.
pub fn leading_tag(bytes: &[u8]) -> (tag: [u8; 16])
    requires
        bytes@.len() >= SEQUENCE_SIZE,
    ensures
        tag@ == bytes@.take(SEQUENCE_SIZE as int),
{
    let mut tag: [u8; 16] = [0u8; 16];
    let mut i: usize = 0;
    while i < 16
        invariant
            i <= 16,
            bytes@.len() >= 16,
            forall|j: int| 0 <= j < i ==> tag@[j] == bytes@[j],
        decreases 16 - i,
    {
        tag[i] = bytes[i];
        i += 1;
    }
    assert(tag@ =~= bytes@.take(16));
    tag
}

/// Numbers the blocks consecutively from `base` on, in the order given,
/// wrapping at the largest number.
pub fn sequence_blocks(blocks: Vec<Vec<u8>>, base: u128) -> (r: Vec<SequencedBlock>)
    ensures
        r@.len() == blocks@.len(),
        tags_of(r@) == tags_from(base, blocks@.len()),
        payloads_of(r@) == rows(blocks@),
{
    let mut seq = SequenceNumber::new(base);
    let mut r: Vec<SequencedBlock> = Vec::with_capacity(blocks.len());
    let ghost expected = tags_from(base, blocks@.len());
    let mut i: usize = 0;
    while i < blocks.len()
        invariant
            i <= blocks@.len(),
            r@.len() == i,
            expected == tags_from(base, blocks@.len()),
            seq@ == wrapped(base + i),
            tags_of(r@) == expected.take(i as int),
            payloads_of(r@) == rows(blocks@).take(i as int),
        decreases blocks@.len() - i,
    {
        let data = vstd::slice::slice_to_vec(blocks[i].as_slice());
        let ghost before = r@;
        r.push(SequencedBlock::new(seq, data));
        proof {
            assert(tags_of(r@) =~= tags_of(before).push(seq@));
            assert(payloads_of(r@) =~= payloads_of(before).push(data@));
            assert(expected.take(i as int).push(seq@) =~= expected.take(i + 1));
            assert(rows(blocks@).take(i as int).push(data@) =~= rows(blocks@).take(i + 1));
        }
        seq.increment();
        i += 1;
    }
    assert(expected.take(blocks@.len() as int) =~= expected);
    assert(rows(blocks@).take(blocks@.len() as int) =~= rows(blocks@));
    r
}

/// Index `t` is listed in `order`.
pub open spec fn listed(order: Seq<usize>, t: int) -> bool {
    exists|i: int| 0 <= i < order.len() && #[trigger] order[i] == t
}

/// `order` lists every index below `n` exactly once.
pub open spec fn is_permutation(order: Seq<usize>, n: nat) -> bool {
    &&& order.len() == n
    &&& forall|i: int| 0 <= i < n ==> (#[trigger] order[i]) < n
    &&& forall|i: int, j: int| 0 <= i < j < n ==> order[i] != order[j]
    &&& forall|t: int| 0 <= t < n ==> #[trigger] listed(order, t)
}

/// The tags read in the order that `order` gives.
pub open spec fn reordered(tags: Seq<u128>, order: Seq<usize>) -> Seq<u128> {
    Seq::new(order.len(), |i: int| tags[order[i] as int])
}

/// The first `upto` tags, read in the order that `order` gives, ascend.
pub open spec fn ascending(tags: Seq<u128>, order: Seq<usize>, upto: int) -> bool {
    forall|a: int, b: int| 0 <= a < b < upto ==> tags[order[a] as int] <= tags[order[b] as int]
}

proof fn lemma_swap_keeps_permutation(order: Seq<usize>, n: nat, j: int)
    requires
        is_permutation(order, n),
        0 < j < n,
    ensures
        is_permutation(order.update(j, order[j - 1]).update(j - 1, order[j]), n),
{
    let swapped = order.update(j, order[j - 1]).update(j - 1, order[j]);
    assert forall|t: int| 0 <= t < n implies #[trigger] listed(swapped, t) by {
        assert(listed(order, t));
        let i = choose|i: int| 0 <= i < n && #[trigger] order[i] == t;
        if i == j {
            assert(swapped[j - 1] == t);
        } else if i == j - 1 {
            assert(swapped[j] == t);
        } else {
            assert(swapped[i] == t);
        }
    }
    assert forall|a: int, b: int| 0 <= a < b < n implies swapped[a] != swapped[b] by {
        let pa = if a == j {
            j - 1
        } else if a == j - 1 {
            j
        } else {
            a
        };
        let pb = if b == j {
            j - 1
        } else if b == j - 1 {
            j
        } else {
            b
        };
        assert(swapped[a] == order[pa] && swapped[b] == order[pb] && pa != pb);
        if pa < pb {
            assert(order[pa] != order[pb]);
        } else {
            assert(order[pb] != order[pa]);
        }
    }
}

/// The indices of `tags` in ascending order of tag (insertion sort).
fn sorted_order(tags: &Vec<u128>) -> (order: Vec<usize>)
    ensures
        is_permutation(order@, tags@.len()),
        ascending(tags@, order@, tags@.len() as int),
{
    let n = tags.len();
    let mut order: Vec<usize> = Vec::with_capacity(n);
    let mut k: usize = 0;
    while k < n
        invariant
            k <= n,
            n == tags@.len(),
            order@.len() == k,
            forall|i: int| 0 <= i < k ==> order@[i] == i,
        decreases n - k,
    {
        order.push(k);
        k += 1;
    }
    assert(is_permutation(order@, n as nat)) by {
        assert forall|t: int| 0 <= t < n implies #[trigger] listed(order@, t) by {
            assert(order@[t] == t);
        }
    }
    let mut i: usize = 1;
    while i < n
        invariant
            1 <= i,
            n == tags@.len(),
            is_permutation(order@, n as nat),
            ascending(tags@, order@, if i <= n { i as int } else { n as int }),
        decreases n - i,
    {
        let mut j: usize = i;
        while j > 0 && tags[order[j - 1]] > tags[order[j]]
            invariant
                j <= i < n,
                n == tags@.len(),
                is_permutation(order@, n as nat),
                forall|a: int, b: int|
                    0 <= a < b <= i && a != j && b != j ==> tags@[order@[a] as int]
                        <= tags@[order@[b] as int],
                forall|b: int| j < b <= i ==> tags@[order@[j as int] as int] <= tags@[order@[b] as int],
            decreases j,
        {
            proof {
                lemma_swap_keeps_permutation(order@, n as nat, j as int);
            }
            let ghost before = order@;
            let low = order[j - 1];
            let high = order[j];
            order[j] = low;
            order[j - 1] = high;
            j -= 1;
            assert forall|a: int, b: int| 0 <= a < b <= i && a != j && b != j implies tags@[order@[a] as int]
                <= tags@[order@[b] as int] by {
                if b == j + 1 {
                    assert(tags@[before[a] as int] <= tags@[before[j as int] as int]);
                } else if a == j + 1 {
                    assert(tags@[before[j as int] as int] <= tags@[before[b] as int]);
                } else {
                    assert(tags@[before[a] as int] <= tags@[before[b] as int]);
                }
            }
        }
        i += 1;
        assert(ascending(tags@, order@, i as int)) by {
            assert forall|a: int, b: int| 0 <= a < b < i implies tags@[order@[a] as int]
                <= tags@[order@[b] as int] by {
                if a == j {
                } else if b == j {
                    if a < j - 1 {
                        assert(tags@[order@[a] as int] <= tags@[order@[j - 1] as int]);
                    }
                } else {
                }
            }
        }
    }
    proof {
        if n == 0 {
            assert(ascending(tags@, order@, 0));
        }
    }
    order
}

/// The smallest tag is one of the tags and no tag is smaller.
pub proof fn lemma_min_tag(tags: Seq<u128>)
    requires
        tags.len() > 0,
    ensures
        tags.contains(min_tag(tags)),
        forall|i: int| 0 <= i < tags.len() ==> min_tag(tags) <= #[trigger] tags[i],
    decreases tags.len(),
{
    if tags.len() == 1 {
        assert(tags[0] == min_tag(tags));
    } else {
        let init = tags.drop_last();
        lemma_min_tag(init);
        let at = choose|i: int| 0 <= i < init.len() && init[i] == min_tag(init);
        assert(tags[at] == init[at]);
        assert(tags[tags.len() - 1] == tags.last());
        assert forall|i: int| 0 <= i < tags.len() implies min_tag(tags) <= #[trigger] tags[i] by {
            if i < init.len() {
                assert(init[i] == tags[i]);
            }
        }
    }
}

/// The first tag of an ascending reading of all tags is the smallest tag.
proof fn lemma_first_is_min(tags: Seq<u128>, order: Seq<usize>)
    requires
        tags.len() > 0,
        is_permutation(order, tags.len()),
        ascending(tags, order, tags.len() as int),
    ensures
        min_tag(tags) == tags[order[0] as int],
{
    lemma_min_tag(tags);
    let first = tags[order[0] as int];
    let at = choose|i: int| 0 <= i < tags.len() && tags[i] == min_tag(tags);
    assert(listed(order, at));
    let pos = choose|i: int| 0 <= i < tags.len() && #[trigger] order[i] == at;
    if pos > 0 {
        assert(tags[order[0] as int] <= tags[order[pos] as int]);
    }
    assert(min_tag(tags) <= tags[order[0] as int]);
}

/// A strictly increasing list of positions below its own length is the
/// identity.
proof fn lemma_increasing_is_identity(positions: Seq<int>)
    requires
        forall|k: int| 0 <= k < positions.len() ==> 0 <= #[trigger] positions[k] < positions.len(),
        forall|k: int|
            0 <= k < positions.len() - 1 ==> #[trigger] positions[k] < positions[k + 1],
    ensures
        forall|k: int| 0 <= k < positions.len() ==> #[trigger] positions[k] == k,
{
    assert forall|k: int| 0 <= k < positions.len() implies #[trigger] positions[k] == k by {
        lemma_increasing_lower(positions, k);
        lemma_increasing_upper(positions, k);
    }
}

proof fn lemma_increasing_lower(positions: Seq<int>, k: int)
    requires
        forall|k: int| 0 <= k < positions.len() ==> 0 <= #[trigger] positions[k] < positions.len(),
        forall|k: int|
            0 <= k < positions.len() - 1 ==> #[trigger] positions[k] < positions[k + 1],
        0 <= k < positions.len(),
    ensures
        positions[k] >= k,
    decreases k,
{
    if k > 0 {
        lemma_increasing_lower(positions, k - 1);
        assert(positions[k - 1] < positions[k - 1 + 1]);
    }
}

proof fn lemma_increasing_upper(positions: Seq<int>, k: int)
    requires
        forall|k: int| 0 <= k < positions.len() ==> 0 <= #[trigger] positions[k] < positions.len(),
        forall|k: int|
            0 <= k < positions.len() - 1 ==> #[trigger] positions[k] < positions[k + 1],
        0 <= k < positions.len(),
    ensures
        positions[k] <= k,
    decreases positions.len() - k,
{
    if k < positions.len() - 1 {
        lemma_increasing_upper(positions, k + 1);
        assert(positions[k] < positions[k + 1]);
    }
}

/// Some position of the ascending reading holds the value `base + k`.
spec fn holds_value(sorted: Seq<u128>, base: int, k: int) -> bool {
    exists|q: int| 0 <= q < sorted.len() && #[trigger] sorted[q] == base + k
}

/// A position of the ascending reading that holds the value `base + k`.
spec fn position_of_value(sorted: Seq<u128>, base: int, k: int) -> int {
    choose|q: int| 0 <= q < sorted.len() && #[trigger] sorted[q] == base + k
}

/// Tags that are a run, read in ascending order, count up from the smallest
/// one by one.
proof fn lemma_run_sorted(tags: Seq<u128>, order: Seq<usize>)
    requires
        tags.len() > 0,
        is_run(tags),
        is_permutation(order, tags.len()),
        ascending(tags, order, tags.len() as int),
    ensures
        forall|i: int|
            0 <= i < tags.len() ==> tags[#[trigger] order[i] as int] == tags[order[0] as int] + i,
{
    let n = tags.len() as int;
    let base = min_tag(tags);
    lemma_first_is_min(tags, order);
    let sorted = reordered(tags, order);
    assert forall|k: int| 0 <= k < n implies #[trigger] holds_value(sorted, base as int, k) by {
        let value = (base + k) as u128;
        assert(tags.contains(value));
        let at = choose|i: int| 0 <= i < tags.len() && tags[i] == value;
        assert(listed(order, at));
        let q = choose|i: int| 0 <= i < n && #[trigger] order[i] == at;
        assert(sorted[q] == base + k);
    }
    let positions = Seq::new(n as nat, |k: int| position_of_value(sorted, base as int, k));
    assert forall|k: int| 0 <= k < n implies 0 <= #[trigger] positions[k] < n && sorted[positions[k]]
        == base + k by {
        assert(holds_value(sorted, base as int, k));
    }
    assert forall|k: int| 0 <= k < n - 1 implies #[trigger] positions[k] < positions[k + 1] by {
        let p = positions[k];
        let q = positions[k + 1];
        assert(sorted[p] == base + k && sorted[q] == base + k + 1);
        if q < p {
            assert(tags[order[q] as int] <= tags[order[p] as int]);
        }
    }
    lemma_increasing_is_identity(positions);
    assert forall|i: int| 0 <= i < n implies tags[#[trigger] order[i] as int] == tags[order[0] as int]
        + i by {
        assert(positions[i] == i);
        assert(sorted[i] == base + i);
    }
}

/// Tags that count up from the first one by one when read in ascending order
/// are a run, and reading the payloads in tag order is reading them in that
/// order.
proof fn lemma_counting_is_run(tags: Seq<u128>, payloads: Seq<Seq<u8>>, order: Seq<usize>)
    requires
        tags.len() > 0,
        payloads.len() == tags.len(),
        is_permutation(order, tags.len()),
        ascending(tags, order, tags.len() as int),
        forall|i: int|
            0 <= i < tags.len() ==> tags[#[trigger] order[i] as int] == tags[order[0] as int] + i,
    ensures
        is_run(tags),
        in_tag_order(tags, payloads) == Seq::new(tags.len(), |k: int| payloads[order[k] as int]),
{
    let n = tags.len() as int;
    let base = min_tag(tags);
    lemma_first_is_min(tags, order);
    assert(tags[order[n - 1] as int] == base + (n - 1));
    assert forall|k: int| 0 <= k < n implies tags.contains(#[trigger] ((base + k) as u128)) by {
        assert(tags[order[k] as int] == base + k);
    }
    assert forall|k: int| 0 <= k < n implies tags.index_of((base + k) as u128) == order[k] by {
        let value = (base + k) as u128;
        assert(tags[order[k] as int] == value);
        let at = tags.index_of(value);
        assert(0 <= at < n && tags[at] == value);
        assert(listed(order, at));
        let q = choose|i: int| 0 <= i < n && #[trigger] order[i] == at;
        assert(tags[order[q] as int] == base + q);
    }
    assert(in_tag_order(tags, payloads) =~= Seq::new(
        tags.len(),
        |k: int| payloads[order[k] as int],
    ));
}

/// Puts the blocks in the order of their tags and takes the tags off.
/// Succeeds exactly when the tags form one contiguous run; a gap, a
/// duplicate or a run that would pass the largest number gives `None`.
pub fn unsequence_blocks(blocks: Vec<SequencedBlock>) -> (r: Option<Vec<Vec<u8>>>)
    ensures
        match r {
            Some(ordered) => is_run(tags_of(blocks@)) && rows(ordered@) == in_tag_order(
                tags_of(blocks@),
                payloads_of(blocks@),
            ),
            None => !is_run(tags_of(blocks@)),
        },
{
    let n = blocks.len();
    let ghost all_tags = tags_of(blocks@);
    let ghost payloads = payloads_of(blocks@);
    if n == 0 {
        let ordered: Vec<Vec<u8>> = Vec::new();
        assert(rows(ordered@) =~= in_tag_order(all_tags, payloads));
        return Some(ordered);
    }
    let mut tags: Vec<u128> = Vec::with_capacity(n);
    let mut t: usize = 0;
    while t < n
        invariant
            t <= n,
            n == blocks@.len(),
            all_tags == tags_of(blocks@),
            tags@ == all_tags.take(t as int),
        decreases n - t,
    {
        tags.push(blocks[t].sequence.to_u128());
        t += 1;
        assert(tags@ =~= all_tags.take(t as int));
    }
    assert(all_tags.take(n as int) =~= all_tags);
    let order = sorted_order(&tags);
    let base: u128 = tags[order[0]];
    proof {
        lemma_first_is_min(all_tags, order@);
    }
    if base > u128::MAX - ((n - 1) as u128) {
        return None;
    }
    let mut ordered: Vec<Vec<u8>> = Vec::with_capacity(n);
    let ghost expected = Seq::new(n as nat, |k: int| payloads[order@[k] as int]);
    let mut i: usize = 0;
    while i < n
        invariant
            i <= n,
            0 < n == blocks@.len(),
            all_tags == tags_of(blocks@),
            payloads == payloads_of(blocks@),
            tags@ == all_tags,
            is_permutation(order@, n as nat),
            ascending(all_tags, order@, n as int),
            base == all_tags[order@[0] as int],
            base + (n - 1) <= u128::MAX,
            forall|k: int| 0 <= k < i ==> all_tags[#[trigger] order@[k] as int] == base + k,
            expected == Seq::new(n as nat, |k: int| payloads[order@[k] as int]),
            rows(ordered@) == expected.take(i as int),
        decreases n - i,
    {
        if tags[order[i]] != base + (i as u128) {
            proof {
                if is_run(all_tags) {
                    lemma_run_sorted(all_tags, order@);
                    assert(all_tags[order@[i as int] as int] == base + i);
                }
            }
            return None;
        }
        let data = vstd::slice::slice_to_vec(blocks[order[i]].data.as_slice());
        proof {
            lemma_rows_push(ordered@, data);
            assert(expected.take(i as int).push(data@) =~= expected.take(i + 1));
        }
        ordered.push(data);
        i += 1;
    }
    proof {
        assert(expected.take(n as int) =~= expected);
        lemma_counting_is_run(all_tags, payloads, order@);
    }
    Some(ordered)
}

/// Draws the tag of a partition's first block at random.
pub fn generate_sequence_base() -> u128 {
    random_u128()
}

} // verus!
