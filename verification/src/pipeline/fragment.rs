//! Cutting blocks into fragments and putting them together again.
//!
//! The all-or-nothing transform works on pieces smaller than a block, while
//! storage and authentication see whole blocks. Both directions are plain
//! regrouping of the same bytes, which the lemmas at the end make precise.

use crate::bytes::{append_bytes, copy_window, lemma_rows_push, rows, uniform};
use vstd::arithmetic::div_mod::{lemma_div_multiples_vanish, lemma_fundamental_div_mod};
use vstd::prelude::*;

verus! {

/// A sequence cut into consecutive pieces of `width` items; what is left
/// over at the end is dropped.
pub open spec fn chunked<A>(items: Seq<A>, width: nat) -> Seq<Seq<A>> {
    Seq::new(
        (items.len() / width) as nat,
        |i: int| items.subrange(i * width, (i + 1) * width),
    )
}

/// The fragments of one block.
pub open spec fn fragments_of(block: Seq<u8>, fragment_size: nat) -> Seq<Seq<u8>> {
    chunked(block, fragment_size)
}

/// The fragments of all blocks, in order, as one flat list.
pub open spec fn all_fragments(blocks: Seq<Seq<u8>>, fragment_size: nat) -> Seq<Seq<u8>> {
    blocks.map_values(|block: Seq<u8>| fragments_of(block, fragment_size)).flatten()
}

/// How many fragments the first block gives; zero for no blocks.
pub open spec fn fragments_in_first(blocks: Seq<Seq<u8>>, fragment_size: nat) -> nat {
    if blocks.len() == 0 {
        0
    } else {
        (blocks[0].len() / fragment_size) as nat
    }
}

/// A flat list of fragments put back into blocks of `per_block` fragments
/// each; fragments left over at the end are dropped.
pub open spec fn regrouped(fragments: Seq<Seq<u8>>, per_block: nat) -> Seq<Seq<u8>> {
    if fragments.len() == 0 || per_block == 0 {
        Seq::empty()
    } else {
        chunked(fragments, per_block).map_values(|group: Seq<Seq<u8>>| group.flatten())
    }
}

/// Every block can be cut into fragments of `fragment_size` bytes without a
/// remainder.
pub open spec fn divisible(blocks: Seq<Seq<u8>>, fragment_size: nat) -> bool {
    forall|i: int| 0 <= i < blocks.len() ==> (#[trigger] blocks[i]).len() % fragment_size == 0
}

/// The fragment size preferred for a block size, apart from any header: the
/// first of 64, 128, 32, 256 and 16 that divides the block size, else
/// the largest power of two below 16 that does.
pub open spec fn preferred_fragment_size(block_size: nat) -> nat {
    if block_size % 64 == 0 {
        64
    } else if block_size % 128 == 0 {
        128
    } else if block_size % 32 == 0 {
        32
    } else if block_size % 256 == 0 {
        256
    } else if block_size % 16 == 0 {
        16
    } else if block_size % 8 == 0 {
        8
    } else if block_size % 4 == 0 {
        4
    } else if block_size % 2 == 0 {
        2
    } else {
        1
    }
}

/// Cuts one block into fragments of `fragment_size` bytes.
pub fn fragment_block(block: &[u8], fragment_size: usize) -> (fragments: Vec<Vec<u8>>)
    requires
        fragment_size > 0,
        block@.len() % (fragment_size as nat) == 0,
    ensures
        rows(fragments@) == fragments_of(block@, fragment_size as nat),
        fragments@.len() == block@.len() / (fragment_size as nat),
        uniform(rows(fragments@), fragment_size as nat),
{
    let count: usize = block.len() / fragment_size;
    let ghost expected = fragments_of(block@, fragment_size as nat);
    let mut fragments: Vec<Vec<u8>> = Vec::with_capacity(count);
    let mut i: usize = 0;
    let mut offset: usize = 0;
    proof {
        lemma_fundamental_div_mod(block@.len() as int, fragment_size as int);
    }
    while i < count
        invariant
            fragment_size > 0,
            block@.len() == fragment_size * count,
            block@.len() <= usize::MAX,
            expected == fragments_of(block@, fragment_size as nat),
            expected.len() == count,
            i <= count,
            offset == i * fragment_size,
            fragments@.len() == i,
            rows(fragments@) == expected.take(i as int),
        decreases count - i,
    {
        let ghost f = fragment_size as int;
        assert(0 <= i * f && (i + 1) * f <= block@.len() && (i + 1) * f == i * f + f)
            by (nonlinear_arith)
            requires
                0 <= i < count,
                f > 0,
                block@.len() == f * count,
        ;
        let fragment = copy_window(block, offset, fragment_size);
        proof {
            assert(fragment@ =~= block@.subrange(i * f, (i + 1) * f));
            lemma_rows_push(fragments@, fragment);
            assert(expected.take(i as int).push(fragment@) =~= expected.take(i + 1));
        }
        fragments.push(fragment);
        i += 1;
        offset += fragment_size;
    }
    proof {
        assert(expected.take(count as int) =~= expected);
        lemma_flatten_chunked(block@, fragment_size as nat);
    }
    fragments
}

/// Cuts every block into fragments and returns them as one flat list,
/// together with the number of fragments that the first block gave.
pub fn fragment_all(blocks: &[Vec<u8>], fragment_size: usize) -> (r: (Vec<Vec<u8>>, usize))
    requires
        blocks@.len() > 0 ==> fragment_size > 0 && divisible(rows(blocks@), fragment_size as nat),
    ensures
        rows(r.0@) == all_fragments(rows(blocks@), fragment_size as nat),
        r.1 == fragments_in_first(rows(blocks@), fragment_size as nat),
{
    let mut all: Vec<Vec<u8>> = Vec::new();
    let ghost cut = |block: Seq<u8>| fragments_of(block, fragment_size as nat);
    if blocks.len() == 0 {
        assert(rows(blocks@).map_values(cut) =~= Seq::<Seq<Seq<u8>>>::empty());
        assert(rows(all@) =~= all_fragments(rows(blocks@), fragment_size as nat));
        return (all, 0);
    }
    let per_block: usize = blocks[0].len() / fragment_size;
    let mut i: usize = 0;
    while i < blocks.len()
        invariant
            fragment_size > 0,
            divisible(rows(blocks@), fragment_size as nat),
            cut == |block: Seq<u8>| fragments_of(block, fragment_size as nat),
            i <= blocks@.len(),
            rows(all@) == rows(blocks@).take(i as int).map_values(cut).flatten(),
        decreases blocks@.len() - i,
    {
        assert(rows(blocks@)[i as int] == blocks@[i as int]@);
        let mut fragments = fragment_block(blocks[i].as_slice(), fragment_size);
        proof {
            let done = rows(blocks@).take(i as int).map_values(cut);
            done.lemma_flatten_push(rows(fragments@));
            assert(done.push(rows(fragments@)) =~= rows(blocks@).take(i + 1).map_values(cut));
        }
        let ghost before = rows(all@);
        let ghost added = rows(fragments@);
        let ghost all_before = all@;
        let ghost fragments_before = fragments@;
        all.append(&mut fragments);
        assert(rows(all@) =~= before + added) by {
            assert(all@ == all_before + fragments_before);
        }
        i += 1;
    }
    assert(rows(blocks@).take(blocks@.len() as int) =~= rows(blocks@));
    (all, per_block)
}

/// Joins the fragments of one block.
pub fn unfragment_block(fragments: &[Vec<u8>]) -> (block: Vec<u8>)
    ensures
        block@ == rows(fragments@).flatten(),
{
    let mut block: Vec<u8> = Vec::new();
    let mut i: usize = 0;
    while i < fragments.len()
        invariant
            i <= fragments@.len(),
            block@ == rows(fragments@).take(i as int).flatten(),
        decreases fragments@.len() - i,
    {
        proof {
            rows(fragments@).take(i as int).lemma_flatten_push(rows(fragments@)[i as int]);
            assert(rows(fragments@).take(i as int).push(rows(fragments@)[i as int]) =~= rows(
                fragments@,
            ).take(i + 1));
        }
        append_bytes(&mut block, fragments[i].as_slice());
        i += 1;
    }
    assert(rows(fragments@).take(fragments@.len() as int) =~= rows(fragments@));
    block
}

/// Puts a flat list of fragments back into blocks of `fragments_per_block`
/// fragments each.
pub fn unfragment_all(fragments: &[Vec<u8>], fragments_per_block: usize) -> (blocks: Vec<Vec<u8>>)
    ensures
        rows(blocks@) == regrouped(rows(fragments@), fragments_per_block as nat),
{
    let mut blocks: Vec<Vec<u8>> = Vec::new();
    if fragments.len() == 0 || fragments_per_block == 0 {
        assert(rows(blocks@) =~= regrouped(rows(fragments@), fragments_per_block as nat));
        return blocks;
    }
    let count: usize = fragments.len() / fragments_per_block;
    let ghost expected = regrouped(rows(fragments@), fragments_per_block as nat);
    let mut i: usize = 0;
    let mut offset: usize = 0;
    proof {
        lemma_fundamental_div_mod(fragments@.len() as int, fragments_per_block as int);
    }
    while i < count
        invariant
            fragments_per_block > 0,
            fragments@.len() > 0,
            fragments@.len() <= usize::MAX,
            count == fragments@.len() / (fragments_per_block as nat),
            fragments_per_block * count <= fragments@.len(),
            expected == regrouped(rows(fragments@), fragments_per_block as nat),
            expected.len() == count,
            i <= count,
            offset == i * fragments_per_block,
            blocks@.len() == i,
            rows(blocks@) == expected.take(i as int),
        decreases count - i,
    {
        let ghost p = fragments_per_block as int;
        assert(0 <= i * p && (i + 1) * p <= fragments@.len() && (i + 1) * p == i * p + p)
            by (nonlinear_arith)
            requires
                0 <= i < count,
                p > 0,
                p * count <= fragments@.len(),
        ;
        let group = vstd::slice::slice_subrange(fragments, offset, offset + fragments_per_block);
        let block = unfragment_block(group);
        proof {
            assert(rows(group@) =~= rows(fragments@).subrange(i * p, (i + 1) * p));
            lemma_rows_push(blocks@, block);
            assert(expected.take(i as int).push(block@) =~= expected.take(i + 1));
        }
        blocks.push(block);
        i += 1;
        offset += fragments_per_block;
    }
    assert(expected.take(count as int) =~= expected);
    blocks
}

/// Picks a fragment size for a block size from the preference list.
pub fn calculate_fragment_size(block_size: usize) -> (size: usize)
    ensures
        size == preferred_fragment_size(block_size as nat),
        size > 0,
        block_size % size == 0,
{
    if block_size % 64 == 0 {
        64
    } else if block_size % 128 == 0 {
        128
    } else if block_size % 32 == 0 {
        32
    } else if block_size % 256 == 0 {
        256
    } else if block_size % 16 == 0 {
        16
    } else if block_size % 8 == 0 {
        8
    } else if block_size % 4 == 0 {
        4
    } else if block_size % 2 == 0 {
        2
    } else {
        1
    }
}

/// Rows of equal width laid end to end: the result has `rows.len() * width`
/// items, and item `j` of row `i` sits at position `i * width + j`.
pub proof fn lemma_flatten_uniform<A>(rows: Seq<Seq<A>>, width: nat)
    requires
        forall|i: int| 0 <= i < rows.len() ==> (#[trigger] rows[i]).len() == width,
    ensures
        rows.flatten().len() == rows.len() * width,
        forall|i: int, j: int|
            0 <= i < rows.len() && 0 <= j < width ==> rows.flatten()[i * width + j]
                == (#[trigger] rows[i][j]),
    decreases rows.len(),
{
    if rows.len() == 0 {
        assert(rows.flatten() =~= Seq::<A>::empty());
    } else {
        let init = rows.drop_last();
        let last = rows.last();
        lemma_flatten_uniform(init, width);
        init.lemma_flatten_push(last);
        assert(init.push(last) =~= rows);
        let n = rows.len() as int;
        let w = width as int;
        assert(rows.flatten().len() == n * w) by (nonlinear_arith)
            requires
                rows.flatten().len() == (n - 1) * w + w,
        ;
        assert forall|i: int, j: int| 0 <= i < rows.len() && 0 <= j < width implies rows.flatten()[i
            * width + j] == (#[trigger] rows[i][j]) by {
            assert(0 <= i * w + j < n * w && (i < n - 1 ==> i * w + j < (n - 1) * w) && (i == n - 1
                ==> i * w + j - (n - 1) * w == j)) by (nonlinear_arith)
                requires
                    0 <= i < n,
                    0 <= j < w,
            ;
            let flat = init.flatten();
            assert(flat.len() == (n - 1) * w);
            assert(rows.flatten() == flat + last);
            if i < n - 1 {
                assert(init[i][j] == rows[i][j]);
                assert(flat[i * w + j] == init[i][j]);
            } else {
                assert((flat + last)[i * w + j] == last[i * w + j - flat.len()]);
            }
        }
    }
}

/// Cutting rows laid end to end at the row width gives the rows back.
pub proof fn lemma_chunked_flatten<A>(rows: Seq<Seq<A>>, width: nat)
    requires
        width > 0,
        forall|i: int| 0 <= i < rows.len() ==> (#[trigger] rows[i]).len() == width,
    ensures
        chunked(rows.flatten(), width) == rows,
{
    lemma_flatten_uniform(rows, width);
    let flat = rows.flatten();
    let n = rows.len() as int;
    let w = width as int;
    lemma_div_multiples_vanish(n, w);
    assert(n * w == w * n) by (nonlinear_arith);
    assert(chunked(flat, width).len() == n);
    assert forall|i: int| 0 <= i < n implies chunked(flat, width)[i] == rows[i] by {
        assert(0 <= i * w && (i + 1) * w <= n * w && (i + 1) * w == i * w + w) by (nonlinear_arith)
            requires
                0 <= i < n,
                w > 0,
        ;
        let piece = flat.subrange(i * w, (i + 1) * w);
        assert forall|j: int| 0 <= j < w implies piece[j] == rows[i][j] by {
            assert(flat[i * w + j] == rows[i][j]);
        }
        assert(piece =~= rows[i]);
    }
    assert(chunked(flat, width) =~= rows);
}

/// Laying the pieces of a sequence end to end gives the sequence back, when
/// nothing was left over.
pub proof fn lemma_flatten_chunked<A>(items: Seq<A>, width: nat)
    requires
        width > 0,
        items.len() % width == 0,
    ensures
        chunked(items, width).flatten() == items,
        forall|i: int|
            0 <= i < chunked(items, width).len() ==> (#[trigger] chunked(items, width)[i]).len()
                == width,
{
    let pieces = chunked(items, width);
    let w = width as int;
    let n = items.len() as int / w;
    lemma_fundamental_div_mod(items.len() as int, w);
    assert(items.len() == n * w) by (nonlinear_arith)
        requires
            items.len() == w * n,
    ;
    assert forall|i: int| 0 <= i < pieces.len() implies (#[trigger] pieces[i]).len() == width by {
        assert(0 <= i * w && (i + 1) * w <= n * w && (i + 1) * w == i * w + w) by (nonlinear_arith)
            requires
                0 <= i < n,
                w > 0,
        ;
    }
    lemma_flatten_uniform(pieces, width);
    assert forall|k: int| 0 <= k < items.len() implies pieces.flatten()[k] == items[k] by {
        let i = k / w;
        let j = k % w;
        lemma_fundamental_div_mod(k, w);
        assert(0 <= i < n && k == i * w + j) by (nonlinear_arith)
            requires
                0 <= k < n * w,
                w > 0,
                i == k / w,
                j == k % w,
                k == w * i + j,
                0 <= j < w,
        ;
        assert(0 <= i * w && (i + 1) * w <= n * w && (i + 1) * w == i * w + w) by (nonlinear_arith)
            requires
                0 <= i < n,
                w > 0,
        ;
        assert(pieces.flatten()[i * w + j] == pieces[i][j]);
        assert(pieces[i][j] == items[i * w + j]);
    }
    assert(pieces.flatten() =~= items);
}

/// Blocks of one size give fragments of one size, as many per block as the
/// fragment size goes into the block size.
pub proof fn lemma_all_fragments_uniform(blocks: Seq<Seq<u8>>, block_size: nat, fragment_size: nat)
    requires
        uniform(blocks, block_size),
        fragment_size > 0,
        block_size % fragment_size == 0,
    ensures
        uniform(all_fragments(blocks, fragment_size), fragment_size),
        all_fragments(blocks, fragment_size).len() == blocks.len() * (block_size / fragment_size),
        chunked(all_fragments(blocks, fragment_size), block_size / fragment_size)
            == blocks.map_values(|block: Seq<u8>| fragments_of(block, fragment_size))
            || block_size / fragment_size == 0,
{
    let cut = |block: Seq<u8>| fragments_of(block, fragment_size);
    let per_block = block_size / fragment_size;
    let groups = blocks.map_values(cut);
    assert forall|i: int| 0 <= i < groups.len() implies (#[trigger] groups[i]).len()
        == per_block by {
        assert(blocks[i].len() == block_size);
    }
    lemma_flatten_uniform(groups, per_block);
    let all = all_fragments(blocks, fragment_size);
    if per_block > 0 {
        lemma_chunked_flatten(groups, per_block);
        assert forall|k: int| 0 <= k < all.len() implies (#[trigger] all[k]).len()
            == fragment_size by {
            let i = k / per_block as int;
            let j = k % per_block as int;
            lemma_fundamental_div_mod(k, per_block as int);
            assert(0 <= i < groups.len() && k == i * per_block + j) by (nonlinear_arith)
                requires
                    0 <= k < groups.len() * per_block,
                    per_block > 0,
                    k == per_block * i + j,
                    0 <= j < per_block,
            ;
            assert(all[i * per_block + j] == groups[i][j]);
            assert(blocks[i].len() == block_size);
            lemma_flatten_chunked(blocks[i], fragment_size);
            assert(groups[i] == chunked(blocks[i], fragment_size));
        }
    } else {
        assert(all.len() == 0) by (nonlinear_arith)
            requires
                all.len() == groups.len() * per_block,
                per_block == 0,
        ;
    }
}

/// Fragments of one size give blocks of one size when regrouped.
pub proof fn lemma_regrouped_uniform(fragments: Seq<Seq<u8>>, fragment_size: nat, per_block: nat)
    requires
        uniform(fragments, fragment_size),
        per_block > 0,
    ensures
        uniform(regrouped(fragments, per_block), per_block * fragment_size),
        regrouped(fragments, per_block).len() == fragments.len() / per_block,
{
    let blocks = regrouped(fragments, per_block);
    if fragments.len() > 0 {
        let groups = chunked(fragments, per_block);
        let p = per_block as int;
        let n = fragments.len() as int;
        lemma_fundamental_div_mod(n, p);
        assert forall|i: int| 0 <= i < blocks.len() implies (#[trigger] blocks[i]).len()
            == per_block * fragment_size by {
            assert(0 <= i * p && (i + 1) * p <= n && (i + 1) * p == i * p + p) by (nonlinear_arith)
                requires
                    0 <= i < n / p,
                    p > 0,
                    n == p * (n / p) + n % p,
                    0 <= n % p,
            ;
            let group = groups[i];
            assert(group.len() == per_block);
            assert forall|j: int| 0 <= j < group.len() implies (#[trigger] group[j]).len()
                == fragment_size by {
                assert(group[j] == fragments[i * p + j]);
            }
            lemma_flatten_uniform(group, fragment_size);
            assert(blocks[i] == group.flatten());
        }
    } else {
        assert(0int / (per_block as int) == 0);
    }
}

/// Cutting blocks of one size into fragments and regrouping the fragments
/// gives the blocks back.
pub proof fn lemma_regroup_fragments(blocks: Seq<Seq<u8>>, block_size: nat, fragment_size: nat)
    requires
        uniform(blocks, block_size),
        fragment_size > 0,
        block_size > 0,
        block_size % fragment_size == 0,
    ensures
        regrouped(all_fragments(blocks, fragment_size), block_size / fragment_size) == blocks,
{
    let cut = |block: Seq<u8>| fragments_of(block, fragment_size);
    let per_block = block_size / fragment_size;
    lemma_fundamental_div_mod(block_size as int, fragment_size as int);
    assert(per_block > 0) by (nonlinear_arith)
        requires
            block_size == fragment_size * per_block,
            block_size > 0,
            fragment_size > 0,
    ;
    lemma_all_fragments_uniform(blocks, block_size, fragment_size);
    let all = all_fragments(blocks, fragment_size);
    let again = regrouped(all, per_block);
    if blocks.len() == 0 {
        assert(all.len() == 0);
        assert(again =~= blocks);
    } else {
        assert(all.len() > 0) by (nonlinear_arith)
            requires
                all.len() == blocks.len() * per_block,
                blocks.len() > 0,
                per_block > 0,
        ;
        let groups = blocks.map_values(cut);
        assert(chunked(all, per_block) == groups);
        assert forall|i: int| 0 <= i < blocks.len() implies again[i] == blocks[i] by {
            assert(blocks[i].len() == block_size);
            lemma_flatten_chunked(blocks[i], fragment_size);
            assert(groups[i] == chunked(blocks[i], fragment_size));
        }
        assert(again =~= blocks);
    }
}

/// Regrouping fragments of one size into blocks and cutting the blocks
/// again gives the fragments back, when they fill whole blocks.
pub proof fn lemma_fragment_regrouped(
    fragments: Seq<Seq<u8>>,
    fragment_size: nat,
    per_block: nat,
)
    requires
        uniform(fragments, fragment_size),
        fragment_size > 0,
        per_block > 0,
        fragments.len() % per_block == 0,
    ensures
        all_fragments(regrouped(fragments, per_block), fragment_size) == fragments,
{
    let cut = |block: Seq<u8>| fragments_of(block, fragment_size);
    let blocks = regrouped(fragments, per_block);
    if fragments.len() == 0 {
        assert(blocks.map_values(cut) =~= Seq::<Seq<Seq<u8>>>::empty());
        assert(all_fragments(blocks, fragment_size) =~= fragments);
    } else {
        let groups = chunked(fragments, per_block);
        lemma_flatten_chunked(fragments, per_block);
        let p = per_block as int;
        let n = fragments.len() as int;
        lemma_fundamental_div_mod(n, p);
        assert forall|i: int| 0 <= i < groups.len() implies blocks.map_values(cut)[i]
            == groups[i] by {
            assert(0 <= i * p && (i + 1) * p <= n && (i + 1) * p == i * p + p) by (nonlinear_arith)
                requires
                    0 <= i < n / p,
                    p > 0,
                    n == p * (n / p),
            ;
            let group = groups[i];
            assert forall|j: int| 0 <= j < group.len() implies (#[trigger] group[j]).len()
                == fragment_size by {
                assert(group[j] == fragments[i * p + j]);
            }
            lemma_chunked_flatten(group, fragment_size);
            assert(blocks[i] == group.flatten());
        }
        assert(blocks.map_values(cut) =~= groups);
    }
}

} // verus!
