//! Reshaping a byte string as fixed-size blocks and back.

use crate::bytes::{append_bytes, copy_window, lemma_rows_push, rows, uniform, window};
use vstd::prelude::*;

verus! {

/// Number of blocks of `block_size` bytes needed for `len` bytes: the
/// quotient rounded up, and one block for nothing at all.
pub open spec fn block_count_for(len: nat, block_size: nat) -> nat {
    if len == 0 {
        1
    } else {
        ((len - 1) / block_size as int + 1) as nat
    }
}

/// The blocks of `data`: block `i` holds the bytes from `i * block_size` on,
/// and the last block is filled up with zeros.
pub open spec fn segmented(data: Seq<u8>, block_size: nat) -> Seq<Seq<u8>> {
    Seq::new(
        block_count_for(data.len(), block_size),
        |i: int| window(data, i * block_size, block_size),
    )
}

/// The bytes of all blocks in order, cut to `original_size` where they are
/// longer.
pub open spec fn unsegmented(blocks: Seq<Seq<u8>>, original_size: nat) -> Seq<u8> {
    let all = blocks.flatten();
    if original_size < all.len() {
        all.take(original_size as int)
    } else {
        all
    }
}

/// Splits `data` into blocks of `block_size` bytes, padding the last one with
/// zeros. Empty input gives one block of zeros.
pub fn segment(data: &[u8], block_size: usize) -> (blocks: Vec<Vec<u8>>)
    requires
        block_size > 0 || data@.len() == 0,
    ensures
        rows(blocks@) == segmented(data@, block_size as nat),
        blocks@.len() == block_count_for(data@.len(), block_size as nat),
        uniform(rows(blocks@), block_size as nat),
{
    let mut blocks: Vec<Vec<u8>> = Vec::new();
    if data.len() == 0 {
        let block = copy_window(data, 0, block_size);
        proof {
            lemma_rows_push(blocks@, block);
        }
        blocks.push(block);
        proof {
            let expected = segmented(data@, block_size as nat);
            assert(expected.len() == 1);
            assert(rows(blocks@)[0] == block@);
            assert(expected[0] == window(data@, 0int, block_size as nat));
            assert(rows(blocks@) =~= expected);
        }
        return blocks;
    }
    let count: usize = (data.len() - 1) / block_size + 1;
    let mut i: usize = 0;
    let mut offset: usize = 0;
    while i < count
        invariant
            block_size > 0,
            0 < data@.len() <= usize::MAX,
            count == block_count_for(data@.len(), block_size as nat),
            i <= count,
            i < count ==> offset == i * block_size && offset < data@.len(),
            blocks@.len() == i,
            rows(blocks@) == segmented(data@, block_size as nat).take(i as int),
        decreases count - i,
    {
        let block = copy_window(data, offset, block_size);
        proof {
            lemma_rows_push(blocks@, block);
            assert(segmented(data@, block_size as nat).take(i as int).push(block@)
                =~= segmented(data@, block_size as nat).take(i + 1));
            assert((i + 1) * block_size == i * block_size + block_size) by (nonlinear_arith);
            let len = data@.len() as int;
            let b = block_size as int;
            assert(i + 1 < count ==> 0 <= (i + 1) * b < len) by (nonlinear_arith)
                requires
                    count == (len - 1) / b + 1,
                    b > 0,
                    len > 0,
                    0 <= i,
            {
                if i + 1 < count {
                    assert(i + 1 <= (len - 1) / b);
                    assert((i + 1) * b <= ((len - 1) / b) * b);
                    assert(((len - 1) / b) * b <= len - 1);
                }
            }
        }
        blocks.push(block);
        i += 1;
        if i < count {
            offset += block_size;
        }
    }
    assert(segmented(data@, block_size as nat).take(count as int) =~= segmented(
        data@,
        block_size as nat,
    ));
    blocks
}

/// Joins blocks again and drops the padding: everything after
/// `original_size` bytes.
pub fn unsegment(blocks: &[Vec<u8>], original_size: usize) -> (data: Vec<u8>)
    ensures
        data@ == unsegmented(rows(blocks@), original_size as nat),
{
    let mut data: Vec<u8> = Vec::new();
    let mut i: usize = 0;
    while i < blocks.len()
        invariant
            i <= blocks@.len(),
            data@ == rows(blocks@).take(i as int).flatten(),
        decreases blocks@.len() - i,
    {
        proof {
            rows(blocks@).take(i as int).lemma_flatten_push(rows(blocks@)[i as int]);
            assert(rows(blocks@).take(i as int).push(rows(blocks@)[i as int]) =~= rows(
                blocks@,
            ).take(i + 1));
        }
        append_bytes(&mut data, blocks[i].as_slice());
        i += 1;
    }
    assert(rows(blocks@).take(blocks@.len() as int) =~= rows(blocks@));
    data.truncate(original_size);
    data
}

/// Number of blocks that `segment` produces for `data_size` bytes.
pub fn block_count(data_size: usize, block_size: usize) -> (count: usize)
    requires
        block_size > 0,
    ensures
        count == block_count_for(data_size as nat, block_size as nat),
{
    if data_size == 0 {
        1
    } else {
        (data_size - 1) / block_size + 1
    }
}

/// A byte string that fills whole blocks is cut without padding: the blocks
/// all have the block size, there are as many as the size goes into the
/// length, and laid end to end they are the byte string again.
pub proof fn lemma_segmented_exact(data: Seq<u8>, block_size: nat, count: nat)
    requires
        block_size > 0,
        count > 0,
        data.len() == block_size * count,
    ensures
        segmented(data, block_size).len() == count,
        uniform(segmented(data, block_size), block_size),
        segmented(data, block_size).flatten() == data,
{
    let b = block_size as int;
    let n = count as int;
    let len = data.len() as int;
    assert(len - 1 == (n - 1) * b + (b - 1) && len == n * b + 0) by (nonlinear_arith)
        requires
            len == b * n,
    ;
    vstd::arithmetic::div_mod::lemma_fundamental_div_mod_converse(len - 1, b, n - 1, b - 1);
    vstd::arithmetic::div_mod::lemma_fundamental_div_mod_converse(len, b, n, 0);
    let blocks = segmented(data, block_size);
    let pieces = crate::pipeline::fragment::chunked(data, block_size);
    assert(blocks.len() == n);
    assert(pieces.len() == n);
    assert forall|i: int| 0 <= i < n implies blocks[i] == pieces[i] by {
        assert(0 <= i * b && (i + 1) * b <= len && (i + 1) * b == i * b + b) by (nonlinear_arith)
            requires
                0 <= i < n,
                b > 0,
                len == b * n,
        ;
        assert(blocks[i] =~= pieces[i]);
    }
    assert(blocks =~= pieces);
    crate::pipeline::fragment::lemma_flatten_chunked(data, block_size);
}

} // verus!
