//! Small helpers on byte strings and on lists of byte strings.

use vstd::prelude::*;

verus! {

/// The mathematical value of a list of byte vectors: the sequence of their
/// contents.
pub open spec fn rows(blocks: Seq<Vec<u8>>) -> Seq<Seq<u8>> {
    Seq::new(blocks.len(), |i: int| blocks[i]@)
}

/// `len` bytes of `data` starting at `start`, with zeros where `data` has
/// ended.
pub open spec fn window(data: Seq<u8>, start: int, len: nat) -> Seq<u8> {
    Seq::new(
        len,
        |j: int|
            if 0 <= start + j < data.len() {
                data[start + j]
            } else {
                0u8
            },
    )
}

/// Every row has length `width`.
pub open spec fn uniform(rows: Seq<Seq<u8>>, width: nat) -> bool {
    forall|i: int| 0 <= i < rows.len() ==> (#[trigger] rows[i]).len() == width
}

pub proof fn lemma_rows_push(blocks: Seq<Vec<u8>>, block: Vec<u8>)
    ensures
        rows(blocks.push(block)) == rows(blocks).push(block@),
{
    assert(rows(blocks.push(block)) =~= rows(blocks).push(block@));
}

/// Copies `len` bytes of `data` from `start` on, writing zeros past its end.
pub fn copy_window(data: &[u8], start: usize, len: usize) -> (out: Vec<u8>)
    ensures
        out@ == window(data@, start as int, len as nat),
{
    let mut out: Vec<u8> = Vec::with_capacity(len);
    let mut j: usize = 0;
    while j < len
        invariant
            j <= len,
            out@ == window(data@, start as int, j as nat),
        decreases len - j,
    {
        let byte: u8 = if j < data.len() && start < data.len() - j {
            data[start + j]
        } else {
            0u8
        };
        out.push(byte);
        j += 1;
        assert(out@ =~= window(data@, start as int, j as nat));
    }
    out
}

/// Appends the bytes of `extra` to `out`.
pub fn append_bytes(out: &mut Vec<u8>, extra: &[u8])
    ensures
        final(out)@ == old(out)@ + extra@,
{
    let mut j: usize = 0;
    while j < extra.len()
        invariant
            j <= extra@.len(),
            out@ == old(out)@ + extra@.take(j as int),
        decreases extra@.len() - j,
    {
        out.push(extra[j]);
        j += 1;
        assert(out@ =~= old(out)@ + extra@.take(j as int));
    }
    assert(extra@.take(extra@.len() as int) =~= extra@);
}

/// Whether two byte strings are the same.
pub fn same_bytes(a: &[u8], b: &[u8]) -> (same: bool)
    ensures
        same == (a@ == b@),
{
    if a.len() != b.len() {
        return false;
    }
    let mut i: usize = 0;
    while i < a.len()
        invariant
            i <= a@.len(),
            a@.len() == b@.len(),
            a@.take(i as int) == b@.take(i as int),
        decreases a@.len() - i,
    {
        if a[i] != b[i] {
            return false;
        }
        i += 1;
        assert(a@.take(i as int) =~= a@.take(i - 1).push(a@[i - 1]));
        assert(b@.take(i as int) =~= b@.take(i - 1).push(b@[i - 1]));
    }
    assert(a@.take(a@.len() as int) =~= a@);
    assert(b@.take(b@.len() as int) =~= b@);
    true
}

} // verus!
