//! The container: a header and an unordered pool of stored blocks.
//!
//! A container file is four magic bytes, the length of the header text as a
//! 32-bit little-endian number, the header text, and the stored blocks one
//! after another. Nothing in it says which blocks belong together. Whenever
//! blocks are appended the whole pool is reshuffled, so that the place of a
//! block carries no information.
//!
//! This module works on bytes in memory; reading and writing files is left
//! to the caller.

use crate::backend::shuffle_blocks;
use crate::bytes::{append_bytes, lemma_rows_push, rows, same_bytes, uniform};
use crate::error::{ErrorView, HypercubeError};
use crate::header::{geometry_error, VhcHeader, META_SIZE};
use crate::header_text::{header_read, header_text, lemma_header_round_trip};
use crate::partition::model::holds_partition;
use crate::partition::order::lemma_same_members;
use crate::partition::{creation_refused, create_partition, fits, generate_chaff};
use crate::pipeline::compress::compressed;
use crate::pipeline::fragment::{chunked, lemma_chunked_flatten, lemma_flatten_uniform};
use vstd::bytes::{
    lemma_auto_spec_u32_to_from_le_bytes, spec_u32_from_le_bytes, spec_u32_to_le_bytes,
    u32_from_le_bytes, u32_to_le_bytes,
};
use vstd::prelude::*;

verus! {

/// Length of the magic bytes and of the header length together.
pub const PREAMBLE_SIZE: usize = 8;

/// Slack left in a cover payload, so that it still fits its blocks when the
/// compression backend makes it a little longer.
pub const CHAFF_SLACK: usize = 64;

/// Length of the secret of a cover partition.
pub const CHAFF_SECRET_SIZE: usize = 32;

/// The magic bytes at the start of a container: `VHC` and the byte 1.
pub open spec fn magic() -> Seq<u8> {
    seq![86u8, 72u8, 67u8, 1u8]
}

/// A container in memory: the header and the stored blocks. Blocks are
/// opaque; the container does not know which partition a block belongs to.
#[derive(Debug)]
pub struct VhcFile {
    pub header: VhcHeader,
    /// Stored blocks: sequence tag, payload, authentication tag.
    pub blocks: Vec<Vec<u8>>,
}

/// The bytes of a container file.
pub open spec fn file_bytes(header: VhcHeader, blocks: Seq<Seq<u8>>) -> Seq<u8> {
    magic() + spec_u32_to_le_bytes(header_text(header).len() as u32) + header_text(header)
        + blocks.flatten()
}

/// What reading a container file comes to.
pub ghost enum FileReading {
    /// A container with a valid header and whole blocks.
    Container { header: VhcHeader, blocks: Seq<Seq<u8>> },
    /// The file does not start with the magic bytes.
    BadMagic,
    /// The file ends before the header does.
    Truncated,
    /// The header text is not the text of a header.
    BadHeader,
    /// The header breaks a geometry rule.
    BadGeometry(ErrorView),
    /// The bytes behind the header are not a whole number of blocks.
    BrokenBlock,
}

/// Reading of the bytes of a container file.
pub open spec fn file_read(data: Seq<u8>) -> FileReading {
    if data.len() < 4 || data.subrange(0, 4) != magic() {
        FileReading::BadMagic
    } else if data.len() < PREAMBLE_SIZE {
        FileReading::Truncated
    } else {
        let header_len = spec_u32_from_le_bytes(data.subrange(4, 8)) as int;
        if data.len() < PREAMBLE_SIZE + header_len {
            FileReading::Truncated
        } else {
            match header_read(data.subrange(PREAMBLE_SIZE as int, PREAMBLE_SIZE + header_len)) {
                None => FileReading::BadHeader,
                Some(header) => match geometry_error(header) {
                    Some(problem) => FileReading::BadGeometry(problem),
                    None => {
                        let body = data.skip(PREAMBLE_SIZE + header_len);
                        if body.len() % header.stored_block_size() != 0 {
                            FileReading::BrokenBlock
                        } else {
                            FileReading::Container {
                                header,
                                blocks: chunked(body, header.stored_block_size()),
                            }
                        }
                    },
                },
            }
        }
    }
}

/// The error that reports a reading that is no container.
pub open spec fn reading_error(reading: FileReading) -> ErrorView {
    match reading {
        FileReading::BadMagic => ErrorView::InvalidFormat("Invalid VHC magic bytes"@),
        FileReading::Truncated => ErrorView::InvalidFormat("Truncated VHC header"@),
        FileReading::BrokenBlock => ErrorView::InvalidFormat(
            "Block data is not a whole number of blocks"@,
        ),
        FileReading::BadGeometry(problem) => problem,
        _ => ErrorView::Json("not the text of a header"@),
    }
}

/// The stored size of a block, where it can be addressed on this machine.
fn stored_size(header: &VhcHeader) -> (size: Option<usize>)
    requires
        header.is_valid(),
    ensures
        match size {
            Some(n) => n == header.stored_block_size() && n > 0,
            None => header.stored_block_size() > usize::MAX,
        },
{
    header.block_size.checked_add(16 + header.mac_bytes())
}

/// The magic bytes.
fn magic_bytes() -> (bytes: [u8; 4])
    ensures
        bytes@ == magic(),
{
    let bytes: [u8; 4] = [86, 72, 67, 1];
    assert(bytes@ =~= magic());
    bytes
}

impl VhcFile {
    /// The number of blocks in the container does not pass the capacity of
    /// the cube.
    pub open spec fn within_capacity(&self) -> bool {
        self.blocks@.len() <= self.header.capacity()
    }

    /// Every block has the stored size that the header gives.
    pub open spec fn whole_blocks(&self) -> bool {
        uniform(rows(self.blocks@), self.header.stored_block_size())
    }

    /// An empty container with the given header.
    pub fn new(header: VhcHeader) -> (r: VhcFile)
        ensures
            r.header == header,
            r.blocks@.len() == 0,
    {
        VhcFile { header, blocks: Vec::new() }
    }

    /// Adds blocks at the end of the pool, as they are: nothing is checked
    /// and nothing is shuffled.
    pub fn add_blocks(&mut self, new_blocks: Vec<Vec<u8>>)
        ensures
            final(self).header == old(self).header,
            rows(final(self).blocks@) == rows(old(self).blocks@) + rows(new_blocks@),
    {
        let mut new_blocks = new_blocks;
        let ghost before = self.blocks@;
        let ghost added = new_blocks@;
        self.blocks.append(&mut new_blocks);
        assert(rows(self.blocks@) =~= rows(before) + rows(added)) by {
            assert(self.blocks@ == before + added);
        }
    }

    /// The number of blocks in the pool.
    pub fn block_count(&self) -> (count: usize)
        ensures
            count == self.blocks@.len(),
    {
        self.blocks.len()
    }
}

/// Writes a container as the bytes of a file. Fails only for a header whose
/// text is too long for its length to be written in 32 bits.
pub fn encode_file(vhc: &VhcFile) -> (r: Result<Vec<u8>, HypercubeError>)
    ensures
        match r {
            Ok(bytes) => header_text(vhc.header).len() <= u32::MAX && bytes@ == file_bytes(
                vhc.header,
                rows(vhc.blocks@),
            ),
            Err(e) => header_text(vhc.header).len() > u32::MAX && e@ == ErrorView::InvalidHeader(
                "Header too long"@,
            ),
        },
{
    let text = match vhc.header.to_bytes() {
        Ok(text) => text,
        Err(e) => {
            return Err(e);
        },
    };
    if text.len() > 0xffff_ffff {
        return Err(HypercubeError::InvalidHeader(String::from_str("Header too long")));
    }
    let mut bytes: Vec<u8> = Vec::new();
    append_bytes(&mut bytes, magic_bytes().as_slice());
    let length = u32_to_le_bytes(text.len() as u32);
    append_bytes(&mut bytes, length.as_slice());
    append_bytes(&mut bytes, text.as_slice());
    let ghost front = bytes@;
    let mut i: usize = 0;
    while i < vhc.blocks.len()
        invariant
            i <= vhc.blocks@.len(),
            bytes@ == front + rows(vhc.blocks@).take(i as int).flatten(),
        decreases vhc.blocks@.len() - i,
    {
        proof {
            let pool = rows(vhc.blocks@);
            pool.take(i as int).lemma_flatten_push(pool[i as int]);
            assert(pool.take(i as int).push(pool[i as int]) =~= pool.take(i + 1));
        }
        append_bytes(&mut bytes, vhc.blocks[i].as_slice());
        i += 1;
    }
    assert(rows(vhc.blocks@).take(vhc.blocks@.len() as int) =~= rows(vhc.blocks@));
    Ok(bytes)
}

/// Reads only the header from the bytes of a container file.
pub fn decode_header(data: &[u8]) -> (r: Result<(VhcHeader, usize), HypercubeError>)
    ensures
        match r {
            Ok((header, body_start)) => {
                &&& PREAMBLE_SIZE <= body_start <= data@.len()
                &&& body_start == PREAMBLE_SIZE + spec_u32_from_le_bytes(data@.subrange(4, 8))
                &&& header_read(data@.subrange(PREAMBLE_SIZE as int, body_start as int)) == Some(
                    header,
                )
                &&& header.is_valid()
                &&& geometry_error(header) is None
                &&& !(file_read(data@) is BadMagic || file_read(data@) is Truncated || file_read(
                    data@,
                ) is BadHeader || file_read(data@) is BadGeometry)
            },
            Err(e) => (file_read(data@) is BadMagic || file_read(data@) is Truncated || file_read(
                data@,
            ) is BadHeader || file_read(data@) is BadGeometry) && (file_read(data@) is BadHeader
                ==> e@ is Json) && (!(file_read(data@) is BadHeader) ==> e@ == reading_error(
                file_read(data@),
            )),
        },
{
    if data.len() < 4 || !same_bytes(
        vstd::slice::slice_subrange(data, 0, 4),
        magic_bytes().as_slice(),
    ) {
        return Err(HypercubeError::InvalidFormat(String::from_str("Invalid VHC magic bytes")));
    }
    if data.len() < PREAMBLE_SIZE {
        return Err(HypercubeError::InvalidFormat(String::from_str("Truncated VHC header")));
    }
    let header_len: u32 = u32_from_le_bytes(vstd::slice::slice_subrange(data, 4, 8));
    if ((data.len() - PREAMBLE_SIZE) as u64) < (header_len as u64) {
        return Err(HypercubeError::InvalidFormat(String::from_str("Truncated VHC header")));
    }
    let body_start: usize = PREAMBLE_SIZE + header_len as usize;
    let text = vstd::slice::slice_subrange(data, PREAMBLE_SIZE, body_start);
    match VhcHeader::from_bytes(text) {
        Ok(header) => Ok((header, body_start)),
        Err(e) => Err(e),
    }
}

/// Reads a container from the bytes of a file: the magic bytes, the header,
/// and the blocks, each of the stored size that the header gives.
///
/// Fails with a format error where the magic bytes are wrong, the file ends
/// before the header does, or the bytes behind the header are not a whole
/// number of blocks; with a `Json` error where the header text is not the
/// text of a header; and with the error of the first geometry rule that the
/// header breaks.
pub fn decode_file(data: &[u8]) -> (r: Result<VhcFile, HypercubeError>)
    ensures
        match file_read(data@) {
            FileReading::Container { header, blocks } => r matches Ok(vhc) && vhc.header == header
                && rows(vhc.blocks@) == blocks && vhc.whole_blocks(),
            FileReading::BadHeader => r matches Err(e) && e@ is Json,
            failure => r matches Err(e) && e@ == reading_error(failure),
        },
{
    let (header, body_start) = match decode_header(data) {
        Ok(found) => found,
        Err(e) => {
            return Err(e);
        },
    };
    let body_len: usize = data.len() - body_start;
    let block_size: usize = match stored_size(&header) {
        Some(size) => size,
        None => {
            // No block of this size fits the machine: only an empty pool is whole.
            if body_len != 0 {
                assert(body_len as int % header.stored_block_size() as int == body_len) by {
                    vstd::arithmetic::div_mod::lemma_small_mod(
                        body_len as nat,
                        header.stored_block_size(),
                    );
                }
                return Err(
                    HypercubeError::InvalidFormat(
                        String::from_str("Block data is not a whole number of blocks"),
                    ),
                );
            }
            let empty: Vec<Vec<u8>> = Vec::new();
            proof {
                let body = data@.skip(body_start as int);
                let size = header.stored_block_size();
                assert(body.len() == 0);
                vstd::arithmetic::div_mod::lemma_small_mod(0, size);
                vstd::arithmetic::div_mod::lemma_basic_div(0, size as int);
                assert(chunked(body, size).len() == 0);
                assert(rows(empty@) =~= chunked(body, size));
                assert(uniform(rows(empty@), size));
            }
            return Ok(VhcFile { header, blocks: empty });
        },
    };
    if body_len % block_size != 0 {
        return Err(
            HypercubeError::InvalidFormat(
                String::from_str("Block data is not a whole number of blocks"),
            ),
        );
    }
    let count: usize = body_len / block_size;
    let ghost body = data@.skip(body_start as int);
    let ghost expected = chunked(body, block_size as nat);
    let mut blocks: Vec<Vec<u8>> = Vec::with_capacity(count);
    let mut i: usize = 0;
    let mut offset: usize = body_start;
    proof {
        vstd::arithmetic::div_mod::lemma_fundamental_div_mod(body_len as int, block_size as int);
    }
    while i < count
        invariant
            i <= count,
            block_size > 0,
            body_start + body_len == data@.len(),
            data@.len() <= usize::MAX,
            body_len == block_size * count,
            body == data@.skip(body_start as int),
            expected == chunked(body, block_size as nat),
            expected.len() == count,
            offset == body_start + i * block_size,
            blocks@.len() == i,
            rows(blocks@) == expected.take(i as int),
            uniform(rows(blocks@), block_size as nat),
        decreases count - i,
    {
        let ghost b = block_size as int;
        assert(0 <= i * b && (i + 1) * b <= body_len && (i + 1) * b == i * b + b) by (nonlinear_arith)
            requires
                0 <= i < count,
                b > 0,
                body_len == b * count,
        ;
        let block = vstd::slice::slice_to_vec(
            vstd::slice::slice_subrange(data, offset, offset + block_size),
        );
        proof {
            assert(block@ =~= body.subrange(i * b, (i + 1) * b));
            lemma_rows_push(blocks@, block);
            assert(expected.take(i as int).push(block@) =~= expected.take(i + 1));
        }
        blocks.push(block);
        i += 1;
        offset += block_size;
    }
    assert(expected.take(count as int) =~= expected);
    Ok(VhcFile { header, blocks })
}

/// The number of whole blocks behind the header of a container file, for a
/// file whose header can be read: what is left of the file, divided by the
/// stored size of a block.
pub open spec fn blocks_behind_header(data: Seq<u8>) -> nat {
    let body_start = PREAMBLE_SIZE + spec_u32_from_le_bytes(data.subrange(4, 8));
    let header = header_read(data.subrange(PREAMBLE_SIZE as int, body_start))->Some_0;
    ((data.len() - body_start) / (header.stored_block_size() as int)) as nat
}

/// The number of blocks in a container file, from its length and its header
/// alone. Bytes at the end that do not fill a block are not counted. Fails
/// as `decode_header` does.
pub fn count_blocks(data: &[u8]) -> (r: Result<usize, HypercubeError>)
    ensures
        match r {
            Ok(count) => !(file_read(data@) is BadMagic || file_read(data@) is Truncated
                || file_read(data@) is BadHeader || file_read(data@) is BadGeometry) && count
                == blocks_behind_header(data@) && (file_read(data@) matches FileReading::Container {
                header,
                blocks,
            } ==> count == blocks.len()),
            Err(e) => (file_read(data@) is BadMagic || file_read(data@) is Truncated || file_read(
                data@,
            ) is BadHeader || file_read(data@) is BadGeometry) && (file_read(data@) is BadHeader
                ==> e@ is Json) && (!(file_read(data@) is BadHeader) ==> e@ == reading_error(
                file_read(data@),
            )),
        },
{
    let (header, body_start) = match decode_header(data) {
        Ok(found) => found,
        Err(e) => {
            return Err(e);
        },
    };
    let body_len: usize = data.len() - body_start;
    match stored_size(&header) {
        Some(size) => Ok(body_len / size),
        None => {
            proof {
                vstd::arithmetic::div_mod::lemma_basic_div(
                    body_len as int,
                    header.stored_block_size() as int,
                );
            }
            Ok(0)
        },
    }
}

/// Container round trip. Reading the bytes written for a container gives
/// its header and its blocks back, for a valid header and blocks of the
/// stored size.
pub proof fn lemma_file_round_trip(header: VhcHeader, blocks: Seq<Seq<u8>>)
    requires
        header.is_valid(),
        header_text(header).len() <= u32::MAX,
        uniform(blocks, header.stored_block_size()),
    ensures
        file_read(file_bytes(header, blocks)) == (FileReading::Container { header, blocks }),
{
    lemma_auto_spec_u32_to_from_le_bytes();
    lemma_header_round_trip(header);
    let text = header_text(header);
    let length = spec_u32_to_le_bytes(text.len() as u32);
    let data = file_bytes(header, blocks);
    let size = header.stored_block_size();
    assert(data.subrange(0, 4) =~= magic());
    assert(data.subrange(4, 8) =~= length);
    assert(data.subrange(PREAMBLE_SIZE as int, PREAMBLE_SIZE + text.len()) =~= text);
    assert(data.skip(PREAMBLE_SIZE + text.len()) =~= blocks.flatten());
    lemma_flatten_uniform(blocks, size);
    lemma_chunked_flatten(blocks, size);
    vstd::arithmetic::div_mod::lemma_mod_multiples_basic(blocks.len() as int, size as int);
}

/// Appends blocks to the pool and reshuffles the whole pool.
///
/// Appending nothing changes nothing. Otherwise the blocks have to have the
/// stored size, else the result is a format error, and the pool must not
/// grow past the capacity of the cube, else the result is `FileFull`; in
/// both cases the container is left as it was. After a success the pool
/// holds the old and the new blocks, each as often as before, in a random
/// order.
pub fn append_blocks(vhc: &mut VhcFile, new_blocks: &[Vec<u8>]) -> (r: Result<(), HypercubeError>)
    requires
        old(vhc).header.is_valid(),
    ensures
        final(vhc).header == old(vhc).header,
        new_blocks@.len() == 0 ==> r is Ok && final(vhc).blocks@ == old(vhc).blocks@,
        match r {
            Ok(()) => {
                &&& uniform(rows(new_blocks@), old(vhc).header.stored_block_size())
                &&& rows(final(vhc).blocks@).to_multiset() == (rows(old(vhc).blocks@) + rows(
                    new_blocks@,
                )).to_multiset()
                &&& final(vhc).blocks@.len() == old(vhc).blocks@.len() + new_blocks@.len()
                &&& new_blocks@.len() > 0 ==> final(vhc).within_capacity()
                &&& old(vhc).within_capacity() ==> final(vhc).within_capacity()
                &&& old(vhc).whole_blocks() ==> final(vhc).whole_blocks()
            },
            Err(e) => {
                &&& final(vhc).blocks@ == old(vhc).blocks@
                &&& new_blocks@.len() > 0
                &&& if old(vhc).blocks@.len() + new_blocks@.len() > old(vhc).header.capacity()
                    || old(vhc).blocks@.len() + new_blocks@.len() > usize::MAX {
                    e@ == ErrorView::FileFull(reported_capacity(old(vhc).header))
                } else {
                    !uniform(rows(new_blocks@), old(vhc).header.stored_block_size()) && e@
                        == ErrorView::InvalidFormat("Block has the wrong size"@)
                }
            },
        },
{
    if new_blocks.len() == 0 {
        assert(uniform(rows(new_blocks@), vhc.header.stored_block_size()));
        assert(rows(vhc.blocks@) + rows(new_blocks@) =~= rows(vhc.blocks@));
        return Ok(());
    }
    let capacity: Option<usize> = vhc.header.blocks_per_partition.checked_mul(
        vhc.header.dimension,
    );
    match capacity {
        Some(limit) => {
            if vhc.blocks.len() > limit || new_blocks.len() > limit - vhc.blocks.len() {
                return Err(HypercubeError::FileFull(limit));
            }
        },
        None => {
            if new_blocks.len() > usize::MAX - vhc.blocks.len() {
                return Err(HypercubeError::FileFull(usize::MAX));
            }
        },
    }
    let block_size: usize = match stored_size(&vhc.header) {
        Some(size) => size,
        None => {
            let first_len = new_blocks[0].len();
            assert(rows(new_blocks@)[0].len() != vhc.header.stored_block_size());
            return Err(HypercubeError::InvalidFormat(String::from_str("Block has the wrong size")));
        },
    };
    let mut i: usize = 0;
    while i < new_blocks.len()
        invariant
            i <= new_blocks@.len(),
            vhc.header == old(vhc).header,
            vhc.blocks@ == old(vhc).blocks@,
            vhc.blocks@.len() + new_blocks@.len() <= vhc.header.capacity(),
            vhc.blocks@.len() + new_blocks@.len() <= usize::MAX,
            block_size == vhc.header.stored_block_size(),
            uniform(rows(new_blocks@).take(i as int), block_size as nat),
        decreases new_blocks@.len() - i,
    {
        if new_blocks[i].len() != block_size {
            assert(rows(new_blocks@)[i as int].len() != vhc.header.stored_block_size());
            return Err(HypercubeError::InvalidFormat(String::from_str("Block has the wrong size")));
        }
        assert(rows(new_blocks@)[i as int] == new_blocks@[i as int]@);
        assert(rows(new_blocks@).take(i + 1) =~= rows(new_blocks@).take(i as int).push(
            rows(new_blocks@)[i as int],
        ));
        i += 1;
    }
    assert(rows(new_blocks@).take(new_blocks@.len() as int) =~= rows(new_blocks@));
    let ghost before = rows(vhc.blocks@);
    let mut j: usize = 0;
    while j < new_blocks.len()
        invariant
            j <= new_blocks@.len(),
            vhc.header == old(vhc).header,
            before == rows(old(vhc).blocks@),
            rows(vhc.blocks@) == before + rows(new_blocks@).take(j as int),
        decreases new_blocks@.len() - j,
    {
        let block = vstd::slice::slice_to_vec(new_blocks[j].as_slice());
        proof {
            lemma_rows_push(vhc.blocks@, block);
            assert(rows(new_blocks@)[j as int] == new_blocks@[j as int]@);
            assert((before + rows(new_blocks@).take(j as int)).push(block@) =~= before + rows(
                new_blocks@,
            ).take(j + 1));
        }
        vhc.blocks.push(block);
        j += 1;
    }
    assert(rows(new_blocks@).take(new_blocks@.len() as int) =~= rows(new_blocks@));
    if vhc.blocks.len() > 1 {
        shuffle_blocks(&mut vhc.blocks);
    }
    proof {
        if old(vhc).whole_blocks() {
            assert(uniform(before + rows(new_blocks@), block_size as nat));
            lemma_uniform_reordered(
                before + rows(new_blocks@),
                rows(vhc.blocks@),
                block_size as nat,
            );
        }
    }
    Ok(())
}

/// The capacity as it is reported in an error: the number of blocks of the
/// full cube, or the largest number there is where that does not fit.
pub open spec fn reported_capacity(header: VhcHeader) -> usize {
    if header.capacity() > usize::MAX {
        usize::MAX
    } else {
        header.capacity() as usize
    }
}

/// Blocks of one size stay of one size in whatever order.
pub proof fn lemma_uniform_reordered(pool: Seq<Seq<u8>>, shuffled: Seq<Seq<u8>>, width: nat)
    requires
        uniform(pool, width),
        shuffled.to_multiset() == pool.to_multiset(),
    ensures
        uniform(shuffled, width),
{
    lemma_same_members(shuffled, pool);
    assert forall|i: int| 0 <= i < shuffled.len() implies (#[trigger] shuffled[i]).len()
        == width by {
        assert(shuffled.contains(shuffled[i]));
        assert(pool.contains(shuffled[i]));
        let at = choose|at: int| 0 <= at < pool.len() && pool[at] == shuffled[i];
        assert(pool[at].len() == width);
    }
}

/// Size of the random payload of a cover partition: what the data blocks of
/// a partition hold, less the metadata and the slack, and at least one
/// byte.
pub open spec fn chaff_size(header: VhcHeader) -> nat {
    let room = header.block_size * header.spec_data_blocks();
    if room > META_SIZE + CHAFF_SLACK + 1 {
        (room - META_SIZE - CHAFF_SLACK) as nat
    } else {
        1
    }
}

/// `piece` is what a cover partition gives to a pool with room for `room`
/// more blocks: the first blocks of a partition that holds `payload` under
/// `secret`, padded to the header's data blocks, as many as there is room
/// for.
pub open spec fn cover_piece(
    piece: Seq<Seq<u8>>,
    payload: Seq<u8>,
    secret: Seq<u8>,
    header: VhcHeader,
    room: nat,
) -> bool {
    exists|full: Seq<Seq<u8>>|
        {
            &&& #[trigger] holds_partition(full, payload, header.spec_data_blocks(), secret, header)
            &&& full.len() == header.blocks_per_partition
            &&& piece == full.take(
                if room < full.len() {
                    room as int
                } else {
                    full.len() as int
                },
            )
        }
}

/// `piece` is the share of some cover partition: of a random payload of the
/// cover size under a secret of 32 bytes.
pub open spec fn is_cover(piece: Seq<Seq<u8>>, header: VhcHeader) -> bool {
    exists|payload: Seq<u8>, secret: Seq<u8>, room: nat|
        payload.len() == chaff_size(header) && secret.len() == CHAFF_SECRET_SIZE
            && #[trigger] cover_piece(piece, payload, secret, header, room)
}

/// `chaff` is made of the shares of cover partitions, one after another.
pub open spec fn is_chaff(chaff: Seq<Seq<u8>>, header: VhcHeader) -> bool {
    exists|pieces: Seq<Seq<Seq<u8>>>|
        #[trigger] pieces.flatten() == chaff && forall|i: int|
            0 <= i < pieces.len() ==> is_cover(#[trigger] pieces[i], header)
}

/// Draws what a cover partition is made of: a random payload of the cover
/// size and a random secret of 32 bytes.
pub fn draw_cover(header: &VhcHeader) -> (r: (Vec<u8>, Vec<u8>))
    requires
        header.is_valid(),
        header.block_size * header.spec_data_blocks() <= usize::MAX,
    ensures
        r.0@.len() == chaff_size(*header),
        r.1@.len() == CHAFF_SECRET_SIZE,
{
    let room: usize = header.block_size * header.data_blocks_per_partition();
    let size: usize = if room > META_SIZE + CHAFF_SLACK + 1 {
        room - META_SIZE - CHAFF_SLACK
    } else {
        1
    };
    (generate_chaff(size), generate_chaff(CHAFF_SECRET_SIZE))
}

/// Makes the cover partition of a drawn payload and secret, padded to the
/// header's data blocks, and gives its first blocks: as many as `room`
/// allows, all of them where there is room for a whole partition.
///
/// Fails as `create_partition` does: with a compression error where the
/// backend fails, and with `DataTooLarge` exactly when the compressed
/// payload does not fit the data blocks.
pub fn cover_partition(payload: &[u8], secret: &[u8], header: &VhcHeader, room: usize) -> (r:
    Result<Vec<Vec<u8>>, HypercubeError>)
    requires
        header.is_valid(),
        header.block_size * header.spec_data_blocks() <= usize::MAX,
    ensures
        match r {
            Ok(blocks) => {
                &&& cover_piece(rows(blocks@), payload@, secret@, *header, room as nat)
                &&& blocks@.len() == if room < header.blocks_per_partition {
                    room
                } else {
                    header.blocks_per_partition
                }
                &&& uniform(rows(blocks@), header.stored_block_size())
                &&& fits(
                    compressed(payload@, header.compression).len(),
                    *header,
                    header.spec_data_blocks(),
                )
            },
            Err(e) => creation_refused(e@, payload@, *header, header.spec_data_blocks()),
        },
{
    let partition = match create_partition(payload, secret, header, None) {
        Ok(partition) => partition,
        Err(e) => {
            return Err(e);
        },
    };
    let produced: usize = partition.blocks.len();
    let take: usize = if room < produced {
        room
    } else {
        produced
    };
    let ghost full = rows(partition.blocks@);
    let mut blocks: Vec<Vec<u8>> = Vec::with_capacity(take);
    let mut i: usize = 0;
    while i < take
        invariant
            i <= take <= produced,
            produced == partition.blocks@.len(),
            full == rows(partition.blocks@),
            rows(blocks@) == full.take(i as int),
        decreases take - i,
    {
        let block = vstd::slice::slice_to_vec(partition.blocks[i].as_slice());
        proof {
            lemma_rows_push(blocks@, block);
            assert(full[i as int] == partition.blocks@[i as int]@);
            assert(full.take(i as int).push(block@) =~= full.take(i + 1));
        }
        blocks.push(block);
        i += 1;
    }
    proof {
        assert(holds_partition(full, payload@, header.spec_data_blocks(), secret@, *header));
        assert forall|k: int| 0 <= k < take implies (#[trigger] rows(blocks@)[k]).len()
            == header.stored_block_size() by {
            assert(rows(blocks@)[k] == full[k]);
        }
    }
    Ok(blocks)
}

/// Fills the rest of the cube with cover blocks: the shares of partitions of
/// random data under random secrets that nobody keeps. Gives the number of
/// blocks added.
///
/// After a success the pool holds exactly as many blocks as the cube has
/// room for; a full container is left as it is and zero is returned. The
/// old blocks all stay, every block added has the stored size, and the
/// whole pool is reshuffled. A container that holds more blocks than the
/// cube has room for gives `FileFull`. Otherwise sealing fails only where a
/// cover partition cannot be made, with the error that `cover_partition`
/// gives for the payload drawn; a header that stores payloads as they are
/// never fails. After any error the container is as it was. The full cube
/// has to be addressable on this machine.
pub fn seal(vhc: &mut VhcFile) -> (r: Result<usize, HypercubeError>)
    requires
        old(vhc).header.is_valid(),
        old(vhc).header.capacity() <= usize::MAX,
        old(vhc).header.block_size * old(vhc).header.spec_data_blocks() <= usize::MAX,
    ensures
        final(vhc).header == old(vhc).header,
        old(vhc).blocks@.len() == old(vhc).header.capacity() ==> r == Ok::<usize, HypercubeError>(0)
            && final(vhc).blocks@ == old(vhc).blocks@,
        old(vhc).header.compression is Uncompressed && old(vhc).blocks@.len() <= old(
            vhc,
        ).header.capacity() ==> r is Ok,
        match r {
            Ok(added) => {
                &&& old(vhc).blocks@.len() <= old(vhc).header.capacity()
                &&& final(vhc).blocks@.len() == old(vhc).header.capacity()
                &&& added == old(vhc).header.capacity() - old(vhc).blocks@.len()
                &&& exists|chaff: Seq<Seq<u8>>|
                    {
                        &&& chaff.len() == added
                        &&& uniform(chaff, old(vhc).header.stored_block_size())
                        &&& is_chaff(chaff, old(vhc).header)
                        &&& #[trigger] (rows(old(vhc).blocks@) + chaff).to_multiset() == rows(
                            final(vhc).blocks@,
                        ).to_multiset()
                    }
                &&& old(vhc).whole_blocks() ==> final(vhc).whole_blocks()
            },
            Err(e) => {
                &&& final(vhc).blocks@ == old(vhc).blocks@
                &&& if old(vhc).blocks@.len() > old(vhc).header.capacity() {
                    e@ == ErrorView::FileFull(reported_capacity(old(vhc).header))
                } else {
                    exists|payload: Seq<u8>|
                        payload.len() == chaff_size(old(vhc).header) && #[trigger] creation_refused(
                            e@,
                            payload,
                            old(vhc).header,
                            old(vhc).header.spec_data_blocks(),
                        )
                }
            },
        },
{
    let header = vhc.header;
    let capacity: usize = header.theoretical_block_count();
    let current: usize = vhc.blocks.len();
    if current > capacity {
        return Err(HypercubeError::FileFull(capacity));
    }
    if current == capacity {
        proof {
            let chaff = Seq::<Seq<u8>>::empty();
            let pieces = Seq::<Seq<Seq<u8>>>::empty();
            assert(pieces.flatten() =~= chaff);
            assert(is_chaff(chaff, header));
            assert(rows(vhc.blocks@) + chaff =~= rows(vhc.blocks@));
            assert((rows(vhc.blocks@) + chaff).to_multiset() == rows(vhc.blocks@).to_multiset());
        }
        return Ok(0);
    }
    let wanted: usize = capacity - current;
    let mut remaining: usize = wanted;
    let mut new_blocks: Vec<Vec<u8>> = Vec::with_capacity(wanted);
    let ghost mut pieces = Seq::<Seq<Seq<u8>>>::empty();
    assert(pieces.flatten() =~= rows(new_blocks@));
    while remaining > 0
        invariant
            header == old(vhc).header,
            header == vhc.header,
            header.is_valid(),
            header.block_size * header.spec_data_blocks() <= usize::MAX,
            vhc.blocks@ == old(vhc).blocks@,
            capacity == header.capacity(),
            current == vhc.blocks@.len(),
            current < capacity,
            wanted == capacity - current,
            new_blocks@.len() + remaining == wanted,
            uniform(rows(new_blocks@), header.stored_block_size()),
            pieces.flatten() == rows(new_blocks@),
            forall|i: int| 0 <= i < pieces.len() ==> is_cover(#[trigger] pieces[i], header),
        decreases remaining,
    {
        let (payload, secret) = draw_cover(&header);
        let mut share = match cover_partition(
            payload.as_slice(),
            secret.as_slice(),
            &header,
            remaining,
        ) {
            Ok(share) => share,
            Err(e) => {
                proof {
                    let data_blocks = header.spec_data_blocks();
                    assert(creation_refused(e@, payload@, header, data_blocks));
                    if header.compression is Uncompressed {
                        assert(compressed(payload@, header.compression) == payload@);
                        assert(header.block_size * data_blocks >= 224) by (nonlinear_arith)
                            requires
                                header.block_size >= 32,
                                data_blocks >= 7,
                        ;
                        assert(fits(payload@.len(), header, data_blocks));
                    }
                }
                return Err(e);
            },
        };
        let ghost piece = rows(share@);
        let ghost before = rows(new_blocks@);
        let ghost blocks_before = new_blocks@;
        let ghost share_before = share@;
        let taken: usize = share.len();
        proof {
            assert(cover_piece(piece, payload@, secret@, header, remaining as nat));
            assert(is_cover(piece, header));
            pieces.lemma_flatten_push(piece);
        }
        new_blocks.append(&mut share);
        proof {
            assert(new_blocks@ == blocks_before + share_before);
            assert(rows(new_blocks@) =~= before + piece);
            pieces = pieces.push(piece);
        }
        remaining -= taken;
    }
    let ghost before = rows(vhc.blocks@);
    let ghost chaff = rows(new_blocks@);
    match append_blocks(vhc, new_blocks.as_slice()) {
        Ok(()) => {
            proof {
                assert(pieces.flatten() == chaff);
                assert(is_chaff(chaff, header));
                assert((before + chaff).to_multiset() == rows(vhc.blocks@).to_multiset());
                if old(vhc).whole_blocks() {
                    assert(uniform(before + chaff, header.stored_block_size()));
                    lemma_uniform_reordered(
                        before + chaff,
                        rows(vhc.blocks@),
                        header.stored_block_size(),
                    );
                }
            }
            Ok(wanted)
        },
        Err(e) => Err(e),
    }
}

/// Adds a payload to a container as a new partition under `secret`: makes
/// the partition, padded to the header's number of data blocks, and appends
/// its blocks. Gives the number of blocks added, which is the header's
/// number of blocks per partition.
///
/// Fails as `create_partition` does, with a compression error where the
/// backend fails and with `DataTooLarge` exactly when the compressed
/// payload does not fit the data blocks; and, where the partition can be
/// made, with `FileFull` exactly when the cube has no room for it. After any
/// error the container is as it was. The padded payload has to be
/// addressable on this machine.
pub fn add_data(vhc: &mut VhcFile, data: &[u8], secret: &[u8]) -> (r: Result<usize, HypercubeError>)
    requires
        old(vhc).header.is_valid(),
        old(vhc).header.block_size * old(vhc).header.spec_data_blocks() <= usize::MAX,
    ensures
        final(vhc).header == old(vhc).header,
        match r {
            Ok(added) => {
                &&& added == old(vhc).header.blocks_per_partition
                &&& final(vhc).blocks@.len() == old(vhc).blocks@.len() + added
                &&& final(vhc).within_capacity()
                &&& exists|blocks: Seq<Seq<u8>>|
                    {
                        &&& holds_partition(
                            blocks,
                            data@,
                            old(vhc).header.spec_data_blocks(),
                            secret@,
                            old(vhc).header,
                        )
                        &&& uniform(blocks, old(vhc).header.stored_block_size())
                        &&& #[trigger] (rows(old(vhc).blocks@) + blocks).to_multiset() == rows(
                            final(vhc).blocks@,
                        ).to_multiset()
                    }
                &&& old(vhc).whole_blocks() ==> final(vhc).whole_blocks()
            },
            Err(e) => {
                let header = old(vhc).header;
                &&& final(vhc).blocks@ == old(vhc).blocks@
                &&& {
                    ||| creation_refused(e@, data@, header, header.spec_data_blocks())
                    ||| fits(
                        compressed(data@, header.compression).len(),
                        header,
                        header.spec_data_blocks(),
                    ) && (old(vhc).blocks@.len() + header.blocks_per_partition > header.capacity()
                        || old(vhc).blocks@.len() + header.blocks_per_partition > usize::MAX) && e@
                        == ErrorView::FileFull(reported_capacity(header))
                }
            },
        },
{
    let header = vhc.header;
    let partition = match create_partition(data, secret, &header, None) {
        Ok(partition) => partition,
        Err(e) => {
            return Err(e);
        },
    };
    let added: usize = partition.blocks.len();
    let ghost before = rows(vhc.blocks@);
    let ghost blocks = rows(partition.blocks@);
    match append_blocks(vhc, partition.blocks.as_slice()) {
        Ok(()) => {
            proof {
                assert((before + blocks).to_multiset() == rows(vhc.blocks@).to_multiset());
                if old(vhc).whole_blocks() {
                    assert(uniform(before + blocks, header.stored_block_size()));
                    lemma_uniform_reordered(
                        before + blocks,
                        rows(vhc.blocks@),
                        header.stored_block_size(),
                    );
                }
            }
            Ok(added)
        },
        Err(e) => Err(e),
    }
}

} // verus!
