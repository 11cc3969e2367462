//! How a payload maps onto a cube.

use crate::error::{ErrorView, HypercubeError};
use crate::header::{
    valid_dimension, valid_mac_bits, Aont, Compression, HashAlgorithm, VhcHeader, META_SIZE,
};
use crate::pipeline::compress::{compress, compressed, compression_refused};
use vstd::prelude::*;

verus! {

/// The layout of a cube: how many partitions, and how many blocks each.
#[derive(Debug, Clone, Copy)]
pub struct CubeConfig {
    /// Cube identifier.
    pub id: usize,
    /// Number of partitions.
    pub partitions: usize,
    /// Blocks per partition.
    pub blocks_per_partition: usize,
}

impl CubeConfig {
    /// The cube with `dimension` partitions of `dimension` blocks each.
    pub fn hypercube(dimension: usize) -> (r: CubeConfig)
        ensures
            r.id == dimension,
            r.partitions == dimension,
            r.blocks_per_partition == dimension,
    {
        CubeConfig { id: dimension, partitions: dimension, blocks_per_partition: dimension }
    }

    /// Number of blocks in the full cube.
    pub fn total_blocks(&self) -> (n: usize)
        requires
            self.partitions * self.blocks_per_partition <= usize::MAX,
        ensures
            n == self.partitions * self.blocks_per_partition,
    {
        self.partitions * self.blocks_per_partition
    }
}

/// How a payload maps onto a cube.
#[derive(Debug, Clone, Copy)]
pub struct CubeAnalysis {
    pub cube: CubeConfig,
    /// Length of the payload.
    pub original_bytes: usize,
    /// Length of the compressed payload.
    pub compressed_bytes: usize,
    /// Length of the compressed payload with its metadata.
    pub payload_bytes: usize,
    /// Smallest block size that holds the payload in the data blocks.
    pub block_size_bytes: usize,
    /// What the data blocks hold at that block size.
    pub capacity_bytes: usize,
}

impl CubeAnalysis {
    /// Bytes left over in the data blocks.
    pub fn headroom_bytes(&self) -> (n: usize)
        ensures
            n == if self.capacity_bytes >= self.payload_bytes {
                self.capacity_bytes - self.payload_bytes
            } else {
                0
            },
    {
        if self.capacity_bytes >= self.payload_bytes {
            self.capacity_bytes - self.payload_bytes
        } else {
            0
        }
    }
}

/// Blocks of a partition that hold payload when one block is kept for the
/// transform key; at least one.
pub open spec fn analysis_blocks(cube: CubeConfig) -> nat {
    if cube.blocks_per_partition <= 2 {
        1
    } else {
        (cube.blocks_per_partition - 1) as nat
    }
}

/// The smallest block size that holds `payload_bytes` in `blocks` blocks:
/// the quotient rounded up, for at least one block, and at least one byte.
pub open spec fn block_size_for(payload_bytes: nat, blocks: nat) -> nat {
    let blocks = if blocks == 0 {
        1
    } else {
        blocks
    };
    let per_block = (payload_bytes + blocks - 1) / (blocks as int);
    if per_block < 1 {
        1
    } else {
        per_block as nat
    }
}

/// The smallest block size that holds the payload in the given number of
/// blocks.
pub fn required_block_size(payload_bytes: usize, blocks: usize) -> (size: usize)
    ensures
        size == block_size_for(payload_bytes as nat, blocks as nat),
        size >= 1,
{
    let blocks: usize = if blocks == 0 {
        1
    } else {
        blocks
    };
    if payload_bytes == 0 {
        proof {
            vstd::arithmetic::div_mod::lemma_basic_div(blocks - 1, blocks as int);
        }
        1
    } else {
        proof {
            vstd::arithmetic::div_mod::lemma_div_plus_one(payload_bytes - 1, blocks as int);
            vstd::arithmetic::div_mod::lemma_div_pos_is_pos(payload_bytes - 1, blocks as int);
        }
        (payload_bytes - 1) / blocks + 1
    }
}

/// The error `e` is the one that `analyze_data` owes: a compression error as
/// `compress` gives it, or `PayloadTooLarge` where the payload with its
/// metadata, or what the data blocks hold, does not fit the machine.
pub open spec fn analysis_refused(
    e: ErrorView,
    data: Seq<u8>,
    compression: Compression,
    cube: CubeConfig,
) -> bool {
    let packed = compressed(data, compression).len();
    let blocks = analysis_blocks(cube);
    ||| compression_refused(e, data, compression)
    ||| META_SIZE + packed > usize::MAX && e == ErrorView::PayloadTooLarge(packed as usize)
    ||| META_SIZE + packed <= usize::MAX && block_size_for((META_SIZE + packed) as nat, blocks)
        * blocks > usize::MAX && e == ErrorView::PayloadTooLarge((META_SIZE + packed) as usize)
}

/// Works out how `data` maps onto a cube under a compression setting: the
/// compressed size, the payload with its metadata, the smallest block size
/// that holds the payload in the data blocks, and what they hold then.
///
/// Fails with a compression error where the backend fails, and with
/// `PayloadTooLarge` where a size does not fit the machine.
pub fn analyze_data(data: &[u8], compression: Compression, cube: CubeConfig) -> (r: Result<
    CubeAnalysis,
    HypercubeError,
>)
    ensures
        match r {
            Ok(analysis) => {
                let packed = compressed(data@, compression).len();
                let blocks = analysis_blocks(cube);
                &&& analysis.cube == cube
                &&& analysis.original_bytes == data@.len()
                &&& analysis.compressed_bytes == packed
                &&& analysis.payload_bytes == META_SIZE + packed
                &&& analysis.block_size_bytes == block_size_for((META_SIZE + packed) as nat, blocks)
                &&& analysis.capacity_bytes == analysis.block_size_bytes * blocks
                &&& analysis.capacity_bytes >= analysis.payload_bytes
            },
            Err(e) => analysis_refused(e@, data@, compression, cube),
        },
{
    let packed = match compress(data, compression) {
        Ok(packed) => packed,
        Err(e) => {
            return Err(e);
        },
    };
    let payload_bytes: usize = match packed.len().checked_add(META_SIZE) {
        Some(n) => n,
        None => {
            return Err(HypercubeError::PayloadTooLarge(packed.len()));
        },
    };
    let data_blocks: usize = if cube.blocks_per_partition <= 2 {
        1
    } else {
        cube.blocks_per_partition - 1
    };
    let block_size_bytes = required_block_size(payload_bytes, data_blocks);
    let capacity_bytes: usize = match block_size_bytes.checked_mul(data_blocks) {
        Some(n) => n,
        None => {
            return Err(HypercubeError::PayloadTooLarge(payload_bytes));
        },
    };
    proof {
        let p = payload_bytes as int;
        let b = data_blocks as int;
        let q = (p + b - 1) / b;
        vstd::arithmetic::div_mod::lemma_fundamental_div_mod(p + b - 1, b);
        assert(q >= 1 && q * b >= p) by (nonlinear_arith)
            requires
                p + b - 1 == b * q + (p + b - 1) % b,
                0 <= (p + b - 1) % b < b,
                b >= 1,
                p >= 1,
        ;
        assert(block_size_bytes == q);
    }
    Ok(
        CubeAnalysis {
            cube,
            original_bytes: data.len(),
            compressed_bytes: packed.len(),
            payload_bytes,
            block_size_bytes,
            capacity_bytes,
        },
    )
}

/// The smallest block size that a header accepts and that is not smaller
/// than `wanted`: at least 32 and even.
pub open spec fn fitting_block_size(wanted: nat) -> nat {
    if wanted < 32 {
        32
    } else if wanted % 2 != 0 {
        wanted + 1
    } else {
        wanted
    }
}

/// Chooses the header of a new container for its first payload: a cube of
/// the given dimension whose blocks are as small as the geometry rules
/// allow and still hold the compressed payload, with one block of every
/// partition kept for the transform key.
///
/// Fails with `InvalidDimension` for a dimension that is no multiple of
/// eight or below eight; else with the error that `analyze_data` owes for
/// the cube of that dimension; else with `InvalidMacBits` for a tag size
/// that is not supported.
pub fn plan_header(
    data: &[u8],
    dimension: usize,
    mac_bits: usize,
    compression: Compression,
    aont: Aont,
    hash: HashAlgorithm,
) -> (r: Result<VhcHeader, HypercubeError>)
    ensures
        match r {
            Ok(header) => {
                let packed = compressed(data@, compression).len();
                &&& header.is_valid()
                &&& header.version == 1
                &&& header.cube_id == dimension
                &&& header.dimension == dimension
                &&& header.blocks_per_partition == dimension
                &&& header.mac_bits == mac_bits
                &&& header.compression == compression
                &&& header.aont == aont
                &&& header.hash == hash
                &&& header.block_size == fitting_block_size(
                    block_size_for((META_SIZE + packed) as nat, (dimension - 1) as nat),
                )
                &&& header.fragment_size == crate::header::fragment_size_for(
                    header.block_size as nat,
                )
                &&& META_SIZE + packed <= header.block_size * (dimension - 1)
            },
            Err(e) => {
                ||| !valid_dimension(dimension) && e@ == ErrorView::InvalidDimension(dimension)
                ||| valid_dimension(dimension) && analysis_refused(
                    e@,
                    data@,
                    compression,
                    (CubeConfig {
                        id: dimension,
                        partitions: dimension,
                        blocks_per_partition: dimension,
                    }),
                )
                ||| valid_dimension(dimension) && !valid_mac_bits(mac_bits) && e@
                    == ErrorView::InvalidMacBits(mac_bits) && META_SIZE + compressed(
                    data@,
                    compression,
                ).len() <= usize::MAX && block_size_for(
                    (META_SIZE + compressed(data@, compression).len()) as nat,
                    (dimension - 1) as nat,
                ) * (dimension - 1) <= usize::MAX
            },
        },
{
    if dimension < 8 || dimension % 8 != 0 {
        return Err(HypercubeError::InvalidDimension(dimension));
    }
    let analysis = match analyze_data(data, compression, CubeConfig::hypercube(dimension)) {
        Ok(analysis) => analysis,
        Err(e) => {
            return Err(e);
        },
    };
    let wanted: usize = analysis.block_size_bytes;
    proof {
        let blocks = (dimension - 1) as int;
        assert(wanted < usize::MAX) by (nonlinear_arith)
            requires
                wanted * blocks <= usize::MAX,
                blocks >= 7,
                wanted >= 0,
        ;
    }
    let block_size: usize = if wanted < 32 {
        32
    } else if wanted % 2 != 0 {
        wanted + 1
    } else {
        wanted
    };
    proof {
        crate::header::lemma_fragment_size_divides(block_size as nat);
    }
    let mut header = match VhcHeader::new(dimension, dimension, dimension, block_size, mac_bits) {
        Ok(header) => header,
        Err(e) => {
            return Err(e);
        },
    };
    header.compression = compression;
    header.aont = aont;
    header.hash = hash;
    proof {
        let blocks = (dimension - 1) as int;
        assert(block_size * blocks >= wanted * blocks) by (nonlinear_arith)
            requires
                block_size >= wanted,
                blocks >= 0,
        ;
    }
    Ok(header)
}

} // verus!
