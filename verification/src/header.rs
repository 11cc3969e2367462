use crate::backend::{lowercase, to_lowercase};
use crate::error::{ErrorView, HypercubeError};
use vstd::bytes::{
    lemma_auto_spec_u64_to_from_le_bytes, spec_u64_from_le_bytes, spec_u64_to_le_bytes,
    u64_from_le_bytes, u64_to_le_bytes,
};
use vstd::prelude::*;

verus! {

/// Compression applied to a payload before it is framed.
#[derive(Debug, Clone, Copy, PartialEq, Eq, Structural)]
pub enum Compression {
    Zstd,
    Lz4,
    Brotli,
    /// The payload is stored as it is.
    Uncompressed,
}

/// All-or-nothing transform applied to the fragments of a partition.
#[derive(Debug, Clone, Copy, PartialEq, Eq, Structural)]
pub enum Aont {
    Rivest,
    Oaep,
}

/// Hash family behind the keyed authentication tag.
#[derive(Debug, Clone, Copy, PartialEq, Eq, Structural)]
pub enum HashAlgorithm {
    Sha3,
    Blake3,
    Sha256,
}

/// Whether a word, made lower case, is the given name.
fn is_word(lower: &String, name: &str) -> (same: bool)
    ensures
        same == (lower@ == name@),
{
    let wanted = String::from_str(name);
    *lower == wanted
}

/// The error for a name that stands for no algorithm of the given kind.
fn unsupported(kind: &str, name: &str) -> (e: HypercubeError)
    ensures
        e@ == ErrorView::UnsupportedAlgorithm(kind@ + ": "@ + name@),
{
    HypercubeError::UnsupportedAlgorithm(String::from_str(kind).concat(": ").concat(name))
}

impl Compression {
    /// The algorithm that a lower-case word spells.
    pub open spec fn spelled(word: Seq<char>) -> Option<Compression> {
        if word == "zstd"@ {
            Some(Compression::Zstd)
        } else if word == "lz4"@ {
            Some(Compression::Lz4)
        } else if word == "brotli"@ {
            Some(Compression::Brotli)
        } else if word == "none"@ {
            Some(Compression::Uncompressed)
        } else {
            None
        }
    }

    /// The algorithm that a name stands for, whatever its case.
    pub open spec fn named(name: Seq<char>) -> Option<Compression> {
        Compression::spelled(lowercase(name))
    }

    /// The algorithm that a word spells: `zstd`, `lz4`, `brotli` or `none`,
    /// exactly so.
    pub fn from_word(word: &String) -> (r: Option<Compression>)
        ensures
            r == Compression::spelled(word@),
    {
        if is_word(word, "zstd") {
            Some(Compression::Zstd)
        } else if is_word(word, "lz4") {
            Some(Compression::Lz4)
        } else if is_word(word, "brotli") {
            Some(Compression::Brotli)
        } else if is_word(word, "none") {
            Some(Compression::Uncompressed)
        } else {
            None
        }
    }

    /// Reads the name of a compression algorithm: `zstd`, `lz4`, `brotli`
    /// or `none`, in any case.
    pub fn parse(name: &str) -> (r: Result<Compression, HypercubeError>)
        ensures
            match Compression::named(name@) {
                Some(compression) => r matches Ok(found) && found == compression,
                None => r matches Err(e) && e@ == ErrorView::UnsupportedAlgorithm(
                    "compression"@ + ": "@ + name@,
                ),
            },
    {
        let lower = to_lowercase(name);
        match Compression::from_word(&lower) {
            Some(compression) => Ok(compression),
            None => Err(unsupported("compression", name)),
        }
    }
}

impl Aont {
    /// The transform that a lower-case word spells.
    pub open spec fn spelled(word: Seq<char>) -> Option<Aont> {
        if word == "rivest"@ {
            Some(Aont::Rivest)
        } else if word == "oaep"@ {
            Some(Aont::Oaep)
        } else {
            None
        }
    }

    /// The transform that a name stands for, whatever its case.
    pub open spec fn named(name: Seq<char>) -> Option<Aont> {
        Aont::spelled(lowercase(name))
    }

    /// The transform that a word spells: `rivest` or `oaep`, exactly so.
    pub fn from_word(word: &String) -> (r: Option<Aont>)
        ensures
            r == Aont::spelled(word@),
    {
        if is_word(word, "rivest") {
            Some(Aont::Rivest)
        } else if is_word(word, "oaep") {
            Some(Aont::Oaep)
        } else {
            None
        }
    }

    /// Reads the name of a transform: `rivest` or `oaep`, in any case.
    pub fn parse(name: &str) -> (r: Result<Aont, HypercubeError>)
        ensures
            match Aont::named(name@) {
                Some(aont) => r matches Ok(found) && found == aont,
                None => r matches Err(e) && e@ == ErrorView::UnsupportedAlgorithm(
                    "aont"@ + ": "@ + name@,
                ),
            },
    {
        let lower = to_lowercase(name);
        match Aont::from_word(&lower) {
            Some(aont) => Ok(aont),
            None => Err(unsupported("aont", name)),
        }
    }
}

impl HashAlgorithm {
    /// The hash family that a lower-case word spells.
    pub open spec fn spelled(word: Seq<char>) -> Option<HashAlgorithm> {
        if word == "sha3"@ {
            Some(HashAlgorithm::Sha3)
        } else if word == "blake3"@ {
            Some(HashAlgorithm::Blake3)
        } else if word == "sha256"@ {
            Some(HashAlgorithm::Sha256)
        } else {
            None
        }
    }

    /// The hash family that a name stands for, whatever its case.
    pub open spec fn named(name: Seq<char>) -> Option<HashAlgorithm> {
        HashAlgorithm::spelled(lowercase(name))
    }

    /// The hash family that a word spells: `sha3`, `blake3` or `sha256`,
    /// exactly so.
    pub fn from_word(word: &String) -> (r: Option<HashAlgorithm>)
        ensures
            r == HashAlgorithm::spelled(word@),
    {
        if is_word(word, "sha3") {
            Some(HashAlgorithm::Sha3)
        } else if is_word(word, "blake3") {
            Some(HashAlgorithm::Blake3)
        } else if is_word(word, "sha256") {
            Some(HashAlgorithm::Sha256)
        } else {
            None
        }
    }

    /// Reads the name of a hash family: `sha3`, `blake3` or `sha256`, in
    /// any case.
    pub fn parse(name: &str) -> (r: Result<HashAlgorithm, HypercubeError>)
        ensures
            match HashAlgorithm::named(name@) {
                Some(hash) => r matches Ok(found) && found == hash,
                None => r matches Err(e) && e@ == ErrorView::UnsupportedAlgorithm(
                    "hash"@ + ": "@ + name@,
                ),
            },
    {
        let lower = to_lowercase(name);
        match HashAlgorithm::from_word(&lower) {
            Some(hash) => Ok(hash),
            None => Err(unsupported("hash", name)),
        }
    }
}

impl std::str::FromStr for Compression {
    type Err = HypercubeError;

    fn from_str(name: &str) -> (r: Result<Compression, HypercubeError>)
        ensures
            match Compression::named(name@) {
                Some(compression) => r matches Ok(found) && found == compression,
                None => r matches Err(e) && e@ == ErrorView::UnsupportedAlgorithm(
                    "compression"@ + ": "@ + name@,
                ),
            },
    {
        Compression::parse(name)
    }
}

impl std::str::FromStr for Aont {
    type Err = HypercubeError;

    fn from_str(name: &str) -> (r: Result<Aont, HypercubeError>)
        ensures
            match Aont::named(name@) {
                Some(aont) => r matches Ok(found) && found == aont,
                None => r matches Err(e) && e@ == ErrorView::UnsupportedAlgorithm(
                    "aont"@ + ": "@ + name@,
                ),
            },
    {
        Aont::parse(name)
    }
}

impl std::str::FromStr for HashAlgorithm {
    type Err = HypercubeError;

    fn from_str(name: &str) -> (r: Result<HashAlgorithm, HypercubeError>)
        ensures
            match HashAlgorithm::named(name@) {
                Some(hash) => r matches Ok(found) && found == hash,
                None => r matches Err(e) && e@ == ErrorView::UnsupportedAlgorithm(
                    "hash"@ + ": "@ + name@,
                ),
            },
    {
        HashAlgorithm::parse(name)
    }
}

impl Default for Compression {
    fn default() -> (r: Compression)
        ensures
            r == Compression::Zstd,
    {
        Compression::Zstd
    }
}

impl Default for Aont {
    fn default() -> (r: Aont)
        ensures
            r == Aont::Rivest,
    {
        Aont::Rivest
    }
}

impl Default for HashAlgorithm {
    fn default() -> (r: HashAlgorithm)
        ensures
            r == HashAlgorithm::Sha3,
    {
        HashAlgorithm::Sha3
    }
}

/// Largest fragment size the sizing rule ever picks.
pub const MAX_FRAGMENT_SIZE: usize = 256;

/// First phase of the sizing rule: starting from `f`, double while the
/// doubled size still fits the block, still leaves more than eight fragments
/// per block, and does not exceed 256.
pub open spec fn grow_fragment(f: nat, block_size: nat) -> nat
    decreases 512 - f,
{
    if 0 < f && 2 * f <= block_size && block_size / (2 * f) > 8 && 2 * f <= 256 {
        grow_fragment(2 * f, block_size)
    } else {
        f
    }
}

/// Second phase of the sizing rule: halve `f` until it divides the block.
pub open spec fn shrink_fragment(f: nat, block_size: nat) -> nat
    decreases f,
{
    if f > 1 && block_size % f != 0 {
        shrink_fragment(f / 2, block_size)
    } else {
        f
    }
}

/// The fragment size that belongs to a block size.
pub open spec fn fragment_size_for(block_size: nat) -> nat {
    if block_size == 0 {
        1
    } else {
        shrink_fragment(grow_fragment(1, block_size), block_size)
    }
}

pub proof fn lemma_grow_fragment_bounds(f: nat, block_size: nat)
    requires
        1 <= f <= 256,
    ensures
        f <= grow_fragment(f, block_size) <= 256,
    decreases 512 - f,
{
    if 0 < f && 2 * f <= block_size && block_size / (2 * f) > 8 && 2 * f <= 256 {
        lemma_grow_fragment_bounds(2 * f, block_size);
    }
}

pub proof fn lemma_shrink_fragment_divides(f: nat, block_size: nat)
    requires
        1 <= f,
    ensures
        1 <= shrink_fragment(f, block_size) <= f,
        block_size % shrink_fragment(f, block_size) == 0,
    decreases f,
{
    if f > 1 && block_size % f != 0 {
        lemma_shrink_fragment_divides(f / 2, block_size);
    }
}

/// The sizing rule always yields a size between 1 and 256 that divides the
/// block size exactly.
pub proof fn lemma_fragment_size_divides(block_size: nat)
    ensures
        1 <= fragment_size_for(block_size) <= 256,
        block_size % fragment_size_for(block_size) == 0,
{
    if block_size != 0 {
        lemma_grow_fragment_bounds(1, block_size);
        lemma_shrink_fragment_divides(grow_fragment(1, block_size), block_size);
    }
}

/// Size of the metadata in front of a partition's compressed bytes.
pub const META_SIZE: usize = 16;

/// The two sizes that stand in front of a partition's compressed bytes. They
/// go through the whole transform with the payload and are readable only
/// once recovery has succeeded.
#[derive(Debug, Clone, Copy)]
pub struct PartitionMeta {
    /// Length of the compressed bytes, without this metadata.
    pub compressed_size: u64,
    /// Length of the payload before compression.
    pub original_size: u64,
}

/// The sixteen bytes of the metadata: both sizes as 64-bit little-endian
/// numbers, compressed size first.
pub open spec fn meta_bytes(compressed_size: u64, original_size: u64) -> Seq<u8> {
    spec_u64_to_le_bytes(compressed_size) + spec_u64_to_le_bytes(original_size)
}

/// The compressed size written in the first eight bytes.
pub open spec fn meta_compressed_size(data: Seq<u8>) -> u64 {
    spec_u64_from_le_bytes(data.subrange(0, 8))
}

/// The original size written in the second eight bytes.
pub open spec fn meta_original_size(data: Seq<u8>) -> u64 {
    spec_u64_from_le_bytes(data.subrange(8, 16))
}

/// Metadata that was written is read back unchanged, whatever follows it.
pub proof fn lemma_meta_round_trip(compressed_size: u64, original_size: u64, rest: Seq<u8>)
    ensures
        meta_bytes(compressed_size, original_size).len() == META_SIZE,
        meta_compressed_size(meta_bytes(compressed_size, original_size) + rest)
            == compressed_size,
        meta_original_size(meta_bytes(compressed_size, original_size) + rest) == original_size,
{
    lemma_auto_spec_u64_to_from_le_bytes();
    let first = spec_u64_to_le_bytes(compressed_size);
    let second = spec_u64_to_le_bytes(original_size);
    let all = meta_bytes(compressed_size, original_size) + rest;
    assert(all.subrange(0, 8) =~= first);
    assert(all.subrange(8, 16) =~= second);
}

impl PartitionMeta {
    /// Size of the serialised metadata.
    pub const SIZE: usize = 16;

    /// The sixteen bytes of the metadata.
    pub fn to_bytes(&self) -> (bytes: [u8; 16])
        ensures
            bytes@ == meta_bytes(self.compressed_size, self.original_size),
    {
        let first = u64_to_le_bytes(self.compressed_size);
        let second = u64_to_le_bytes(self.original_size);
        let mut bytes: [u8; 16] = [0u8; 16];
        let mut i: usize = 0;
        while i < 8
            invariant
                i <= 8,
                first@.len() == 8,
                second@.len() == 8,
                forall|j: int| 0 <= j < i ==> bytes@[j] == first@[j] && bytes@[8 + j] == second@[j],
            decreases 8 - i,
        {
            bytes[i] = first[i];
            bytes[i + 8] = second[i];
            i += 1;
        }
        assert(bytes@ =~= first@ + second@);
        bytes
    }

    /// Reads the metadata from the first sixteen bytes of `data`.
    pub fn from_bytes(data: &[u8]) -> (r: Result<PartitionMeta, HypercubeError>)
        ensures
            data@.len() < META_SIZE ==> r is Err && r->Err_0@ == ErrorView::InvalidFormat(
                "Metadata too short"@,
            ),
            data@.len() >= META_SIZE ==> r is Ok && r->Ok_0.compressed_size
                == meta_compressed_size(data@) && r->Ok_0.original_size == meta_original_size(
                data@,
            ),
    {
        if data.len() < META_SIZE {
            return Err(HypercubeError::InvalidFormat(String::from_str("Metadata too short")));
        }
        let compressed_size = u64_from_le_bytes(vstd::slice::slice_subrange(data, 0, 8));
        let original_size = u64_from_le_bytes(vstd::slice::slice_subrange(data, 8, 16));
        Ok(PartitionMeta { compressed_size, original_size })
    }
}

/// Plaintext description of a container: global parameters only, nothing
/// about the partitions stored in it.
#[derive(Debug, Clone, Copy)]
pub struct VhcHeader {
    /// Format version.
    pub version: u32,
    /// Cube identifier.
    pub cube_id: usize,
    /// Number of partitions along one axis.
    pub dimension: usize,
    /// Blocks contributed by each partition.
    pub blocks_per_partition: usize,
    /// Payload bytes per block.
    pub block_size: usize,
    /// Authentication tag size in bits (128, 256 or 512).
    pub mac_bits: usize,
    pub compression: Compression,
    pub aont: Aont,
    pub hash: HashAlgorithm,
    /// Fragment size in bytes.
    pub fragment_size: usize,
}

impl Default for VhcHeader {
    /// The header of the default cube: 32 partitions of 32 blocks of 32
    /// bytes, 256-bit tags, zstd, the package transform and SHA-3.
    fn default() -> (r: VhcHeader)
        ensures
            r == (VhcHeader {
                version: 1,
                cube_id: 1,
                dimension: 32,
                blocks_per_partition: 32,
                block_size: 32,
                mac_bits: 256,
                compression: Compression::Zstd,
                aont: Aont::Rivest,
                hash: HashAlgorithm::Sha3,
                fragment_size: fragment_size_for(32) as usize,
            }),
            r.is_valid(),
    {
        VhcHeader {
            version: 1,
            cube_id: 1,
            dimension: 32,
            blocks_per_partition: 32,
            block_size: 32,
            mac_bits: 256,
            compression: Compression::Zstd,
            aont: Aont::Rivest,
            hash: HashAlgorithm::Sha3,
            fragment_size: VhcHeader::calculate_fragment_size(32),
        }
    }
}

pub open spec fn valid_dimension(n: usize) -> bool {
    n >= 8 && n % 8 == 0
}

pub open spec fn valid_block_size(b: usize) -> bool {
    b >= 32 && b % 2 == 0
}

pub open spec fn valid_mac_bits(m: usize) -> bool {
    m == 128 || m == 256 || m == 512
}

pub open spec fn valid_fragment_size(f: usize, b: usize) -> bool {
    f > 0 && b % f == 0
}

/// The first geometry rule that a header breaks, as the error that reports
/// it; `None` for a valid header.
pub open spec fn geometry_error(h: VhcHeader) -> Option<ErrorView> {
    if !valid_dimension(h.dimension) {
        Some(ErrorView::InvalidDimension(h.dimension))
    } else if !valid_dimension(h.blocks_per_partition) {
        Some(ErrorView::InvalidDimension(h.blocks_per_partition))
    } else if !valid_block_size(h.block_size) {
        Some(ErrorView::InvalidBlockSize(h.block_size))
    } else if !valid_mac_bits(h.mac_bits) {
        Some(ErrorView::InvalidMacBits(h.mac_bits))
    } else if !valid_fragment_size(h.fragment_size, h.block_size) {
        Some(ErrorView::InvalidHeader("fragment size does not divide block size"@))
    } else {
        None
    }
}

impl VhcHeader {
    /// The geometry rules: both axes are multiples of eight and at least
    /// eight, blocks are even and at least 32 bytes, the tag size is one of
    /// the three supported, and the fragment size divides the block size.
    pub open spec fn is_valid(&self) -> bool {
        &&& valid_dimension(self.dimension)
        &&& valid_dimension(self.blocks_per_partition)
        &&& valid_block_size(self.block_size)
        &&& valid_mac_bits(self.mac_bits)
        &&& valid_fragment_size(self.fragment_size, self.block_size)
    }

    /// Checks the geometry rules and reports the first that is broken.
    pub fn validate(&self) -> (r: Result<(), HypercubeError>)
        ensures
            match geometry_error(*self) {
                None => r is Ok && self.is_valid(),
                Some(problem) => r matches Err(e) && e@ == problem,
            },
    {
        if self.dimension < 8 || self.dimension % 8 != 0 {
            return Err(HypercubeError::InvalidDimension(self.dimension));
        }
        if self.blocks_per_partition < 8 || self.blocks_per_partition % 8 != 0 {
            return Err(HypercubeError::InvalidDimension(self.blocks_per_partition));
        }
        if self.block_size < 32 || self.block_size % 2 != 0 {
            return Err(HypercubeError::InvalidBlockSize(self.block_size));
        }
        if self.mac_bits != 128 && self.mac_bits != 256 && self.mac_bits != 512 {
            return Err(HypercubeError::InvalidMacBits(self.mac_bits));
        }
        if self.fragment_size == 0 || self.block_size % self.fragment_size != 0 {
            return Err(
                HypercubeError::InvalidHeader(
                    String::from_str("fragment size does not divide block size"),
                ),
            );
        }
        Ok(())
    }

    /// Builds a version-1 header with default algorithms (zstd, Rivest,
    /// SHA-3). The checks run in the order dimension, blocks per partition,
    /// block size, tag size; the first that fails decides the error.
    pub fn new(
        cube_id: usize,
        partitions: usize,
        blocks_per_partition: usize,
        block_size: usize,
        mac_bits: usize,
    ) -> (r: Result<VhcHeader, HypercubeError>)
        ensures
            !valid_dimension(partitions) ==> r is Err && r->Err_0@ == ErrorView::InvalidDimension(
                partitions,
            ),
            valid_dimension(partitions) && !valid_dimension(blocks_per_partition) ==> r is Err
                && r->Err_0@ == ErrorView::InvalidDimension(blocks_per_partition),
            valid_dimension(partitions) && valid_dimension(blocks_per_partition)
                && !valid_block_size(block_size) ==> r is Err && r->Err_0@
                == ErrorView::InvalidBlockSize(block_size),
            valid_dimension(partitions) && valid_dimension(blocks_per_partition)
                && valid_block_size(block_size) && !valid_mac_bits(mac_bits) ==> r is Err
                && r->Err_0@ == ErrorView::InvalidMacBits(mac_bits),
            valid_dimension(partitions) && valid_dimension(blocks_per_partition)
                && valid_block_size(block_size) && valid_mac_bits(mac_bits) ==> r is Ok && r->Ok_0
                == (VhcHeader {
                version: 1,
                cube_id,
                dimension: partitions,
                blocks_per_partition,
                block_size,
                mac_bits,
                compression: Compression::Zstd,
                aont: Aont::Rivest,
                hash: HashAlgorithm::Sha3,
                fragment_size: fragment_size_for(block_size as nat) as usize,
            }) && r->Ok_0.is_valid(),
    {
        if partitions < 8 || partitions % 8 != 0 {
            return Err(HypercubeError::InvalidDimension(partitions));
        }
        if blocks_per_partition < 8 || blocks_per_partition % 8 != 0 {
            return Err(HypercubeError::InvalidDimension(blocks_per_partition));
        }
        if block_size < 32 || block_size % 2 != 0 {
            return Err(HypercubeError::InvalidBlockSize(block_size));
        }
        if mac_bits != 128 && mac_bits != 256 && mac_bits != 512 {
            return Err(HypercubeError::InvalidMacBits(mac_bits));
        }
        let fragment_size = Self::calculate_fragment_size(block_size);
        Ok(
            VhcHeader {
                version: 1,
                cube_id,
                dimension: partitions,
                blocks_per_partition,
                block_size,
                mac_bits,
                compression: Compression::Zstd,
                aont: Aont::Rivest,
                hash: HashAlgorithm::Sha3,
                fragment_size,
            },
        )
    }

    /// Applies the sizing rule to a block size.
    pub fn calculate_fragment_size(block_size: usize) -> (f: usize)
        ensures
            f == fragment_size_for(block_size as nat),
            1 <= f <= 256,
            block_size % f == 0,
    {
        proof {
            lemma_fragment_size_divides(block_size as nat);
        }
        if block_size == 0 {
            return 1;
        }
        let mut frag_size: usize = 1;
        while frag_size * 2 <= block_size && (block_size / (frag_size * 2)) > 8 && frag_size * 2
            <= 256
            invariant
                1 <= frag_size <= 256,
                grow_fragment(frag_size as nat, block_size as nat) == grow_fragment(
                    1,
                    block_size as nat,
                ),
            decreases 512 - frag_size,
        {
            frag_size = frag_size * 2;
        }
        while frag_size > 1 && block_size % frag_size != 0
            invariant
                1 <= frag_size <= 256,
                shrink_fragment(frag_size as nat, block_size as nat) == fragment_size_for(
                    block_size as nat,
                ),
            decreases frag_size,
        {
            frag_size = frag_size / 2;
        }
        frag_size
    }
    /// Number of fragments in one block.
    pub open spec fn spec_fragments_per_block(&self) -> nat {
        (self.block_size / self.fragment_size) as nat
    }

    /// Size of the authentication tag in bytes.
    pub open spec fn spec_mac_bytes(&self) -> nat {
        (self.mac_bits / 8) as nat
    }

    /// Blocks of a partition that carry payload: one less than all for the
    /// package transform, which adds a key block, and all of them otherwise.
    pub open spec fn spec_data_blocks(&self) -> nat {
        match self.aont {
            Aont::Rivest => if self.blocks_per_partition == 0 {
                0
            } else {
                (self.blocks_per_partition - 1) as nat
            },
            Aont::Oaep => self.blocks_per_partition as nat,
        }
    }

    /// Number of blocks in a full cube.
    pub open spec fn capacity(&self) -> nat {
        (self.blocks_per_partition * self.dimension) as nat
    }

    /// Size of a stored block: sequence tag, payload and authentication tag.
    pub open spec fn stored_block_size(&self) -> nat {
        (self.block_size + 16 + self.mac_bits / 8) as nat
    }

    /// Number of fragments in one block.
    pub fn fragments_per_block(&self) -> (n: usize)
        requires
            self.fragment_size > 0,
        ensures
            n == self.spec_fragments_per_block(),
    {
        self.block_size / self.fragment_size
    }

    /// Size of the authentication tag in bytes.
    pub fn mac_bytes(&self) -> (n: usize)
        ensures
            n == self.spec_mac_bytes(),
    {
        self.mac_bits / 8
    }

    /// Payload size of a block in bits.
    pub fn block_bits(&self) -> (n: usize)
        requires
            self.block_size * 8 <= usize::MAX,
        ensures
            n == self.block_size * 8,
    {
        self.block_size * 8
    }

    /// The cube identifier.
    pub fn cube(&self) -> (id: usize)
        ensures
            id == self.cube_id,
    {
        self.cube_id
    }

    /// Blocks that every partition contributes.
    pub fn blocks_per_partition(&self) -> (n: usize)
        ensures
            n == self.blocks_per_partition,
    {
        self.blocks_per_partition
    }

    /// Blocks of a partition that carry payload.
    pub fn data_blocks_per_partition(&self) -> (n: usize)
        ensures
            n == self.spec_data_blocks(),
    {
        match self.aont {
            Aont::Rivest => if self.blocks_per_partition == 0 {
                0
            } else {
                self.blocks_per_partition - 1
            },
            Aont::Oaep => self.blocks_per_partition,
        }
    }

    /// Number of blocks in a full cube.
    pub fn theoretical_block_count(&self) -> (n: usize)
        requires
            self.blocks_per_partition * self.dimension <= usize::MAX,
        ensures
            n == self.capacity(),
    {
        self.blocks_per_partition * self.dimension
    }

    /// Payload bytes of a full cube, without tags and header.
    pub fn payload_capacity_bytes(&self) -> (n: usize)
        requires
            self.blocks_per_partition * self.dimension <= usize::MAX,
            self.block_size * (self.blocks_per_partition * self.dimension) <= usize::MAX,
        ensures
            n == self.block_size * self.capacity(),
    {
        self.block_size * self.theoretical_block_count()
    }

    /// Size of a stored block: payload, sequence tag and authentication tag.
    pub fn total_block_size(&self) -> (n: usize)
        requires
            self.block_size + 16 + self.mac_bits / 8 <= usize::MAX,
        ensures
            n == self.stored_block_size(),
    {
        self.block_size + 16 + self.mac_bytes()
    }
}

} // verus!
