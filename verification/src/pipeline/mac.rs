//! Keyed authentication tags over sequence tag and payload.
//!
//! The tag is the only place where a partition's secret enters. Three hash
//! families are supported; each gives a native tag of 32 bytes, which is cut
//! or stretched to the length that the container asks for.

use crate::backend::{
    blake3_digest, blake3_hash, blake3_keyed_digest, blake3_keyed_hash, hmac_sha256,
    hmac_sha256_tag, hmac_sha3_256, hmac_sha3_256_tag, DIGEST_SIZE,
};
use crate::bytes::append_bytes;
use crate::error::{ErrorView, HypercubeError};
use crate::header::HashAlgorithm;
use crate::pipeline::sequence::{leading_tag, SequenceNumber, SequencedBlock, SEQUENCE_SIZE};
use vstd::prelude::*;

verus! {

/// A block with sequence tag, payload and authentication tag.
#[derive(Debug, Clone)]
pub struct AuthenticatedBlock {
    pub sequence_bytes: [u8; 16],
    pub data: Vec<u8>,
    pub mac: Vec<u8>,
}

/// The native 32-byte tag of `message` under `secret`: HMAC for the two SHA
/// families, and for BLAKE3 its keyed mode under the BLAKE3 digest of the
/// secret.
pub open spec fn native_tag(secret: Seq<u8>, message: Seq<u8>, algorithm: HashAlgorithm) -> Seq<
    u8,
> {
    match algorithm {
        HashAlgorithm::Sha3 => hmac_sha3_256(secret, message),
        HashAlgorithm::Blake3 => blake3_keyed_hash(blake3_hash(secret), message),
        HashAlgorithm::Sha256 => hmac_sha256(secret, message),
    }
}

/// A tag stretched `rounds` times: each round appends the BLAKE3 digest of
/// everything so far.
pub open spec fn stretched(tag: Seq<u8>, rounds: nat) -> Seq<u8>
    decreases rounds,
{
    if rounds == 0 {
        tag
    } else {
        let so_far = stretched(tag, (rounds - 1) as nat);
        so_far + blake3_hash(so_far)
    }
}

/// Rounds of stretching that a 32-byte tag needs to reach `want` bytes.
pub open spec fn rounds_for(want: nat) -> nat {
    if want <= DIGEST_SIZE {
        0
    } else {
        ((want - 1) / 32) as nat
    }
}

/// A native tag brought to `want` bytes: its first bytes where that is
/// enough, else the first bytes of the stretched tag.
pub open spec fn fitted_tag(tag: Seq<u8>, want: nat) -> Seq<u8> {
    Seq::new(want, |i: int| stretched(tag, rounds_for(want))[i])
}

/// The authentication tag of `message` under `secret`, `mac_bits / 8` bytes
/// long.
pub open spec fn mac_of(
    secret: Seq<u8>,
    message: Seq<u8>,
    algorithm: HashAlgorithm,
    mac_bits: nat,
) -> Seq<u8> {
    fitted_tag(native_tag(secret, message, algorithm), mac_bits / 8)
}

impl AuthenticatedBlock {
    /// The bytes that the tag covers: sequence tag, then payload.
    pub open spec fn message(&self) -> Seq<u8> {
        self.sequence_bytes@ + self.data@
    }

    /// The block as it is stored: sequence tag, payload, authentication tag.
    pub open spec fn stored(&self) -> Seq<u8> {
        self.sequence_bytes@ + self.data@ + self.mac@
    }

    /// The tag of this block is the right one under `secret`.
    pub open spec fn authentic(&self, secret: Seq<u8>, algorithm: HashAlgorithm, mac_bits: nat) -> bool {
        self.mac@ == mac_of(secret, self.message(), algorithm, mac_bits)
    }

    /// Serialises the block: sequence tag, payload, authentication tag.
    pub fn to_bytes(&self) -> (bytes: Vec<u8>)
        ensures
            bytes@ == self.stored(),
    {
        let mut bytes: Vec<u8> = Vec::with_capacity(SEQUENCE_SIZE);
        append_bytes(&mut bytes, self.sequence_bytes.as_slice());
        append_bytes(&mut bytes, self.data.as_slice());
        append_bytes(&mut bytes, self.mac.as_slice());
        bytes
    }

    /// Splits stored bytes into sequence tag, payload and a tag of
    /// `mac_bytes` bytes; `None` when the bytes are too few for the two
    /// tags.
    pub fn from_bytes(bytes: &[u8], mac_bytes: usize) -> (r: Option<AuthenticatedBlock>)
        ensures
            bytes@.len() < SEQUENCE_SIZE + mac_bytes ==> r is None,
            bytes@.len() >= SEQUENCE_SIZE + mac_bytes ==> r is Some && r->Some_0.sequence_bytes@
                == bytes@.take(SEQUENCE_SIZE as int) && r->Some_0.data@ == bytes@.subrange(
                SEQUENCE_SIZE as int,
                bytes@.len() - mac_bytes,
            ) && r->Some_0.mac@ == bytes@.skip(bytes@.len() - mac_bytes) && r->Some_0.stored()
                == bytes@,
    {
        if bytes.len() < SEQUENCE_SIZE || bytes.len() - SEQUENCE_SIZE < mac_bytes {
            return None;
        }
        let data_end: usize = bytes.len() - mac_bytes;
        let sequence_bytes = leading_tag(bytes);
        let data = vstd::slice::slice_to_vec(
            vstd::slice::slice_subrange(bytes, SEQUENCE_SIZE, data_end),
        );
        let mac = vstd::slice::slice_to_vec(
            vstd::slice::slice_subrange(bytes, data_end, bytes.len()),
        );
        let block = AuthenticatedBlock { sequence_bytes, data, mac };
        assert(block.mac@ =~= bytes@.skip(bytes@.len() - mac_bytes));
        assert(block.stored() =~= bytes@);
        Some(block)
    }
}

/// Derives the 32-byte BLAKE3 key from a secret of any length.
fn derive_blake3_key(secret: &[u8]) -> (key: Vec<u8>)
    ensures
        key@ == blake3_hash(secret@),
        key@.len() == 32,
{
    blake3_digest(secret)
}

/// Brings a native tag of 32 bytes to `bytes` bytes: its first bytes where
/// that is enough, else the tag stretched with BLAKE3 digests of everything
/// so far and cut to length.
pub fn truncate_mac(mac: &[u8], bytes: usize) -> (tag: Vec<u8>)
    requires
        mac@.len() == DIGEST_SIZE,
    ensures
        tag@ == fitted_tag(mac@, bytes as nat),
{
    let mut result: Vec<u8> = Vec::with_capacity(DIGEST_SIZE);
    append_bytes(&mut result, mac);
    let mut rounds: usize = 0;
    while result.len() < bytes
        invariant
            mac@.len() == DIGEST_SIZE,
            result@ == stretched(mac@, rounds as nat),
            result@.len() == 32 * (rounds + 1),
            bytes > 32 ==> 32 * rounds < bytes,
            bytes <= 32 ==> rounds == 0,
        decreases bytes + 32 - result@.len(),
    {
        let extension = blake3_digest(result.as_slice());
        append_bytes(&mut result, extension.as_slice());
        rounds += 1;
    }
    proof {
        let want = bytes as int;
        let r = rounds as int;
        assert(r == rounds_for(bytes as nat)) by (nonlinear_arith)
            requires
                want > 32 ==> 32 * r < want && want <= 32 * (r + 1),
                want <= 32 ==> r == 0,
                0 <= r,
                0 <= want,
                rounds_for(bytes as nat) == if want <= 32 {
                    0
                } else {
                    (want - 1) / 32
                },
        ;
    }
    result.truncate(bytes);
    assert(result@ =~= fitted_tag(mac@, bytes as nat));
    result
}

/// The authentication tag of raw bytes.
fn compute_mac_raw(data: &[u8], secret: &[u8], algorithm: HashAlgorithm, mac_bits: usize) -> (tag:
    Vec<u8>)
    ensures
        tag@ == mac_of(secret@, data@, algorithm, mac_bits as nat),
        tag@.len() == mac_bits / 8,
        native_tag(secret@, data@, algorithm).len() == DIGEST_SIZE,
{
    let mac_bytes: usize = mac_bits / 8;
    let native = match algorithm {
        HashAlgorithm::Sha3 => hmac_sha3_256_tag(secret, data),
        HashAlgorithm::Blake3 => {
            let key = derive_blake3_key(secret);
            blake3_keyed_digest(key.as_slice(), data)
        },
        HashAlgorithm::Sha256 => hmac_sha256_tag(secret, data),
    };
    truncate_mac(native.as_slice(), mac_bytes)
}

/// The authentication tag of a sequenced block: it covers the sequence tag
/// and the payload.
pub fn compute_mac(
    block: &SequencedBlock,
    secret: &[u8],
    algorithm: HashAlgorithm,
    mac_bits: usize,
) -> (tag: Vec<u8>)
    ensures
        tag@ == mac_of(
            secret@,
            block.sequence.bytes() + block.data@,
            algorithm,
            mac_bits as nat,
        ),
        tag@.len() == mac_bits / 8,
        native_tag(secret@, block.sequence.bytes() + block.data@, algorithm).len()
            == DIGEST_SIZE,
{
    let message = block.to_bytes();
    compute_mac_raw(message.as_slice(), secret, algorithm, mac_bits)
}

/// Compares two byte strings without stopping at the first difference.
pub fn constant_time_compare(a: &[u8], b: &[u8]) -> (equal: bool)
    ensures
        equal == (a@ == b@),
{
    if a.len() != b.len() {
        return false;
    }
    let mut result: u8 = 0;
    let mut i: usize = 0;
    assert(a@.take(0) =~= b@.take(0));
    while i < a.len()
        invariant
            i <= a@.len(),
            a@.len() == b@.len(),
            (result == 0) == (a@.take(i as int) == b@.take(i as int)),
        decreases a@.len() - i,
    {
        let x = a[i];
        let y = b[i];
        let before = result;
        result = result | (x ^ y);
        proof {
            assert((before | (x ^ y) == 0) == (before == 0 && x == y)) by (bit_vector);
            if a@.take(i + 1) == b@.take(i + 1) {
                assert(a@.take(i + 1)[i as int] == b@.take(i + 1)[i as int]);
                assert(a@.take(i as int) =~= a@.take(i + 1).take(i as int));
                assert(b@.take(i as int) =~= b@.take(i + 1).take(i as int));
            }
            if a@.take(i as int) == b@.take(i as int) && x == y {
                assert(a@.take(i + 1) =~= a@.take(i as int).push(x));
                assert(b@.take(i + 1) =~= b@.take(i as int).push(y));
            }
        }
        i += 1;
    }
    assert(a@.take(a@.len() as int) =~= a@);
    assert(b@.take(b@.len() as int) =~= b@);
    result == 0
}

/// Checks the tag of a block under `secret`.
pub fn verify_mac(
    block: &AuthenticatedBlock,
    secret: &[u8],
    algorithm: HashAlgorithm,
    mac_bits: usize,
) -> (valid: bool)
    ensures
        valid == block.authentic(secret@, algorithm, mac_bits as nat),
{
    let mut message: Vec<u8> = Vec::with_capacity(SEQUENCE_SIZE);
    append_bytes(&mut message, block.sequence_bytes.as_slice());
    append_bytes(&mut message, block.data.as_slice());
    let expected = compute_mac_raw(message.as_slice(), secret, algorithm, mac_bits);
    constant_time_compare(expected.as_slice(), block.mac.as_slice())
}

/// Block `i` of `out` is block `i` of `blocks` with its tag under `secret`.
pub open spec fn authenticated_from(
    out: Seq<AuthenticatedBlock>,
    blocks: Seq<SequencedBlock>,
    secret: Seq<u8>,
    algorithm: HashAlgorithm,
    mac_bits: nat,
) -> bool {
    &&& out.len() == blocks.len()
    &&& forall|i: int|
        0 <= i < out.len() ==> {
            &&& (#[trigger] out[i]).sequence_bytes@ == blocks[i].sequence.bytes()
            &&& out[i].data@ == blocks[i].data@
            &&& out[i].authentic(secret, algorithm, mac_bits)
            &&& out[i].mac@.len() == mac_bits / 8
        }
}

/// Computes the tag of every block.
pub fn authenticate_blocks(
    blocks: Vec<SequencedBlock>,
    secret: &[u8],
    algorithm: HashAlgorithm,
    mac_bits: usize,
) -> (out: Vec<AuthenticatedBlock>)
    ensures
        authenticated_from(out@, blocks@, secret@, algorithm, mac_bits as nat),
{
    let mut out: Vec<AuthenticatedBlock> = Vec::with_capacity(blocks.len());
    let mut i: usize = 0;
    while i < blocks.len()
        invariant
            i <= blocks@.len(),
            authenticated_from(out@, blocks@.take(i as int), secret@, algorithm, mac_bits as nat),
        decreases blocks@.len() - i,
    {
        let mac = compute_mac(&blocks[i], secret, algorithm, mac_bits);
        let block = AuthenticatedBlock {
            sequence_bytes: *blocks[i].sequence.as_bytes(),
            data: vstd::slice::slice_to_vec(blocks[i].data.as_slice()),
            mac,
        };
        out.push(block);
        i += 1;
    }
    assert(blocks@.take(blocks@.len() as int) =~= blocks@);
    out
}

/// Index of the first block whose tag is wrong under `secret`, or the number
/// of blocks where every tag is right.
pub open spec fn first_forged(
    blocks: Seq<AuthenticatedBlock>,
    secret: Seq<u8>,
    algorithm: HashAlgorithm,
    mac_bits: nat,
) -> int
    decreases blocks.len(),
{
    if blocks.len() == 0 {
        0
    } else if !blocks[0].authentic(secret, algorithm, mac_bits) {
        0
    } else {
        1 + first_forged(blocks.drop_first(), secret, algorithm, mac_bits)
    }
}

/// Block `i` of `out` is block `i` of `blocks` without its authentication
/// tag.
pub open spec fn extracted_from(out: Seq<SequencedBlock>, blocks: Seq<AuthenticatedBlock>) -> bool {
    &&& out.len() == blocks.len()
    &&& forall|i: int|
        0 <= i < out.len() ==> {
            &&& (#[trigger] out[i]).sequence.bytes() == blocks[i].sequence_bytes@
            &&& out[i].data@ == blocks[i].data@
        }
}

/// The first forged block is found by looking at the blocks one by one.
pub proof fn lemma_first_forged(
    blocks: Seq<AuthenticatedBlock>,
    secret: Seq<u8>,
    algorithm: HashAlgorithm,
    mac_bits: nat,
    at: int,
)
    requires
        0 <= at <= blocks.len(),
        forall|i: int| 0 <= i < at ==> (#[trigger] blocks[i]).authentic(secret, algorithm, mac_bits),
        at < blocks.len() ==> !blocks[at].authentic(secret, algorithm, mac_bits),
    ensures
        first_forged(blocks, secret, algorithm, mac_bits) == at,
    decreases blocks.len(),
{
    if blocks.len() > 0 && at > 0 {
        assert(blocks[0].authentic(secret, algorithm, mac_bits));
        let rest = blocks.drop_first();
        assert forall|i: int| 0 <= i < at - 1 implies (#[trigger] rest[i]).authentic(
            secret,
            algorithm,
            mac_bits,
        ) by {
            assert(rest[i] == blocks[i + 1]);
        }
        lemma_first_forged(rest, secret, algorithm, mac_bits, at - 1);
    }
}

/// Checks every tag and takes the tags off. Stops at the first block whose
/// tag is wrong and reports its index.
pub fn verify_and_extract_blocks(
    blocks: Vec<AuthenticatedBlock>,
    secret: &[u8],
    algorithm: HashAlgorithm,
    mac_bits: usize,
) -> (r: Result<Vec<SequencedBlock>, HypercubeError>)
    ensures
        match r {
            Ok(out) => first_forged(blocks@, secret@, algorithm, mac_bits as nat) == blocks@.len()
                && extracted_from(out@, blocks@),
            Err(e) => first_forged(blocks@, secret@, algorithm, mac_bits as nat) < blocks@.len()
                && e@ == ErrorView::MacVerificationFailed(
                first_forged(blocks@, secret@, algorithm, mac_bits as nat) as usize,
            ),
        },
{
    let mut out: Vec<SequencedBlock> = Vec::with_capacity(blocks.len());
    let mut i: usize = 0;
    while i < blocks.len()
        invariant
            i <= blocks@.len(),
            forall|k: int|
                0 <= k < i ==> (#[trigger] blocks@[k]).authentic(
                    secret@,
                    algorithm,
                    mac_bits as nat,
                ),
            extracted_from(out@, blocks@.take(i as int)),
        decreases blocks@.len() - i,
    {
        if !verify_mac(&blocks[i], secret, algorithm, mac_bits) {
            proof {
                lemma_first_forged(blocks@, secret@, algorithm, mac_bits as nat, i as int);
            }
            return Err(HypercubeError::MacVerificationFailed(i));
        }
        out.push(
            SequencedBlock {
                sequence: SequenceNumber::from_bytes(blocks[i].sequence_bytes),
                data: vstd::slice::slice_to_vec(blocks[i].data.as_slice()),
            },
        );
        i += 1;
    }
    proof {
        assert(blocks@.take(blocks@.len() as int) =~= blocks@);
        lemma_first_forged(blocks@, secret@, algorithm, mac_bits as nat, blocks@.len() as int);
    }
    Ok(out)
}

/// Stretching only adds: what a tag holds after some rounds is still there,
/// at the same places, after more rounds.
pub proof fn lemma_stretched_keeps(tag: Seq<u8>, rounds: nat, more: nat, i: int)
    requires
        rounds <= more,
        0 <= i < stretched(tag, rounds).len(),
    ensures
        i < stretched(tag, more).len(),
        stretched(tag, more)[i] == stretched(tag, rounds)[i],
    decreases more,
{
    if rounds < more {
        lemma_stretched_keeps(tag, rounds, (more - 1) as nat, i);
    }
}

/// A tag of at most the native size begins every longer tag over the same
/// native tag: the 128-bit tag is the first half of the 256-bit tag, which
/// is the first half of the 512-bit tag.
pub proof fn lemma_short_tag_begins_long(tag: Seq<u8>, short: nat, long: nat)
    requires
        tag.len() == DIGEST_SIZE,
        short <= DIGEST_SIZE,
        short <= long,
    ensures
        fitted_tag(tag, short) == fitted_tag(tag, long).take(short as int),
{
    assert forall|i: int| 0 <= i < short implies fitted_tag(tag, short)[i] == fitted_tag(
        tag,
        long,
    )[i] by {
        lemma_stretched_keeps(tag, 0, rounds_for(long), i);
    }
    assert(fitted_tag(tag, short) =~= fitted_tag(tag, long).take(short as int));
}

} // verus!
