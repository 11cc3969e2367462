//! The calls into other crates.
//!
//! Nothing in this module is proved. Each function makes one call into a
//! hashing, compression or randomness crate, and Verus takes its contract on
//! trust. A deterministic primitive is given a name, a spec function without
//! a body: the contract says that the call returns what the name denotes for
//! the same arguments, and, for a digest, how long it is. Nothing else is
//! claimed of any primitive; in particular nothing here says that a hash is
//! collision free or that a codec is lossless.

use crate::bytes::rows;
use std::io::Read;
use std::io::Write;
use vstd::prelude::*;

use hmac::Mac;
use rand::seq::SliceRandom;
use rand::Rng;
use rand::RngCore;
use sha3::Digest;

verus! {

/// Length in bytes of every digest and native tag used by the library.
pub const DIGEST_SIZE: usize = 32;

/// The SHA3-256 digest of `data`.
pub uninterp spec fn sha3_256(data: Seq<u8>) -> Seq<u8>;

/// The HMAC-SHA3-256 tag of `message` under `key`.
pub uninterp spec fn hmac_sha3_256(key: Seq<u8>, message: Seq<u8>) -> Seq<u8>;

/// The HMAC-SHA256 tag of `message` under `key`.
pub uninterp spec fn hmac_sha256(key: Seq<u8>, message: Seq<u8>) -> Seq<u8>;

/// The unkeyed BLAKE3 digest of `data`.
pub uninterp spec fn blake3_hash(data: Seq<u8>) -> Seq<u8>;

/// The keyed BLAKE3 digest of `data` under the 32-byte `key`.
pub uninterp spec fn blake3_keyed_hash(key: Seq<u8>, data: Seq<u8>) -> Seq<u8>;

/// The zstd frame that the encoder produces for `data` at `level`.
pub uninterp spec fn zstd_frame(data: Seq<u8>, level: i32) -> Seq<u8>;

/// What the zstd decoder makes of `frame`: the content, or `None` where it
/// rejects the input.
pub uninterp spec fn zstd_content(frame: Seq<u8>) -> Option<Seq<u8>>;

/// The size-prefixed LZ4 block for `data`.
pub uninterp spec fn lz4_block(data: Seq<u8>) -> Seq<u8>;

/// What the LZ4 decoder makes of a size-prefixed `block`.
pub uninterp spec fn lz4_content(block: Seq<u8>) -> Option<Seq<u8>>;

/// The brotli stream for `data` with the given buffer size, quality and
/// window.
pub uninterp spec fn brotli_stream(data: Seq<u8>, buffer_size: usize, quality: u32, lgwin: u32) -> Seq<u8>;

/// What the brotli decoder makes of `stream` with the given buffer size.
pub uninterp spec fn brotli_content(stream: Seq<u8>, buffer_size: usize) -> Option<Seq<u8>>;

/// The lower-case form of a string.
pub uninterp spec fn lowercase(text: Seq<char>) -> Seq<char>;

/// `sha3::Sha3_256::digest`. Assumed: the result is the SHA3-256 digest of
/// the input and is 32 bytes long.
#[verifier::external_body]
pub(crate) fn sha3_256_digest(data: &[u8]) -> (digest: Vec<u8>)
    ensures
        digest@ == sha3_256(data@),
        digest@.len() == DIGEST_SIZE,
{
    sha3::Sha3_256::digest(data).to_vec()
}

/// `hmac::Hmac<sha3::Sha3_256>`, keyed with `new_from_slice`, fed once with
/// `update` and closed with `finalize`. Assumed: the result is the
/// HMAC-SHA3-256 tag and is 32 bytes long. The constructor accepts a key of
/// any length.
#[verifier::external_body]
pub(crate) fn hmac_sha3_256_tag(key: &[u8], message: &[u8]) -> (tag: Vec<u8>)
    ensures
        tag@ == hmac_sha3_256(key@, message@),
        tag@.len() == DIGEST_SIZE,
{
    let mut mac = hmac::Hmac::<sha3::Sha3_256>::new_from_slice(key).expect("any key length");
    mac.update(message);
    mac.finalize().into_bytes().to_vec()
}

/// `hmac::Hmac<sha2::Sha256>`, used as above. Assumed: the result is the
/// HMAC-SHA256 tag and is 32 bytes long.
#[verifier::external_body]
pub(crate) fn hmac_sha256_tag(key: &[u8], message: &[u8]) -> (tag: Vec<u8>)
    ensures
        tag@ == hmac_sha256(key@, message@),
        tag@.len() == DIGEST_SIZE,
{
    let mut mac = hmac::Hmac::<sha2::Sha256>::new_from_slice(key).expect("any key length");
    mac.update(message);
    mac.finalize().into_bytes().to_vec()
}

/// `blake3::hash`. Assumed: the result is the BLAKE3 digest of the input and
/// is 32 bytes long.
#[verifier::external_body]
pub(crate) fn blake3_digest(data: &[u8]) -> (digest: Vec<u8>)
    ensures
        digest@ == blake3_hash(data@),
        digest@.len() == DIGEST_SIZE,
{
    blake3::hash(data).as_bytes().to_vec()
}

/// `blake3::keyed_hash`. Assumed: the result is the keyed BLAKE3 digest and
/// is 32 bytes long. The function takes a key of exactly 32 bytes.
#[verifier::external_body]
pub(crate) fn blake3_keyed_digest(key: &[u8], data: &[u8]) -> (digest: Vec<u8>)
    requires
        key@.len() == 32,
    ensures
        digest@ == blake3_keyed_hash(key@, data@),
        digest@.len() == DIGEST_SIZE,
{
    let key: [u8; 32] = key.try_into().expect("32 bytes");
    blake3::keyed_hash(&key, data).as_bytes().to_vec()
}

/// `zstd::encode_all`. Assumed: when the encoder succeeds, its output is the
/// frame named by `zstd_frame`. Whether it succeeds is left open; a failure
/// is handed back as its message.
#[verifier::external_body]
pub(crate) fn zstd_encode(data: &[u8], level: i32) -> (r: Result<Vec<u8>, String>)
    ensures
        r matches Ok(frame) ==> frame@ == zstd_frame(data@, level),
{
    zstd::encode_all(data, level).map_err(|e| e.to_string())
}

/// `zstd::decode_all`. Assumed: the decoder accepts exactly the inputs for
/// which `zstd_content` is `Some`, and returns that content.
#[verifier::external_body]
pub(crate) fn zstd_decode(frame: &[u8]) -> (r: Result<Vec<u8>, String>)
    ensures
        match r {
            Ok(content) => zstd_content(frame@) == Some(content@),
            Err(_) => zstd_content(frame@) is None,
        },
{
    zstd::decode_all(frame).map_err(|e| e.to_string())
}

/// `lz4_flex::compress_prepend_size`. Assumed: the output is the block named
/// by `lz4_block`.
#[verifier::external_body]
pub(crate) fn lz4_encode(data: &[u8]) -> (block: Vec<u8>)
    ensures
        block@ == lz4_block(data@),
{
    lz4_flex::compress_prepend_size(data)
}

/// Longest input that is handed to the LZ4 decoder. The decoder sums the
/// bytes of a length field in a 32-bit counter; only a field of more bytes
/// than this can pass the counter's range.
pub const LZ4_INPUT_LIMIT: usize = 16_843_009;

/// `lz4_flex::decompress_size_prepended`. Assumed: on an input of at most
/// `LZ4_INPUT_LIMIT` bytes the decoder returns, it accepts exactly the
/// inputs for which `lz4_content` is `Some`, and it returns that content.
#[verifier::external_body]
pub(crate) fn lz4_decode(block: &[u8]) -> (r: Result<Vec<u8>, String>)
    requires
        block@.len() <= LZ4_INPUT_LIMIT,
    ensures
        match r {
            Ok(content) => lz4_content(block@) == Some(content@),
            Err(_) => lz4_content(block@) is None,
        },
{
    lz4_flex::decompress_size_prepended(block).map_err(|e| e.to_string())
}

/// `brotli::CompressorWriter`: everything is written into a writer over a
/// fresh buffer, and the writer is dropped to finish the stream. Assumed:
/// when the write succeeds, the buffer holds the stream named by
/// `brotli_stream`.
#[verifier::external_body]
pub(crate) fn brotli_encode(data: &[u8], buffer_size: usize, quality: u32, lgwin: u32) -> (r: Result<
    Vec<u8>,
    String,
>)
    ensures
        r matches Ok(stream) ==> stream@ == brotli_stream(data@, buffer_size, quality, lgwin),
{
    let mut output = Vec::new();
    let mut writer = brotli::CompressorWriter::new(&mut output, buffer_size, quality, lgwin);
    let written = writer.write_all(data);
    drop(writer);
    written.map(|_| output).map_err(|e| e.to_string())
}

/// `brotli::Decompressor`, read to its end. Assumed: the decoder accepts
/// exactly the inputs for which `brotli_content` is `Some`, and returns that
/// content.
#[verifier::external_body]
pub(crate) fn brotli_decode(stream: &[u8], buffer_size: usize) -> (r: Result<Vec<u8>, String>)
    ensures
        match r {
            Ok(content) => brotli_content(stream@, buffer_size) == Some(content@),
            Err(_) => brotli_content(stream@, buffer_size) is None,
        },
{
    let mut output = Vec::new();
    let mut reader = brotli::Decompressor::new(stream, buffer_size);
    reader.read_to_end(&mut output).map(|_| output).map_err(|e| e.to_string())
}

/// `rand::thread_rng` with `RngCore::fill_bytes`. Assumed: the result has the
/// length asked for. Its content is random and nothing is said of it.
#[verifier::external_body]
pub(crate) fn random_bytes(len: usize) -> (bytes: Vec<u8>)
    ensures
        bytes@.len() == len,
{
    let mut bytes = vec![0u8; len];
    rand::thread_rng().fill_bytes(&mut bytes);
    bytes
}

/// `rand::rngs::OsRng` with `RngCore::fill_bytes`. Assumed: the result has
/// the length asked for.
#[verifier::external_body]
pub(crate) fn os_random_bytes(len: usize) -> (bytes: Vec<u8>)
    ensures
        bytes@.len() == len,
{
    let mut bytes = vec![0u8; len];
    rand::rngs::OsRng.fill_bytes(&mut bytes);
    bytes
}

/// `rand::thread_rng` with `Rng::gen`. The result is random; nothing is
/// assumed of it.
#[verifier::external_body]
pub(crate) fn random_u128() -> u128 {
    rand::thread_rng().gen()
}

/// `rand::seq::SliceRandom::shuffle` with `rand::thread_rng`. Assumed: the
/// blocks are the same as before, each as often as before; the order is
/// random.
#[verifier::external_body]
pub(crate) fn shuffle_blocks(blocks: &mut Vec<Vec<u8>>)
    ensures
        rows(final(blocks)@).to_multiset() == rows(old(blocks)@).to_multiset(),
        final(blocks)@.len() == old(blocks)@.len(),
{
    blocks.shuffle(&mut rand::thread_rng());
}

/// `str::to_lowercase`. Assumed: the result is the lower-case form of the
/// input.
#[verifier::external_body]
pub(crate) fn to_lowercase(text: &str) -> (lower: String)
    ensures
        lower@ == lowercase(text@),
{
    text.to_lowercase()
}

} // verus!
