//! All-or-nothing transforms over the fragments of a partition.
//!
//! Two variants exist. Rivest's package transform masks every fragment with
//! a stream derived from a fresh key and appends one block of fragments that
//! hides the key behind the hashes of all masked fragments. The OAEP-style
//! transform is a two-round Feistel network over the two halves of the
//! fragment list and keeps the size. Both are undone exactly, which the laws
//! at the end of this module prove.

use crate::backend::{random_bytes, sha3_256, sha3_256_digest, DIGEST_SIZE};
use crate::bytes::{append_bytes, copy_window, lemma_rows_push, rows, uniform, window};
use crate::header::Aont;
use crate::pipeline::fragment::unfragment_block;
use vstd::bytes::{spec_u64_to_le_bytes, u64_to_le_bytes};
use vstd::prelude::*;
use vstd::string::StringSliceAdditionalSpecFns;

verus! {

/// Length of the key of the package transform.
pub const KEY_SIZE: usize = 32;

/// Label that starts every input of the package transform's stream.
pub open spec fn rivest_label() -> Seq<u8> {
    "hypercube_rivest_prf".spec_bytes()
}

/// Label that starts the hash of one half in the Feistel transform.
pub open spec fn half_label() -> Seq<u8> {
    "hypercube_aont_half".spec_bytes()
}

/// `data` with `mask` laid over it: byte by byte exclusive or, as far as the
/// mask reaches.
pub open spec fn xored(data: Seq<u8>, mask: Seq<u8>) -> Seq<u8> {
    Seq::new(
        data.len(),
        |i: int|
            if i < mask.len() {
                data[i] ^ mask[i]
            } else {
                data[i]
            },
    )
}

/// The stream of `len` bytes grown from `prefix`: the SHA3-256 digests of
/// the prefix followed by the counters 0, 1, 2, ... as 64-bit little-endian
/// numbers, one after another.
pub open spec fn keystream(prefix: Seq<u8>, len: nat) -> Seq<u8> {
    Seq::new(
        len,
        |j: int| sha3_256(prefix + spec_u64_to_le_bytes((j / 32) as u64))[j % 32],
    )
}

/// The mask of fragment `index` under `key`.
pub open spec fn prf_mask(key: Seq<u8>, index: nat, len: nat) -> Seq<u8> {
    keystream(rivest_label() + key + spec_u64_to_le_bytes(index as u64), len)
}

/// The hash that fragment `index` contributes to the key block.
pub open spec fn indexed_hash(index: nat, data: Seq<u8>) -> Seq<u8> {
    sha3_256(spec_u64_to_le_bytes(index as u64) + data)
}

/// Every fragment masked with its own stream under `key`.
pub open spec fn masked_fragments(fragments: Seq<Seq<u8>>, key: Seq<u8>) -> Seq<Seq<u8>> {
    Seq::new(
        fragments.len(),
        |i: int| xored(fragments[i], prf_mask(key, i as nat, fragments[i].len())),
    )
}

/// `start` with the indexed hashes of all fragments laid over it, one after
/// another.
pub open spec fn folded(start: Seq<u8>, fragments: Seq<Seq<u8>>) -> Seq<u8>
    decreases fragments.len(),
{
    if fragments.len() == 0 {
        start
    } else {
        xored(
            folded(start, fragments.drop_last()),
            indexed_hash((fragments.len() - 1) as nat, fragments.last()),
        )
    }
}

/// The block of `per_block` fragments that carries the 32 bytes of
/// `key_block` at its start and zeros after them.
pub open spec fn key_fragments(key_block: Seq<u8>, fragment_size: nat, per_block: nat) -> Seq<
    Seq<u8>,
> {
    Seq::new(per_block, |i: int| window(key_block, i * fragment_size, fragment_size))
}

/// The 32 bytes read back from the start of a key block; zero where the
/// block is too short to hold them.
pub open spec fn embedded_key(tail: Seq<Seq<u8>>, fragment_size: nat) -> Seq<u8> {
    Seq::new(
        KEY_SIZE as nat,
        |p: int|
            if fragment_size > 0 && p / (fragment_size as int) < tail.len() {
                tail[p / (fragment_size as int)][p % (fragment_size as int)]
            } else {
                0u8
            },
    )
}

/// The package transform of `fragments` under `key`.
pub open spec fn rivest_applied(fragments: Seq<Seq<u8>>, key: Seq<u8>, per_block: nat) -> Seq<
    Seq<u8>,
> {
    if fragments.len() == 0 {
        fragments
    } else {
        let masked = masked_fragments(fragments, key);
        masked + key_fragments(folded(key, masked), fragments[0].len(), per_block)
    }
}

/// The package transform undone: the last `per_block` fragments give the key
/// block, the hashes of the others turn it into the key, and the key takes
/// the masks off. A list too short to hold a key block is left as it is.
pub open spec fn rivest_reversed(fragments: Seq<Seq<u8>>, per_block: nat) -> Seq<Seq<u8>> {
    if fragments.len() < per_block + 1 {
        fragments
    } else {
        let body = fragments.take(fragments.len() - per_block);
        let tail = fragments.skip(fragments.len() - per_block);
        let key = folded(embedded_key(tail, fragments[0].len()), body);
        masked_fragments(body, key)
    }
}

/// The key block at the end of `fragments` is long enough to read the key
/// from: every fragment of it that overlaps the first 32 bytes covers its
/// share of them.
pub open spec fn key_block_readable(fragments: Seq<Seq<u8>>, per_block: nat) -> bool {
    fragments.len() >= per_block + 1 ==> {
        &&& fragments[0].len() > 0
        &&& forall|p: int|
            0 <= p < KEY_SIZE && p / (fragments[0].len() as int) < per_block ==> p % (
            fragments[0].len() as int) < (#[trigger] fragments[fragments.len() - per_block + p / (
            fragments[0].len() as int)]).len()
    }
}

/// The hash of one half of the fragment list.
pub open spec fn half_hash(fragments: Seq<Seq<u8>>) -> Seq<u8> {
    sha3_256(half_label() + fragments.flatten())
}

/// Every fragment masked with the stream grown from `seed`.
pub open spec fn stream_masked(fragments: Seq<Seq<u8>>, seed: Seq<u8>) -> Seq<Seq<u8>> {
    Seq::new(
        fragments.len(),
        |i: int| xored(fragments[i], keystream(seed, fragments[i].len())),
    )
}

/// The Feistel transform: the hash of the left half masks the right half,
/// then the hash of the masked right half masks the left half.
pub open spec fn oaep_applied(fragments: Seq<Seq<u8>>) -> Seq<Seq<u8>> {
    if fragments.len() < 2 {
        fragments
    } else {
        let mid = fragments.len() as int / 2;
        let left = fragments.take(mid);
        let right = stream_masked(fragments.skip(mid), half_hash(left));
        stream_masked(left, half_hash(right)) + right
    }
}

/// The Feistel transform undone: the two rounds in reverse order.
pub open spec fn oaep_reversed(fragments: Seq<Seq<u8>>) -> Seq<Seq<u8>> {
    if fragments.len() < 2 {
        fragments
    } else {
        let mid = fragments.len() as int / 2;
        let right = fragments.skip(mid);
        let left = stream_masked(fragments.take(mid), half_hash(right));
        left + stream_masked(right, half_hash(left))
    }
}

/// What `apply_aont` computes once the key is drawn.
pub open spec fn aont_applied(
    fragments: Seq<Seq<u8>>,
    algorithm: Aont,
    per_block: nat,
    key: Seq<u8>,
) -> Seq<Seq<u8>> {
    match algorithm {
        Aont::Rivest => rivest_applied(fragments, key, per_block),
        Aont::Oaep => oaep_applied(fragments),
    }
}

/// What `reverse_aont` computes.
pub open spec fn aont_reversed(fragments: Seq<Seq<u8>>, algorithm: Aont, per_block: nat) -> Seq<
    Seq<u8>,
> {
    match algorithm {
        Aont::Rivest => rivest_reversed(fragments, per_block),
        Aont::Oaep => oaep_reversed(fragments),
    }
}

/// The bytes of the package transform's label.
fn rivest_label_bytes() -> (label: Vec<u8>)
    ensures
        label@ == rivest_label(),
{
    "hypercube_rivest_prf".as_bytes_vec()
}

/// The bytes of the half-hash label.
fn half_label_bytes() -> (label: Vec<u8>)
    ensures
        label@ == half_label(),
{
    "hypercube_aont_half".as_bytes_vec()
}

/// Lays `mask` over `data`, byte by byte, as far as the shorter of the two
/// reaches.
pub fn xor_bytes(data: &[u8], mask: &[u8]) -> (out: Vec<u8>)
    ensures
        out@ == xored(data@, mask@),
{
    let mut out: Vec<u8> = Vec::with_capacity(data.len());
    let mut i: usize = 0;
    while i < data.len()
        invariant
            i <= data@.len(),
            out@ == xored(data@, mask@).take(i as int),
        decreases data@.len() - i,
    {
        let byte: u8 = if i < mask.len() {
            data[i] ^ mask[i]
        } else {
            data[i]
        };
        out.push(byte);
        i += 1;
        assert(out@ =~= xored(data@, mask@).take(i as int));
    }
    assert(xored(data@, mask@).take(data@.len() as int) =~= xored(data@, mask@));
    out
}

/// Grows a stream of `length` bytes from `prefix`.
pub fn expand_stream(prefix: &[u8], length: usize) -> (stream: Vec<u8>)
    ensures
        stream@ == keystream(prefix@, length as nat),
{
    let mut stream: Vec<u8> = Vec::with_capacity(length);
    let mut counter: u64 = 0;
    while stream.len() < length
        invariant
            stream@.len() <= length,
            stream@.len() == counter * 32 || stream@.len() == length,
            stream@ == keystream(prefix@, length as nat).take(stream@.len() as int),
        decreases length - stream@.len(),
    {
        let mut input: Vec<u8> = Vec::new();
        append_bytes(&mut input, prefix);
        let count_bytes = u64_to_le_bytes(counter);
        append_bytes(&mut input, count_bytes.as_slice());
        let digest = sha3_256_digest(input.as_slice());
        let ghost base = stream@.len() as int;
        let mut k: usize = 0;
        while k < DIGEST_SIZE && stream.len() < length
            invariant
                k <= DIGEST_SIZE,
                digest@.len() == DIGEST_SIZE,
                digest@ == sha3_256(prefix@ + spec_u64_to_le_bytes(counter)),
                base == counter * 32,
                stream@.len() == base + k,
                stream@.len() <= length,
                stream@ == keystream(prefix@, length as nat).take(stream@.len() as int),
            decreases DIGEST_SIZE - k,
        {
            proof {
                let j = base + k;
                assert(j / 32 == counter && j % 32 == k) by (nonlinear_arith)
                    requires
                        j == counter * 32 + k,
                        0 <= k < 32,
                ;
            }
            stream.push(digest[k]);
            k += 1;
            assert(stream@ =~= keystream(prefix@, length as nat).take(stream@.len() as int));
        }
        if stream.len() < length {
            counter += 1;
        }
    }
    assert(keystream(prefix@, length as nat).take(length as int) =~= keystream(
        prefix@,
        length as nat,
    ));
    stream
}

/// The mask of fragment `index` under `key`: `length` bytes.
pub fn prf(key: &[u8], index: usize, length: usize) -> (mask: Vec<u8>)
    ensures
        mask@ == prf_mask(key@, index as nat, length as nat),
{
    let mut prefix = rivest_label_bytes();
    append_bytes(&mut prefix, key);
    let index_bytes = u64_to_le_bytes(index as u64);
    append_bytes(&mut prefix, index_bytes.as_slice());
    expand_stream(prefix.as_slice(), length)
}

/// The stream grown from a half hash: `length` bytes.
pub fn expand_hash(seed: &[u8], length: usize) -> (mask: Vec<u8>)
    ensures
        mask@ == keystream(seed@, length as nat),
{
    expand_stream(seed, length)
}

/// The hash of `data` with its index in front.
pub fn hash_indexed(index: usize, data: &[u8]) -> (digest: Vec<u8>)
    ensures
        digest@ == indexed_hash(index as nat, data@),
{
    let mut input = u64_to_le_bytes(index as u64);
    append_bytes(&mut input, data);
    sha3_256_digest(input.as_slice())
}

/// The hash of one half of the fragment list.
pub fn compute_half_hash(fragments: &[Vec<u8>]) -> (digest: Vec<u8>)
    ensures
        digest@ == half_hash(rows(fragments@)),
{
    let mut input = half_label_bytes();
    let joined = unfragment_block(fragments);
    append_bytes(&mut input, joined.as_slice());
    sha3_256_digest(input.as_slice())
}

/// Masks every fragment of `fragments` with the stream grown from `seed`
/// and appends the results to `out`.
fn mask_with_stream(out: &mut Vec<Vec<u8>>, fragments: &[Vec<u8>], seed: &[u8])
    ensures
        rows(final(out)@) == rows(old(out)@) + stream_masked(rows(fragments@), seed@),
{
    let ghost expected = stream_masked(rows(fragments@), seed@);
    let mut i: usize = 0;
    while i < fragments.len()
        invariant
            i <= fragments@.len(),
            expected == stream_masked(rows(fragments@), seed@),
            rows(out@) == rows(old(out)@) + expected.take(i as int),
        decreases fragments@.len() - i,
    {
        let mask = expand_hash(seed, fragments[i].len());
        let masked = xor_bytes(fragments[i].as_slice(), mask.as_slice());
        proof {
            lemma_rows_push(out@, masked);
            assert(rows(fragments@)[i as int] == fragments@[i as int]@);
            assert((rows(old(out)@) + expected.take(i as int)).push(masked@) =~= rows(old(out)@)
                + expected.take(i + 1));
        }
        out.push(masked);
        i += 1;
    }
    assert(expected.take(fragments@.len() as int) =~= expected);
}

/// The package transform with the key given: masks every fragment and
/// appends the key block.
pub fn rivest_aont_apply(fragments: Vec<Vec<u8>>, frags_per_block: usize, key: &[u8]) -> (out: Vec<
    Vec<u8>,
>)
    requires
        key@.len() == KEY_SIZE,
        fragments@.len() > 0 ==> fragments@[0]@.len() > 0,
    ensures
        rows(out@) == rivest_applied(rows(fragments@), key@, frags_per_block as nat),
{
    if fragments.len() == 0 {
        return fragments;
    }
    let frag_size: usize = fragments[0].len();
    let ghost source = rows(fragments@);
    let ghost masked = masked_fragments(source, key@);
    let mut out: Vec<Vec<u8>> = Vec::new();
    let mut key_block: Vec<u8> = Vec::new();
    append_bytes(&mut key_block, key);
    let mut i: usize = 0;
    while i < fragments.len()
        invariant
            i <= fragments@.len(),
            source == rows(fragments@),
            masked == masked_fragments(source, key@),
            rows(out@) == masked.take(i as int),
            key_block@ == folded(key@, masked.take(i as int)),
        decreases fragments@.len() - i,
    {
        let mask = prf(key, i, fragments[i].len());
        let piece = xor_bytes(fragments[i].as_slice(), mask.as_slice());
        let digest = hash_indexed(i, piece.as_slice());
        proof {
            assert(source[i as int] == fragments@[i as int]@);
            lemma_rows_push(out@, piece);
            assert(masked.take(i as int).push(piece@) =~= masked.take(i + 1));
            assert(masked.take(i + 1).drop_last() =~= masked.take(i as int));
        }
        key_block = xor_bytes(key_block.as_slice(), digest.as_slice());
        out.push(piece);
        i += 1;
    }
    assert(masked.take(fragments@.len() as int) =~= masked);
    assert(key_block@.len() == KEY_SIZE) by {
        lemma_folded_len(key@, masked);
    }
    let ghost tail = key_fragments(key_block@, frag_size as nat, frags_per_block as nat);
    let mut k: usize = 0;
    while k < frags_per_block
        invariant
            k <= frags_per_block,
            frag_size > 0,
            key_block@.len() == KEY_SIZE,
            tail == key_fragments(key_block@, frag_size as nat, frags_per_block as nat),
            rows(out@) == masked + tail.take(k as int),
        decreases frags_per_block - k,
    {
        let start: usize = if k == 0 {
            0
        } else if frag_size >= KEY_SIZE || k >= KEY_SIZE {
            KEY_SIZE
        } else {
            assert(k * frag_size < 1024) by (nonlinear_arith)
                requires
                    k < 32,
                    frag_size < 32,
            ;
            k * frag_size
        };
        let piece = copy_window(key_block.as_slice(), start, frag_size);
        proof {
            let f = frag_size as int;
            assert(start == k * f || (start >= 32 && k * f >= 32)) by (nonlinear_arith)
                requires
                    f > 0,
                    0 <= k,
                    k == 0 ==> start == 0,
                    k != 0 && (f >= 32 || k >= 32) ==> start == 32,
                    k != 0 && f < 32 && k < 32 ==> start == k * f,
            ;
            assert(piece@ =~= window(key_block@, k * f, frag_size as nat));
            lemma_rows_push(out@, piece);
            assert((masked + tail.take(k as int)).push(piece@) =~= masked + tail.take(k + 1));
        }
        out.push(piece);
        k += 1;
    }
    assert(tail.take(frags_per_block as int) =~= tail);
    out
}

/// The package transform undone.
pub fn rivest_aont_reverse(fragments: Vec<Vec<u8>>, frags_per_block: usize) -> (out: Vec<Vec<u8>>)
    requires
        key_block_readable(rows(fragments@), frags_per_block as nat),
    ensures
        rows(out@) == rivest_reversed(rows(fragments@), frags_per_block as nat),
{
    if fragments.len() <= frags_per_block {
        return fragments;
    }
    let frag_size: usize = fragments[0].len();
    let body_len: usize = fragments.len() - frags_per_block;
    let ghost source = rows(fragments@);
    let ghost body = source.take(body_len as int);
    let ghost tail = source.skip(body_len as int);
    let mut key_block: Vec<u8> = Vec::with_capacity(KEY_SIZE);
    let mut p: usize = 0;
    while p < KEY_SIZE
        invariant
            p <= KEY_SIZE,
            frag_size > 0,
            frags_per_block < fragments@.len() <= usize::MAX,
            source == rows(fragments@),
            frag_size == source[0].len(),
            body_len + frags_per_block == fragments@.len(),
            tail == source.skip(body_len as int),
            key_block_readable(source, frags_per_block as nat),
            key_block@ == embedded_key(tail, frag_size as nat).take(p as int),
        decreases KEY_SIZE - p,
    {
        let t: usize = p / frag_size;
        let byte: u8 = if t < frags_per_block {
            assert((p as int) % (frag_size as int) < source[source.len() - frags_per_block
                + (p as int) / (frag_size as int)].len());
            assert(source[body_len + t] == fragments@[body_len + t]@);
            fragments[body_len + t][p % frag_size]
        } else {
            0u8
        };
        key_block.push(byte);
        p += 1;
        assert(key_block@ =~= embedded_key(tail, frag_size as nat).take(p as int));
    }
    assert(embedded_key(tail, frag_size as nat).take(KEY_SIZE as int) =~= embedded_key(
        tail,
        frag_size as nat,
    ));
    let mut i: usize = 0;
    while i < body_len
        invariant
            i <= body_len <= fragments@.len(),
            source == rows(fragments@),
            body == source.take(body_len as int),
            key_block@ == folded(embedded_key(tail, frag_size as nat), body.take(i as int)),
        decreases body_len - i,
    {
        let digest = hash_indexed(i, fragments[i].as_slice());
        proof {
            assert(source[i as int] == fragments@[i as int]@);
            assert(body.take(i + 1).drop_last() =~= body.take(i as int));
        }
        key_block = xor_bytes(key_block.as_slice(), digest.as_slice());
        i += 1;
    }
    assert(body.take(body_len as int) =~= body);
    let ghost expected = masked_fragments(body, key_block@);
    let mut out: Vec<Vec<u8>> = Vec::with_capacity(body_len);
    let mut j: usize = 0;
    while j < body_len
        invariant
            j <= body_len <= fragments@.len(),
            source == rows(fragments@),
            body == source.take(body_len as int),
            expected == masked_fragments(body, key_block@),
            rows(out@) == expected.take(j as int),
        decreases body_len - j,
    {
        let mask = prf(key_block.as_slice(), j, fragments[j].len());
        let piece = xor_bytes(fragments[j].as_slice(), mask.as_slice());
        proof {
            assert(source[j as int] == fragments@[j as int]@);
            lemma_rows_push(out@, piece);
            assert(expected.take(j as int).push(piece@) =~= expected.take(j + 1));
        }
        out.push(piece);
        j += 1;
    }
    assert(expected.take(body_len as int) =~= expected);
    out
}

/// The Feistel transform.
pub fn oaep_aont_apply(fragments: Vec<Vec<u8>>) -> (out: Vec<Vec<u8>>)
    ensures
        rows(out@) == oaep_applied(rows(fragments@)),
{
    if fragments.len() < 2 {
        return fragments;
    }
    let mid: usize = fragments.len() / 2;
    let left = vstd::slice::slice_subrange(fragments.as_slice(), 0, mid);
    let right = vstd::slice::slice_subrange(fragments.as_slice(), mid, fragments.len());
    proof {
        assert(rows(left@) =~= rows(fragments@).take(mid as int));
        assert(rows(right@) =~= rows(fragments@).skip(mid as int));
    }
    let left_hash = compute_half_hash(left);
    let mut masked_right: Vec<Vec<u8>> = Vec::new();
    mask_with_stream(&mut masked_right, right, left_hash.as_slice());
    assert(rows(masked_right@) =~= stream_masked(rows(right@), left_hash@));
    let right_hash = compute_half_hash(masked_right.as_slice());
    let mut out: Vec<Vec<u8>> = Vec::new();
    mask_with_stream(&mut out, left, right_hash.as_slice());
    assert(rows(out@) =~= stream_masked(rows(left@), right_hash@));
    let ghost masked_left = rows(out@);
    let ghost out_before = out@;
    let ghost right_before = masked_right@;
    out.append(&mut masked_right);
    assert(rows(out@) =~= masked_left + rows(right_before)) by {
        assert(out@ == out_before + right_before);
    }
    out
}

/// The Feistel transform undone.
pub fn oaep_aont_reverse(fragments: Vec<Vec<u8>>) -> (out: Vec<Vec<u8>>)
    ensures
        rows(out@) == oaep_reversed(rows(fragments@)),
{
    if fragments.len() < 2 {
        return fragments;
    }
    let mid: usize = fragments.len() / 2;
    let left = vstd::slice::slice_subrange(fragments.as_slice(), 0, mid);
    let right = vstd::slice::slice_subrange(fragments.as_slice(), mid, fragments.len());
    proof {
        assert(rows(left@) =~= rows(fragments@).take(mid as int));
        assert(rows(right@) =~= rows(fragments@).skip(mid as int));
    }
    let right_hash = compute_half_hash(right);
    let mut out: Vec<Vec<u8>> = Vec::new();
    mask_with_stream(&mut out, left, right_hash.as_slice());
    assert(rows(out@) =~= stream_masked(rows(left@), right_hash@));
    let left_hash = compute_half_hash(out.as_slice());
    mask_with_stream(&mut out, right, left_hash.as_slice());
    out
}

/// Applies the chosen transform. The package transform draws a fresh random
/// key, so two calls on the same fragments differ; whatever the key, the
/// result is the transform under some 32-byte key and `reverse_aont` gives
/// the fragments back.
pub fn apply_aont(fragments: Vec<Vec<u8>>, algorithm: Aont, frags_per_block: usize) -> (out: Vec<
    Vec<u8>,
>)
    requires
        algorithm is Rivest && fragments@.len() > 0 ==> fragments@[0]@.len() > 0,
    ensures
        exists|key: Seq<u8>|
            key.len() == KEY_SIZE && rows(out@) == #[trigger] aont_applied(
                rows(fragments@),
                algorithm,
                frags_per_block as nat,
                key,
            ),
{
    match algorithm {
        Aont::Rivest => {
            let key = random_bytes(KEY_SIZE);
            let out = rivest_aont_apply(fragments, frags_per_block, key.as_slice());
            assert(rows(out@) == aont_applied(
                rows(fragments@),
                algorithm,
                frags_per_block as nat,
                key@,
            ));
            out
        },
        Aont::Oaep => {
            let out = oaep_aont_apply(fragments);
            assert(rows(out@) == aont_applied(
                rows(fragments@),
                algorithm,
                frags_per_block as nat,
                Seq::new(KEY_SIZE as nat, |i: int| 0u8),
            ));
            out
        },
    }
}

/// Undoes the chosen transform.
pub fn reverse_aont(fragments: Vec<Vec<u8>>, algorithm: Aont, frags_per_block: usize) -> (out: Vec<
    Vec<u8>,
>)
    requires
        algorithm is Rivest ==> key_block_readable(rows(fragments@), frags_per_block as nat),
    ensures
        rows(out@) == aont_reversed(rows(fragments@), algorithm, frags_per_block as nat),
{
    match algorithm {
        Aont::Rivest => rivest_aont_reverse(fragments, frags_per_block),
        Aont::Oaep => oaep_aont_reverse(fragments),
    }
}

/// Laying hashes over a start value keeps its length.
pub proof fn lemma_folded_len(start: Seq<u8>, fragments: Seq<Seq<u8>>)
    ensures
        folded(start, fragments).len() == start.len(),
    decreases fragments.len(),
{
    if fragments.len() > 0 {
        lemma_folded_len(start, fragments.drop_last());
    }
}

/// Laying the same mask over a byte string twice gives the string back.
pub proof fn lemma_xored_twice(data: Seq<u8>, mask: Seq<u8>)
    ensures
        xored(xored(data, mask), mask) == data,
{
    assert forall|i: int| 0 <= i < data.len() implies xored(xored(data, mask), mask)[i]
        == data[i] by {
        if i < mask.len() {
            let d = data[i];
            let m = mask[i];
            assert((d ^ m) ^ m == d) by (bit_vector);
        }
    }
    assert(xored(xored(data, mask), mask) =~= data);
}

/// Two masks can be laid over a byte string in either order.
pub proof fn lemma_xored_commutes(data: Seq<u8>, first: Seq<u8>, second: Seq<u8>)
    ensures
        xored(xored(data, first), second) == xored(xored(data, second), first),
{
    assert forall|i: int| 0 <= i < data.len() implies xored(xored(data, first), second)[i]
        == xored(xored(data, second), first)[i] by {
        if i < first.len() && i < second.len() {
            let d = data[i];
            let a = first[i];
            let b = second[i];
            assert((d ^ a) ^ b == (d ^ b) ^ a) by (bit_vector);
        }
    }
    assert(xored(xored(data, first), second) =~= xored(xored(data, second), first));
}

/// A mask laid over the start value can be laid over the folded value
/// instead.
pub proof fn lemma_folded_mask(start: Seq<u8>, mask: Seq<u8>, fragments: Seq<Seq<u8>>)
    ensures
        folded(xored(start, mask), fragments) == xored(folded(start, fragments), mask),
    decreases fragments.len(),
{
    if fragments.len() > 0 {
        let hash = indexed_hash((fragments.len() - 1) as nat, fragments.last());
        lemma_folded_mask(start, mask, fragments.drop_last());
        lemma_xored_commutes(folded(start, fragments.drop_last()), mask, hash);
    }
}

/// Folding the hashes of the same fragments in twice gives the start value
/// back: this is how the key comes out of the key block again.
pub proof fn lemma_folded_twice(start: Seq<u8>, fragments: Seq<Seq<u8>>)
    ensures
        folded(folded(start, fragments), fragments) == start,
    decreases fragments.len(),
{
    if fragments.len() > 0 {
        let init = fragments.drop_last();
        let hash = indexed_hash((fragments.len() - 1) as nat, fragments.last());
        let inner = folded(start, init);
        lemma_folded_mask(inner, hash, init);
        lemma_xored_twice(folded(inner, init), hash);
        lemma_folded_twice(start, init);
    }
}

/// Masking the fragments twice under the same key gives them back.
pub proof fn lemma_masked_twice(fragments: Seq<Seq<u8>>, key: Seq<u8>)
    ensures
        masked_fragments(masked_fragments(fragments, key), key) == fragments,
{
    let once = masked_fragments(fragments, key);
    assert forall|i: int| 0 <= i < fragments.len() implies masked_fragments(once, key)[i]
        == fragments[i] by {
        lemma_xored_twice(fragments[i], prf_mask(key, i as nat, fragments[i].len()));
    }
    assert(masked_fragments(once, key) =~= fragments);
}

/// Masking the fragments twice with the same stream gives them back.
pub proof fn lemma_stream_masked_twice(fragments: Seq<Seq<u8>>, seed: Seq<u8>)
    ensures
        stream_masked(stream_masked(fragments, seed), seed) == fragments,
{
    let once = stream_masked(fragments, seed);
    assert forall|i: int| 0 <= i < fragments.len() implies stream_masked(once, seed)[i]
        == fragments[i] by {
        lemma_xored_twice(fragments[i], keystream(seed, fragments[i].len()));
    }
    assert(stream_masked(once, seed) =~= fragments);
}

/// The key block carries the key: what is read back from the key fragments
/// is the key block itself, as soon as the block has room for 32 bytes.
pub proof fn lemma_embedded_key(key_block: Seq<u8>, fragment_size: nat, per_block: nat)
    requires
        key_block.len() == KEY_SIZE,
        fragment_size > 0,
        per_block * fragment_size >= KEY_SIZE,
    ensures
        embedded_key(key_fragments(key_block, fragment_size, per_block), fragment_size)
            == key_block,
{
    let tail = key_fragments(key_block, fragment_size, per_block);
    let f = fragment_size as int;
    assert forall|p: int| 0 <= p < KEY_SIZE implies embedded_key(tail, fragment_size)[p]
        == key_block[p] by {
        let t = p / f;
        let r = p % f;
        vstd::arithmetic::div_mod::lemma_fundamental_div_mod(p, f);
        assert(0 <= t < per_block && t * f + r == p && 0 <= r < f) by (nonlinear_arith)
            requires
                0 <= p < 32,
                f > 0,
                per_block * f >= 32,
                p == f * t + r,
                0 <= r < f,
                t == p / f,
        ;
        assert(tail[t][r] == key_block[t * f + r]);
    }
    assert(embedded_key(tail, fragment_size) =~= key_block);
}

/// The package transform is undone exactly, whatever the key: for fragments
/// whose first has positive length and a key block with room for 32 bytes,
/// reversing the transform gives the fragments back.
pub proof fn lemma_rivest_round_trip(fragments: Seq<Seq<u8>>, key: Seq<u8>, per_block: nat)
    requires
        key.len() == KEY_SIZE,
        fragments.len() > 0 ==> fragments[0].len() > 0 && per_block * fragments[0].len()
            >= KEY_SIZE,
    ensures
        rivest_reversed(rivest_applied(fragments, key, per_block), per_block) == fragments,
        key_block_readable(rivest_applied(fragments, key, per_block), per_block),
{
    if fragments.len() > 0 {
        let size = fragments[0].len();
        let masked = masked_fragments(fragments, key);
        let key_block = folded(key, masked);
        let tail = key_fragments(key_block, size, per_block);
        let applied = rivest_applied(fragments, key, per_block);
        lemma_folded_len(key, masked);
        assert(applied == masked + tail);
        assert(applied.len() == fragments.len() + per_block);
        assert(applied[0] == masked[0]);
        assert(applied[0].len() == size);
        assert(applied.take(applied.len() - per_block) =~= masked);
        assert(applied.skip(applied.len() - per_block) =~= tail);
        lemma_embedded_key(key_block, size, per_block);
        lemma_folded_twice(key, masked);
        lemma_masked_twice(fragments, key);
        assert forall|p: int| 0 <= p < KEY_SIZE && p / (size as int) < per_block implies p % (
        size as int) < (#[trigger] applied[applied.len() - per_block + p / (size as int)]).len() by {
            let t = p / (size as int);
            assert(applied[applied.len() - per_block + t] == tail[t]);
            assert(tail[t].len() == size);
        }
    }
}

/// The Feistel transform is undone exactly.
pub proof fn lemma_oaep_round_trip(fragments: Seq<Seq<u8>>)
    ensures
        oaep_reversed(oaep_applied(fragments)) == fragments,
{
    if fragments.len() >= 2 {
        let mid = fragments.len() as int / 2;
        let left = fragments.take(mid);
        let right = fragments.skip(mid);
        let masked_right = stream_masked(right, half_hash(left));
        let masked_left = stream_masked(left, half_hash(masked_right));
        let applied = oaep_applied(fragments);
        assert(applied == masked_left + masked_right);
        assert(applied.len() == fragments.len());
        assert(applied.take(mid) =~= masked_left);
        assert(applied.skip(mid) =~= masked_right);
        lemma_stream_masked_twice(left, half_hash(masked_right));
        lemma_stream_masked_twice(right, half_hash(left));
        assert(left + right =~= fragments);
    }
}

/// Either transform is undone exactly by `reverse_aont`.
pub proof fn lemma_aont_round_trip(
    fragments: Seq<Seq<u8>>,
    algorithm: Aont,
    per_block: nat,
    key: Seq<u8>,
)
    requires
        key.len() == KEY_SIZE,
        algorithm is Rivest && fragments.len() > 0 ==> fragments[0].len() > 0 && per_block
            * fragments[0].len() >= KEY_SIZE,
    ensures
        aont_reversed(aont_applied(fragments, algorithm, per_block, key), algorithm, per_block)
            == fragments,
{
    match algorithm {
        Aont::Rivest => lemma_rivest_round_trip(fragments, key, per_block),
        Aont::Oaep => lemma_oaep_round_trip(fragments),
    }
}

/// Either transform keeps the fragment size; the package transform adds one
/// block of fragments to a list that is not empty.
pub proof fn lemma_aont_applied_shape(
    fragments: Seq<Seq<u8>>,
    algorithm: Aont,
    per_block: nat,
    key: Seq<u8>,
    fragment_size: nat,
)
    requires
        uniform(fragments, fragment_size),
    ensures
        uniform(aont_applied(fragments, algorithm, per_block, key), fragment_size),
        aont_applied(fragments, algorithm, per_block, key).len() == if algorithm is Rivest
            && fragments.len() > 0 {
            fragments.len() + per_block
        } else {
            fragments.len()
        },
{
    let applied = aont_applied(fragments, algorithm, per_block, key);
    match algorithm {
        Aont::Rivest => {
            if fragments.len() > 0 {
                let masked = masked_fragments(fragments, key);
                let tail = key_fragments(folded(key, masked), fragments[0].len(), per_block);
                assert forall|i: int| 0 <= i < applied.len() implies (#[trigger] applied[i]).len()
                    == fragment_size by {
                    if i < masked.len() {
                        assert(applied[i] == masked[i]);
                        assert(fragments[i].len() == fragment_size);
                    } else {
                        assert(applied[i] == tail[i - masked.len()]);
                        assert(fragments[0].len() == fragment_size);
                    }
                }
            }
        },
        Aont::Oaep => {
            if fragments.len() >= 2 {
                let mid = fragments.len() as int / 2;
                let left = fragments.take(mid);
                let right = stream_masked(fragments.skip(mid), half_hash(left));
                let masked_left = stream_masked(left, half_hash(right));
                assert forall|i: int| 0 <= i < applied.len() implies (#[trigger] applied[i]).len()
                    == fragment_size by {
                    if i < mid {
                        assert(applied[i] == masked_left[i]);
                        assert(left[i] == fragments[i]);
                        assert(fragments[i].len() == fragment_size);
                    } else {
                        assert(applied[i] == right[i - mid]);
                        assert(fragments.skip(mid)[i - mid] == fragments[i]);
                        assert(fragments[i].len() == fragment_size);
                    }
                }
            }
        },
    }
}

/// Fragments of one positive size always end in a readable key block.
pub proof fn lemma_uniform_readable(fragments: Seq<Seq<u8>>, per_block: nat, fragment_size: nat)
    requires
        uniform(fragments, fragment_size),
        fragment_size > 0,
    ensures
        key_block_readable(fragments, per_block),
{
    if fragments.len() >= per_block + 1 {
        let size = fragments[0].len() as int;
        assert forall|p: int| 0 <= p < KEY_SIZE && p / size < per_block implies p % size < (
        #[trigger] fragments[fragments.len() - per_block + p / size]).len() by {
            let t = p / size;
            vstd::arithmetic::div_mod::lemma_fundamental_div_mod(p, size);
            assert(0 <= t) by (nonlinear_arith)
                requires
                    p >= 0,
                    size > 0,
                    t == p / size,
            ;
            assert(fragments[fragments.len() - per_block + t].len() == fragment_size);
        }
    }
}

} // verus!
