//! Reading a header from any spelling of its JSON object.
//!
//! The writer spells a header in one way only. A header that another tool
//! wrote may carry white space between its tokens and its keys in another
//! order; this module reads those too. The grammar is the JSON object with
//! exactly the ten keys of a header, each once: numbers in decimal without
//! sign, fraction or leading zeros, names as strings without escapes.

use crate::bytes::same_bytes;
use crate::decimal::{decimal, digits_end, lemma_decimal_injective, read_number};
use crate::header::{Aont, Compression, HashAlgorithm, VhcHeader};
use crate::header_text::{
    aont_bytes, aont_text, compression_bytes, compression_text, hash_bytes, hash_text,
    is_numeric, limit_at, name_end, QUOTE,
};
use vstd::prelude::*;
use vstd::string::StringSliceAdditionalSpecFns;

verus! {

/// The colon between a key and its value.
pub const COLON: u8 = 58;

/// The comma between two members.
pub const COMMA: u8 = 44;

/// The brace that opens the object.
pub const OPEN: u8 = 123;

/// The brace that closes the object.
pub const CLOSE: u8 = 125;

/// The byte is JSON white space: space, tab, line feed or carriage return.
pub open spec fn is_space(byte: u8) -> bool {
    byte == 32 || byte == 9 || byte == 10 || byte == 13
}

/// The end of the white space that starts at `at`.
pub open spec fn spaces_end(data: Seq<u8>, at: int) -> int
    decreases data.len() - at,
{
    if at < 0 || at >= data.len() || !is_space(data[at]) {
        at
    } else {
        spaces_end(data, at + 1)
    }
}

/// The key of field `k`.
pub open spec fn key_text(k: int) -> Seq<u8> {
    if k == 0 {
        "version".spec_bytes()
    } else if k == 1 {
        "cube_id".spec_bytes()
    } else if k == 2 {
        "dimension".spec_bytes()
    } else if k == 3 {
        "blocks_per_partition".spec_bytes()
    } else if k == 4 {
        "block_size".spec_bytes()
    } else if k == 5 {
        "mac_bits".spec_bytes()
    } else if k == 6 {
        "compression".spec_bytes()
    } else if k == 7 {
        "aont".spec_bytes()
    } else if k == 8 {
        "hash".spec_bytes()
    } else {
        "fragment_size".spec_bytes()
    }
}

/// The field that a key names, if it names one.
pub open spec fn key_index(key: Seq<u8>) -> Option<int> {
    if key == key_text(0) {
        Some(0)
    } else if key == key_text(1) {
        Some(1)
    } else if key == key_text(2) {
        Some(2)
    } else if key == key_text(3) {
        Some(3)
    } else if key == key_text(4) {
        Some(4)
    } else if key == key_text(5) {
        Some(5)
    } else if key == key_text(6) {
        Some(6)
    } else if key == key_text(7) {
        Some(7)
    } else if key == key_text(8) {
        Some(8)
    } else if key == key_text(9) {
        Some(9)
    } else {
        None
    }
}

/// The fields of a header as far as they have been read.
#[derive(Clone, Copy)]
pub struct Fields {
    pub version: Option<u32>,
    pub cube_id: Option<usize>,
    pub dimension: Option<usize>,
    pub blocks_per_partition: Option<usize>,
    pub block_size: Option<usize>,
    pub mac_bits: Option<usize>,
    pub compression: Option<Compression>,
    pub aont: Option<Aont>,
    pub hash: Option<HashAlgorithm>,
    pub fragment_size: Option<usize>,
}

/// Nothing read yet.
pub open spec fn no_fields() -> Fields {
    Fields {
        version: None,
        cube_id: None,
        dimension: None,
        blocks_per_partition: None,
        block_size: None,
        mac_bits: None,
        compression: None,
        aont: None,
        hash: None,
        fragment_size: None,
    }
}

/// Field `k` has been read.
pub open spec fn taken(fields: Fields, k: int) -> bool {
    if k == 0 {
        fields.version is Some
    } else if k == 1 {
        fields.cube_id is Some
    } else if k == 2 {
        fields.dimension is Some
    } else if k == 3 {
        fields.blocks_per_partition is Some
    } else if k == 4 {
        fields.block_size is Some
    } else if k == 5 {
        fields.mac_bits is Some
    } else if k == 6 {
        fields.compression is Some
    } else if k == 7 {
        fields.aont is Some
    } else if k == 8 {
        fields.hash is Some
    } else {
        fields.fragment_size is Some
    }
}

/// The fields with the number `n` in the numeric field `k`.
pub open spec fn with_number(fields: Fields, k: int, n: nat) -> Fields {
    if k == 0 {
        Fields { version: Some(n as u32), ..fields }
    } else if k == 1 {
        Fields { cube_id: Some(n as usize), ..fields }
    } else if k == 2 {
        Fields { dimension: Some(n as usize), ..fields }
    } else if k == 3 {
        Fields { blocks_per_partition: Some(n as usize), ..fields }
    } else if k == 4 {
        Fields { block_size: Some(n as usize), ..fields }
    } else if k == 5 {
        Fields { mac_bits: Some(n as usize), ..fields }
    } else {
        Fields { fragment_size: Some(n as usize), ..fields }
    }
}

/// The number up to `max` whose text stands at `at` and ends where the
/// digits end, if there is one.
pub open spec fn number_read(data: Seq<u8>, at: int, max: nat) -> Option<nat> {
    if exists|n: nat| n <= max && data.subrange(at, digits_end(data, at)) == decimal(n) {
        Some(choose|n: nat| n <= max && data.subrange(at, digits_end(data, at)) == decimal(n))
    } else {
        None
    }
}

/// The compression algorithm that a name in a header spells.
pub open spec fn compression_named(name: Seq<u8>) -> Option<Compression> {
    if name == compression_text(Compression::Zstd) {
        Some(Compression::Zstd)
    } else if name == compression_text(Compression::Lz4) {
        Some(Compression::Lz4)
    } else if name == compression_text(Compression::Brotli) {
        Some(Compression::Brotli)
    } else if name == compression_text(Compression::Uncompressed) {
        Some(Compression::Uncompressed)
    } else {
        None
    }
}

/// The transform that a name in a header spells.
pub open spec fn aont_named(name: Seq<u8>) -> Option<Aont> {
    if name == aont_text(Aont::Rivest) {
        Some(Aont::Rivest)
    } else if name == aont_text(Aont::Oaep) {
        Some(Aont::Oaep)
    } else {
        None
    }
}

/// The hash family that a name in a header spells.
pub open spec fn hash_named(name: Seq<u8>) -> Option<HashAlgorithm> {
    if name == hash_text(HashAlgorithm::Sha3) {
        Some(HashAlgorithm::Sha3)
    } else if name == hash_text(HashAlgorithm::Blake3) {
        Some(HashAlgorithm::Blake3)
    } else if name == hash_text(HashAlgorithm::Sha256) {
        Some(HashAlgorithm::Sha256)
    } else {
        None
    }
}

/// The fields with the algorithm that `name` spells in the name field `k`,
/// if it spells one of that kind.
pub open spec fn with_name(fields: Fields, k: int, name: Seq<u8>) -> Option<Fields> {
    if k == 6 {
        match compression_named(name) {
            Some(compression) => Some(Fields { compression: Some(compression), ..fields }),
            None => None,
        }
    } else if k == 7 {
        match aont_named(name) {
            Some(aont) => Some(Fields { aont: Some(aont), ..fields }),
            None => None,
        }
    } else {
        match hash_named(name) {
            Some(hash) => Some(Fields { hash: Some(hash), ..fields }),
            None => None,
        }
    }
}

/// The value of field `k` read at `at`: the fields with the value in them,
/// and the position behind the value. A number is read as far as its digits
/// go; a name stands between quotation marks.
pub open spec fn loose_value(data: Seq<u8>, at: int, k: int, fields: Fields) -> Option<
    (Fields, int),
> {
    if is_numeric(k) {
        match number_read(data, at, limit_at(k)) {
            Some(n) => Some((with_number(fields, k, n), digits_end(data, at))),
            None => None,
        }
    } else if !(0 <= at < data.len() && data[at] == QUOTE) {
        None
    } else if name_end(data, at + 1) >= data.len() {
        None
    } else {
        match with_name(fields, k, data.subrange(at + 1, name_end(data, at + 1))) {
            Some(next) => Some((next, name_end(data, at + 1) + 1)),
            None => None,
        }
    }
}

/// One member read at `at`: a key between quotation marks that names a
/// field not read before, a colon, and the field's value, with white space
/// allowed around the colon.
pub open spec fn loose_member(data: Seq<u8>, at: int, fields: Fields) -> Option<(Fields, int)> {
    if !(0 <= at < data.len() && data[at] == QUOTE) {
        None
    } else if name_end(data, at + 1) >= data.len() {
        None
    } else {
        let key_end = name_end(data, at + 1);
        let colon = spaces_end(data, key_end + 1);
        if !(colon < data.len() && data[colon] == COLON) {
            None
        } else {
            match key_index(data.subrange(at + 1, key_end)) {
                None => None,
                Some(k) => if taken(fields, k) {
                    None
                } else {
                    loose_value(data, spaces_end(data, colon + 1), k, fields)
                },
            }
        }
    }
}

/// The members read from `at` on, up to the brace that closes the object
/// and the end of the data: members with commas between them, with white
/// space allowed around the commas and the brace.
pub open spec fn loose_members(data: Seq<u8>, at: int, fields: Fields) -> Option<Fields>
    decreases data.len() - at,
{
    match loose_member(data, at, fields) {
        None => None,
        Some((next, end)) => {
            let mark = spaces_end(data, end);
            if !(0 <= mark < data.len()) {
                None
            } else if data[mark] == COMMA {
                let then = spaces_end(data, mark + 1);
                if at < then <= data.len() {
                    loose_members(data, then, next)
                } else {
                    None
                }
            } else if data[mark] == CLOSE && spaces_end(data, mark + 1) == data.len() {
                Some(next)
            } else {
                None
            }
        },
    }
}

/// The header that the fields make up, once all ten have been read.
pub open spec fn fields_header(fields: Fields) -> Option<VhcHeader> {
    if fields.version is Some && fields.cube_id is Some && fields.dimension is Some
        && fields.blocks_per_partition is Some && fields.block_size is Some && fields.mac_bits
        is Some && fields.compression is Some && fields.aont is Some && fields.hash is Some
        && fields.fragment_size is Some {
        Some(
            VhcHeader {
                version: fields.version->Some_0,
                cube_id: fields.cube_id->Some_0,
                dimension: fields.dimension->Some_0,
                blocks_per_partition: fields.blocks_per_partition->Some_0,
                block_size: fields.block_size->Some_0,
                mac_bits: fields.mac_bits->Some_0,
                compression: fields.compression->Some_0,
                aont: fields.aont->Some_0,
                hash: fields.hash->Some_0,
                fragment_size: fields.fragment_size->Some_0,
            },
        )
    } else {
        None
    }
}

/// The header that the data spells as a JSON object: white space, the
/// opening brace, the ten members in any order, the closing brace, white
/// space, and nothing else.
pub open spec fn loose_read(data: Seq<u8>) -> Option<VhcHeader> {
    let open = spaces_end(data, 0);
    if !(0 <= open < data.len() && data[open] == OPEN) {
        None
    } else {
        match loose_members(data, spaces_end(data, open + 1), no_fields()) {
            Some(fields) => fields_header(fields),
            None => None,
        }
    }
}

/// White space ends inside the data, behind where it starts.
pub proof fn lemma_spaces_end(data: Seq<u8>, at: int)
    requires
        0 <= at <= data.len(),
    ensures
        at <= spaces_end(data, at) <= data.len(),
    decreases data.len() - at,
{
    if at < data.len() && is_space(data[at]) {
        lemma_spaces_end(data, at + 1);
    }
}

/// Skips white space.
fn skip_spaces(data: &[u8], at: usize) -> (end: usize)
    requires
        at <= data@.len(),
    ensures
        end == spaces_end(data@, at as int),
        at <= end <= data@.len(),
{
    let mut end: usize = at;
    while end < data.len() && (data[end] == 32 || data[end] == 9 || data[end] == 10 || data[end]
        == 13)
        invariant
            at <= end <= data@.len(),
            spaces_end(data@, at as int) == spaces_end(data@, end as int),
        decreases data@.len() - end,
    {
        end += 1;
    }
    end
}

/// Finds the next quotation mark.
fn find_quote(data: &[u8], at: usize) -> (end: usize)
    requires
        at <= data@.len(),
    ensures
        end == name_end(data@, at as int),
        at <= end <= data@.len(),
{
    let mut end: usize = at;
    while end < data.len() && data[end] != QUOTE
        invariant
            at <= end <= data@.len(),
            name_end(data@, at as int) == name_end(data@, end as int),
        decreases data@.len() - end,
    {
        end += 1;
    }
    end
}

/// The bytes of a key.
fn key_bytes(k: usize) -> (text: &'static [u8])
    ensures
        text@ == key_text(k as int),
{
    if k == 0 {
        "version".as_bytes()
    } else if k == 1 {
        "cube_id".as_bytes()
    } else if k == 2 {
        "dimension".as_bytes()
    } else if k == 3 {
        "blocks_per_partition".as_bytes()
    } else if k == 4 {
        "block_size".as_bytes()
    } else if k == 5 {
        "mac_bits".as_bytes()
    } else if k == 6 {
        "compression".as_bytes()
    } else if k == 7 {
        "aont".as_bytes()
    } else if k == 8 {
        "hash".as_bytes()
    } else {
        "fragment_size".as_bytes()
    }
}

/// The field that a key names.
fn read_key(key: &[u8]) -> (r: Option<usize>)
    ensures
        match r {
            Some(k) => k < 10 && key_index(key@) == Some(k as int),
            None => key_index(key@) is None,
        },
{
    let mut k: usize = 0;
    while k < 10
        invariant
            k <= 10,
            forall|j: int| 0 <= j < k ==> key@ != #[trigger] key_text(j),
        decreases 10 - k,
    {
        if same_bytes(key, key_bytes(k)) {
            return Some(k);
        }
        k += 1;
    }
    None
}

/// Reads the value of field `k` at `at` into the fields.
fn read_value(data: &[u8], at: usize, k: usize, fields: Fields) -> (r: Option<(Fields, usize)>)
    requires
        at <= data@.len(),
        k < 10,
    ensures
        match r {
            Some((next, end)) => at < end <= data@.len() && loose_value(
                data@,
                at as int,
                k as int,
                fields,
            ) == Some((next, end as int)),
            None => loose_value(data@, at as int, k as int, fields) is None,
        },
{
    if k <= 5 || k == 9 {
        let max: u64 = if k == 0 {
            0xffff_ffff
        } else {
            usize::MAX as u64
        };
        match read_number(data, at, max) {
            None => None,
            Some((n, end)) => {
                proof {
                    crate::decimal::lemma_digits_end_is_end(data@, at as int);
                    let digits = data@.subrange(at as int, digits_end(data@, at as int));
                    assert(max as nat == limit_at(k as int));
                    assert((n as nat) <= max as nat && digits == decimal(n as nat));
                    let found = choose|m: nat| m <= max as nat && digits == decimal(m);
                    lemma_decimal_injective(found, n as nat);
                    assert(number_read(data@, at as int, max as nat) == Some(n as nat));
                    crate::decimal::lemma_decimal(n as nat);
                    assert(digits.len() == end - at);
                }
                let next = if k == 0 {
                    Fields { version: Some(n as u32), ..fields }
                } else if k == 1 {
                    Fields { cube_id: Some(n as usize), ..fields }
                } else if k == 2 {
                    Fields { dimension: Some(n as usize), ..fields }
                } else if k == 3 {
                    Fields { blocks_per_partition: Some(n as usize), ..fields }
                } else if k == 4 {
                    Fields { block_size: Some(n as usize), ..fields }
                } else if k == 5 {
                    Fields { mac_bits: Some(n as usize), ..fields }
                } else {
                    Fields { fragment_size: Some(n as usize), ..fields }
                };
                assert(next == with_number(fields, k as int, n as nat));
                assert(is_numeric(k as int));
                assert(loose_value(data@, at as int, k as int, fields) == Some((next, end as int)));
                Some((next, end))
            },
        }
    } else {
        if at >= data.len() || data[at] != QUOTE {
            return None;
        }
        let end = find_quote(data, at + 1);
        if end >= data.len() {
            return None;
        }
        let name = vstd::slice::slice_subrange(data, at + 1, end);
        let next = if k == 6 {
            if same_bytes(name, compression_bytes(Compression::Zstd)) {
                Fields { compression: Some(Compression::Zstd), ..fields }
            } else if same_bytes(name, compression_bytes(Compression::Lz4)) {
                Fields { compression: Some(Compression::Lz4), ..fields }
            } else if same_bytes(name, compression_bytes(Compression::Brotli)) {
                Fields { compression: Some(Compression::Brotli), ..fields }
            } else if same_bytes(name, compression_bytes(Compression::Uncompressed)) {
                Fields { compression: Some(Compression::Uncompressed), ..fields }
            } else {
                return None;
            }
        } else if k == 7 {
            if same_bytes(name, aont_bytes(Aont::Rivest)) {
                Fields { aont: Some(Aont::Rivest), ..fields }
            } else if same_bytes(name, aont_bytes(Aont::Oaep)) {
                Fields { aont: Some(Aont::Oaep), ..fields }
            } else {
                return None;
            }
        } else {
            if same_bytes(name, hash_bytes(HashAlgorithm::Sha3)) {
                Fields { hash: Some(HashAlgorithm::Sha3), ..fields }
            } else if same_bytes(name, hash_bytes(HashAlgorithm::Blake3)) {
                Fields { hash: Some(HashAlgorithm::Blake3), ..fields }
            } else if same_bytes(name, hash_bytes(HashAlgorithm::Sha256)) {
                Fields { hash: Some(HashAlgorithm::Sha256), ..fields }
            } else {
                return None;
            }
        };
        assert(!is_numeric(k as int));
        assert(with_name(fields, k as int, name@) == Some(next));
        assert(loose_value(data@, at as int, k as int, fields) == Some((next, end + 1)));
        Some((next, end + 1))
    }
}

/// Whether field `k` has been read.
fn is_taken(fields: &Fields, k: usize) -> (r: bool)
    ensures
        r == taken(*fields, k as int),
{
    if k == 0 {
        fields.version.is_some()
    } else if k == 1 {
        fields.cube_id.is_some()
    } else if k == 2 {
        fields.dimension.is_some()
    } else if k == 3 {
        fields.blocks_per_partition.is_some()
    } else if k == 4 {
        fields.block_size.is_some()
    } else if k == 5 {
        fields.mac_bits.is_some()
    } else if k == 6 {
        fields.compression.is_some()
    } else if k == 7 {
        fields.aont.is_some()
    } else if k == 8 {
        fields.hash.is_some()
    } else {
        fields.fragment_size.is_some()
    }
}

/// Reads one member at `at` into the fields.
fn read_member(data: &[u8], at: usize, fields: Fields) -> (r: Option<(Fields, usize)>)
    requires
        at <= data@.len(),
    ensures
        match r {
            Some((next, end)) => at < end <= data@.len() && loose_member(
                data@,
                at as int,
                fields,
            ) == Some((next, end as int)),
            None => loose_member(data@, at as int, fields) is None,
        },
{
    if at >= data.len() || data[at] != QUOTE {
        return None;
    }
    let key_end = find_quote(data, at + 1);
    if key_end >= data.len() {
        return None;
    }
    let colon = skip_spaces(data, key_end + 1);
    if colon >= data.len() || data[colon] != COLON {
        return None;
    }
    let k = match read_key(vstd::slice::slice_subrange(data, at + 1, key_end)) {
        Some(k) => k,
        None => {
            return None;
        },
    };
    if is_taken(&fields, k) {
        return None;
    }
    let value = skip_spaces(data, colon + 1);
    read_value(data, value, k, fields)
}

/// The header that the fields make up, once all ten have been read.
fn finish(fields: Fields) -> (r: Option<VhcHeader>)
    ensures
        r == fields_header(fields),
{
    match (
        fields.version,
        fields.cube_id,
        fields.dimension,
        fields.blocks_per_partition,
        fields.block_size,
    ) {
        (Some(version), Some(cube_id), Some(dimension), Some(blocks_per_partition), Some(block_size)) => {
            match (
                fields.mac_bits,
                fields.compression,
                fields.aont,
                fields.hash,
                fields.fragment_size,
            ) {
                (Some(mac_bits), Some(compression), Some(aont), Some(hash), Some(fragment_size)) => {
                    Some(
                        VhcHeader {
                            version,
                            cube_id,
                            dimension,
                            blocks_per_partition,
                            block_size,
                            mac_bits,
                            compression,
                            aont,
                            hash,
                            fragment_size,
                        },
                    )
                },
                _ => None,
            }
        },
        _ => None,
    }
}

/// Reads a header from any spelling of its JSON object: with white space
/// between the tokens and with the keys in any order.
pub fn read_loose(data: &[u8]) -> (r: Option<VhcHeader>)
    ensures
        r == loose_read(data@),
{
    let open = skip_spaces(data, 0);
    if open >= data.len() || data[open] != OPEN {
        return None;
    }
    let start = skip_spaces(data, open + 1);
    let mut at: usize = start;
    let mut fields = Fields {
        version: None,
        cube_id: None,
        dimension: None,
        blocks_per_partition: None,
        block_size: None,
        mac_bits: None,
        compression: None,
        aont: None,
        hash: None,
        fragment_size: None,
    };
    loop
        invariant
            at <= data@.len(),
            loose_members(data@, start as int, no_fields()) == loose_members(
                data@,
                at as int,
                fields,
            ),
            loose_read(data@) == match loose_members(data@, start as int, no_fields()) {
                Some(all) => fields_header(all),
                None => None,
            },
        decreases data@.len() - at,
    {
        let (next, end) = match read_member(data, at, fields) {
            Some(found) => found,
            None => {
                return None;
            },
        };
        let mark = skip_spaces(data, end);
        if mark >= data.len() {
            return None;
        }
        if data[mark] == COMMA {
            let then = skip_spaces(data, mark + 1);
            fields = next;
            at = then;
        } else if data[mark] == CLOSE {
            let rest = skip_spaces(data, mark + 1);
            if rest == data.len() {
                return finish(next);
            }
            return None;
        } else {
            return None;
        }
    }
}

} // verus!
