//! The header as it is written at the start of a container: one line of
//! JSON with a fixed set of keys in a fixed order, without white space.
//!
//! Reading what was written gives the header back: `VhcHeader::from_bytes`
//! reads the bytes that `VhcHeader::to_bytes` writes for a header as that
//! header. Other spellings of the same JSON object, with white space and
//! with the keys in another order, are read too.

use crate::bytes::{append_bytes, same_bytes};
use crate::decimal::{
    decimal, digits_end, is_digit, lemma_decimal, lemma_decimal_injective, lemma_digits_end,
    push_decimal, read_number,
};
use crate::error::HypercubeError;
use crate::header::{geometry_error, Aont, Compression, HashAlgorithm, VhcHeader};
use crate::header_json::{loose_read, read_loose};
use vstd::prelude::*;
use vstd::string::StringSliceAdditionalSpecFns;

verus! {

/// The quotation mark.
pub const QUOTE: u8 = 34;

/// Number of fields of a header.
pub const FIELDS: usize = 10;

/// What stands in front of field `k`: the punctuation that closes the field
/// before and the key of the field. Label 10 closes the text.
pub open spec fn label(k: int) -> Seq<u8> {
    if k == 0 {
        "{\"version\":".spec_bytes()
    } else if k == 1 {
        ",\"cube_id\":".spec_bytes()
    } else if k == 2 {
        ",\"dimension\":".spec_bytes()
    } else if k == 3 {
        ",\"blocks_per_partition\":".spec_bytes()
    } else if k == 4 {
        ",\"block_size\":".spec_bytes()
    } else if k == 5 {
        ",\"mac_bits\":".spec_bytes()
    } else if k == 6 {
        ",\"compression\":\"".spec_bytes()
    } else if k == 7 {
        "\",\"aont\":\"".spec_bytes()
    } else if k == 8 {
        "\",\"hash\":\"".spec_bytes()
    } else if k == 9 {
        "\",\"fragment_size\":".spec_bytes()
    } else {
        "}".spec_bytes()
    }
}

/// The name of a compression algorithm in a header.
pub open spec fn compression_text(compression: Compression) -> Seq<u8> {
    match compression {
        Compression::Zstd => "zstd".spec_bytes(),
        Compression::Lz4 => "lz4".spec_bytes(),
        Compression::Brotli => "brotli".spec_bytes(),
        Compression::Uncompressed => "none".spec_bytes(),
    }
}

/// The name of a transform in a header.
pub open spec fn aont_text(aont: Aont) -> Seq<u8> {
    match aont {
        Aont::Rivest => "rivest".spec_bytes(),
        Aont::Oaep => "oaep".spec_bytes(),
    }
}

/// The name of a hash family in a header.
pub open spec fn hash_text(hash: HashAlgorithm) -> Seq<u8> {
    match hash {
        HashAlgorithm::Sha3 => "sha3".spec_bytes(),
        HashAlgorithm::Blake3 => "blake3".spec_bytes(),
        HashAlgorithm::Sha256 => "sha256".spec_bytes(),
    }
}

/// Field `k` holds a number.
pub open spec fn is_numeric(k: int) -> bool {
    0 <= k <= 5 || k == 9
}

/// Field `k` holds a name.
pub open spec fn is_name(k: int) -> bool {
    6 <= k <= 8
}

/// The number in field `k` of a header.
pub open spec fn number_at(h: VhcHeader, k: int) -> nat {
    if k == 0 {
        h.version as nat
    } else if k == 1 {
        h.cube_id as nat
    } else if k == 2 {
        h.dimension as nat
    } else if k == 3 {
        h.blocks_per_partition as nat
    } else if k == 4 {
        h.block_size as nat
    } else if k == 5 {
        h.mac_bits as nat
    } else {
        h.fragment_size as nat
    }
}

/// The largest number that field `k` can hold.
pub open spec fn limit_at(k: int) -> nat {
    if k == 0 {
        u32::MAX as nat
    } else {
        usize::MAX as nat
    }
}

/// The text of field `k` of a header.
pub open spec fn value_text(h: VhcHeader, k: int) -> Seq<u8> {
    if k == 6 {
        compression_text(h.compression)
    } else if k == 7 {
        aont_text(h.aont)
    } else if k == 8 {
        hash_text(h.hash)
    } else {
        decimal(number_at(h, k))
    }
}

/// The text of a header from field `k` on.
pub open spec fn text_from(h: VhcHeader, k: int) -> Seq<u8>
    decreases 10 - k,
{
    if k >= 10 {
        label(10)
    } else {
        label(k) + value_text(h, k) + text_from(h, k + 1)
    }
}

/// The text of a header.
pub open spec fn header_text(h: VhcHeader) -> Seq<u8> {
    text_from(h, 0)
}

/// The header whose text the bytes are, if there is one.
pub open spec fn canonical_read(data: Seq<u8>) -> Option<VhcHeader> {
    if exists|h: VhcHeader| header_text(h) == data {
        Some(choose|h: VhcHeader| header_text(h) == data)
    } else {
        None
    }
}

/// The header that the bytes are read as: the header whose text they are,
/// and for bytes that are the text of no header, the header that they spell
/// as a JSON object with white space and keys in any order.
pub open spec fn header_read(data: Seq<u8>) -> Option<VhcHeader> {
    match canonical_read(data) {
        Some(h) => Some(h),
        None => loose_read(data),
    }
}

/// The end of the name that starts at `at`: the first quotation mark from
/// there on, or the end of the data.
pub open spec fn name_end(data: Seq<u8>, at: int) -> int
    decreases data.len() - at,
{
    if at < 0 || at >= data.len() || data[at] == QUOTE {
        at
    } else {
        name_end(data, at + 1)
    }
}

/// No byte is a quotation mark.
pub open spec fn unquoted(text: Seq<u8>) -> bool {
    forall|i: int| 0 <= i < text.len() ==> #[trigger] text[i] != QUOTE
}

/// The labels as bytes: how long they are and how they begin. A label that
/// follows a number begins with a byte that is no digit; a label that
/// follows a name begins with the quotation mark that closes the name.
pub proof fn lemma_labels()
    ensures
        forall|k: int| (#[trigger] label(k)).len() > 0,
        label(10).len() == 1,
        forall|k: int| 1 <= k <= 6 ==> !is_digit(#[trigger] label(k)[0]),
        !is_digit(label(10)[0]),
        forall|k: int| 7 <= k <= 9 ==> (#[trigger] label(k))[0] == QUOTE,
{
    reveal_strlit("{\"version\":");
    reveal_strlit(",\"cube_id\":");
    reveal_strlit(",\"dimension\":");
    reveal_strlit(",\"blocks_per_partition\":");
    reveal_strlit(",\"block_size\":");
    reveal_strlit(",\"mac_bits\":");
    reveal_strlit(",\"compression\":\"");
    reveal_strlit("\",\"aont\":\"");
    reveal_strlit("\",\"hash\":\"");
    reveal_strlit("\",\"fragment_size\":");
    reveal_strlit("}");
    vstd::string::is_ascii_spec_bytes("{\"version\":");
    vstd::string::is_ascii_spec_bytes(",\"cube_id\":");
    vstd::string::is_ascii_spec_bytes(",\"dimension\":");
    vstd::string::is_ascii_spec_bytes(",\"blocks_per_partition\":");
    vstd::string::is_ascii_spec_bytes(",\"block_size\":");
    vstd::string::is_ascii_spec_bytes(",\"mac_bits\":");
    vstd::string::is_ascii_spec_bytes(",\"compression\":\"");
    vstd::string::is_ascii_spec_bytes("\",\"aont\":\"");
    vstd::string::is_ascii_spec_bytes("\",\"hash\":\"");
    vstd::string::is_ascii_spec_bytes("\",\"fragment_size\":");
    vstd::string::is_ascii_spec_bytes("}");
    assert(vstd::string::is_ascii("{\"version\":"));
    assert(vstd::string::is_ascii(",\"cube_id\":"));
    assert(vstd::string::is_ascii(",\"dimension\":"));
    assert(vstd::string::is_ascii(",\"blocks_per_partition\":"));
    assert(vstd::string::is_ascii(",\"block_size\":"));
    assert(vstd::string::is_ascii(",\"mac_bits\":"));
    assert(vstd::string::is_ascii(",\"compression\":\""));
    assert(vstd::string::is_ascii("\",\"aont\":\""));
    assert(vstd::string::is_ascii("\",\"hash\":\""));
    assert(vstd::string::is_ascii("\",\"fragment_size\":"));
    assert(vstd::string::is_ascii("}"));
}

/// The names as bytes: none holds a quotation mark, and the names of one
/// kind differ from each other.
pub proof fn lemma_names()
    ensures
        forall|c: Compression| unquoted(#[trigger] compression_text(c)),
        forall|a: Aont| unquoted(#[trigger] aont_text(a)),
        forall|h: HashAlgorithm| unquoted(#[trigger] hash_text(h)),
        forall|c: Compression, d: Compression|
            #[trigger] compression_text(c) == #[trigger] compression_text(d) ==> c == d,
        forall|a: Aont, b: Aont| #[trigger] aont_text(a) == #[trigger] aont_text(b) ==> a == b,
        forall|h: HashAlgorithm, g: HashAlgorithm|
            #[trigger] hash_text(h) == #[trigger] hash_text(g) ==> h == g,
{
    reveal_strlit("zstd");
    reveal_strlit("lz4");
    reveal_strlit("brotli");
    reveal_strlit("none");
    reveal_strlit("rivest");
    reveal_strlit("oaep");
    reveal_strlit("sha3");
    reveal_strlit("blake3");
    reveal_strlit("sha256");
    vstd::string::is_ascii_spec_bytes("zstd");
    vstd::string::is_ascii_spec_bytes("lz4");
    vstd::string::is_ascii_spec_bytes("brotli");
    vstd::string::is_ascii_spec_bytes("none");
    vstd::string::is_ascii_spec_bytes("rivest");
    vstd::string::is_ascii_spec_bytes("oaep");
    vstd::string::is_ascii_spec_bytes("sha3");
    vstd::string::is_ascii_spec_bytes("blake3");
    vstd::string::is_ascii_spec_bytes("sha256");
    assert(vstd::string::is_ascii("zstd"));
    assert(vstd::string::is_ascii("lz4"));
    assert(vstd::string::is_ascii("brotli"));
    assert(vstd::string::is_ascii("none"));
    assert(vstd::string::is_ascii("rivest"));
    assert(vstd::string::is_ascii("oaep"));
    assert(vstd::string::is_ascii("sha3"));
    assert(vstd::string::is_ascii("blake3"));
    assert(vstd::string::is_ascii("sha256"));
    assert forall|c: Compression, d: Compression|
        #[trigger] compression_text(c) == #[trigger] compression_text(d) implies c == d by {
        let x = compression_text(c);
        let y = compression_text(d);
        assert(x.len() == y.len() && x[0] == y[0]);
    }
    assert forall|a: Aont, b: Aont| #[trigger] aont_text(a) == #[trigger] aont_text(b) implies a
        == b by {
        let x = aont_text(a);
        let y = aont_text(b);
        assert(x.len() == y.len());
    }
    assert forall|h: HashAlgorithm, g: HashAlgorithm|
        #[trigger] hash_text(h) == #[trigger] hash_text(g) implies h == g by {
        let x = hash_text(h);
        let y = hash_text(g);
        assert(x.len() == y.len() && x[0] == y[0]);
    }
}

/// A name followed by a quotation mark ends where the mark stands.
pub proof fn lemma_name_end(data: Seq<u8>, at: int, name: Seq<u8>)
    requires
        0 <= at,
        at + name.len() < data.len(),
        data.subrange(at, at + name.len()) == name,
        unquoted(name),
        data[at + name.len()] == QUOTE,
    ensures
        name_end(data, at) == at + name.len(),
    decreases name.len(),
{
    if name.len() > 0 {
        assert(data[at] == name[0]);
        let rest = name.drop_first();
        assert(data.subrange(at + 1, at + 1 + rest.len()) =~= rest);
        assert forall|i: int| 0 <= i < rest.len() implies #[trigger] rest[i] != QUOTE by {
            assert(rest[i] == name[i + 1]);
        }
        lemma_name_end(data, at + 1, rest);
    }
}

/// The name from `at` on holds no quotation mark and ends at one, or at the
/// end of the data.
pub proof fn lemma_name_end_is_end(data: Seq<u8>, at: int)
    requires
        0 <= at <= data.len(),
    ensures
        at <= name_end(data, at) <= data.len(),
        unquoted(data.subrange(at, name_end(data, at))),
        name_end(data, at) == data.len() || data[name_end(data, at)] == QUOTE,
    decreases data.len() - at,
{
    if at < data.len() && data[at] != QUOTE {
        lemma_name_end_is_end(data, at + 1);
        let end = name_end(data, at);
        let run = data.subrange(at, end);
        assert forall|i: int| 0 <= i < run.len() implies #[trigger] run[i] != QUOTE by {
            if i > 0 {
                assert(run[i] == data.subrange(at + 1, end)[i - 1]);
            }
        }
    }
}

/// The rest of a header's text from any field on begins with that field's
/// label, and is never empty.
pub proof fn lemma_text_from_begins(h: VhcHeader, k: int)
    requires
        0 <= k <= 10,
    ensures
        text_from(h, k).len() >= label(k).len(),
        text_from(h, k).take(label(k).len() as int) == label(k),
        k < 10 ==> text_from(h, k).skip(label(k).len() as int) == value_text(h, k) + text_from(
            h,
            k + 1,
        ),
{
    if k < 10 {
        let whole = text_from(h, k);
        assert(whole.take(label(k).len() as int) =~= label(k));
        assert(whole.skip(label(k).len() as int) =~= value_text(h, k) + text_from(h, k + 1));
    } else {
        assert(text_from(h, k).take(label(k).len() as int) =~= label(k));
    }
}

/// Where the data from `at` on is the rest of a header's text from the
/// numeric field `k` on: the label stands at `at`, the digits behind it are
/// the text of the field's number and end where the next label begins, and
/// from there on the data is the rest of the text from the next field on.
pub proof fn lemma_numeric_stage(data: Seq<u8>, at: int, h: VhcHeader, k: int)
    requires
        0 <= at <= data.len(),
        is_numeric(k),
        data.skip(at) == text_from(h, k),
    ensures
        at + label(k).len() <= data.len(),
        data.subrange(at, at + label(k).len()) == label(k),
        digits_end(data, at + label(k).len()) == at + label(k).len() + decimal(
            number_at(h, k),
        ).len(),
        data.subrange(at + label(k).len(), digits_end(data, at + label(k).len())) == decimal(
            number_at(h, k),
        ),
        data.skip(digits_end(data, at + label(k).len())) == text_from(h, k + 1),
        number_at(h, k) <= limit_at(k),
{
    lemma_labels();
    lemma_text_from_begins(h, k);
    lemma_text_from_begins(h, k + 1);
    let digits = decimal(number_at(h, k));
    lemma_decimal(number_at(h, k));
    let rest = text_from(h, k);
    let start = at + label(k).len();
    let after = text_from(h, k + 1);
    assert(rest == label(k) + digits + after);
    assert(data.subrange(at, start) =~= rest.take(label(k).len() as int));
    assert(data.subrange(start, start + digits.len()) =~= digits) by {
        assert forall|i: int| 0 <= i < digits.len() implies data[start + i] == digits[i] by {
            assert(data[start + i] == rest[label(k).len() + i]);
        }
    }
    assert(data[start + digits.len()] == after[0]) by {
        assert(data[start + digits.len()] == rest[(label(k).len() + digits.len()) as int]);
    }
    assert(after[0] == label(k + 1)[0]) by {
        assert(after.take(label(k + 1).len() as int)[0] == after[0]);
    }
    assert(!is_digit(label(k + 1)[0]));
    lemma_digits_end(data, start, digits);
    assert(data.skip(start + digits.len()) =~= rest.skip((label(k).len() + digits.len()) as int));
    assert(rest.skip((label(k).len() + digits.len()) as int) =~= after);
}

/// Where the data from `at` on is the rest of a header's text from the name
/// field `k` on: the label stands at `at`, the name behind it is the field's
/// name and ends at the quotation mark with which the next label begins,
/// and from there on the data is the rest of the text from the next field
/// on.
pub proof fn lemma_name_stage(data: Seq<u8>, at: int, h: VhcHeader, k: int)
    requires
        0 <= at <= data.len(),
        is_name(k),
        data.skip(at) == text_from(h, k),
    ensures
        at + label(k).len() <= data.len(),
        data.subrange(at, at + label(k).len()) == label(k),
        name_end(data, at + label(k).len()) == at + label(k).len() + value_text(h, k).len(),
        name_end(data, at + label(k).len()) < data.len(),
        data.subrange(at + label(k).len(), name_end(data, at + label(k).len())) == value_text(
            h,
            k,
        ),
        data.skip(name_end(data, at + label(k).len())) == text_from(h, k + 1),
{
    lemma_labels();
    lemma_names();
    lemma_text_from_begins(h, k);
    lemma_text_from_begins(h, k + 1);
    let name = value_text(h, k);
    let rest = text_from(h, k);
    let start = at + label(k).len();
    let after = text_from(h, k + 1);
    assert(unquoted(name));
    assert(rest == label(k) + name + after);
    assert(data.subrange(at, start) =~= rest.take(label(k).len() as int));
    assert(data.subrange(start, start + name.len()) =~= name) by {
        assert forall|i: int| 0 <= i < name.len() implies data[start + i] == name[i] by {
            assert(data[start + i] == rest[label(k).len() + i]);
        }
    }
    assert(data[start + name.len()] == after[0]) by {
        assert(data[start + name.len()] == rest[(label(k).len() + name.len()) as int]);
    }
    assert(after[0] == label(k + 1)[0]) by {
        assert(after.take(label(k + 1).len() as int)[0] == after[0]);
    }
    lemma_name_end(data, start, name);
    assert(data.skip(start + name.len()) =~= rest.skip((label(k).len() + name.len()) as int));
    assert(rest.skip((label(k).len() + name.len()) as int) =~= after);
}

/// Two headers whose texts agree from field `k` on agree in every field
/// from `k` on.
pub proof fn lemma_fields_agree(a: VhcHeader, b: VhcHeader, k: int)
    requires
        0 <= k <= 10,
        text_from(a, k) == text_from(b, k),
    ensures
        forall|j: int| k <= j < 10 ==> #[trigger] value_text(a, j) == value_text(b, j),
    decreases 10 - k,
{
    if k < 10 {
        let data = text_from(a, k);
        assert(data.skip(0) =~= data);
        if is_numeric(k) {
            lemma_numeric_stage(data, 0, a, k);
            lemma_numeric_stage(data, 0, b, k);
        } else {
            lemma_name_stage(data, 0, a, k);
            lemma_name_stage(data, 0, b, k);
        }
        lemma_fields_agree(a, b, k + 1);
    }
}

/// Different headers have different texts.
pub proof fn lemma_header_text_injective(a: VhcHeader, b: VhcHeader)
    requires
        header_text(a) == header_text(b),
    ensures
        a == b,
{
    lemma_fields_agree(a, b, 0);
    lemma_names();
    assert(value_text(a, 0) == value_text(b, 0));
    assert(value_text(a, 1) == value_text(b, 1));
    assert(value_text(a, 2) == value_text(b, 2));
    assert(value_text(a, 3) == value_text(b, 3));
    assert(value_text(a, 4) == value_text(b, 4));
    assert(value_text(a, 5) == value_text(b, 5));
    assert(value_text(a, 6) == value_text(b, 6));
    assert(value_text(a, 7) == value_text(b, 7));
    assert(value_text(a, 8) == value_text(b, 8));
    assert(value_text(a, 9) == value_text(b, 9));
    lemma_decimal_injective(a.version as nat, b.version as nat);
    lemma_decimal_injective(a.cube_id as nat, b.cube_id as nat);
    lemma_decimal_injective(a.dimension as nat, b.dimension as nat);
    lemma_decimal_injective(a.blocks_per_partition as nat, b.blocks_per_partition as nat);
    lemma_decimal_injective(a.block_size as nat, b.block_size as nat);
    lemma_decimal_injective(a.mac_bits as nat, b.mac_bits as nat);
    lemma_decimal_injective(a.fragment_size as nat, b.fragment_size as nat);
}

/// Header round trip. Reading the text of a header gives the header back.
pub proof fn lemma_header_round_trip(h: VhcHeader)
    ensures
        canonical_read(header_text(h)) == Some(h),
        header_read(header_text(h)) == Some(h),
{
    let found = choose|other: VhcHeader| header_text(other) == header_text(h);
    lemma_header_text_injective(found, h);
}

/// The bytes of a label.
fn label_bytes(k: usize) -> (text: &'static [u8])
    ensures
        text@ == label(k as int),
{
    if k == 0 {
        "{\"version\":".as_bytes()
    } else if k == 1 {
        ",\"cube_id\":".as_bytes()
    } else if k == 2 {
        ",\"dimension\":".as_bytes()
    } else if k == 3 {
        ",\"blocks_per_partition\":".as_bytes()
    } else if k == 4 {
        ",\"block_size\":".as_bytes()
    } else if k == 5 {
        ",\"mac_bits\":".as_bytes()
    } else if k == 6 {
        ",\"compression\":\"".as_bytes()
    } else if k == 7 {
        "\",\"aont\":\"".as_bytes()
    } else if k == 8 {
        "\",\"hash\":\"".as_bytes()
    } else if k == 9 {
        "\",\"fragment_size\":".as_bytes()
    } else {
        "}".as_bytes()
    }
}

/// The bytes of a compression algorithm's name.
pub(crate) fn compression_bytes(compression: Compression) -> (text: &'static [u8])
    ensures
        text@ == compression_text(compression),
{
    match compression {
        Compression::Zstd => "zstd".as_bytes(),
        Compression::Lz4 => "lz4".as_bytes(),
        Compression::Brotli => "brotli".as_bytes(),
        Compression::Uncompressed => "none".as_bytes(),
    }
}

/// The bytes of a transform's name.
pub(crate) fn aont_bytes(aont: Aont) -> (text: &'static [u8])
    ensures
        text@ == aont_text(aont),
{
    match aont {
        Aont::Rivest => "rivest".as_bytes(),
        Aont::Oaep => "oaep".as_bytes(),
    }
}

/// The bytes of a hash family's name.
pub(crate) fn hash_bytes(hash: HashAlgorithm) -> (text: &'static [u8])
    ensures
        text@ == hash_text(hash),
{
    match hash {
        HashAlgorithm::Sha3 => "sha3".as_bytes(),
        HashAlgorithm::Blake3 => "blake3".as_bytes(),
        HashAlgorithm::Sha256 => "sha256".as_bytes(),
    }
}

/// The compression algorithm with the given name.
fn read_compression(name: &[u8]) -> (r: Option<Compression>)
    ensures
        match r {
            Some(compression) => name@ == compression_text(compression),
            None => forall|c: Compression| name@ != #[trigger] compression_text(c),
        },
{
    if same_bytes(name, compression_bytes(Compression::Zstd)) {
        Some(Compression::Zstd)
    } else if same_bytes(name, compression_bytes(Compression::Lz4)) {
        Some(Compression::Lz4)
    } else if same_bytes(name, compression_bytes(Compression::Brotli)) {
        Some(Compression::Brotli)
    } else if same_bytes(name, compression_bytes(Compression::Uncompressed)) {
        Some(Compression::Uncompressed)
    } else {
        None
    }
}

/// The transform with the given name.
fn read_aont(name: &[u8]) -> (r: Option<Aont>)
    ensures
        match r {
            Some(aont) => name@ == aont_text(aont),
            None => forall|a: Aont| name@ != #[trigger] aont_text(a),
        },
{
    if same_bytes(name, aont_bytes(Aont::Rivest)) {
        Some(Aont::Rivest)
    } else if same_bytes(name, aont_bytes(Aont::Oaep)) {
        Some(Aont::Oaep)
    } else {
        None
    }
}

/// The hash family with the given name.
fn read_hash(name: &[u8]) -> (r: Option<HashAlgorithm>)
    ensures
        match r {
            Some(hash) => name@ == hash_text(hash),
            None => forall|h: HashAlgorithm| name@ != #[trigger] hash_text(h),
        },
{
    if same_bytes(name, hash_bytes(HashAlgorithm::Sha3)) {
        Some(HashAlgorithm::Sha3)
    } else if same_bytes(name, hash_bytes(HashAlgorithm::Blake3)) {
        Some(HashAlgorithm::Blake3)
    } else if same_bytes(name, hash_bytes(HashAlgorithm::Sha256)) {
        Some(HashAlgorithm::Sha256)
    } else {
        None
    }
}

/// Checks that label `k` stands at `at` and gives the position behind it.
fn expect_label(data: &[u8], at: usize, k: usize) -> (r: Option<usize>)
    requires
        at <= data@.len(),
    ensures
        match r {
            Some(end) => end == at + label(k as int).len() && end <= data@.len()
                && data@.subrange(at as int, end as int) == label(k as int),
            None => at + label(k as int).len() > data@.len() || data@.subrange(
                at as int,
                at + label(k as int).len(),
            ) != label(k as int),
        },
{
    let text = label_bytes(k);
    if data.len() - at < text.len() {
        return None;
    }
    let end: usize = at + text.len();
    if same_bytes(vstd::slice::slice_subrange(data, at, end), text) {
        Some(end)
    } else {
        None
    }
}

/// Reads the numeric field `k` that starts with its label at `at`: gives
/// the number and the position behind its digits. Fails exactly when the
/// data from `at` on is not the rest of any header's text from field `k` on.
fn number_field(data: &[u8], at: usize, k: usize, max: u64) -> (r: Option<(u64, usize)>)
    requires
        at <= data@.len(),
        is_numeric(k as int),
        max == limit_at(k as int),
    ensures
        match r {
            Some((n, end)) => {
                &&& at <= end <= data@.len()
                &&& n <= max
                &&& data@.subrange(at as int, end as int) == label(k as int) + decimal(n as nat)
                &&& forall|h: VhcHeader|
                    data@.skip(at as int) == #[trigger] text_from(h, k as int) ==> data@.skip(
                        end as int,
                    ) == text_from(h, k + 1)
            },
            None => forall|h: VhcHeader| data@.skip(at as int) != #[trigger] text_from(h, k as int),
        },
{
    let start = match expect_label(data, at, k) {
        Some(start) => start,
        None => {
            assert forall|h: VhcHeader| data@.skip(at as int) != #[trigger] text_from(
                h,
                k as int,
            ) by {
                if data@.skip(at as int) == text_from(h, k as int) {
                    lemma_numeric_stage(data@, at as int, h, k as int);
                }
            }
            return None;
        },
    };
    match read_number(data, start, max) {
        Some((n, end)) => {
            proof {
                crate::decimal::lemma_digits_end_is_end(data@, start as int);
                assert(data@.subrange(at as int, end as int) =~= label(k as int) + decimal(
                    n as nat,
                ));
                assert forall|h: VhcHeader|
                    data@.skip(at as int) == #[trigger] text_from(h, k as int) implies data@.skip(
                    end as int,
                ) == text_from(h, k + 1) by {
                    lemma_numeric_stage(data@, at as int, h, k as int);
                }
            }
            Some((n, end))
        },
        None => {
            assert forall|h: VhcHeader| data@.skip(at as int) != #[trigger] text_from(
                h,
                k as int,
            ) by {
                if data@.skip(at as int) == text_from(h, k as int) {
                    lemma_numeric_stage(data@, at as int, h, k as int);
                    assert(data@.subrange(start as int, digits_end(data@, start as int))
                        == decimal(number_at(h, k as int)));
                }
            }
            None
        },
    }
}

/// Finds the name field `k` that starts with its label at `at`: gives the
/// positions where the name begins and where the quotation mark behind it
/// stands. Fails where the label is not there or the name is not closed.
fn name_field(data: &[u8], at: usize, k: usize) -> (r: Option<(usize, usize)>)
    requires
        at <= data@.len(),
        is_name(k as int),
    ensures
        match r {
            Some((start, end)) => {
                &&& at <= start <= end < data@.len()
                &&& data@.subrange(at as int, start as int) == label(k as int)
                &&& end == name_end(data@, start as int)
                &&& forall|h: VhcHeader|
                    data@.skip(at as int) == #[trigger] text_from(h, k as int) ==> data@.skip(
                        end as int,
                    ) == text_from(h, k + 1) && data@.subrange(start as int, end as int)
                        == value_text(h, k as int)
            },
            None => forall|h: VhcHeader| data@.skip(at as int) != #[trigger] text_from(h, k as int),
        },
{
    let start = match expect_label(data, at, k) {
        Some(start) => start,
        None => {
            assert forall|h: VhcHeader| data@.skip(at as int) != #[trigger] text_from(
                h,
                k as int,
            ) by {
                if data@.skip(at as int) == text_from(h, k as int) {
                    lemma_name_stage(data@, at as int, h, k as int);
                }
            }
            return None;
        },
    };
    let mut end: usize = start;
    while end < data.len() && data[end] != QUOTE
        invariant
            start <= end <= data@.len(),
            name_end(data@, start as int) == name_end(data@, end as int),
        decreases data@.len() - end,
    {
        end += 1;
    }
    if end >= data.len() {
        assert forall|h: VhcHeader| data@.skip(at as int) != #[trigger] text_from(h, k as int) by {
            if data@.skip(at as int) == text_from(h, k as int) {
                lemma_name_stage(data@, at as int, h, k as int);
            }
        }
        return None;
    }
    proof {
        assert forall|h: VhcHeader|
            data@.skip(at as int) == #[trigger] text_from(h, k as int) implies data@.skip(
            end as int,
        ) == text_from(h, k + 1) && data@.subrange(start as int, end as int) == value_text(
            h,
            k as int,
        ) by {
            lemma_name_stage(data@, at as int, h, k as int);
        }
    }
    Some((start, end))
}

/// A field and what follows it make up the rest of the text from the field
/// on.
proof fn lemma_piece(data: Seq<u8>, from: int, to: int, h: VhcHeader, k: int)
    requires
        0 <= from <= to <= data.len(),
        0 <= k < 10,
        data.subrange(from, to) == label(k) + value_text(h, k),
        data.skip(to) == text_from(h, k + 1),
    ensures
        data.skip(from) == text_from(h, k),
{
    assert(data.skip(from) =~= data.subrange(from, to) + data.skip(to));
}

impl VhcHeader {
    /// Writes the header as text. This never fails.
    pub fn to_bytes(&self) -> (r: Result<Vec<u8>, HypercubeError>)
        ensures
            r matches Ok(bytes) && bytes@ == header_text(*self),
    {
        let mut out: Vec<u8> = Vec::new();
        assert(out@ + text_from(*self, 0) =~= header_text(*self));
        let mut k: usize = 0;
        while k < FIELDS
            invariant
                k <= FIELDS,
                out@ + text_from(*self, k as int) == header_text(*self),
            decreases FIELDS - k,
        {
            let ghost before = out@;
            append_bytes(&mut out, label_bytes(k));
            if k == 0 {
                push_decimal(&mut out, self.version as u64);
            } else if k == 1 {
                push_decimal(&mut out, self.cube_id as u64);
            } else if k == 2 {
                push_decimal(&mut out, self.dimension as u64);
            } else if k == 3 {
                push_decimal(&mut out, self.blocks_per_partition as u64);
            } else if k == 4 {
                push_decimal(&mut out, self.block_size as u64);
            } else if k == 5 {
                push_decimal(&mut out, self.mac_bits as u64);
            } else if k == 6 {
                append_bytes(&mut out, compression_bytes(self.compression));
            } else if k == 7 {
                append_bytes(&mut out, aont_bytes(self.aont));
            } else if k == 8 {
                append_bytes(&mut out, hash_bytes(self.hash));
            } else {
                push_decimal(&mut out, self.fragment_size as u64);
            }
            assert(out@ == before + label(k as int) + value_text(*self, k as int));
            assert(out@ + text_from(*self, k + 1) =~= before + text_from(*self, k as int));
            k += 1;
        }
        append_bytes(&mut out, label_bytes(FIELDS));
        Ok(out)
    }

    /// Reads a header from its JSON text and checks the geometry rules.
    ///
    /// The text that `to_bytes` writes is read as the header it was written
    /// for. Any other text is read as a JSON object with exactly the ten
    /// keys of a header, in any order and with white space between the
    /// tokens. Bytes that are neither give a `Json` error. A header that
    /// breaks a geometry rule gives the error for the first rule broken, in
    /// the order dimension, blocks per partition, block size, tag size,
    /// fragment size.
    pub fn from_bytes(data: &[u8]) -> (r: Result<VhcHeader, HypercubeError>)
        ensures
            match header_read(data@) {
                None => r matches Err(e) && e@ is Json,
                Some(h) => match geometry_error(h) {
                    None => r matches Ok(read) && read == h && h.is_valid(),
                    Some(problem) => r matches Err(e) && e@ == problem,
                },
            },
    {
        let read = match Self::read_fields(data) {
            Some(h) => {
                proof {
                    lemma_header_round_trip(h);
                }
                Some(h)
            },
            None => read_loose(data),
        };
        match read {
            None => Err(HypercubeError::Json(String::from_str("not the text of a header"))),
            Some(h) => match h.validate() {
                Ok(()) => Ok(h),
                Err(e) => Err(e),
            },
        }
    }

    /// Reads the ten fields of a header's text.
    fn read_fields(data: &[u8]) -> (r: Option<VhcHeader>)
        ensures
            match r {
                Some(h) => header_text(h) == data@,
                None => forall|h: VhcHeader| #[trigger] header_text(h) != data@,
            },
    {
        assert(data@.skip(0) =~= data@);
        let (version, at1) = match number_field(data, 0, 0, 0xffff_ffff) {
            Some(found) => found,
            None => {
                return None;
            },
        };
        let (cube_id, at2) = match number_field(data, at1, 1, usize::MAX as u64) {
            Some(found) => found,
            None => {
                return None;
            },
        };
        let (dimension, at3) = match number_field(data, at2, 2, usize::MAX as u64) {
            Some(found) => found,
            None => {
                return None;
            },
        };
        let (blocks_per_partition, at4) = match number_field(data, at3, 3, usize::MAX as u64) {
            Some(found) => found,
            None => {
                return None;
            },
        };
        let (block_size, at5) = match number_field(data, at4, 4, usize::MAX as u64) {
            Some(found) => found,
            None => {
                return None;
            },
        };
        let (mac_bits, at6) = match number_field(data, at5, 5, usize::MAX as u64) {
            Some(found) => found,
            None => {
                return None;
            },
        };
        let (start6, at7) = match name_field(data, at6, 6) {
            Some(found) => found,
            None => {
                return None;
            },
        };
        let compression = match read_compression(vstd::slice::slice_subrange(data, start6, at7)) {
            Some(found) => found,
            None => {
                return None;
            },
        };
        let (start7, at8) = match name_field(data, at7, 7) {
            Some(found) => found,
            None => {
                return None;
            },
        };
        let aont = match read_aont(vstd::slice::slice_subrange(data, start7, at8)) {
            Some(found) => found,
            None => {
                return None;
            },
        };
        let (start8, at9) = match name_field(data, at8, 8) {
            Some(found) => found,
            None => {
                return None;
            },
        };
        let hash = match read_hash(vstd::slice::slice_subrange(data, start8, at9)) {
            Some(found) => found,
            None => {
                return None;
            },
        };
        let (fragment_size, at10) = match number_field(data, at9, 9, usize::MAX as u64) {
            Some(found) => found,
            None => {
                return None;
            },
        };
        let end = match expect_label(data, at10, 10) {
            Some(end) => end,
            None => {
                assert forall|h: VhcHeader| #[trigger] header_text(h) != data@ by {
                    if header_text(h) == data@ {
                        assert(data@.skip(at10 as int) == text_from(h, 10));
                        assert(data@.subrange(at10 as int, at10 + label(10).len()) =~= data@.skip(
                            at10 as int,
                        ));
                    }
                }
                return None;
            },
        };
        if end != data.len() {
            assert forall|h: VhcHeader| #[trigger] header_text(h) != data@ by {
                if header_text(h) == data@ {
                    assert(data@.skip(at10 as int) == text_from(h, 10));
                }
            }
            return None;
        }
        let h = VhcHeader {
            version: version as u32,
            cube_id: cube_id as usize,
            dimension: dimension as usize,
            blocks_per_partition: blocks_per_partition as usize,
            block_size: block_size as usize,
            mac_bits: mac_bits as usize,
            compression,
            aont,
            hash,
            fragment_size: fragment_size as usize,
        };
        proof {
            assert(data@.skip(at10 as int) =~= label(10));
            lemma_piece(data@, at9 as int, at10 as int, h, 9);
            assert(data@.subrange(at8 as int, at9 as int) =~= label(8) + value_text(h, 8));
            lemma_piece(data@, at8 as int, at9 as int, h, 8);
            assert(data@.subrange(at7 as int, at8 as int) =~= label(7) + value_text(h, 7));
            lemma_piece(data@, at7 as int, at8 as int, h, 7);
            assert(data@.subrange(at6 as int, at7 as int) =~= label(6) + value_text(h, 6));
            lemma_piece(data@, at6 as int, at7 as int, h, 6);
            lemma_piece(data@, at5 as int, at6 as int, h, 5);
            lemma_piece(data@, at4 as int, at5 as int, h, 4);
            lemma_piece(data@, at3 as int, at4 as int, h, 3);
            lemma_piece(data@, at2 as int, at3 as int, h, 2);
            lemma_piece(data@, at1 as int, at2 as int, h, 1);
            lemma_piece(data@, 0, at1 as int, h, 0);
        }
        Some(h)
    }
}

} // verus!
