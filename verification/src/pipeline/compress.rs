//! One interface over the compression backends.

use crate::backend::{
    brotli_content, brotli_decode, brotli_encode, brotli_stream, lz4_block, lz4_content,
    lz4_decode, lz4_encode, zstd_content, zstd_decode, zstd_encode, zstd_frame, LZ4_INPUT_LIMIT,
};
use crate::error::{ErrorView, HypercubeError};
use crate::header::Compression;
use vstd::prelude::*;

verus! {

/// Level at which zstd is run.
pub const ZSTD_LEVEL: i32 = 3;

/// Buffer size handed to brotli.
pub const BROTLI_BUFFER: usize = 4096;

/// Quality at which brotli is run.
pub const BROTLI_QUALITY: u32 = 4;

/// Window size (as a logarithm) at which brotli is run.
pub const BROTLI_WINDOW: u32 = 22;

/// What `compress` returns for `data` when the backend succeeds.
pub open spec fn compressed(data: Seq<u8>, algorithm: Compression) -> Seq<u8> {
    match algorithm {
        Compression::Zstd => zstd_frame(data, ZSTD_LEVEL),
        Compression::Lz4 => lz4_block(data),
        Compression::Brotli => brotli_stream(data, BROTLI_BUFFER, BROTLI_QUALITY, BROTLI_WINDOW),
        Compression::Uncompressed => data,
    }
}

/// What `decompress` makes of `data`: the content, or `None` where the
/// backend rejects it. LZ4 input of more than `LZ4_INPUT_LIMIT` bytes is
/// rejected without asking the backend.
pub open spec fn decompressed(data: Seq<u8>, algorithm: Compression) -> Option<Seq<u8>> {
    match algorithm {
        Compression::Zstd => zstd_content(data),
        Compression::Lz4 => if data.len() > LZ4_INPUT_LIMIT {
            None
        } else {
            lz4_content(data)
        },
        Compression::Brotli => brotli_content(data, BROTLI_BUFFER),
        Compression::Uncompressed => Some(data),
    }
}

/// The backend gives `data` back from its own output. This is what a codec
/// is for, but nothing in this library proves it of the backends; laws that
/// need it say so.
pub open spec fn lossless(data: Seq<u8>, algorithm: Compression) -> bool {
    decompressed(compressed(data, algorithm), algorithm) == Some(data)
}

/// Storing the bytes as they are is lossless.
pub proof fn lemma_uncompressed_lossless(data: Seq<u8>)
    ensures
        lossless(data, Compression::Uncompressed),
{
}

/// The name under which an algorithm appears in messages and headers.
pub open spec fn algorithm_name(algorithm: Compression) -> Seq<char> {
    match algorithm {
        Compression::Zstd => "zstd"@,
        Compression::Lz4 => "lz4"@,
        Compression::Brotli => "brotli"@,
        Compression::Uncompressed => "none"@,
    }
}

/// `text` begins with the algorithm's name and a colon.
pub open spec fn names_algorithm(text: Seq<char>, algorithm: Compression) -> bool {
    exists|detail: Seq<char>| text == algorithm_name(algorithm) + ": "@ + detail
}

/// A backend's message with the algorithm's name in front.
fn labelled(algorithm: Compression, detail: String) -> (text: String)
    ensures
        names_algorithm(text@, algorithm),
{
    let name = match algorithm {
        Compression::Zstd => "zstd",
        Compression::Lz4 => "lz4",
        Compression::Brotli => "brotli",
        Compression::Uncompressed => "none",
    };
    let text = String::from_str(name).concat(": ").concat(detail.as_str());
    assert(text@ == algorithm_name(algorithm) + ": "@ + detail@);
    text
}

/// The error `e` is a compression error that `compress` can end in for
/// `data`: one that names the algorithm, from zstd or brotli where the
/// backend reports a failure, and from LZ4 exactly where the block is longer
/// than `decompress` would read. Storing never fails.
pub open spec fn compression_refused(e: ErrorView, data: Seq<u8>, algorithm: Compression) -> bool {
    &&& e is CompressionError
    &&& names_algorithm(e->CompressionError_0, algorithm)
    &&& {
        ||| algorithm is Zstd
        ||| algorithm is Brotli
        ||| algorithm is Lz4 && compressed(data, algorithm).len() > LZ4_INPUT_LIMIT
    }
}

/// Compresses `data`. Storing cannot fail. LZ4 fails exactly where its block
/// is longer than `LZ4_INPUT_LIMIT` bytes, which `decompress` would not
/// read. Where zstd or brotli report a failure, it comes back as a
/// compression error that names the algorithm.
pub fn compress(data: &[u8], algorithm: Compression) -> (r: Result<Vec<u8>, HypercubeError>)
    ensures
        match r {
            Ok(out) => out@ == compressed(data@, algorithm) && (algorithm is Lz4 ==> out@.len()
                <= LZ4_INPUT_LIMIT),
            Err(e) => compression_refused(e@, data@, algorithm),
        },
{
    match algorithm {
        Compression::Zstd => match zstd_encode(data, ZSTD_LEVEL) {
            Ok(out) => Ok(out),
            Err(detail) => Err(HypercubeError::CompressionError(labelled(algorithm, detail))),
        },
        Compression::Lz4 => {
            let block = lz4_encode(data);
            if block.len() > LZ4_INPUT_LIMIT {
                Err(
                    HypercubeError::CompressionError(
                        labelled(algorithm, String::from_str("block too long")),
                    ),
                )
            } else {
                Ok(block)
            }
        },
        Compression::Brotli => match brotli_encode(
            data,
            BROTLI_BUFFER,
            BROTLI_QUALITY,
            BROTLI_WINDOW,
        ) {
            Ok(out) => Ok(out),
            Err(detail) => Err(HypercubeError::CompressionError(labelled(algorithm, detail))),
        },
        Compression::Uncompressed => Ok(vstd::slice::slice_to_vec(data)),
    }
}

/// Decompresses `data`. Fails exactly where the backend rejects the input,
/// and for LZ4 input of more than `LZ4_INPUT_LIMIT` bytes, with a
/// decompression error that names the algorithm.
pub fn decompress(data: &[u8], algorithm: Compression) -> (r: Result<Vec<u8>, HypercubeError>)
    ensures
        match r {
            Ok(out) => decompressed(data@, algorithm) == Some(out@),
            Err(e) => decompressed(data@, algorithm) is None && e@ is DecompressionError
                && names_algorithm(e@->DecompressionError_0, algorithm),
        },
{
    let decoded = match algorithm {
        Compression::Zstd => zstd_decode(data),
        Compression::Lz4 => if data.len() > LZ4_INPUT_LIMIT {
            Err(String::from_str("input too long"))
        } else {
            lz4_decode(data)
        },
        Compression::Brotli => brotli_decode(data, BROTLI_BUFFER),
        Compression::Uncompressed => Ok(vstd::slice::slice_to_vec(data)),
    };
    match decoded {
        Ok(out) => Ok(out),
        Err(detail) => Err(HypercubeError::DecompressionError(labelled(algorithm, detail))),
    }
}

} // verus!
