//! Compression detection from magic bytes, and the choice between the
//! detected input compression and one asked for explicitly.

use vstd::prelude::*;

use crate::text::str_eq;

verus! {

/// The compressions the tool can read and write.
#[derive(Debug, Clone, Copy, PartialEq, Eq, Structural)]
pub enum CompressionFormat {
    Gzip,
    Bzip,
    Lzma,
    No,
}

/// Compression told by the first five bytes of a stream: the xz magic
/// first, then the two-byte gzip and bzip2 magics.
pub open spec fn compression_of(b: Seq<u8>) -> CompressionFormat {
    if b[0] == 0xFD && b[1] == 0x37 && b[2] == 0x7A && b[3] == 0x58 && b[4] == 0x5A {
        CompressionFormat::Lzma
    } else if b[0] == 0x1F && b[1] == 0x8B {
        CompressionFormat::Gzip
    } else if b[0] == 0x42 && b[1] == 0x5A {
        CompressionFormat::Bzip
    } else {
        CompressionFormat::No
    }
}

/// Detects the compression of a stream from its first five bytes.
pub fn get_compression(first_bytes: &[u8]) -> (r: CompressionFormat)
    requires
        first_bytes@.len() >= 5,
    ensures
        r == compression_of(first_bytes@),
{
    let b0 = first_bytes[0];
    let b1 = first_bytes[1];
    let b2 = first_bytes[2];
    let b3 = first_bytes[3];
    let b4 = first_bytes[4];
    if b0 == 0xFD && b1 == 0x37 && b2 == 0x7A && b3 == 0x58 && b4 == 0x5A {
        CompressionFormat::Lzma
    } else if b0 == 0x1F && b1 == 0x8B {
        CompressionFormat::Gzip
    } else if b0 == 0x42 && b1 == 0x5A {
        CompressionFormat::Bzip
    } else {
        CompressionFormat::No
    }
}

/// The compression asked for on the command line, if any was set; the
/// input's own compression otherwise.
pub open spec fn chosen_compression(
    input_compression: CompressionFormat,
    compression_set: bool,
    compression_value: Seq<char>,
) -> CompressionFormat {
    if !compression_set {
        input_compression
    } else if compression_value == "gzip"@ {
        CompressionFormat::Gzip
    } else if compression_value == "bzip2"@ {
        CompressionFormat::Bzip
    } else if compression_value == "lzma"@ {
        CompressionFormat::Lzma
    } else {
        CompressionFormat::No
    }
}

/// Keeps the input's compression, unless one was asked for explicitly.
pub fn choose_compression(
    input_compression: CompressionFormat,
    compression_set: bool,
    compression_value: &str,
) -> (r: CompressionFormat)
    ensures
        r == chosen_compression(input_compression, compression_set, compression_value@),
{
    if !compression_set {
        return input_compression;
    }
    if str_eq(compression_value, "gzip") {
        CompressionFormat::Gzip
    } else if str_eq(compression_value, "bzip2") {
        CompressionFormat::Bzip
    } else if str_eq(compression_value, "lzma") {
        CompressionFormat::Lzma
    } else {
        CompressionFormat::No
    }
}

} // verus!
