//! The compression scheme of a record, named by one byte.

use crate::region_loader::chunk_loader::codec::{
    gzip_compress, gzip_compressed, gzip_decompress, gzip_decompressed, lz4_compress,
    lz4_decompress, lz4_decompressed, zlib_compress, zlib_compressed, zlib_decompress,
    zlib_decompressed,
};
use vstd::prelude::*;
use vstd::slice::slice_to_vec;

verus! {

/// The scheme under which a record's payload is compressed. The byte 1 names
/// gzip, 2 zlib and 4 LZ4; every other byte, 3 among them, names a scheme
/// that is not known here.
#[derive(Clone, Copy, Debug, PartialEq, Eq, Structural)]
pub enum CompressionScheme {
    Gzip,
    Zlib,
    Lz4,
    Unknown(u8),
}

/// The scheme that the byte `byte` names.
pub open spec fn scheme_of(byte: u8) -> CompressionScheme {
    if byte == 1 {
        CompressionScheme::Gzip
    } else if byte == 2 {
        CompressionScheme::Zlib
    } else if byte == 4 {
        CompressionScheme::Lz4
    } else {
        CompressionScheme::Unknown(byte)
    }
}

/// The byte that names the scheme `scheme`.
pub open spec fn byte_of(scheme: CompressionScheme) -> u8 {
    match scheme {
        CompressionScheme::Gzip => 1,
        CompressionScheme::Zlib => 2,
        CompressionScheme::Lz4 => 4,
        CompressionScheme::Unknown(v) => v,
    }
}

/// What decompressing `data` under `scheme` gives: `None` where the
/// decompressor fails, and for every scheme that is not known.
pub open spec fn decoded(scheme: CompressionScheme, data: Seq<u8>) -> Option<Seq<u8>> {
    match scheme {
        CompressionScheme::Gzip => gzip_decompressed(data),
        CompressionScheme::Zlib => zlib_decompressed(data),
        CompressionScheme::Lz4 => lz4_decompressed(data),
        CompressionScheme::Unknown(_) => None,
    }
}

/// What the compressor of `scheme` makes of `data` at the level `level`, for
/// the two schemes whose compressed bytes are the same on every machine:
/// `None` where the compressor fails, and for every other scheme.
pub open spec fn compressed(scheme: CompressionScheme, data: Seq<u8>, level: u32) -> Option<
    Seq<u8>,
> {
    match scheme {
        CompressionScheme::Gzip => gzip_compressed(data, level),
        CompressionScheme::Zlib => zlib_compressed(data, level),
        _ => None,
    }
}

/// Whether `bytes` may stand for `data` under `scheme` at the level `level`.
/// Under gzip and zlib they are what the compressor gave, or `data` itself
/// where it gave nothing. Under LZ4, whose compressed bytes differ from
/// machine to machine, they are `data` itself or bytes that decompress to
/// `data`. Under a scheme that is not known they are `data` itself.
pub open spec fn encodes(
    scheme: CompressionScheme,
    data: Seq<u8>,
    level: u32,
    bytes: Seq<u8>,
) -> bool {
    match scheme {
        CompressionScheme::Gzip => bytes == or_unchanged_spec(gzip_compressed(data, level), data),
        CompressionScheme::Zlib => bytes == or_unchanged_spec(zlib_compressed(data, level), data),
        CompressionScheme::Lz4 => bytes == data || lz4_decompressed(bytes) == Some(data),
        CompressionScheme::Unknown(_) => bytes == data,
    }
}

/// The bytes that stand for `data` where the compressor of LZ4 gives
/// nothing: under gzip and zlib what `encodes` fixes, else `data` itself.
pub open spec fn plainly_encoded(scheme: CompressionScheme, data: Seq<u8>, level: u32) -> Seq<u8> {
    or_unchanged_spec(compressed(scheme, data, level), data)
}

/// `plainly_encoded` gives bytes that may stand for the data.
pub proof fn lemma_plainly_encoded(scheme: CompressionScheme, data: Seq<u8>, level: u32)
    ensures
        encodes(scheme, data, level, plainly_encoded(scheme, data, level)),
{
}

/// What a compressor gave, or `data` where it gave nothing.
pub open spec fn or_unchanged_spec(outcome: Option<Seq<u8>>, data: Seq<u8>) -> Seq<u8> {
    match outcome {
        Some(bytes) => bytes,
        None => data,
    }
}

/// What a compressor gave, or a copy of `data` where it gave nothing.
pub fn or_unchanged(outcome: Option<Vec<u8>>, data: &[u8]) -> (bytes: Vec<u8>)
    ensures
        bytes@ == match outcome {
            Some(given) => given@,
            None => data@,
        },
{
    match outcome {
        Some(given) => given,
        None => slice_to_vec(data),
    }
}

impl CompressionScheme {
    /// The scheme that a byte names. Every byte names one.
    pub fn from_u8(byte: u8) -> (res: Result<Self, &'static str>)
        ensures
            res == Ok::<CompressionScheme, &'static str>(scheme_of(byte)),
    {
        match byte {
            1 => Ok(CompressionScheme::Gzip),
            2 => Ok(CompressionScheme::Zlib),
            4 => Ok(CompressionScheme::Lz4),
            _ => Ok(CompressionScheme::Unknown(byte)),
        }
    }

    /// The byte that names this scheme.
    pub fn to_u8(&self) -> (byte: u8)
        ensures
            byte == byte_of(*self),
    {
        match self {
            CompressionScheme::Gzip => 1,
            CompressionScheme::Zlib => 2,
            CompressionScheme::Lz4 => 4,
            CompressionScheme::Unknown(v) => *v,
        }
    }

    /// Decompresses `data` to the end of its stream. A scheme that is not
    /// known always fails.
    pub fn decode(&self, data: &[u8]) -> (res: Option<Vec<u8>>)
        ensures
            match res {
                Some(bytes) => decoded(*self, data@) == Some(bytes@),
                None => decoded(*self, data@) is None,
            },
    {
        match self {
            CompressionScheme::Gzip => gzip_decompress(data),
            CompressionScheme::Zlib => zlib_decompress(data),
            CompressionScheme::Lz4 => lz4_decompress(data),
            CompressionScheme::Unknown(_) => None,
        }
    }

    /// Compresses `data` at the level `level`. Where the compressor fails,
    /// and for a scheme that is not known, the bytes come back as they are.
    /// What comes back is `data` itself or decodes to `data`.
    pub fn encode(&self, data: &[u8], level: u32) -> (bytes: Vec<u8>)
        requires
            level <= 9,
        ensures
            encodes(*self, data@, level, bytes@),
            bytes@ == data@ || decoded(*self, bytes@) == Some(data@),
    {
        let outcome = match self {
            CompressionScheme::Gzip => gzip_compress(data, level),
            CompressionScheme::Zlib => zlib_compress(data, level),
            CompressionScheme::Lz4 => lz4_compress(data),
            CompressionScheme::Unknown(_) => None,
        };
        or_unchanged(outcome, data)
    }
}

/// Every byte names a scheme, and that scheme is named by the byte.
pub proof fn lemma_scheme_byte_round_trip(byte: u8)
    ensures
        byte_of(scheme_of(byte)) == byte,
{
}

/// A scheme is found again from its byte, but for `Unknown` with a byte that
/// names a known scheme.
pub proof fn lemma_byte_scheme_round_trip(scheme: CompressionScheme)
    requires
        scheme matches CompressionScheme::Unknown(v) ==> v != 1 && v != 2 && v != 4,
    ensures
        scheme_of(byte_of(scheme)) == scheme,
{
}

} // verus!
