//! The compressors that a record's payload goes through. They are the work of
//! other crates: what is stated of them here is taken on trust.

use std::io::Read;
use std::io::Write;
use vstd::prelude::*;

verus! {

/// What the gzip decompressor makes of `data`: `None` where it reports an
/// error.
pub uninterp spec fn gzip_decompressed(data: Seq<u8>) -> Option<Seq<u8>>;

/// What the zlib decompressor makes of `data`: `None` where it reports an
/// error.
pub uninterp spec fn zlib_decompressed(data: Seq<u8>) -> Option<Seq<u8>>;

/// What the LZ4 frame decompressor makes of `data`: `None` where it reports
/// an error.
pub uninterp spec fn lz4_decompressed(data: Seq<u8>) -> Option<Seq<u8>>;

/// What the gzip compressor makes of `data` at the level `level`: `None`
/// where it reports an error.
pub uninterp spec fn gzip_compressed(data: Seq<u8>, level: u32) -> Option<Seq<u8>>;

/// What the zlib compressor makes of `data` at the level `level`: `None`
/// where it reports an error.
pub uninterp spec fn zlib_compressed(data: Seq<u8>, level: u32) -> Option<Seq<u8>>;

/// Runs `flate2::read::GzDecoder` over `data` to the end of the stream.
///
/// Taken on trust: the result is a function of `data` alone, and is `None`
/// exactly where the decoder reports an error.
#[verifier::external_body]
pub(crate) fn gzip_decompress(data: &[u8]) -> (res: Option<Vec<u8>>)
    ensures
        match res {
            Some(bytes) => gzip_decompressed(data@) == Some(bytes@),
            None => gzip_decompressed(data@) is None,
        },
{
    let mut decoder = flate2::read::GzDecoder::new(data);
    let mut bytes = Vec::new();
    match decoder.read_to_end(&mut bytes) {
        Ok(_) => Some(bytes),
        Err(_) => None,
    }
}

/// Runs `flate2::read::ZlibDecoder` over `data` to the end of the stream.
///
/// Taken on trust: the result is a function of `data` alone, and is `None`
/// exactly where the decoder reports an error.
#[verifier::external_body]
pub(crate) fn zlib_decompress(data: &[u8]) -> (res: Option<Vec<u8>>)
    ensures
        match res {
            Some(bytes) => zlib_decompressed(data@) == Some(bytes@),
            None => zlib_decompressed(data@) is None,
        },
{
    let mut decoder = flate2::read::ZlibDecoder::new(data);
    let mut bytes = Vec::new();
    match decoder.read_to_end(&mut bytes) {
        Ok(_) => Some(bytes),
        Err(_) => None,
    }
}

/// Runs `lz4_flex::frame::FrameDecoder` over `data` to the end of the stream.
///
/// Taken on trust: the result is a function of `data` alone, and is `None`
/// exactly where the decoder reports an error.
#[verifier::external_body]
pub(crate) fn lz4_decompress(data: &[u8]) -> (res: Option<Vec<u8>>)
    ensures
        match res {
            Some(bytes) => lz4_decompressed(data@) == Some(bytes@),
            None => lz4_decompressed(data@) is None,
        },
{
    let mut decoder = lz4_flex::frame::FrameDecoder::new(data);
    let mut bytes = Vec::new();
    match decoder.read_to_end(&mut bytes) {
        Ok(_) => Some(bytes),
        Err(_) => None,
    }
}

/// Runs `flate2::read::GzEncoder` over `data` at the level `level`.
///
/// Taken on trust: the result is a function of `data` and `level` alone, is
/// `None` exactly where the encoder reports an error, and what it gives the
/// gzip decompressor turns back into `data`. A level above 9 is kept out: the
/// encoder may refuse it with a panic.
#[verifier::external_body]
pub(crate) fn gzip_compress(data: &[u8], level: u32) -> (res: Option<Vec<u8>>)
    requires
        level <= 9,
    ensures
        match res {
            Some(bytes) => gzip_compressed(data@, level) == Some(bytes@) && gzip_decompressed(
                bytes@,
            ) == Some(data@),
            None => gzip_compressed(data@, level) is None,
        },
{
    let mut encoder = flate2::read::GzEncoder::new(data, flate2::Compression::new(level));
    let mut bytes = Vec::new();
    match encoder.read_to_end(&mut bytes) {
        Ok(_) => Some(bytes),
        Err(_) => None,
    }
}

/// Runs `flate2::read::ZlibEncoder` over `data` at the level `level`.
///
/// Taken on trust: the result is a function of `data` and `level` alone, is
/// `None` exactly where the encoder reports an error, and what it gives the
/// zlib decompressor turns back into `data`. A level above 9 is kept out: the
/// encoder may refuse it with a panic.
#[verifier::external_body]
pub(crate) fn zlib_compress(data: &[u8], level: u32) -> (res: Option<Vec<u8>>)
    requires
        level <= 9,
    ensures
        match res {
            Some(bytes) => zlib_compressed(data@, level) == Some(bytes@) && zlib_decompressed(
                bytes@,
            ) == Some(data@),
            None => zlib_compressed(data@, level) is None,
        },
{
    let mut encoder = flate2::read::ZlibEncoder::new(data, flate2::Compression::new(level));
    let mut bytes = Vec::new();
    match encoder.read_to_end(&mut bytes) {
        Ok(_) => Some(bytes),
        Err(_) => None,
    }
}

/// Writes `data` through `lz4_flex::frame::FrameEncoder` and finishes the
/// frame.
///
/// Taken on trust: what it gives, the LZ4 frame decompressor turns back into
/// `data`. Which bytes it gives depends on the machine that it runs on, so
/// nothing more is said of them.
#[verifier::external_body]
pub(crate) fn lz4_compress(data: &[u8]) -> (res: Option<Vec<u8>>)
    ensures
        res matches Some(bytes) ==> lz4_decompressed(bytes@) == Some(data@),
{
    let mut encoder = lz4_flex::frame::FrameEncoder::new(Vec::new());
    match encoder.write_all(data) {
        Ok(_) => match encoder.finish() {
            Ok(bytes) => Some(bytes),
            Err(_) => None,
        },
        Err(_) => None,
    }
}

} // verus!
