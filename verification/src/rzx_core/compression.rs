//! Per-file compression: choosing an algorithm and running it.
use vstd::prelude::*;
use vstd::slice::slice_to_vec;
use std::io::Write;
use crate::rzx_core::{CompressionAlgorithm, FileType, RzxError, RzxResult};

verus! {

/// What `flate2`'s raw DEFLATE encoder writes for `data` at `level`.
pub uninterp spec fn deflate_encoded(data: Seq<u8>, level: u8) -> Seq<u8>;

/// What `flate2`'s raw DEFLATE decoder writes for `data`, if it accepts it.
pub uninterp spec fn deflate_decoded(data: Seq<u8>) -> Option<Seq<u8>>;

/// What `lzma_rs::lzma_compress` writes for `data`.
pub uninterp spec fn lzma_encoded(data: Seq<u8>) -> Seq<u8>;

/// What `lzma_rs::lzma_decompress` writes for `data`, if it accepts it.
pub uninterp spec fn lzma_decoded(data: Seq<u8>) -> Option<Seq<u8>>;

/// What `zstd::stream::copy_encode` writes for `data` at `level`.
pub uninterp spec fn zstd_encoded(data: Seq<u8>, level: u8) -> Seq<u8>;

/// What `zstd::stream::copy_decode` writes for `data`, if it accepts it.
pub uninterp spec fn zstd_decoded(data: Seq<u8>) -> Option<Seq<u8>>;

/// Compresses with `flate2::write::DeflateEncoder` at `Compression::new(level)`
/// into a vector (flate2's miniz_oxide backend asserts, in debug builds, that
/// the level is at most 10). Writing into a vector does not fail, so it
/// succeeds; the result is named `deflate_encoded`, and the decoder gives the
/// input back.
#[verifier::external_body]
fn deflate_compress(data: &[u8], level: u8) -> (res: Option<Vec<u8>>)
    requires
        level <= 10,
    ensures
        res is Some,
        res matches Some(v) ==> v@ == deflate_encoded(data@, level) && deflate_decoded(v@)
            == Some(data@),
{
    let mut encoder = flate2::write::DeflateEncoder::new(
        Vec::new(),
        flate2::Compression::new(level as u32),
    );
    match encoder.write_all(data) {
        Ok(()) => encoder.finish().ok(),
        Err(_) => None,
    }
}

/// Decompresses with `flate2::write::DeflateDecoder` into a vector; the
/// result is named `deflate_decoded`.
#[verifier::external_body]
fn deflate_decompress(data: &[u8]) -> (res: Option<Vec<u8>>)
    ensures
        res is Some <==> deflate_decoded(data@) is Some,
        res matches Some(v) ==> deflate_decoded(data@) == Some(v@),
{
    let mut decoder = flate2::write::DeflateDecoder::new(Vec::new());
    match decoder.write_all(data) {
        Ok(()) => decoder.finish().ok(),
        Err(_) => None,
    }
}

/// Compresses with `lzma_rs::lzma_compress` (default options) into a vector.
/// Reading a slice and writing into a vector do not fail, so it succeeds;
/// the result is named `lzma_encoded`, and the decoder gives the input back.
#[verifier::external_body]
fn lzma_compress(data: &[u8]) -> (res: Option<Vec<u8>>)
    ensures
        res is Some,
        res matches Some(v) ==> v@ == lzma_encoded(data@) && lzma_decoded(v@) == Some(data@),
{
    let mut input = data;
    let mut out = Vec::new();
    match lzma_rs::lzma_compress(&mut input, &mut out) {
        Ok(()) => Some(out),
        Err(_) => None,
    }
}

/// Decompresses with `lzma_rs::lzma_decompress` into a vector; the result is
/// named `lzma_decoded`.
#[verifier::external_body]
fn lzma_decompress(data: &[u8]) -> (res: Option<Vec<u8>>)
    ensures
        res is Some <==> lzma_decoded(data@) is Some,
        res matches Some(v) ==> lzma_decoded(data@) == Some(v@),
{
    let mut input = data;
    let mut out = Vec::new();
    match lzma_rs::lzma_decompress(&mut input, &mut out) {
        Ok(()) => Some(out),
        Err(_) => None,
    }
}

/// Compresses with `zstd::stream::copy_encode` at `level` into a vector
/// (levels above zstd's maximum are clamped to it). Reading a slice and
/// writing into a vector do not fail, so it succeeds (short of running out
/// of memory); the result is named `zstd_encoded`, and the decoder gives the
/// input back.
#[verifier::external_body]
fn zstd_compress(data: &[u8], level: u8) -> (res: Option<Vec<u8>>)
    ensures
        res is Some,
        res matches Some(v) ==> v@ == zstd_encoded(data@, level) && zstd_decoded(v@) == Some(
            data@,
        ),
{
    let mut out = Vec::new();
    match zstd::stream::copy_encode(data, &mut out, level as i32) {
        Ok(()) => Some(out),
        Err(_) => None,
    }
}

/// Decompresses with `zstd::stream::copy_decode` into a vector; the result is
/// named `zstd_decoded`.
#[verifier::external_body]
fn zstd_decompress(data: &[u8]) -> (res: Option<Vec<u8>>)
    ensures
        res is Some <==> zstd_decoded(data@) is Some,
        res matches Some(v) ==> zstd_decoded(data@) == Some(v@),
{
    let mut out = Vec::new();
    match zstd::stream::copy_decode(data, &mut out) {
        Ok(()) => Some(out),
        Err(_) => None,
    }
}

/// The compression level used when none is given.
pub fn default_compression_level() -> (level: u8)
    ensures
        level == 6,
{
    6
}

/// The algorithm chosen for a file of the given type and size.
pub open spec fn algorithm_for(file_type: FileType, file_size: u64) -> CompressionAlgorithm {
    if file_size < 100 {
        CompressionAlgorithm::NoCompression
    } else {
        match file_type {
            FileType::Text | FileType::Document => if file_size > 1024 * 1024 {
                CompressionAlgorithm::Lzma
            } else {
                CompressionAlgorithm::Deflate
            },
            FileType::Binary => CompressionAlgorithm::Zstd,
            FileType::Image | FileType::Audio | FileType::Video | FileType::Archive => {
                CompressionAlgorithm::NoCompression
            },
            FileType::Unknown => CompressionAlgorithm::Deflate,
        }
    }
}

/// How the algorithm is chosen from a file's type and size: nothing under
/// 100 bytes; from 100 bytes, LZMA for text and documents over 1 MiB
/// (1048576 bytes) and DEFLATE for those up to it, Zstandard for binaries,
/// nothing for images, audio, video and archives, DEFLATE for unknown types.
pub proof fn lemma_algorithm_choice(t: FileType, size: u64)
    ensures
        size < 100 ==> algorithm_for(t, size) == CompressionAlgorithm::NoCompression,
        size >= 100 && (t == FileType::Text || t == FileType::Document) ==> algorithm_for(t, size) == (
        if size > 1048576 {
            CompressionAlgorithm::Lzma
        } else {
            CompressionAlgorithm::Deflate
        }),
        size >= 100 && t == FileType::Binary ==> algorithm_for(t, size) == CompressionAlgorithm::Zstd,
        size >= 100 && (t == FileType::Image || t == FileType::Audio || t == FileType::Video || t
            == FileType::Archive) ==> algorithm_for(t, size) == CompressionAlgorithm::NoCompression,
        size >= 100 && t == FileType::Unknown ==> algorithm_for(t, size) == CompressionAlgorithm::Deflate,
{
}

/// Chooses an algorithm: none for files under 100 bytes and for formats that
/// are already compressed, LZMA for text and documents over 1 MiB and
/// DEFLATE for smaller ones, Zstandard for binaries, DEFLATE otherwise.
pub fn select_compression_algorithm(file_type: FileType, file_size: u64) -> (res:
    CompressionAlgorithm)
    ensures
        res == algorithm_for(file_type, file_size),
{
    if file_size < 100 {
        return CompressionAlgorithm::NoCompression;
    }
    match file_type {
        FileType::Text | FileType::Document => {
            if file_size > 1024 * 1024 {
                CompressionAlgorithm::Lzma
            } else {
                CompressionAlgorithm::Deflate
            }
        },
        FileType::Binary => CompressionAlgorithm::Zstd,
        FileType::Image | FileType::Audio | FileType::Video | FileType::Archive => {
            CompressionAlgorithm::NoCompression
        },
        FileType::Unknown => CompressionAlgorithm::Deflate,
    }
}

/// The compressed form of `data`.
pub open spec fn compressed_form(algorithm: CompressionAlgorithm, data: Seq<u8>, level: u8) -> Seq<
    u8,
> {
    match algorithm {
        CompressionAlgorithm::NoCompression => data,
        CompressionAlgorithm::Deflate => deflate_encoded(data, level),
        CompressionAlgorithm::Lzma => lzma_encoded(data),
        CompressionAlgorithm::Zstd => zstd_encoded(data, level),
    }
}

/// The data that a compressed form decodes to, if it decodes.
pub open spec fn decompressed_form(algorithm: CompressionAlgorithm, data: Seq<u8>) -> Option<
    Seq<u8>,
> {
    match algorithm {
        CompressionAlgorithm::NoCompression => Some(data),
        CompressionAlgorithm::Deflate => deflate_decoded(data),
        CompressionAlgorithm::Lzma => lzma_decoded(data),
        CompressionAlgorithm::Zstd => zstd_decoded(data),
    }
}

/// The error that a failed decompression gives.
pub open spec fn decompress_error(algorithm: CompressionAlgorithm) -> RzxError {
    match algorithm {
        CompressionAlgorithm::Lzma => RzxError::Lzma,
        _ => RzxError::Io,
    }
}

/// Each algorithm uses its own codec: no compression copies, DEFLATE uses
/// flate2's raw DEFLATE at the level, LZMA uses lzma-rs, Zstandard uses zstd
/// at the level; each decodes with the same codec; a failed LZMA decoding
/// is an LZMA error and any other failed decoding an I/O error.
pub proof fn lemma_codec_choice(data: Seq<u8>, level: u8)
    ensures
        compressed_form(CompressionAlgorithm::NoCompression, data, level) == data,
        compressed_form(CompressionAlgorithm::Deflate, data, level) == deflate_encoded(data, level),
        compressed_form(CompressionAlgorithm::Lzma, data, level) == lzma_encoded(data),
        compressed_form(CompressionAlgorithm::Zstd, data, level) == zstd_encoded(data, level),
        decompressed_form(CompressionAlgorithm::NoCompression, data) == Some(data),
        decompressed_form(CompressionAlgorithm::Deflate, data) == deflate_decoded(data),
        decompressed_form(CompressionAlgorithm::Lzma, data) == lzma_decoded(data),
        decompressed_form(CompressionAlgorithm::Zstd, data) == zstd_decoded(data),
        decompress_error(CompressionAlgorithm::Lzma) == RzxError::Lzma,
        decompress_error(CompressionAlgorithm::Deflate) == RzxError::Io,
        decompress_error(CompressionAlgorithm::Zstd) == RzxError::Io,
{
}

/// Compresses `data`: the algorithm's encoding (without compression, a copy),
/// which decompresses to `data`.
pub fn compress(algorithm: CompressionAlgorithm, data: &[u8], level: u8) -> (res: RzxResult<
    Vec<u8>,
>)
    requires
        algorithm == CompressionAlgorithm::Deflate ==> level <= 10,
    ensures
        res matches Ok(v) ==> v@ == compressed_form(algorithm, data@, level) && decompressed_form(
            algorithm,
            v@,
        ) == Some(data@),
        res is Ok,
{
    match algorithm {
        CompressionAlgorithm::NoCompression => Ok(slice_to_vec(data)),
        CompressionAlgorithm::Deflate => match deflate_compress(data, level) {
            Some(v) => Ok(v),
            None => Err(RzxError::Io),
        },
        CompressionAlgorithm::Lzma => match lzma_compress(data) {
            Some(v) => Ok(v),
            None => Err(RzxError::Io),
        },
        CompressionAlgorithm::Zstd => match zstd_compress(data, level) {
            Some(v) => Ok(v),
            None => Err(RzxError::Io),
        },
    }
}

/// Decompresses `data`: succeeds exactly when the algorithm's decoder
/// accepts it, with what the decoder gives; otherwise `Lzma` for LZMA and
/// `Io` for the other decoders.
pub fn decompress(algorithm: CompressionAlgorithm, data: &[u8]) -> (res: RzxResult<Vec<u8>>)
    ensures
        res is Ok <==> decompressed_form(algorithm, data@) is Some,
        res matches Ok(v) ==> decompressed_form(algorithm, data@) == Some(v@),
        res matches Err(e) ==> e == decompress_error(algorithm),
{
    let out = match algorithm {
        CompressionAlgorithm::NoCompression => Some(slice_to_vec(data)),
        CompressionAlgorithm::Deflate => deflate_decompress(data),
        CompressionAlgorithm::Lzma => lzma_decompress(data),
        CompressionAlgorithm::Zstd => zstd_decompress(data),
    };
    match out {
        Some(v) => Ok(v),
        None => match algorithm {
            CompressionAlgorithm::Lzma => Err(RzxError::Lzma),
            _ => Err(RzxError::Io),
        },
    }
}

} // verus!
