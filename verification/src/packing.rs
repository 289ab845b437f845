//! Brotli packing of blobs.

use std::io::{Read, Write};

use vstd::prelude::*;

use crate::error::Error;

verus! {

/// The quality that blobs are packed with.
pub const QUALITY: u32 = 9;

/// The logarithm of the window that blobs are packed with.
pub const WINDOW: u32 = 22;

/// The size of the buffers that packing and unpacking go through.
pub const BUFFER: usize = 4096;

/// Stands for `std::io::Error`, what a reader or writer reports; nothing is said of it.
#[verifier::external_type_specification]
#[verifier::external_body]
pub struct ExIoError(std::io::Error);

/// What `brotli::Decompressor` reads out of packed bytes, up to the end of their stream; nothing
/// where they are no complete stream.
pub uninterp spec fn brotli_decoded(packed: Seq<u8>) -> Option<Seq<u8>>;

/// Whether `brotli::CompressorWriter`, made with a buffer size, a quality and a window, can come
/// to an outcome on some bytes: a stream, or nothing where it fails. There may be more than one
/// such outcome: the encoder weighs its choices with logarithms, which machines round differently.
pub uninterp spec fn brotli_written(
    bytes: Seq<u8>,
    buffer_size: usize,
    quality: u32,
    window: u32,
    outcome: Option<Seq<u8>>,
) -> bool;

/// Stands for `brotli::CompressorWriter`, to which all bytes are written and which is then flushed
/// and dropped: what comes out is an outcome of that encoder, and a stream unpacks to the bytes.
/// Which of the possible streams it is, and when the encoder fails, is not stated.
#[verifier::external_body]
fn brotli_write(bytes: &[u8], buffer_size: usize, quality: u32, window: u32) -> (r: Result<
    Vec<u8>,
    std::io::Error,
>)
    requires
        0 < buffer_size <= 0x10_0000,
        quality <= 11,
        10 <= window <= 24,
    ensures
        match r {
            Ok(packed) => brotli_decoded(packed@) == Some(bytes@) && brotli_written(
                bytes@,
                buffer_size,
                quality,
                window,
                Some(packed@),
            ),
            Err(_) => brotli_written(bytes@, buffer_size, quality, window, None),
        },
{
    let mut out: Vec<u8> = Vec::new();
    {
        let mut writer = brotli::CompressorWriter::new(&mut out, buffer_size, quality, window);
        writer.write_all(bytes)?;
        writer.flush()?;
    }
    Ok(out)
}

/// Stands for `brotli::Decompressor`, out of which all is read: its output depends on the packed
/// bytes alone, and it fails on bytes that are no complete stream.
#[verifier::external_body]
fn brotli_read(packed: &[u8], buffer_size: usize) -> (r: Result<Vec<u8>, std::io::Error>)
    requires
        0x1000 <= buffer_size <= 0x10_0000,
    ensures
        match r {
            Ok(bytes) => brotli_decoded(packed@) == Some(bytes@),
            Err(_) => brotli_decoded(packed@) is None,
        },
{
    let mut out: Vec<u8> = Vec::new();
    let mut reader = brotli::Decompressor::new(packed, buffer_size);
    reader.read_to_end(&mut out)?;
    Ok(out)
}

/// Packing bytes as blobs are packed can come to an outcome: a stream that unpacks to the bytes,
/// or nothing.
pub open spec fn packs(bytes: Seq<u8>, outcome: Option<Seq<u8>>) -> bool {
    &&& brotli_written(bytes, BUFFER, QUALITY, WINDOW, outcome)
    &&& outcome is Some ==> brotli_decoded(outcome->0) == Some(bytes)
}

/// Packs bytes.
pub fn compress(bytes: &[u8]) -> (r: Result<Vec<u8>, Error>)
    ensures
        match r {
            Ok(packed) => packs(bytes@, Some(packed@)),
            Err(e) => e == Error::Compression && packs(bytes@, None),
        },
{
    match brotli_write(bytes, BUFFER, QUALITY, WINDOW) {
        Ok(packed) => Ok(packed),
        Err(_) => Err(Error::Compression),
    }
}

/// Unpacks bytes.
pub fn decompress(bytes: &[u8]) -> (r: Result<Vec<u8>, Error>)
    ensures
        match brotli_decoded(bytes@) {
            Some(unpacked) => r is Ok && r->Ok_0@ == unpacked,
            None => r == Err::<Vec<u8>, Error>(Error::Decompression),
        },
{
    match brotli_read(bytes, BUFFER) {
        Ok(unpacked) => Ok(unpacked),
        Err(_) => Err(Error::Decompression),
    }
}

} // verus!
