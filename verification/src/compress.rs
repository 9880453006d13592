//! Byte compressors: zstd, LZ4 block, identity and run-length.
use crate::codec::{rle_decode_lenient, rle_encode_bytes, spec_rle_decode_lenient, spec_rle_encode};
use crate::types::KcmError;
use vstd::prelude::*;

verus! {

/// The zstd frame that `zstd::encode_all` produces for `data` at `level`.
pub uninterp spec fn spec_zstd_compress(data: Seq<u8>, level: i32) -> Seq<u8>;

/// What `zstd::decode_all` yields for `data`, or `None` when it fails.
pub uninterp spec fn spec_zstd_decompress(data: Seq<u8>) -> Option<Seq<u8>>;

/// The LZ4 block that `lz4::block::compress` produces for `data` (default mode, no size prefix).
pub uninterp spec fn spec_lz4_compress(data: Seq<u8>) -> Seq<u8>;

/// What `lz4::block::decompress` yields for `data` given the uncompressed
/// size `size`, or `None` when it fails.
pub uninterp spec fn spec_lz4_decompress(data: Seq<u8>, size: i32) -> Option<Seq<u8>>;

/// Calls `zstd::encode_all`. Output is named `spec_zstd_compress`; zstd is
/// lossless, so decoding the output gives `data` back. Errors become their text.
#[verifier::external_body]
fn zstd_encode(data: &[u8], level: i32) -> (r: Result<Vec<u8>, String>)
    ensures
        r matches Ok(v) ==> v@ == spec_zstd_compress(data@, level) && spec_zstd_decompress(v@) == Some(data@),
{
    zstd::encode_all(data, level).map_err(|e| e.to_string())
}

/// Calls `zstd::decode_all`; its outcome is named `spec_zstd_decompress`.
#[verifier::external_body]
fn zstd_decode(data: &[u8]) -> (r: Result<Vec<u8>, String>)
    ensures
        r matches Ok(v) ==> spec_zstd_decompress(data@) == Some(v@),
        r is Err ==> spec_zstd_decompress(data@) is None,
{
    zstd::decode_all(data).map_err(|e| e.to_string())
}

/// Calls `lz4::block::compress(data, None, false)`. Inputs longer than
/// `i32::MAX` bytes are refused; the output is named `spec_lz4_compress`,
/// and decoding it with the input's size gives the input back.
#[verifier::external_body]
fn lz4_encode(data: &[u8]) -> (r: Result<Vec<u8>, String>)
    ensures
        data@.len() > i32::MAX ==> r is Err,
        r matches Ok(v) ==> v@ == spec_lz4_compress(data@) && spec_lz4_decompress(v@, data@.len() as i32) == Some(data@),
{
    lz4::block::compress(data, None, false).map_err(|e| e.to_string())
}

/// Calls `lz4::block::decompress(data, Some(size))`; a negative size is
/// refused, and the outcome is named `spec_lz4_decompress`.
#[verifier::external_body]
fn lz4_decode(data: &[u8], size: i32) -> (r: Result<Vec<u8>, String>)
    ensures
        size < 0 ==> r is Err,
        r matches Ok(v) ==> spec_lz4_decompress(data@, size) == Some(v@),
        r is Err ==> spec_lz4_decompress(data@, size) is None,
{
    lz4::block::decompress(data, Some(size)).map_err(|e| e.to_string())
}

/// A byte compressor.
pub trait Compressor {
    fn compress(&self, data: &[u8]) -> Result<Vec<u8>, KcmError>;

    fn decompress(&self, data: &[u8], expected_size: usize) -> Result<Vec<u8>, KcmError>;
}

/// zstd at a chosen level.
pub struct ZstdCompressor {
    level: i32,
}

impl ZstdCompressor {
    pub closed spec fn spec_level(&self) -> i32 {
        self.level
    }

    pub fn new(level: i32) -> (r: ZstdCompressor)
        ensures
            r.spec_level() == level,
    {
        ZstdCompressor { level }
    }

    /// zstd at level 3.
    pub fn default_level() -> (r: ZstdCompressor)
        ensures
            r.spec_level() == 3,
    {
        ZstdCompressor { level: 3 }
    }
}

impl Compressor for ZstdCompressor {
    fn compress(&self, data: &[u8]) -> (r: Result<Vec<u8>, KcmError>)
        ensures
            r matches Ok(v) ==> v@ == spec_zstd_compress(data@, self.spec_level()) && spec_zstd_decompress(v@) == Some(data@),
            r matches Err(e) ==> e is Io,
    {
        match zstd_encode(data, self.level) {
            Ok(v) => Ok(v),
            Err(s) => Err(KcmError::Io(s)),
        }
    }

    fn decompress(&self, data: &[u8], _expected_size: usize) -> (r: Result<Vec<u8>, KcmError>)
        ensures
            r matches Ok(v) ==> spec_zstd_decompress(data@) == Some(v@),
            r matches Err(e) ==> e is Io && spec_zstd_decompress(data@) is None,
    {
        match zstd_decode(data) {
            Ok(v) => Ok(v),
            Err(s) => Err(KcmError::Io(s)),
        }
    }
}

/// LZ4 block compression.
pub struct Lz4Compressor;

impl Lz4Compressor {
    pub fn default_level() -> Lz4Compressor {
        Lz4Compressor
    }
}

impl Compressor for Lz4Compressor {
    fn compress(&self, data: &[u8]) -> (r: Result<Vec<u8>, KcmError>)
        ensures
            data@.len() > i32::MAX ==> r is Err,
            r matches Ok(v) ==> v@ == spec_lz4_compress(data@) && spec_lz4_decompress(v@, data@.len() as i32) == Some(data@),
            r matches Err(e) ==> e is Io,
    {
        match lz4_encode(data) {
            Ok(v) => Ok(v),
            Err(s) => Err(KcmError::Io(s)),
        }
    }

    /// Decompresses to `expected_size` bytes (the size is taken as an `i32`).
    fn decompress(&self, data: &[u8], expected_size: usize) -> (r: Result<Vec<u8>, KcmError>)
        ensures
            r matches Ok(v) ==> spec_lz4_decompress(data@, expected_size as i32) == Some(v@),
            r matches Err(e) ==> e is Io && spec_lz4_decompress(data@, expected_size as i32) is None,
    {
        match lz4_decode(data, expected_size as i32) {
            Ok(v) => Ok(v),
            Err(s) => Err(KcmError::Io(s)),
        }
    }
}

/// The identity compressor.
pub struct NoopCompressor;

impl Compressor for NoopCompressor {
    fn compress(&self, data: &[u8]) -> (r: Result<Vec<u8>, KcmError>)
        ensures
            r matches Ok(v) && v@ == data@,
    {
        Ok(vstd::slice::slice_to_vec(data))
    }

    fn decompress(&self, data: &[u8], _expected_size: usize) -> (r: Result<Vec<u8>, KcmError>)
        ensures
            r matches Ok(v) && v@ == data@,
    {
        Ok(vstd::slice::slice_to_vec(data))
    }
}

/// Run-length compression (value byte and 4-byte run length per run).
pub struct RleCompressor;

impl Compressor for RleCompressor {
    fn compress(&self, data: &[u8]) -> (r: Result<Vec<u8>, KcmError>)
        ensures
            r matches Ok(v) && v@ == spec_rle_encode(data@),
    {
        Ok(rle_encode_bytes(data))
    }

    /// Decodes every whole run; a trailing partial run is ignored.
    fn decompress(&self, data: &[u8], _expected_size: usize) -> (r: Result<Vec<u8>, KcmError>)
        ensures
            r matches Ok(v) && v@ == spec_rle_decode_lenient(data@),
    {
        Ok(rle_decode_lenient(data))
    }
}

/// Run-length decompression gives back what run-length compression
/// produced from any input.
pub proof fn law_compress_roundtrip(data: Seq<u8>)
    ensures
        spec_rle_decode_lenient(spec_rle_encode(data)) == data,
{
    crate::codec::law_rle_roundtrip(data);
}

} // verus!
