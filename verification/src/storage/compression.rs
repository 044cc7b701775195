//! Pluggable block compression: none, LZ4 and Zstandard.

use vstd::prelude::*;
use vstd::slice::slice_to_vec;
use crate::storage::error::StorageError;

verus! {

/// How the blocks and the index of one sorted table are compressed.
#[derive(Debug, Clone, Copy, PartialEq, Eq, Structural)]
pub enum CompressionType {
    /// Bytes are stored as they are.
    Uncompressed,
    LZ4,
    Zstd,
}

/// The Zstandard level that the engine compresses with.
pub const ZSTD_LEVEL: i32 = 3;

/// The most bytes that one Zstandard block may decompress to.
pub const ZSTD_LIMIT: usize = 1024 * 1024;

/// The longest input that LZ4 is asked to compress, and the most bytes
/// that an LZ4 block may declare to decompress to.
pub const LZ4_LIMIT: usize = 0x0080_0000;

/// The longest LZ4 block that is decompressed. It leaves room for what
/// compressing `LZ4_LIMIT` bytes gives at most.
pub const LZ4_PACKED_LIMIT: usize = 0x0090_0000;

/// The number that the first four bytes of `s` spell, least significant
/// first.
pub open spec fn le32_value(s: Seq<u8>) -> nat {
    (s[0] + s[1] * 0x100 + s[2] * 0x1_0000 + s[3] * 0x100_0000) as nat
}

/// Whether LZ4 is asked to decompress `data`: the block is no longer than
/// `LZ4_PACKED_LIMIT`, and the size that its first four bytes declare is no
/// more than `LZ4_LIMIT`.
pub open spec fn lz4_readable(data: Seq<u8>) -> bool {
    &&& data.len() <= LZ4_PACKED_LIMIT
    &&& data.len() >= 4 ==> le32_value(data) <= LZ4_LIMIT
}

/// What `lz4_flex::compress_prepend_size` returns for `data`.
pub uninterp spec fn lz4_packed(data: Seq<u8>) -> Seq<u8>;

/// What `lz4_flex::decompress_size_prepended` returns for `data`: the
/// decompressed bytes, or `None` where it reports an error.
pub uninterp spec fn lz4_unpacked(data: Seq<u8>) -> Option<Seq<u8>>;

/// What `zstd::bulk::compress` returns for `data` at `level`, where it succeeds.
pub uninterp spec fn zstd_packed(data: Seq<u8>, level: i32) -> Seq<u8>;

/// What `zstd::bulk::decompress` returns for `data` with room for `capacity`
/// bytes: the decompressed bytes, or `None` where it reports an error.
pub uninterp spec fn zstd_unpacked(data: Seq<u8>, capacity: usize) -> Option<Seq<u8>>;

/// `lz4_flex::block::DecompressError`: why a block did not decompress.
#[verifier::external_type_specification]
#[verifier::external_body]
pub struct ExLz4DecompressError(lz4_flex::block::DecompressError);

/// `std::io::Error`, as the Zstandard functions return it.
#[verifier::external_type_specification]
#[verifier::external_body]
pub struct ExIoError(std::io::Error);

/// `lz4_flex::compress_prepend_size`: the LZ4 block of `data` behind the
/// length of `data` as four little-endian bytes. The crate gives
/// `16 + 4 + len * 110 / 100` as the most bytes of a block, and documents
/// the function as the counterpart of `decompress_size_prepended`, which
/// gives the input back. Long inputs are left out: their length would not
/// fit the four bytes.
#[verifier::external_body]
fn lz4_compress(data: &[u8]) -> (packed: Vec<u8>)
    requires
        data@.len() <= LZ4_LIMIT,
    ensures
        packed@ == lz4_packed(data@),
        4 <= packed@.len() <= 24 + data@.len() + data@.len() / 10,
        le32_value(packed@) == data@.len(),
        lz4_unpacked(packed@) == Some(data@),
{
    lz4_flex::compress_prepend_size(data)
}

/// `lz4_flex::decompress_size_prepended`: the bytes that the block stands
/// for, or the crate's error where the input is no such block. Blocks that
/// are not `lz4_readable` are left out: the function allocates as many bytes
/// as the first four bytes of the block declare, before it reads further,
/// and it adds up length bytes in 32 bits.
#[verifier::external_body]
fn lz4_decompress(data: &[u8]) -> (unpacked: Result<Vec<u8>, lz4_flex::block::DecompressError>)
    requires
        lz4_readable(data@),
    ensures
        match unpacked {
            Ok(bytes) => lz4_unpacked(data@) == Some(bytes@),
            Err(_) => lz4_unpacked(data@).is_none(),
        },
{
    lz4_flex::decompress_size_prepended(data)
}

/// The text of an LZ4 failure.
#[verifier::external_body]
fn lz4_failure(error: &lz4_flex::block::DecompressError) -> (text: String) {
    format!("LZ4 decompression failed: {}", error)
}

/// `zstd::bulk::compress`: one Zstandard frame of `data`, or an I/O error. What
/// it returns for an input of at most `ZSTD_LIMIT` bytes, `zstd::bulk::decompress`
/// with that capacity turns back into the input.
#[verifier::external_body]
fn zstd_compress(data: &[u8], level: i32) -> (packed: Result<Vec<u8>, std::io::Error>)
    ensures
        packed matches Ok(bytes) ==> {
            &&& bytes@ == zstd_packed(data@, level)
            &&& data@.len() <= ZSTD_LIMIT ==> zstd_unpacked(bytes@, ZSTD_LIMIT) == Some(data@)
        },
{
    zstd::bulk::compress(data, level)
}

/// `zstd::bulk::decompress`: the bytes that the frame stands for, or an error
/// where the input is no frame or stands for more than `capacity` bytes.
#[verifier::external_body]
fn zstd_decompress(data: &[u8], capacity: usize) -> (unpacked: Result<Vec<u8>, std::io::Error>)
    ensures
        match unpacked {
            Ok(bytes) => zstd_unpacked(data@, capacity) == Some(bytes@),
            Err(_) => zstd_unpacked(data@, capacity).is_none(),
        },
{
    zstd::bulk::decompress(data, capacity)
}

/// The text of a Zstandard failure.
#[verifier::external_body]
fn zstd_failure(action: &str, error: &std::io::Error) -> (text: String) {
    format!("ZSTD {} failed: {}", action, error)
}

/// The compressed form of `data` under `kind`.
pub open spec fn packed(kind: CompressionType, data: Seq<u8>) -> Seq<u8> {
    match kind {
        CompressionType::Uncompressed => data,
        CompressionType::LZ4 => lz4_packed(data),
        CompressionType::Zstd => zstd_packed(data, ZSTD_LEVEL),
    }
}

/// What `data` decompresses to under `kind`, or `None` where it does not.
pub open spec fn unpacked(kind: CompressionType, data: Seq<u8>) -> Option<Seq<u8>> {
    match kind {
        CompressionType::Uncompressed => Some(data),
        CompressionType::LZ4 => if lz4_readable(data) {
            lz4_unpacked(data)
        } else {
            None
        },
        CompressionType::Zstd => zstd_unpacked(data, ZSTD_LIMIT),
    }
}

/// Whether `kind` takes an input of `len` bytes: one that it can give back.
pub open spec fn compressible(kind: CompressionType, len: nat) -> bool {
    match kind {
        CompressionType::Uncompressed => true,
        CompressionType::LZ4 => len <= LZ4_LIMIT,
        CompressionType::Zstd => len <= ZSTD_LIMIT,
    }
}

/// Bytes that are stored as they are are read as they are.
pub proof fn lemma_uncompressed_round_trip(data: Seq<u8>)
    ensures
        compressible(CompressionType::Uncompressed, data.len()),
        unpacked(CompressionType::Uncompressed, packed(CompressionType::Uncompressed, data))
            == Some(data),
{
}

/// What `compress` makes of the outcome of the Zstandard call.
pub fn zstd_compressed(outcome: Result<Vec<u8>, std::io::Error>) -> (r: Result<Vec<u8>, StorageError>)
    ensures
        match (outcome, r) {
            (Ok(bytes), Ok(out)) => out == bytes,
            (Err(_), Err(e)) => e is Compression,
            _ => false,
        },
{
    match outcome {
        Ok(bytes) => Ok(bytes),
        Err(e) => Err(StorageError::Compression(zstd_failure("compression", &e))),
    }
}

/// Compresses `data` under `kind`.
///
/// An input that the kind could not give back is refused. Whatever is
/// returned decompresses to `data`.
pub fn compress(data: &[u8], compression_type: &CompressionType) -> (r: Result<
    Vec<u8>,
    StorageError,
>)
    ensures
        match r {
            Ok(out) => {
                &&& compressible(*compression_type, data@.len())
                &&& out@ == packed(*compression_type, data@)
                &&& unpacked(*compression_type, out@) == Some(data@)
            },
            Err(e) => {
                &&& e is Compression
                &&& *compression_type != CompressionType::Uncompressed
                &&& *compression_type == CompressionType::LZ4 ==> !compressible(
                    *compression_type,
                    data@.len(),
                )
            },
        },
{
    match compression_type {
        CompressionType::Uncompressed => Ok(slice_to_vec(data)),
        CompressionType::LZ4 => {
            if data.len() > LZ4_LIMIT {
                Err(StorageError::Compression("LZ4 compression failed: input too large".to_string()))
            } else {
                Ok(lz4_compress(data))
            }
        },
        CompressionType::Zstd => {
            if data.len() > ZSTD_LIMIT {
                Err(
                    StorageError::Compression(
                        "ZSTD compression failed: input too large".to_string(),
                    ),
                )
            } else {
                zstd_compressed(zstd_compress(data, ZSTD_LEVEL))
            }
        },
    }
}

/// Whether LZ4 is asked to decompress `data`.
fn lz4_block_readable(data: &[u8]) -> (readable: bool)
    ensures
        readable == lz4_readable(data@),
{
    let len: usize = data.len();
    if len > LZ4_PACKED_LIMIT {
        false
    } else if len < 4 {
        true
    } else {
        let declared: u64 = data[0] as u64 + data[1] as u64 * 0x100 + data[2] as u64 * 0x1_0000
            + data[3] as u64 * 0x100_0000;
        declared <= LZ4_LIMIT as u64
    }
}

/// Decompresses `data` under `kind`. An LZ4 block that is not `lz4_readable`
/// is refused unread.
pub fn decompress(data: &[u8], compression_type: &CompressionType) -> (r: Result<
    Vec<u8>,
    StorageError,
>)
    ensures
        match r {
            Ok(out) => unpacked(*compression_type, data@) == Some(out@),
            Err(e) => e is Compression && unpacked(*compression_type, data@).is_none(),
        },
{
    match compression_type {
        CompressionType::Uncompressed => Ok(slice_to_vec(data)),
        CompressionType::LZ4 => {
            if !lz4_block_readable(data) {
                return Err(
                    StorageError::Compression(
                        "LZ4 decompression failed: block too large".to_string(),
                    ),
                );
            }
            match lz4_decompress(data) {
                Ok(bytes) => Ok(bytes),
                Err(e) => Err(StorageError::Compression(lz4_failure(&e))),
            }
        },
        CompressionType::Zstd => match zstd_decompress(data, ZSTD_LIMIT) {
            Ok(bytes) => Ok(bytes),
            Err(e) => Err(StorageError::Compression(zstd_failure("decompression", &e))),
        },
    }
}

} // verus!
