//! The fixed parts of a sorted table file: the footer and the index.
//!
//! A table file is its data blocks, then its index, then a footer of 48
//! bytes. The footer holds, in this order and big-endian: where the index
//! starts and how long it is (8 bytes each), the same for a bloom filter
//! (8 bytes each, zero while there is none), the compression kind (4 bytes),
//! the number of entries (8 bytes), and the CRC-32 of those 44 bytes.
//!
//! The index is a run of entries like a data block: the key of each is the
//! first key of a block, the value the handle of the block, which is where
//! it starts (8 bytes) and how long it is (4 bytes).

use vstd::prelude::*;
use vstd::slice::slice_subrange;
use crate::storage::bytes::{
    be32,
    be32_value,
    be64,
    be64_value,
    lemma_be32_round_trip,
    lemma_be64_round_trip,
    put_u32,
    put_u64,
    read_u32,
    read_u64,
};
use crate::storage::checksum::{checksum, crc32};
use crate::storage::codec::Entry;
use crate::storage::compression::CompressionType;

verus! {

/// The length of the footer.
pub const FOOTER_SIZE: usize = 48;

/// The length of a block handle.
pub const HANDLE_SIZE: usize = 12;

/// What the footer of a table file says.
#[derive(Debug, Clone, Copy, PartialEq, Eq, Structural)]
pub struct SSTableFooter {
    pub index_offset: u64,
    pub index_size: u64,
    pub bloom_filter_offset: u64,
    pub bloom_filter_size: u64,
    pub compression: CompressionType,
    pub num_entries: u64,
    pub crc: u32,
}

/// Where a data block lies in its file.
#[derive(Debug, Clone, Copy, PartialEq, Eq, Structural)]
pub struct BlockHandle {
    pub offset: u64,
    pub size: u32,
}

/// The number that stands for a compression kind in a footer.
pub open spec fn kind_code(kind: CompressionType) -> u32 {
    match kind {
        CompressionType::Uncompressed => 0,
        CompressionType::LZ4 => 1,
        CompressionType::Zstd => 2,
    }
}

/// The compression kind that a number in a footer stands for.
pub open spec fn kind_of(code: u32) -> Option<CompressionType> {
    if code == 0 {
        Some(CompressionType::Uncompressed)
    } else if code == 1 {
        Some(CompressionType::LZ4)
    } else if code == 2 {
        Some(CompressionType::Zstd)
    } else {
        None
    }
}

/// The 44 bytes of a footer that its checksum guards.
pub open spec fn footer_body(footer: SSTableFooter) -> Seq<u8> {
    be64(footer.index_offset) + (be64(footer.index_size) + (be64(footer.bloom_filter_offset) + (
    be64(footer.bloom_filter_size) + (be32(kind_code(footer.compression)) + be64(
        footer.num_entries,
    )))))
}

/// The 48 bytes of a footer.
#[verifier::opaque]
pub open spec fn footer_bytes(footer: SSTableFooter) -> Seq<u8> {
    footer_body(footer) + be32(footer.crc)
}

/// The footer that 48 bytes spell, if their checksum and their compression
/// kind are right.
#[verifier::opaque]
pub open spec fn parse_footer(s: Seq<u8>) -> Option<SSTableFooter> {
    if s.len() != FOOTER_SIZE {
        None
    } else {
        let crc = be32_value(s.skip(44));
        match kind_of(be32_value(s.skip(32))) {
            None => None,
            Some(compression) => if crc != crc32(s.subrange(0, 44)) {
                None
            } else {
                Some(
                    SSTableFooter {
                        index_offset: be64_value(s),
                        index_size: be64_value(s.skip(8)),
                        bloom_filter_offset: be64_value(s.skip(16)),
                        bloom_filter_size: be64_value(s.skip(24)),
                        compression,
                        num_entries: be64_value(s.skip(36)),
                        crc,
                    },
                )
            },
        }
    }
}

/// A footer whose checksum is that of its body is read back as it was
/// written.
pub proof fn lemma_footer_round_trip(footer: SSTableFooter)
    requires
        footer.crc == crc32(footer_body(footer)),
    ensures
        footer_bytes(footer).len() == FOOTER_SIZE,
        parse_footer(footer_bytes(footer)) == Some(footer),
{
    reveal(footer_bytes);
    reveal(parse_footer);
    let s = footer_bytes(footer);
    let r6 = be32(footer.crc);
    let r5 = be64(footer.num_entries) + r6;
    let r4 = be32(kind_code(footer.compression)) + r5;
    let r3 = be64(footer.bloom_filter_size) + r4;
    let r2 = be64(footer.bloom_filter_offset) + r3;
    let r1 = be64(footer.index_size) + r2;
    lemma_be64_round_trip(footer.index_offset, r1);
    lemma_be64_round_trip(footer.index_size, r2);
    lemma_be64_round_trip(footer.bloom_filter_offset, r3);
    lemma_be64_round_trip(footer.bloom_filter_size, r4);
    lemma_be32_round_trip(kind_code(footer.compression), r5);
    lemma_be64_round_trip(footer.num_entries, r6);
    lemma_be32_round_trip(footer.crc, Seq::empty());
    assert(r6 + Seq::<u8>::empty() =~= r6);
    assert(s =~= be64(footer.index_offset) + r1);
    assert(s.skip(8) =~= r1);
    assert(s.skip(16) =~= r2);
    assert(s.skip(24) =~= r3);
    assert(s.skip(32) =~= r4);
    assert(s.skip(36) =~= r5);
    assert(s.skip(44) =~= r6);
    assert(s.subrange(0, 44) =~= footer_body(footer));
}

/// The twelve bytes of a block handle.
#[verifier::opaque]
pub open spec fn handle_bytes(handle: BlockHandle) -> Seq<u8> {
    be64(handle.offset) + be32(handle.size)
}

/// The handle that an index value spells, if it is one.
#[verifier::opaque]
pub open spec fn parse_handle(value: Option<Seq<u8>>) -> Option<BlockHandle> {
    match value {
        Some(s) => if s.len() == HANDLE_SIZE {
            Some(BlockHandle { offset: be64_value(s), size: be32_value(s.skip(8)) })
        } else {
            None
        },
        None => None,
    }
}
/// A block handle is read back as it was laid out.

pub proof fn lemma_handle_round_trip(handle: BlockHandle)
    ensures
        handle_bytes(handle).len() == HANDLE_SIZE,
        parse_handle(Some(handle_bytes(handle))) == Some(handle),
{
    reveal(handle_bytes);
    reveal(parse_handle);
    lemma_be64_round_trip(handle.offset, be32(handle.size));
    lemma_be32_round_trip(handle.size, Seq::empty());
    assert(be32(handle.size) + Seq::<u8>::empty() =~= be32(handle.size));
}

/// One line of an index: the first key of a block and the block's handle.
pub type IndexLine = (Seq<u8>, BlockHandle);

/// The entries that an index is laid out as.
pub open spec fn index_entries(index: Seq<IndexLine>) -> Seq<Entry> {
    index.map_values(|line: IndexLine| (line.0, Some(handle_bytes(line.1))))
}

/// The index that a run of entries spells, if each value is a handle.
pub open spec fn parse_index(entries: Seq<Entry>) -> Option<Seq<IndexLine>>
    decreases entries.len(),
{
    if entries.len() == 0 {
        Some(Seq::empty())
    } else {
        match (parse_index(entries.drop_last()), parse_handle(entries.last().1)) {
            (Some(index), Some(handle)) => Some(index.push((entries.last().0, handle))),
            _ => None,
        }
    }
}
/// An index is read back from the entries that it is laid out as.

pub proof fn lemma_index_round_trip(index: Seq<IndexLine>)
    ensures
        parse_index(index_entries(index)) == Some(index),
    decreases index.len(),
{
    let entries = index_entries(index);
    if index.len() == 0 {
        assert(parse_index(entries) =~= Some(index));
    } else {
        assert(entries.drop_last() =~= index_entries(index.drop_last()));
        lemma_index_round_trip(index.drop_last());
        lemma_handle_round_trip(index.last().1);
        assert(index.drop_last().push(index.last()) =~= index);
    }
}

/// The views of the lines of an index.
pub open spec fn index_view(index: Seq<(Vec<u8>, BlockHandle)>) -> Seq<IndexLine> {
    index.map_values(|line: (Vec<u8>, BlockHandle)| (line.0@, line.1))
}

/// The number of a compression kind.
pub fn encode_kind(kind: CompressionType) -> (code: u32)
    ensures
        code == kind_code(kind),
{
    match kind {
        CompressionType::Uncompressed => 0,
        CompressionType::LZ4 => 1,
        CompressionType::Zstd => 2,
    }
}

/// The compression kind of a number, if it stands for one.
pub fn decode_kind(code: u32) -> (kind: Option<CompressionType>)
    ensures
        kind == kind_of(code),
{
    if code == 0 {
        Some(CompressionType::Uncompressed)
    } else if code == 1 {
        Some(CompressionType::LZ4)
    } else if code == 2 {
        Some(CompressionType::Zstd)
    } else {
        None
    }
}

/// Lays out a footer for the given fields, with the checksum of its body.
pub fn encode_footer(
    index_offset: u64,
    index_size: u64,
    compression: CompressionType,
    num_entries: u64,
) -> (r: (SSTableFooter, Vec<u8>))
    ensures
        r.0 == (SSTableFooter {
            index_offset,
            index_size,
            bloom_filter_offset: 0,
            bloom_filter_size: 0,
            compression,
            num_entries,
            crc: r.0.crc,
        }),
        r.0.crc == crc32(footer_body(r.0)),
        r.1@ == footer_bytes(r.0),
        r.1@.len() == FOOTER_SIZE,
        parse_footer(r.1@) == Some(r.0),
{
    let mut out: Vec<u8> = Vec::new();
    put_u64(&mut out, index_offset);
    put_u64(&mut out, index_size);
    put_u64(&mut out, 0);
    put_u64(&mut out, 0);
    put_u32(&mut out, encode_kind(compression));
    put_u64(&mut out, num_entries);
    let crc: u32 = checksum(out.as_slice());
    let footer = SSTableFooter {
        index_offset,
        index_size,
        bloom_filter_offset: 0,
        bloom_filter_size: 0,
        compression,
        num_entries,
        crc,
    };
    assert(out@ =~= footer_body(footer));
    put_u32(&mut out, crc);
    proof {
        reveal(footer_bytes);
        lemma_footer_round_trip(footer);
    }
    (footer, out)
}

/// Reads a footer from its 48 bytes.
pub fn decode_footer(data: &[u8]) -> (footer: Option<SSTableFooter>)
    requires
        data@.len() == FOOTER_SIZE,
    ensures
        footer == parse_footer(data@),
{
    reveal(parse_footer);
    let index_offset: u64 = read_u64(data, 0);
    let index_size: u64 = read_u64(data, 8);
    let bloom_filter_offset: u64 = read_u64(data, 16);
    let bloom_filter_size: u64 = read_u64(data, 24);
    let code: u32 = read_u32(data, 32);
    let num_entries: u64 = read_u64(data, 36);
    let crc: u32 = read_u32(data, 44);
    assert(data@.skip(0) =~= data@);
    let body = slice_subrange(data, 0, 44);
    match decode_kind(code) {
        None => None,
        Some(compression) => {
            if checksum(body) != crc {
                None
            } else {
                Some(
                    SSTableFooter {
                        index_offset,
                        index_size,
                        bloom_filter_offset,
                        bloom_filter_size,
                        compression,
                        num_entries,
                        crc,
                    },
                )
            }
        },
    }
}

/// Lays out a block handle.
pub fn encode_handle(handle: &BlockHandle) -> (bytes: Vec<u8>)
    ensures
        bytes@ == handle_bytes(*handle),
        bytes@.len() == HANDLE_SIZE,
{
    reveal(handle_bytes);
    let mut out: Vec<u8> = Vec::new();
    put_u64(&mut out, handle.offset);
    put_u32(&mut out, handle.size);
    proof {
        lemma_handle_round_trip(*handle);
    }
    out
}

/// Reads a block handle from an index value.
pub fn decode_handle(value: &Option<Vec<u8>>) -> (handle: Option<BlockHandle>)
    ensures
        handle == parse_handle(crate::storage::kv::value_view(*value)),
{
    reveal(parse_handle);
    match value {
        None => None,
        Some(bytes) => {
            if bytes.len() != HANDLE_SIZE {
                None
            } else {
                let offset: u64 = read_u64(bytes.as_slice(), 0);
                let size: u32 = read_u32(bytes.as_slice(), 8);
                assert(bytes@.skip(0) =~= bytes@);
                Some(BlockHandle { offset, size })
            }
        },
    }
}

} // verus!
