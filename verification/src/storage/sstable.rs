//! Sorted tables: immutable runs of entries in data blocks, found through
//! a sparse index.
//!
//! A table is kept as the image of its file. Reading a key finds, in the
//! index, the last block whose first key is not above the key, takes the
//! block from the cache or decompresses it from the image, and scans it.

use vstd::prelude::*;
use vstd::slice::{slice_subrange, slice_to_vec};
use crate::storage::block_key::{block_key, lemma_block_key_injective, make_block_key};
use crate::storage::bytes::{
    compare_keys,
    lemma_lex_asymmetric,
    lemma_lex_le_transitive,
    lex_le,
    KeyOrder,
};
use crate::storage::cache::{
    cached,
    distinct,
    holds,
    lemma_stored_keeps,
    lemma_touched_keeps,
    stored,
    touched,
    BlockCache,
    Cached,
};
use crate::storage::codec::{
    decode_entries,
    entries_bytes,
    entries_fit,
    entries_view,
    entry_fits,
    entry_view,
    lemma_entries_bytes_push,
    lemma_parse_entry,
    parse_entries,
    put_entry,
    Entry,
    MAX_FIELD,
};
use crate::storage::compression::{
    compress,
    compressible,
    decompress,
    packed,
    unpacked,
    CompressionType,
};
use crate::storage::kv::value_view;
use crate::storage::error::{kind_of_error, ErrorKind, StorageError};
use crate::storage::memtable::{copy_value, found_view};
use crate::storage::search::{
    is_upper_bound,
    keys_of,
    run_keys,
    sorted,
    strictly_sorted,
    upper_bound,
};
use crate::storage::table_image::{
    block_images,
    block_sound,
    blocks_image,
    blocks_sound,
    found_in,
    index_of,
    index_sound,
    joined,
    lemma_image_parses,
    lemma_image_reads,
    lemma_joined_push,
    table_image,
    table_layout,
};
use crate::storage::table_format::{
    decode_footer,
    decode_handle,
    encode_footer,
    encode_handle,
    handle_bytes,
    index_entries,
    index_view,
    parse_footer,
    parse_index,
    BlockHandle,
    IndexLine,
    SSTableFooter,
    FOOTER_SIZE,
};

verus! {

/// What the footer and the index of a table file say.
pub struct TableLayout {
    pub footer: SSTableFooter,
    pub index: Seq<IndexLine>,
}

/// The first keys of the blocks of an index.
pub open spec fn index_keys(index: Seq<IndexLine>) -> Seq<Seq<u8>> {
    index.map_values(|line: IndexLine| line.0)
}

/// Whether the blocks of an index lie one behind the other from the start
/// of the file up to `end`, none of them empty.
pub open spec fn blocks_adjoin(index: Seq<IndexLine>, end: int) -> bool {
    &&& forall|i: int| 0 <= i < index.len() ==> (#[trigger] index[i]).1.size >= 1
    &&& forall|i: int, j: int|
        0 <= i && j == i + 1 && j < index.len() ==> (#[trigger] index[j]).1.offset == (
        #[trigger] index[i]).1.offset + index[i].1.size
    &&& if index.len() == 0 {
        end == 0
    } else {
        index[0].1.offset == 0 && index.last().1.offset + index.last().1.size == end
    }
}

/// Whether an index is sound: its keys ascend and its blocks fill the file
/// up to the index.
pub open spec fn index_ok(index: Seq<IndexLine>, index_offset: u64) -> bool {
    &&& sorted(index_keys(index))
    &&& blocks_adjoin(index, index_offset as int)
}

/// The bytes of the block that a handle points at.
pub open spec fn block_bytes(data: Seq<u8>, handle: BlockHandle) -> Seq<u8> {
    data.subrange(handle.offset as int, handle.offset + handle.size)
}

/// What a file image holds as a table: its layout, or the kind of error
/// that opening it gives. The image must end in a footer with the right
/// checksum; the index must lie before the footer, decompress, and be sound.
#[verifier::opaque]
pub open spec fn parse_table(data: Seq<u8>) -> Result<TableLayout, ErrorKind> {
    if data.len() < FOOTER_SIZE {
        Err(ErrorKind::Corruption)
    } else {
        match parse_footer(data.skip(data.len() - FOOTER_SIZE)) {
            None => Err(ErrorKind::Corruption),
            Some(footer) => if footer.index_offset + footer.index_size > data.len()
                - FOOTER_SIZE {
                Err(ErrorKind::Corruption)
            } else {
                match unpacked(
                    footer.compression,
                    data.subrange(
                        footer.index_offset as int,
                        footer.index_offset + footer.index_size,
                    ),
                ) {
                    None => Err(ErrorKind::Compression),
                    Some(plain) => match parse_entries(plain) {
                        None => Err(ErrorKind::Corruption),
                        Some(entries) => match parse_index(entries) {
                            None => Err(ErrorKind::Corruption),
                            Some(index) => if index_ok(index, footer.index_offset) {
                                Ok(TableLayout { footer, index })
                            } else {
                                Err(ErrorKind::Corruption)
                            },
                        },
                    },
                }
            },
        }
    }
}

/// The place that parts the keys up to `key` from those above it.
pub open spec fn upper_place(keys: Seq<Seq<u8>>, key: Seq<u8>) -> int {
    choose|at: int| is_upper_bound(keys, key, at)
}

/// The block in which `key` stands if the table has it: the last one whose
/// first key is not above `key`.
pub open spec fn seek(index: Seq<IndexLine>, key: Seq<u8>) -> Option<int> {
    let at = upper_place(index_keys(index), key);
    if at <= 0 {
        None
    } else {
        Some(at - 1)
    }
}

/// In sorted keys there is one upper bound.
pub proof fn lemma_upper_place(keys: Seq<Seq<u8>>, key: Seq<u8>, at: int)
    requires
        is_upper_bound(keys, key, at),
    ensures
        upper_place(keys, key) == at,
{
    let other = upper_place(keys, key);
    if other < at {
        assert(lex_le(keys[other], key));
        assert(crate::storage::bytes::lex_lt(key, keys[other]));
        if keys[other] != key {
            lemma_lex_asymmetric(key, keys[other]);
        } else {
            crate::storage::bytes::lemma_lex_irreflexive(key);
        }
    } else if at < other {
        assert(lex_le(keys[at], key));
        assert(crate::storage::bytes::lex_lt(key, keys[at]));
        if keys[at] != key {
            lemma_lex_asymmetric(key, keys[at]);
        } else {
            crate::storage::bytes::lemma_lex_irreflexive(key);
        }
    }
}

/// The number of keys among the first `n` that are not above `key`.
spec fn count_up_to(keys: Seq<Seq<u8>>, key: Seq<u8>, n: int) -> int
    decreases n,
{
    if n <= 0 {
        0
    } else if lex_le(keys[n - 1], key) {
        n
    } else {
        count_up_to(keys, key, n - 1)
    }
}
/// `count_up_to` parts the keys up to `key` from those above it.

proof fn lemma_count_up_to(keys: Seq<Seq<u8>>, key: Seq<u8>, n: int)
    requires
        sorted(keys),
        0 <= n <= keys.len(),
    ensures
        0 <= count_up_to(keys, key, n) <= n,
        forall|j: int| 0 <= j < count_up_to(keys, key, n) ==> lex_le(#[trigger] keys[j], key),
        forall|j: int|
            count_up_to(keys, key, n) <= j < n ==> crate::storage::bytes::lex_lt(
                key,
                #[trigger] keys[j],
            ),
    decreases n,
{
    if n > 0 {
        if lex_le(keys[n - 1], key) {
            assert forall|j: int| 0 <= j < n implies lex_le(#[trigger] keys[j], key) by {
                if j < n - 1 {
                    lemma_lex_le_transitive(keys[j], keys[n - 1], key);
                }
            }
        } else {
            lemma_count_up_to(keys, key, n - 1);
            crate::storage::bytes::lemma_lex_total(keys[n - 1], key);
        }
    }
}

/// Among keys that ascend there is a place that parts those up to `key`
/// from those above it.
pub proof fn lemma_upper_place_exists(keys: Seq<Seq<u8>>, key: Seq<u8>)
    requires
        sorted(keys),
    ensures
        is_upper_bound(keys, key, upper_place(keys, key)),
{
    lemma_count_up_to(keys, key, keys.len() as int);
    assert(is_upper_bound(keys, key, count_up_to(keys, key, keys.len() as int)));
}

/// What the first entry with this key holds, if there is one.
pub open spec fn find_first(entries: Seq<Entry>, key: Seq<u8>) -> Option<Option<Seq<u8>>>
    decreases entries.len(),
{
    if entries.len() == 0 {
        None
    } else if entries[0].0 == key {
        Some(entries[0].1)
    } else {
        find_first(entries.skip(1), key)
    }
}

/// What a decompressed block holds for `key`.
pub open spec fn search_block(plain: Seq<u8>, key: Seq<u8>) -> Result<
    Option<Option<Seq<u8>>>,
    ErrorKind,
> {
    match parse_entries(plain) {
        None => Err(ErrorKind::Corruption),
        Some(entries) => Ok(find_first(entries, key)),
    }
}

/// What a read of `key` gives, for a table with this layout, image and
/// path, through a cache with these entries.
pub open spec fn table_read(
    layout: TableLayout,
    data: Seq<u8>,
    path: Seq<char>,
    cache: Seq<Cached>,
    key: Seq<u8>,
) -> Result<Option<Option<Seq<u8>>>, ErrorKind> {
    match seek(layout.index, key) {
        None => Ok(None),
        Some(i) => {
            let handle = layout.index[i].1;
            match cached(cache, block_key(path, handle.offset)) {
                Some(plain) => search_block(plain, key),
                None => match unpacked(layout.footer.compression, block_bytes(data, handle)) {
                    None => Err(ErrorKind::Compression),
                    Some(plain) => search_block(plain, key),
                },
            }
        },
    }
}

/// The entries of the cache after such a read: a block that was cached
/// becomes the most recently used; one that was decompressed is put.
pub open spec fn cache_after_read(
    layout: TableLayout,
    data: Seq<u8>,
    path: Seq<char>,
    cache: Seq<Cached>,
    limit: nat,
    key: Seq<u8>,
) -> Seq<Cached> {
    match seek(layout.index, key) {
        None => cache,
        Some(i) => {
            let handle = layout.index[i].1;
            let name = block_key(path, handle.offset);
            match cached(cache, name) {
                Some(_) => touched(cache, name),
                None => match unpacked(layout.footer.compression, block_bytes(data, handle)) {
                    None => cache,
                    Some(plain) => stored(cache, name, plain, limit),
                },
            }
        },
    }
}

/// Whether every block of the table that the cache holds is the block as
/// the image has it.
pub open spec fn coherent(
    cache: Seq<Cached>,
    layout: TableLayout,
    data: Seq<u8>,
    path: Seq<char>,
) -> bool {
    forall|i: int|
        0 <= i < layout.index.len() ==> (cached(
            cache,
            block_key(path, (#[trigger] layout.index[i]).1.offset),
        ) matches Some(plain) ==> unpacked(
            layout.footer.compression,
            block_bytes(data, layout.index[i].1),
        ) == Some(plain))
}

/// Through a cache that agrees with the table, a read gives what the image
/// alone gives.
pub proof fn lemma_coherent_read(
    cache: Seq<Cached>,
    layout: TableLayout,
    data: Seq<u8>,
    path: Seq<char>,
    key: Seq<u8>,
)
    requires
        sorted(index_keys(layout.index)),
        coherent(cache, layout, data, path),
    ensures
        table_read(layout, data, path, cache, key) == table_read(
            layout,
            data,
            path,
            Seq::empty(),
            key,
        ),
{
    lemma_upper_place_exists(index_keys(layout.index), key);
    assert forall|name: Seq<char>| cached(Seq::<Cached>::empty(), name).is_none() by {}
    match seek(layout.index, key) {
        None => {},
        Some(i) => {
            assert(0 <= i < layout.index.len());
            let handle = layout.index[i].1;
        },
    }
}

/// A read through the cache leaves the cache in agreement with the table
/// read and with every table under another path.
pub proof fn lemma_read_keeps_coherent(
    cache: Seq<Cached>,
    limit: nat,
    layout: TableLayout,
    data: Seq<u8>,
    path: Seq<char>,
    key: Seq<u8>,
    other_layout: TableLayout,
    other_data: Seq<u8>,
    other_path: Seq<char>,
)
    requires
        distinct(cache),
        index_ok(layout.index, layout.footer.index_offset),
        coherent(cache, other_layout, other_data, other_path),
        other_path != path || (other_layout == layout && other_data == data),
    ensures
        coherent(
            cache_after_read(layout, data, path, cache, limit, key),
            other_layout,
            other_data,
            other_path,
        ),
{
    let after = cache_after_read(layout, data, path, cache, limit, key);
    lemma_upper_place_exists(index_keys(layout.index), key);
    match seek(layout.index, key) {
        None => {},
        Some(i) => {
            let handle = layout.index[i].1;
            let name = block_key(path, handle.offset);
            assert forall|j: int| 0 <= j < other_layout.index.len() implies (cached(
                after,
                block_key(other_path, (#[trigger] other_layout.index[j]).1.offset),
            ) matches Some(plain) ==> unpacked(
                other_layout.footer.compression,
                block_bytes(other_data, other_layout.index[j].1),
            ) == Some(plain)) by {
                let other_name = block_key(other_path, other_layout.index[j].1.offset);
                match cached(cache, name) {
                    Some(_) => {
                        lemma_touched_keeps(cache, name, other_name);
                    },
                    None => match unpacked(layout.footer.compression, block_bytes(data, handle)) {
                        None => {},
                        Some(plain) => {
                            lemma_stored_keeps(cache, name, plain, limit, other_name);
                            if other_name == name {
                                lemma_block_key_injective(
                                    other_path,
                                    other_layout.index[j].1.offset,
                                    path,
                                    handle.offset,
                                );
                                if i < j {
                                    lemma_handle_in_file(
                                        layout.index,
                                        layout.footer.index_offset as int,
                                        i,
                                    );
                                } else if j < i {
                                    lemma_handle_in_file(
                                        layout.index,
                                        layout.footer.index_offset as int,
                                        j,
                                    );
                                }
                            }
                        },
                    },
                }
            }
        },
    }
}

/// The view of what a read returns, with the kind of its error.
pub open spec fn read_view(r: Result<Option<Option<Vec<u8>>>, StorageError>) -> Result<
    Option<Option<Seq<u8>>>,
    ErrorKind,
> {
    match r {
        Ok(found) => Ok(found_view(found)),
        Err(e) => Err(kind_of_error(e)),
    }
}

/// Immutable sorted table, kept as the image of its file.
pub struct SSTable {
    file_path: String,
    data: Vec<u8>,
    footer: SSTableFooter,
    index: Vec<(Vec<u8>, BlockHandle)>,
}

/// Reads the lines of an index from its entries.
fn build_index(entries: &Vec<(Vec<u8>, Option<Vec<u8>>)>) -> (r: Option<
    Vec<(Vec<u8>, BlockHandle)>,
>)
    ensures
        match r {
            Some(index) => parse_index(entries_view(entries@)) == Some(index_view(index@)),
            None => parse_index(entries_view(entries@)).is_none(),
        },
{
    let ghost all = entries_view(entries@);
    let mut index: Vec<(Vec<u8>, BlockHandle)> = Vec::new();
    let mut i: usize = 0;
    assert(all.take(0) =~= Seq::<Entry>::empty());
    assert(index_view(index@) =~= Seq::<IndexLine>::empty());
    while i < entries.len()
        invariant
            i <= entries@.len(),
            all == entries_view(entries@),
            parse_index(all.take(i as int)) == Some(index_view(index@)),
        decreases entries@.len() - i,
    {
        proof {
            assert(all.take(i + 1).drop_last() =~= all.take(i as int));
            assert(all.take(i + 1).last() == entry_view(entries@[i as int]));
        }
        match decode_handle(&entries[i].1) {
            None => {
                proof {
                    lemma_parse_index_prefix(all, i + 1);
                }
                return None;
            },
            Some(handle) => {
                let key = slice_to_vec(entries[i].0.as_slice());
                proof {
                    assert(index_view(index@.push((key, handle))) =~= index_view(index@).push(
                        (key@, handle),
                    ));
                }
                index.push((key, handle));
            },
        }
        i += 1;
    }
    assert(all.take(i as int) =~= all);
    Some(index)
}

/// An index whose start is no index is no index.
proof fn lemma_parse_index_prefix(entries: Seq<Entry>, n: int)
    requires
        0 <= n <= entries.len(),
        parse_index(entries.take(n)).is_none(),
    ensures
        parse_index(entries).is_none(),
    decreases entries.len(),
{
    if n < entries.len() {
        assert(entries.drop_last().take(n) =~= entries.take(n));
        lemma_parse_index_prefix(entries.drop_last(), n);
    } else {
        assert(entries.take(n) =~= entries);
    }
}

/// Whether an index is sound.
fn check_index(index: &Vec<(Vec<u8>, BlockHandle)>, index_offset: u64) -> (ok: bool)
    ensures
        ok == index_ok(index_view(index@), index_offset),
{
    let ghost lines = index_view(index@);
    let ghost keys = index_keys(lines);
    let n: usize = index.len();
    if n == 0 {
        return index_offset == 0;
    }
    if index[0].1.offset != 0 {
        return false;
    }
    let mut i: usize = 0;
    while i < n
        invariant
            i <= n,
            n == index@.len(),
            n > 0,
            lines == index_view(index@),
            keys == index_keys(lines),
            forall|a: int, b: int| 0 <= a < b < i ==> lex_le(#[trigger] keys[a], #[trigger] keys[b]),
            forall|j: int| 0 <= j < i ==> (#[trigger] lines[j]).1.size >= 1,
            forall|j: int, k: int|
                0 <= j < i && k == j + 1 && k < n ==> (#[trigger] lines[k]).1.offset == (
                #[trigger] lines[j]).1.offset + lines[j].1.size,
            i == n ==> lines.last().1.offset + lines.last().1.size == index_offset,
        decreases n - i,
    {
        let handle = index[i].1;
        assert(lines[i as int] == (index@[i as int].0@, index@[i as int].1));
        if handle.size < 1 {
            return false;
        }
        if i + 1 < n {
            let next = index[i + 1].1;
            assert(lines[i + 1] == (index@[i + 1].0@, index@[i + 1].1));
            if next.offset < handle.offset || next.offset - handle.offset != handle.size as u64 {
                return false;
            }
        } else {
            if index_offset < handle.offset || index_offset - handle.offset != handle.size as u64 {
                return false;
            }
        }
        if i > 0 {
            let order = compare_keys(index[i - 1].0.as_slice(), index[i].0.as_slice());
            assert(keys[i - 1] == index@[i - 1].0@);
            assert(keys[i as int] == index@[i as int].0@);
            match order {
                KeyOrder::Greater => {
                    proof {
                        crate::storage::bytes::lemma_lex_total(keys[i - 1], keys[i as int]);
                        if lex_le(keys[i - 1], keys[i as int]) {
                            if keys[i - 1] != keys[i as int] {
                                lemma_lex_asymmetric(keys[i - 1], keys[i as int]);
                            }
                        }
                    }
                    return false;
                },
                _ => {
                    assert forall|a: int, b: int| 0 <= a < b < i + 1 implies lex_le(
                        #[trigger] keys[a],
                        #[trigger] keys[b],
                    ) by {
                        if b == i && a < i - 1 {
                            lemma_lex_le_transitive(keys[a], keys[i - 1], keys[i as int]);
                        }
                    }
                },
            }
        }
        i += 1;
    }
    true
}

/// What the first entry with this key holds, if there is one.
fn scan_block(entries: &Vec<(Vec<u8>, Option<Vec<u8>>)>, key: &[u8]) -> (found: Option<
    Option<Vec<u8>>,
>)
    ensures
        found_view(found) == find_first(entries_view(entries@), key@),
{
    let ghost all = entries_view(entries@);
    let mut i: usize = 0;
    assert(all.skip(0) =~= all);
    while i < entries.len()
        invariant
            i <= entries@.len(),
            all == entries_view(entries@),
            find_first(all, key@) == find_first(all.skip(i as int), key@),
        decreases entries@.len() - i,
    {
        assert(all.skip(i as int)[0] == entry_view(entries@[i as int]));
        assert(all.skip(i as int).skip(1) =~= all.skip(i + 1));
        if compare_keys(entries[i].0.as_slice(), key) == KeyOrder::Equal {
            return Some(copy_value(&entries[i].1));
        }
        i += 1;
    }
    None
}

/// What a decompressed block holds for `key`.
fn read_block(plain: &[u8], key: &[u8]) -> (r: Result<Option<Option<Vec<u8>>>, StorageError>)
    ensures
        read_view(r) == search_block(plain@, key@),
{
    match decode_entries(plain) {
        None => Err(StorageError::Corruption("Invalid block".to_string())),
        Some(entries) => Ok(scan_block(&entries, key)),
    }
}

impl SSTable {
    /// The image of the table's file.
    pub closed spec fn image(&self) -> Seq<u8> {
        self.data@
    }

    /// The path of the table's file.
    pub closed spec fn path(&self) -> Seq<char> {
        self.file_path@
    }

    /// What the footer and the index say.
    pub closed spec fn layout(&self) -> TableLayout {
        TableLayout { footer: self.footer, index: index_view(self.index@) }
    }

    /// The layout that is kept is the one that the image holds.
    pub closed spec fn well_formed(&self) -> bool {
        parse_table(self.data@) == Ok::<TableLayout, ErrorKind>(self.layout())
    }

    /// What the table holds for `key`, read from its image alone.
    pub open spec fn lookup(&self, key: Seq<u8>) -> Result<Option<Option<Seq<u8>>>, ErrorKind> {
        table_read(self.layout(), self.image(), self.path(), Seq::empty(), key)
    }

    /// Whether every block of this table that the cache holds is the block
    /// as the image has it.
    pub open spec fn agrees_with(&self, cache: Seq<Cached>) -> bool {
        coherent(cache, self.layout(), self.image(), self.path())
    }

    /// What the invariant says to the outside.
    pub proof fn lemma_well_formed(&self)
        requires
            self.well_formed(),
        ensures
            parse_table(self.image()) == Ok::<TableLayout, ErrorKind>(self.layout()),
            index_ok(self.layout().index, self.layout().footer.index_offset),
            self.layout().footer.index_offset <= self.image().len(),
    {
        reveal(parse_table);
    }

    /// Opens the table whose file at `file_path` holds `data`.
    ///
    /// An image shorter than a footer, a footer with a wrong checksum or an
    /// unknown compression kind, an index outside the file, an index that
    /// is not a run of block handles with ascending keys and adjoining
    /// blocks: each is corruption. An index that does not decompress is a
    /// compression error.
    pub fn open(file_path: &str, data: Vec<u8>) -> (r: Result<SSTable, StorageError>)
        ensures
            match r {
                Ok(table) => {
                    &&& table.well_formed()
                    &&& table.image() == data@
                    &&& table.path() == file_path@
                    &&& parse_table(data@) == Ok::<TableLayout, ErrorKind>(table.layout())
                },
                Err(e) => parse_table(data@) == Err::<TableLayout, ErrorKind>(kind_of_error(e)),
            },
    {
        reveal(parse_table);
        let len: usize = data.len();
        if len < FOOTER_SIZE {
            return Err(StorageError::Corruption("SSTable too small".to_string()));
        }
        let body_len: usize = len - FOOTER_SIZE;
        let tail = slice_subrange(data.as_slice(), body_len, len);
        assert(tail@ =~= data@.skip(data@.len() - FOOTER_SIZE));
        let footer = match decode_footer(tail) {
            Some(footer) => footer,
            None => {
                return Err(StorageError::Corruption("Invalid footer".to_string()));
            },
        };
        if footer.index_offset > body_len as u64 || footer.index_size > body_len as u64
            - footer.index_offset {
            return Err(StorageError::Corruption("Invalid footer: index out of range".to_string()));
        }
        let start: usize = footer.index_offset as usize;
        let end: usize = start + footer.index_size as usize;
        let packed_index = slice_subrange(data.as_slice(), start, end);
        let plain = match decompress(packed_index, &footer.compression) {
            Ok(plain) => plain,
            Err(e) => {
                return Err(e);
            },
        };
        let entries = match decode_entries(plain.as_slice()) {
            Some(entries) => entries,
            None => {
                return Err(StorageError::Corruption("Invalid index".to_string()));
            },
        };
        let index = match build_index(&entries) {
            Some(index) => index,
            None => {
                return Err(StorageError::Corruption("Invalid index: not a block handle".to_string()));
            },
        };
        if !check_index(&index, footer.index_offset) {
            return Err(StorageError::Corruption("Invalid index: blocks out of order".to_string()));
        }
        Ok(SSTable { file_path: file_path.to_owned(), data, footer, index })
    }

    /// Reads `key`: `None` where the table does not have it, `Some(None)`
    /// for a tombstone, `Some(Some(v))` for a live value.
    ///
    /// The block is taken from the cache where it is there, and the cache
    /// then counts it as used; else it is decompressed from the image and
    /// put into the cache. A block that does not decompress is a
    /// compression error, one that is no run of entries is corruption.
    pub fn get(&self, key: &[u8], cache: &mut BlockCache) -> (r: Result<
        Option<Option<Vec<u8>>>,
        StorageError,
    >)
        requires
            self.well_formed(),
            old(cache).well_formed(),
        ensures
            final(cache).well_formed(),
            final(cache).limit() == old(cache).limit(),
            read_view(r) == table_read(
                self.layout(),
                self.image(),
                self.path(),
                old(cache)@,
                key@,
            ),
            final(cache)@ == cache_after_read(
                self.layout(),
                self.image(),
                self.path(),
                old(cache)@,
                old(cache).limit(),
                key@,
            ),
    {
        let handle = match self.locate(key) {
            Some(handle) => handle,
            None => {
                return Ok(None);
            },
        };
        let name = make_block_key(self.file_path.as_str(), handle.offset);
        match cache.get(name.as_str()) {
            Some(plain) => read_block(plain.as_slice(), key),
            None => {
                let len: usize = self.data.len();
                assert(handle.offset + handle.size <= len);
                let start: usize = handle.offset as usize;
                let end: usize = start + handle.size as usize;
                let packed_block = slice_subrange(self.data.as_slice(), start, end);
                assert(packed_block@ == block_bytes(self.image(), handle));
                match decompress(packed_block, &self.footer.compression) {
                    Err(e) => Err(e),
                    Ok(plain) => {
                        let found = read_block(plain.as_slice(), key);
                        cache.put(name, plain);
                        found
                    },
                }
            },
        }
    }

    /// The handle of the block in which `key` stands if the table has it.
    fn locate(&self, key: &[u8]) -> (r: Option<BlockHandle>)
        requires
            self.well_formed(),
        ensures
            match r {
                Some(handle) => {
                    &&& seek(self.layout().index, key@) matches Some(i)
                    &&& 0 <= i < self.layout().index.len()
                    &&& self.layout().index[i].1 == handle
                    &&& handle.offset + handle.size <= self.image().len()
                },
                None => seek(self.layout().index, key@).is_none(),
            },
    {
        proof {
            self.lemma_well_formed();
            assert(keys_of(self.index@) =~= index_keys(self.layout().index));
        }
        let at: usize = upper_bound(self.index.as_slice(), key);
        proof {
            lemma_upper_place(index_keys(self.layout().index), key@, at as int);
        }
        if at == 0 {
            return None;
        }
        let handle = self.index[at - 1].1;
        proof {
            let lines = self.layout().index;
            assert(lines[at - 1] == (self.index@[at - 1].0@, self.index@[at - 1].1));
            lemma_handle_in_file(lines, self.footer.index_offset as int, at - 1);
        }
        Some(handle)
    }

    /// The first keys of the first and of the last block, or nothing for a
    /// table without blocks.
    pub fn key_range(&self) -> (range: Option<(&[u8], &[u8])>)
        ensures
            match range {
                Some((first, last)) => {
                    &&& self.layout().index.len() > 0
                    &&& first@ == self.layout().index[0].0
                    &&& last@ == self.layout().index.last().0
                },
                None => self.layout().index.len() == 0,
            },
    {
        let n: usize = self.index.len();
        if n == 0 {
            return None;
        }
        assert(self.layout().index[0] == (self.index@[0].0@, self.index@[0].1));
        assert(self.layout().index.last() == (self.index@[n - 1].0@, self.index@[n - 1].1));
        Some((self.index[0].0.as_slice(), self.index[n - 1].0.as_slice()))
    }

    /// The length of the table's file in bytes.
    pub fn file_size(&self) -> (n: u64)
        ensures
            n == self.image().len(),
    {
        self.data.len() as u64
    }

    /// The image of the table's file, for the host to persist.
    pub fn as_bytes(&self) -> (bytes: &Vec<u8>)
        ensures
            bytes@ == self.image(),
    {
        &self.data
    }

    /// The path of the table's file.
    pub fn file_path(&self) -> (path: &str)
        ensures
            path@ == self.path(),
    {
        self.file_path.as_str()
    }

    /// The number of entries that the footer records.
    pub fn num_entries(&self) -> (n: u64)
        ensures
            n == self.layout().footer.num_entries,
    {
        self.footer.num_entries
    }
}

/// Every block of a sound index lies before the index, at its own place.
pub proof fn lemma_handle_in_file(index: Seq<IndexLine>, end: int, i: int)
    requires
        blocks_adjoin(index, end),
        0 <= i < index.len(),
    ensures
        index[i].1.offset + index[i].1.size <= end,
        forall|j: int| i < j < index.len() ==> index[i].1.offset < (#[trigger] index[j]).1.offset,
    decreases index.len() - i,
{
    let here = index[i].1;
    assert(here.size >= 1);
    if i < index.len() - 1 {
        let next = index[i + 1].1;
        lemma_handle_in_file(index, end, i + 1);
        assert(next.offset == here.offset + here.size);
        assert forall|j: int| i < j < index.len() implies here.offset < (
        #[trigger] index[j]).1.offset by {
            if j > i + 1 {
                assert(next.offset < index[j].1.offset);
            }
        }
    } else {
        assert(index.last() == index[i]);
    }
}

/// The size that a data block is closed at.
pub const BLOCK_SIZE: usize = 4096;

/// The pending block after one more entry: an entry with the key of the
/// last one takes its place, any other goes behind it.
pub open spec fn upserted(pending: Seq<Entry>, entry: Entry) -> Seq<Entry> {
    if pending.len() > 0 && pending.last().0 == entry.0 {
        pending.drop_last().push(entry)
    } else {
        pending.push(entry)
    }
}

/// Whether a pending block can be closed behind these blocks: its layout
/// can be compressed, and the image is not empty, fits a handle, and ends
/// within the reach of a 64-bit offset.
pub open spec fn closable(
    kind: CompressionType,
    blocks: Seq<Seq<Entry>>,
    pending: Seq<Entry>,
) -> bool {
    &&& compressible(kind, entries_bytes(pending).len())
    &&& 1 <= packed(kind, entries_bytes(pending)).len() <= u32::MAX
    &&& blocks_image(kind, blocks).len() + packed(kind, entries_bytes(pending)).len() <= u64::MAX
}

/// Why a pending block cannot be closed behind these blocks, if it cannot:
/// its layout is too long to be compressed, which is a compression error;
/// or the image is empty, does not fit a handle, or ends beyond the reach
/// of a 64-bit offset, which are internal errors.
pub open spec fn close_fault(
    kind: CompressionType,
    blocks: Seq<Seq<Entry>>,
    pending: Seq<Entry>,
) -> Option<
    ErrorKind,
> {
    if !compressible(kind, entries_bytes(pending).len()) {
        Some(ErrorKind::Compression)
    } else if !closable(kind, blocks, pending) {
        Some(ErrorKind::Internal)
    } else {
        None
    }
}

/// Whether an entry is refused: its key or value does not fit a field,
/// `u64::MAX` entries were added, or the open block would outgrow a 64-bit
/// size.
pub open spec fn refuses(pending: Seq<Entry>, count: u64, entry: Entry) -> bool {
    ||| !entry_fits(entry)
    ||| count == u64::MAX
    ||| entries_bytes(upserted(pending, entry)).len() > u64::MAX
}

/// The blocks of the finished table: the closed ones and, where it has
/// entries, the pending one.
pub open spec fn finished_blocks(blocks: Seq<Seq<Entry>>, pending: Seq<Entry>) -> Seq<Seq<Entry>> {
    if pending.len() > 0 {
        blocks.push(pending)
    } else {
        blocks
    }
}

/// Where the building of a table stands: the blocks that are closed, the
/// entries of the open block, and the number of entries that were added.
pub struct BuildState {
    pub blocks: Seq<Seq<Entry>>,
    pub pending: Seq<Entry>,
    pub count: u64,
}

/// The state in which an entry that was taken, but whose block could not
/// be closed, leaves the building.
pub open spec fn stuck(state: BuildState, entry: Entry) -> BuildState {
    BuildState {
        blocks: state.blocks,
        pending: upserted(state.pending, entry),
        count: (state.count + 1) as u64,
    }
}

/// What adding an entry makes of a state, or why it fails: an entry that
/// is refused is an internal error; an entry that is taken goes into the
/// open block, and a block that has reached `BLOCK_SIZE` is closed, unless
/// it cannot be.
pub open spec fn add_outcome(kind: CompressionType, state: BuildState, entry: Entry) -> Result<
    BuildState,
    ErrorKind,
> {
    if refuses(state.pending, state.count, entry) {
        Err(ErrorKind::Internal)
    } else {
        let grown = upserted(state.pending, entry);
        if entries_bytes(grown).len() >= BLOCK_SIZE {
            match close_fault(kind, state.blocks, grown) {
                Some(fault) => Err(fault),
                None => Ok(
                    BuildState {
                        blocks: state.blocks.push(grown),
                        pending: Seq::empty(),
                        count: (state.count + 1) as u64,
                    },
                ),
            }
        } else {
            Ok(stuck(state, entry))
        }
    }
}

/// Why a state cannot be finished, if it cannot: the open block cannot be
/// closed, or the index is too long to be compressed.
pub open spec fn finish_fault(kind: CompressionType, state: BuildState) -> Option<ErrorKind> {
    let fault = if state.pending.len() > 0 {
        close_fault(kind, state.blocks, state.pending)
    } else {
        None
    };
    if fault is Some {
        fault
    } else if !compressible(
        kind,
        entries_bytes(
            index_entries(index_of(kind, finished_blocks(state.blocks, state.pending))),
        ).len(),
    ) {
        Some(ErrorKind::Compression)
    } else {
        None
    }
}

/// The state that adding a run of entries, one after the other, leads to,
/// or why the first entry that fails does.
pub open spec fn build(kind: CompressionType, entries: Seq<Entry>) -> Result<BuildState, ErrorKind>
    decreases entries.len(),
{
    if entries.len() == 0 {
        Ok(BuildState { blocks: Seq::empty(), pending: Seq::empty(), count: 0 })
    } else {
        match build(kind, entries.drop_last()) {
            Err(fault) => Err(fault),
            Ok(state) => add_outcome(kind, state, entries.last()),
        }
    }
}

/// Why no table can be built of a run of entries, if none can.
pub open spec fn table_fault(kind: CompressionType, entries: Seq<Entry>) -> Option<ErrorKind> {
    match build(kind, entries) {
        Err(fault) => Some(fault),
        Ok(state) => finish_fault(kind, state),
    }
}

/// The file of the table that is built of a run of entries.
pub open spec fn table_file(kind: CompressionType, entries: Seq<Entry>) -> Seq<u8> {
    match build(kind, entries) {
        Err(_) => Seq::empty(),
        Ok(state) => table_image(kind, finished_blocks(state.blocks, state.pending), state.count),
    }
}

/// Where the building of a run fails, the building of every run that
/// begins with it fails in the same way.
pub proof fn lemma_build_fails_on(kind: CompressionType, entries: Seq<Entry>, n: int)
    requires
        0 <= n <= entries.len(),
        build(kind, entries.take(n)) is Err,
    ensures
        build(kind, entries) == build(kind, entries.take(n)),
    decreases entries.len(),
{
    if n < entries.len() {
        assert(entries.drop_last().take(n) =~= entries.take(n));
        lemma_build_fails_on(kind, entries.drop_last(), n);
    } else {
        assert(entries.take(n) =~= entries);
    }
}

/// Whether an error is the fault that was foreseen, or else a failure of
/// the Zstandard compressor, which nothing foresees.
pub open spec fn fails_as(
    kind: CompressionType,
    fault: Option<ErrorKind>,
    e: StorageError,
) -> bool {
    ||| fault == Some(kind_of_error(e))
    ||| kind == CompressionType::Zstd && kind_of_error(e) == ErrorKind::Compression
}

/// Whether an outcome and a result agree: a success was foreseen as a
/// success; a failure is the failure that was foreseen, or else a failure
/// of the Zstandard compressor.
pub open spec fn agrees<T, U>(
    kind: CompressionType,
    foreseen: Result<T, ErrorKind>,
    r: Result<U, StorageError>,
) -> bool {
    match (foreseen, r) {
        (Ok(_), Ok(_)) => true,
        (Err(fault), Err(e)) => fails_as(kind, Some(fault), e),
        (Ok(_), Err(e)) => fails_as(kind, None, e),
        (Err(_), Ok(_)) => false,
    }
}

/// Lays out a run of entries.
fn encode_block(entries: &Vec<(Vec<u8>, Option<Vec<u8>>)>) -> (out: Vec<u8>)
    requires
        entries_fit(entries_view(entries@)),
    ensures
        out@ == entries_bytes(entries_view(entries@)),
{
    let ghost all = entries_view(entries@);
    let mut out: Vec<u8> = Vec::new();
    let mut i: usize = 0;
    assert(all.take(0) =~= Seq::<Entry>::empty());
    while i < entries.len()
        invariant
            i <= entries@.len(),
            all == entries_view(entries@),
            entries_fit(all),
            out@ == entries_bytes(all.take(i as int)),
        decreases entries@.len() - i,
    {
        proof {
            assert(all[i as int] == entry_view(entries@[i as int]));
            assert(entry_fits(all[i as int]));
            lemma_entries_bytes_push(all.take(i as int), all[i as int]);
            assert(all.take(i as int).push(all[i as int]) =~= all.take(i + 1));
        }
        put_entry(&mut out, entries[i].0.as_slice(), &entries[i].1);
        i += 1;
    }
    assert(all.take(i as int) =~= all);
    out
}

/// Lays out an index.
fn encode_index(index: &Vec<(Vec<u8>, BlockHandle)>) -> (out: Vec<u8>)
    requires
        forall|i: int| 0 <= i < index@.len() ==> (#[trigger] index@[i]).0@.len() <= MAX_FIELD,
    ensures
        out@ == entries_bytes(index_entries(index_view(index@))),
{
    let ghost all = index_entries(index_view(index@));
    let mut out: Vec<u8> = Vec::new();
    let mut i: usize = 0;
    assert(all.take(0) =~= Seq::<Entry>::empty());
    while i < index.len()
        invariant
            i <= index@.len(),
            all == index_entries(index_view(index@)),
            forall|j: int| 0 <= j < index@.len() ==> (#[trigger] index@[j]).0@.len() <= MAX_FIELD,
            out@ == entries_bytes(all.take(i as int)),
        decreases index@.len() - i,
    {
        let value = Some(encode_handle(&index[i].1));
        proof {
            assert(all[i as int] == (index@[i as int].0@, Some(handle_bytes(index@[i as int].1))));
            lemma_entries_bytes_push(all.take(i as int), all[i as int]);
            assert(all.take(i as int).push(all[i as int]) =~= all.take(i + 1));
        }
        put_entry(&mut out, index[i].0.as_slice(), &value);
        i += 1;
    }
    assert(all.take(i as int) =~= all);
    out
}

/// Builder of a new sorted table.
pub struct SSTableBuilder {
    file_path: String,
    compression: CompressionType,
    current_block: Vec<(Vec<u8>, Option<Vec<u8>>)>,
    current_size: u64,
    written: Vec<u8>,
    index_entries: Vec<(Vec<u8>, BlockHandle)>,
    current_offset: u64,
    num_entries: u64,
    blocks: Ghost<Seq<Seq<Entry>>>,
}

impl SSTableBuilder {
    /// The path of the file to be.
    pub closed spec fn path(&self) -> Seq<char> {
        self.file_path@
    }

    /// The compression kind of the table.
    pub closed spec fn kind(&self) -> CompressionType {
        self.compression
    }

    /// The blocks that are closed.
    pub closed spec fn closed_blocks(&self) -> Seq<Seq<Entry>> {
        self.blocks@
    }

    /// The entries of the block that is open.
    pub closed spec fn pending(&self) -> Seq<Entry> {
        entries_view(self.current_block@)
    }

    /// The number of calls of `add` that succeeded.
    pub closed spec fn count(&self) -> u64 {
        self.num_entries
    }

    /// Where the building stands.
    pub open spec fn state(&self) -> BuildState {
        BuildState {
            blocks: self.closed_blocks(),
            pending: self.pending(),
            count: self.count(),
        }
    }

    /// The entries that the table will hold, in order.
    pub open spec fn entries(&self) -> Seq<Entry> {
        joined(self.closed_blocks()) + self.pending()
    }

    /// The key that was added last, if any was.
    pub open spec fn last_key(&self) -> Option<Seq<u8>> {
        if self.entries().len() > 0 {
            Some(self.entries().last().0)
        } else {
            None
        }
    }

    /// What was written is the image of the closed blocks, the index lists
    /// them, every closed block can be read back, and the keys ascend.
    pub closed spec fn well_formed(&self) -> bool {
        &&& self.written@ == blocks_image(self.compression, self.blocks@)
        &&& index_view(self.index_entries@) == index_of(self.compression, self.blocks@)
        &&& self.current_offset == self.written@.len()
        &&& blocks_sound(self.compression, self.blocks@)
        &&& entries_fit(self.pending())
        &&& self.current_size == entries_bytes(self.pending()).len()
        &&& sorted(run_keys(self.entries()))
    }

    /// A builder of the table at `file_path`, without entries yet.
    pub fn new(file_path: &str, compression: CompressionType) -> (r: Result<Self, StorageError>)
        ensures
            r matches Ok(builder) && {
                &&& builder.well_formed()
                &&& builder.path() == file_path@
                &&& builder.kind() == compression
                &&& builder.closed_blocks() == Seq::<Seq<Entry>>::empty()
                &&& builder.pending() == Seq::<Entry>::empty()
                &&& builder.count() == 0
            },
    {
        let builder = SSTableBuilder {
            file_path: file_path.to_owned(),
            compression,
            current_block: Vec::new(),
            current_size: 0,
            written: Vec::new(),
            index_entries: Vec::new(),
            current_offset: 0,
            num_entries: 0,
            blocks: Ghost(Seq::empty()),
        };
        proof {
            assert(builder.pending() =~= Seq::<Entry>::empty());
            assert(block_images(compression, Seq::<Seq<Entry>>::empty()) =~= Seq::<
                Seq<u8>,
            >::empty());
            assert(index_view(builder.index_entries@) =~= index_of(compression, builder.blocks@));
            assert(builder.entries() =~= Seq::<Entry>::empty());
        }
        Ok(builder)
    }

    /// Adds an entry behind those added so far. An entry with the key of the
    /// last one of the open block takes its place. Once the layout of the
    /// open block has reached `BLOCK_SIZE` bytes, the block is closed.
    ///
    /// An entry is refused where its key or value does not fit a field,
    /// where `u64::MAX` entries were added, or where the open block would
    /// outgrow a 64-bit size; the builder then stays as it was. Where the
    /// block cannot be closed the entry stays in the open block and the
    /// error is returned.
    pub fn add(&mut self, key: &[u8], value: &Option<Vec<u8>>, _sequence: u64) -> (r: Result<
        (),
        StorageError,
    >)
        requires
            old(self).well_formed(),
            old(self).last_key() matches Some(last) ==> lex_le(last, key@),
        ensures
            final(self).well_formed(),
            final(self).path() == old(self).path(),
            final(self).kind() == old(self).kind(),
            ({
                let entry = (key@, value_view(*value));
                let foreseen = add_outcome(old(self).kind(), old(self).state(), entry);
                &&& agrees(old(self).kind(), foreseen, r)
                &&& r is Ok ==> foreseen == Ok::<BuildState, ErrorKind>(final(self).state())
                &&& r is Ok ==> final(self).entries() == joined(old(self).closed_blocks())
                    + upserted(old(self).pending(), entry)
                &&& r is Err ==> final(self).state() == if refuses(
                    old(self).pending(),
                    old(self).count(),
                    entry,
                ) {
                    old(self).state()
                } else {
                    stuck(old(self).state(), entry)
                }
            }),
    {
        if !self.grow_pending(key, value) {
            return Err(StorageError::Internal("SSTable entry too large".to_string()));
        }
        proof {
            lemma_joined_push(self.closed_blocks(), self.pending(), 0);
            assert(joined(self.closed_blocks()) + self.pending() + Seq::<Entry>::empty() =~= joined(
                self.closed_blocks(),
            ) + self.pending());
        }
        if self.current_size >= BLOCK_SIZE as u64 {
            self.flush_current_block()
        } else {
            Ok(())
        }
    }

    /// Puts an entry into the open block and counts it, unless it is
    /// refused.
    fn grow_pending(&mut self, key: &[u8], value: &Option<Vec<u8>>) -> (taken: bool)
        requires
            old(self).well_formed(),
            old(self).last_key() matches Some(last) ==> lex_le(last, key@),
        ensures
            final(self).well_formed(),
            final(self).path() == old(self).path(),
            final(self).kind() == old(self).kind(),
            final(self).closed_blocks() == old(self).closed_blocks(),
            taken == !refuses(old(self).pending(), old(self).count(), (key@, value_view(*value))),
            taken ==> final(self).pending() == upserted(
                old(self).pending(),
                (key@, value_view(*value)),
            ) && final(self).count() == old(self).count() + 1,
            !taken ==> final(self).pending() == old(self).pending() && final(self).count() == old(
                self,
            ).count(),
            final(self).current_size == entries_bytes(final(self).pending()).len(),
    {
        let ghost entry = (key@, value_view(*value));
        let ghost before = self.pending();
        let fits = key.len() <= MAX_FIELD && match value {
            Some(v) => v.len() <= MAX_FIELD,
            None => true,
        };
        if !fits || self.num_entries == u64::MAX {
            return false;
        }
        proof {
            lemma_parse_entry(entry, Seq::empty());
        }
        let added: u64 = match value {
            Some(v) => key.len() as u64 + v.len() as u64 + 9,
            None => key.len() as u64 + 5,
        };
        let n: usize = self.current_block.len();
        let replaces = n > 0 && compare_keys(self.current_block[n - 1].0.as_slice(), key)
            == KeyOrder::Equal;
        proof {
            if n > 0 {
                assert(before.last() == entry_view(self.current_block@[n - 1]));
            }
        }
        let rest: u64 = if replaces {
            proof {
                lemma_entries_bytes_push(before.drop_last(), before.last());
                lemma_entries_bytes_push(before.drop_last(), entry);
                assert(before.drop_last().push(before.last()) =~= before);
                assert(entry_fits(before.last()));
                lemma_parse_entry(before.last(), Seq::empty());
            }
            let old_len: u64 = match &self.current_block[n - 1].1 {
                Some(v) => self.current_block[n - 1].0.len() as u64 + v.len() as u64 + 9,
                None => self.current_block[n - 1].0.len() as u64 + 5,
            };
            self.current_size - old_len
        } else {
            proof {
                lemma_entries_bytes_push(before, entry);
            }
            self.current_size
        };
        if added > u64::MAX - rest {
            return false;
        }
        let copy = (slice_to_vec(key), copy_value(value));
        assert(entry_view(copy) == entry);
        self.current_size = rest + added;
        if replaces {
            self.current_block.set(n - 1, copy);
            proof {
                assert(self.pending() =~= before.drop_last().push(entry));
            }
        } else {
            self.current_block.push(copy);
            proof {
                assert(self.pending() =~= before.push(entry));
            }
        }
        self.num_entries = self.num_entries + 1;
        proof {
            let grown = upserted(before, entry);
            assert(entries_fit(grown)) by {
                assert forall|i: int| 0 <= i < grown.len() implies entry_fits(
                    #[trigger] grown[i],
                ) by {
                    if i < grown.len() - 1 {
                        assert(grown[i] == before[i]);
                    }
                }
            }
            lemma_sorted_upsert(joined(old(self).closed_blocks()), before, entry);
        }
        true
    }

    /// The size of the layout of the open block.
    pub fn estimate_block_size(&self) -> (size: u64)
        requires
            self.well_formed(),
        ensures
            size == entries_bytes(self.pending()).len(),
    {
        self.current_size
    }

    /// Closes the open block: compresses its layout, writes it, and adds its
    /// line to the index. Without entries in the open block nothing happens.
    fn flush_current_block(&mut self) -> (r: Result<(), StorageError>)
        requires
            old(self).well_formed(),
        ensures
            final(self).well_formed(),
            final(self).path() == old(self).path(),
            final(self).kind() == old(self).kind(),
            final(self).count() == old(self).count(),
            old(self).pending().len() == 0 ==> r is Ok && final(self).state() == old(self).state(),
            old(self).pending().len() > 0 ==> {
                let fault = close_fault(
                    old(self).kind(),
                    old(self).closed_blocks(),
                    old(self).pending(),
                );
                match r {
                    Ok(_) => {
                        &&& fault is None
                        &&& final(self).closed_blocks() == old(self).closed_blocks().push(
                            old(self).pending(),
                        )
                        &&& final(self).pending() == Seq::<Entry>::empty()
                    },
                    Err(e) => {
                        &&& final(self).state() == old(self).state()
                        &&& fails_as(old(self).kind(), fault, e)
                    },
                }
            },
    {
        if self.current_block.is_empty() {
            return Ok(());
        }
        let ghost pending = self.pending();
        let ghost blocks = self.blocks@;
        let ghost kind = self.compression;
        let plain = encode_block(&self.current_block);
        let image = match compress(plain.as_slice(), &self.compression) {
            Ok(image) => image,
            Err(e) => {
                return Err(e);
            },
        };
        let size: usize = image.len();
        if size < 1 || size > 0xFFFF_FFFF {
            return Err(StorageError::Internal("SSTable block does not fit its handle".to_string()));
        }
        if size as u64 > u64::MAX - self.current_offset {
            return Err(StorageError::Internal("SSTable file too large".to_string()));
        }
        let first_key = slice_to_vec(self.current_block[0].0.as_slice());
        let handle = BlockHandle { offset: self.current_offset, size: size as u32 };
        proof {
            let images = block_images(kind, blocks);
            lemma_joined_push(images, image@, 0);
            assert(block_images(kind, blocks.push(pending)) =~= images.push(image@));
            assert(block_sound(kind, pending));
            assert(pending[0] == entry_view(self.current_block@[0]));
            assert(index_view(self.index_entries@.push((first_key, handle))) =~= index_of(
                kind,
                blocks.push(pending),
            )) by {
                let grown = index_of(kind, blocks.push(pending));
                let lines = index_view(self.index_entries@.push((first_key, handle)));
                assert(index_view(self.index_entries@).len() == index_of(kind, blocks).len());
                assert(lines.len() == grown.len());
                assert forall|i: int| 0 <= i < grown.len() implies lines[i] == grown[i] by {
                    lemma_joined_push(images, image@, i);
                    if i < blocks.len() {
                        assert(lines[i] == index_of(kind, blocks)[i]);
                    }
                }
            }
            assert(blocks_sound(kind, blocks.push(pending))) by {
                assert forall|i: int| 0 <= i < blocks.push(pending).len() implies block_sound(
                    kind,
                    #[trigger] blocks.push(pending)[i],
                ) by {
                    if i < blocks.len() {
                        assert(block_sound(kind, blocks[i]));
                    }
                }
            }
            lemma_joined_push(blocks, pending, 0);
            assert(joined(blocks.push(pending)) + Seq::<Entry>::empty() =~= joined(blocks)
                + pending);
        }
        self.written.extend_from_slice(image.as_slice());
        self.index_entries.push((first_key, handle));
        self.current_offset = self.current_offset + size as u64;
        self.current_block.clear();
        self.current_size = 0;
        self.blocks = Ghost(blocks.push(pending));
        proof {
            assert(self.written@ =~= blocks_image(kind, blocks) + image@);
            assert(self.pending() =~= Seq::<Entry>::empty());
        }
        Ok(())
    }

    /// Closes the open block, writes the index and the footer, and opens
    /// the finished file as a table.
    ///
    /// The table's file is the image of the blocks, and reading a key from
    /// it gives what the entries hold for the key, where no key was added
    /// twice.
    pub fn finish(self) -> (r: Result<SSTable, StorageError>)
        requires
            self.well_formed(),
        ensures
            ({
                let kind = self.kind();
                let blocks = finished_blocks(self.closed_blocks(), self.pending());
                let fault = finish_fault(kind, self.state());
                match r {
                    Ok(table) => {
                        &&& fault is None
                        &&& table.well_formed()
                        &&& table.path() == self.path()
                        &&& table.image() == table_image(kind, blocks, self.count())
                        &&& table.layout() == table_layout(kind, blocks, self.count())
                        &&& joined(blocks) == self.entries()
                        &&& strictly_sorted(run_keys(self.entries())) ==> forall|key: Seq<u8>|
                            #[trigger] table.lookup(key) == Ok::<Option<Option<Seq<u8>>>, ErrorKind>(
                                found_in(self.entries(), key),
                            )
                    },
                    Err(e) => fails_as(kind, fault, e),
                }
            }),
    {
        let mut builder = self;
        let ghost kind = self.kind();
        let ghost blocks = finished_blocks(self.closed_blocks(), self.pending());
        proof {
            lemma_joined_push(self.closed_blocks(), self.pending(), 0);
            assert(joined(self.closed_blocks()) + Seq::<Entry>::empty() =~= joined(
                self.closed_blocks(),
            ));
        }
        match builder.flush_current_block() {
            Ok(_) => {},
            Err(e) => {
                return Err(e);
            },
        }
        assert(builder.blocks@ == blocks);
        proof {
            assert forall|i: int| 0 <= i < builder.index_entries@.len() implies (
            #[trigger] builder.index_entries@[i]).0@.len() <= MAX_FIELD by {
                assert(index_view(builder.index_entries@)[i] == index_of(kind, blocks)[i]);
                assert(block_sound(kind, blocks[i]));
                assert(entry_fits(blocks[i][0]));
            }
        }
        let plain = encode_index(&builder.index_entries);
        let packed_index = match compress(plain.as_slice(), &builder.compression) {
            Ok(image) => image,
            Err(e) => {
                return Err(e);
            },
        };
        let (footer, footer_image) = encode_footer(
            builder.current_offset,
            packed_index.len() as u64,
            builder.compression,
            builder.num_entries,
        );
        let mut image = builder.written;
        image.extend_from_slice(packed_index.as_slice());
        image.extend_from_slice(footer_image.as_slice());
        proof {
            assert(index_sound(kind, blocks));
            assert(joined(blocks) + Seq::<Entry>::empty() =~= joined(blocks));
            lemma_image_parses(kind, blocks, self.count());
            assert(footer == crate::storage::table_image::table_footer(kind, blocks, self.count()));
            assert(image@ =~= table_image(kind, blocks, self.count()));
        }
        match SSTable::open(builder.file_path.as_str(), image) {
            Ok(table) => {
                proof {
                    if strictly_sorted(run_keys(self.entries())) {
                        assert forall|key: Seq<u8>| #[trigger]
                            table.lookup(key) == Ok::<Option<Option<Seq<u8>>>, ErrorKind>(
                                found_in(self.entries(), key),
                            ) by {
                            lemma_image_reads(kind, blocks, self.count(), table.path(), key);
                        }
                    }
                }
                Ok(table)
            },
            Err(e) => Err(e),
        }
    }
}

/// A run of ascending keys stays one when an entry whose key is not below
/// the last key takes the place of the last entry or goes behind it.
proof fn lemma_sorted_upsert(closed: Seq<Entry>, pending: Seq<Entry>, entry: Entry)
    requires
        sorted(run_keys(closed + pending)),
        (closed + pending).len() > 0 ==> lex_le((closed + pending).last().0, entry.0),
    ensures
        sorted(run_keys(closed + upserted(pending, entry))),
{
    let before = closed + pending;
    let after = closed + upserted(pending, entry);
    let keys = run_keys(before);
    let new_keys = run_keys(after);
    if pending.len() > 0 && pending.last().0 == entry.0 {
        assert(new_keys =~= keys);
    } else {
        assert(after =~= before.push(entry));
        assert forall|i: int, j: int| 0 <= i < j < new_keys.len() implies lex_le(
            #[trigger] new_keys[i],
            #[trigger] new_keys[j],
        ) by {
            if j < keys.len() {
                assert(new_keys[i] == keys[i] && new_keys[j] == keys[j]);
            } else {
                assert(new_keys[i] == keys[i]);
                assert(keys[keys.len() - 1] == before.last().0);
                if i < keys.len() - 1 {
                    lemma_lex_le_transitive(keys[i], keys[keys.len() - 1], entry.0);
                }
            }
        }
    }
}

} // verus!
