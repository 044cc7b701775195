//! What a sorted table file holds for given blocks of entries, and the
//! proof that reading such a file gives the entries back.

use vstd::prelude::*;
use crate::storage::bytes::{
    lemma_lex_asymmetric,
    lemma_lex_irreflexive,
    lemma_lex_le_transitive,
    lex_le,
    lex_lt,
};
use crate::storage::cache::{cached, Cached};
use crate::storage::checksum::crc32;
use crate::storage::codec::{entries_bytes, entries_fit, entry_fits, lemma_parse_entries, Entry};
use crate::storage::compression::{packed, unpacked, CompressionType};
use crate::storage::error::ErrorKind;
use crate::storage::search::{
    holds_key,
    is_upper_bound,
    place_of,
    run_keys,
    sorted,
    strictly_sorted,
};
use crate::storage::sstable::{
    block_bytes,
    blocks_adjoin,
    find_first,
    index_keys,
    index_ok,
    lemma_upper_place_exists,
    parse_table,
    search_block,
    table_read,
    upper_place,
    TableLayout,
};
use crate::storage::table_format::{
    footer_body,
    footer_bytes,
    index_entries,
    lemma_footer_round_trip,
    lemma_handle_round_trip,
    lemma_index_round_trip,
    BlockHandle,
    IndexLine,
    SSTableFooter,
    FOOTER_SIZE,
};

verus! {

/// The parts of a sequence, one behind the other.
pub open spec fn joined<T>(parts: Seq<Seq<T>>) -> Seq<T>
    decreases parts.len(),
{
    if parts.len() == 0 {
        Seq::empty()
    } else {
        joined(parts.drop_last()) + parts.last()
    }
}

/// Where part `i` starts in the whole.
pub open spec fn start_of<T>(parts: Seq<Seq<T>>, i: int) -> int {
    joined(parts.take(i)).len() as int
}

/// Part `i` lies in the whole between its start and the start of the next.
pub proof fn lemma_joined_part<T>(parts: Seq<Seq<T>>, i: int)
    requires
        0 <= i < parts.len(),
    ensures
        start_of(parts, 0) == 0,
        start_of(parts, i + 1) == start_of(parts, i) + parts[i].len(),
        start_of(parts, i + 1) <= joined(parts).len(),
        start_of(parts, parts.len() as int) == joined(parts).len(),
        joined(parts).subrange(start_of(parts, i), start_of(parts, i + 1)) == parts[i],
    decreases parts.len(),
{
    let n = parts.len() as int;
    assert(parts.take(n) =~= parts);
    assert(parts.take(0) =~= Seq::<Seq<T>>::empty());
    assert(parts.take(i + 1).drop_last() =~= parts.take(i));
    assert(parts.take(i + 1).last() == parts[i]);
    if i == n - 1 {
        assert(parts.take(i) =~= parts.drop_last());
        assert(joined(parts).subrange(start_of(parts, i), start_of(parts, i + 1)) =~= parts[i]);
    } else {
        let front = parts.drop_last();
        lemma_joined_part(front, i);
        assert(front.take(i) =~= parts.take(i));
        assert(front.take(i + 1) =~= parts.take(i + 1));
        assert(joined(parts).subrange(start_of(parts, i), start_of(parts, i + 1)) =~= joined(
            front,
        ).subrange(start_of(front, i), start_of(front, i + 1)));
    }
}

/// A later part starts no earlier.
pub proof fn lemma_start_of_ascends<T>(parts: Seq<Seq<T>>, i: int, j: int)
    requires
        0 <= i <= j <= parts.len(),
    ensures
        start_of(parts, i) <= start_of(parts, j),
        (i < j && parts[i].len() > 0) ==> start_of(parts, i) < start_of(parts, j),
    decreases j - i,
{
    if i < j {
        lemma_joined_part(parts, j - 1);
        lemma_start_of_ascends(parts, i, j - 1);
        if i == j - 1 {
        }
    }
}

/// One more part starts where the whole ended and moves no other part.
pub proof fn lemma_joined_push<T>(parts: Seq<Seq<T>>, part: Seq<T>, i: int)
    requires
        0 <= i <= parts.len(),
    ensures
        joined(parts.push(part)) == joined(parts) + part,
        start_of(parts.push(part), i) == start_of(parts, i),
        start_of(parts, parts.len() as int) == joined(parts).len(),
{
    assert(parts.push(part).drop_last() =~= parts);
    assert(parts.push(part).take(i) =~= parts.take(i));
    assert(parts.take(parts.len() as int) =~= parts);
}

/// The compressed images of the blocks of a table.
pub open spec fn block_images(kind: CompressionType, blocks: Seq<Seq<Entry>>) -> Seq<Seq<u8>> {
    blocks.map_values(|block: Seq<Entry>| packed(kind, entries_bytes(block)))
}

/// The data blocks of a table file.
pub open spec fn blocks_image(kind: CompressionType, blocks: Seq<Seq<Entry>>) -> Seq<u8> {
    joined(block_images(kind, blocks))
}

/// The index of a table: for each block its first key and where it lies.
pub open spec fn index_of(kind: CompressionType, blocks: Seq<Seq<Entry>>) -> Seq<IndexLine> {
    Seq::new(
        blocks.len(),
        |i: int|
            (
                blocks[i][0].0,
                BlockHandle {
                    offset: start_of(block_images(kind, blocks), i) as u64,
                    size: block_images(kind, blocks)[i].len() as u32,
                },
            ),
    )
}

/// The compressed index of a table file.
pub open spec fn index_image(kind: CompressionType, blocks: Seq<Seq<Entry>>) -> Seq<u8> {
    packed(kind, entries_bytes(index_entries(index_of(kind, blocks))))
}

/// The footer of a table file.
pub open spec fn table_footer(
    kind: CompressionType,
    blocks: Seq<Seq<Entry>>,
    num_entries: u64,
) -> SSTableFooter {
    let bare = SSTableFooter {
        index_offset: blocks_image(kind, blocks).len() as u64,
        index_size: index_image(kind, blocks).len() as u64,
        bloom_filter_offset: 0,
        bloom_filter_size: 0,
        compression: kind,
        num_entries,
        crc: 0,
    };
    SSTableFooter { crc: crc32(footer_body(bare)), ..bare }
}

/// The file of a table with these blocks: the compressed blocks, the
/// compressed index, the footer.
pub open spec fn table_image(
    kind: CompressionType,
    blocks: Seq<Seq<Entry>>,
    num_entries: u64,
) -> Seq<u8> {
    blocks_image(kind, blocks) + index_image(kind, blocks) + footer_bytes(
        table_footer(kind, blocks, num_entries),
    )
}

/// The layout of a table with these blocks.
pub open spec fn table_layout(
    kind: CompressionType,
    blocks: Seq<Seq<Entry>>,
    num_entries: u64,
) -> TableLayout {
    TableLayout { footer: table_footer(kind, blocks, num_entries), index: index_of(kind, blocks) }
}

/// Whether a block can be read back from its image: it has entries, each
/// fits, and its image is not empty, fits a handle, and decompresses to
/// the layout of the entries.
pub open spec fn block_sound(kind: CompressionType, block: Seq<Entry>) -> bool {
    &&& block.len() > 0
    &&& entries_fit(block)
    &&& unpacked(kind, packed(kind, entries_bytes(block))) == Some(entries_bytes(block))
    &&& 1 <= packed(kind, entries_bytes(block)).len() <= u32::MAX
}

/// Whether all blocks can be read back and their images fit a file.
pub open spec fn blocks_sound(kind: CompressionType, blocks: Seq<Seq<Entry>>) -> bool {
    &&& forall|i: int| 0 <= i < blocks.len() ==> block_sound(kind, #[trigger] blocks[i])
    &&& blocks_image(kind, blocks).len() <= u64::MAX
}

/// Whether the index can be read back from its image.
pub open spec fn index_sound(kind: CompressionType, blocks: Seq<Seq<Entry>>) -> bool {
    &&& unpacked(kind, index_image(kind, blocks)) == Some(
        entries_bytes(index_entries(index_of(kind, blocks))),
    )
    &&& index_image(kind, blocks).len() <= u64::MAX
}

/// What a run of entries holds for `key`: the value or tombstone of an
/// entry with this key, or nothing where there is none.
pub open spec fn found_in(run: Seq<Entry>, key: Seq<u8>) -> Option<Option<Seq<u8>>> {
    if holds_key(run, key) {
        Some(run[place_of(run, key)].1)
    } else {
        None
    }
}

/// In a run without repeated keys the first entry with a key is the only one.
pub proof fn lemma_find_first_is_found(run: Seq<Entry>, key: Seq<u8>)
    requires
        strictly_sorted(run_keys(run)),
    ensures
        find_first(run, key) == found_in(run, key),
    decreases run.len(),
{
    let keys = run_keys(run);
    if run.len() == 0 {
    } else if run[0].0 == key {
        assert(holds_key(run, key));
        let p = place_of(run, key);
        assert(keys[0] == key && keys[p] == key);
        crate::storage::search::lemma_strictly_sorted_unique(keys, 0, p);
    } else {
        let rest = run.skip(1);
        assert(run_keys(rest) =~= keys.skip(1));
        assert(strictly_sorted(run_keys(rest))) by {
            assert forall|i: int, j: int| 0 <= i < j < rest.len() implies lex_lt(
                #[trigger] run_keys(rest)[i],
                #[trigger] run_keys(rest)[j],
            ) by {
                assert(run_keys(rest)[i] == keys[i + 1]);
                assert(run_keys(rest)[j] == keys[j + 1]);
            }
        }
        lemma_find_first_is_found(rest, key);
        if holds_key(rest, key) {
            let q = place_of(rest, key);
            assert(run[q + 1].0 == key);
            let p = place_of(run, key);
            assert(keys[q + 1] == key && keys[p] == key);
            crate::storage::search::lemma_strictly_sorted_unique(keys, q + 1, p);
        } else if holds_key(run, key) {
            let p = place_of(run, key);
            assert(rest[p - 1].0 == key);
        }
    }
}

/// The lines of the index of sound blocks: first keys, adjoining handles.
pub proof fn lemma_index_of_lines(kind: CompressionType, blocks: Seq<Seq<Entry>>)
    requires
        blocks_sound(kind, blocks),
    ensures
        index_of(kind, blocks).len() == blocks.len(),
        blocks_adjoin(index_of(kind, blocks), blocks_image(kind, blocks).len() as int),
        forall|i: int|
            0 <= i < blocks.len() ==> {
                &&& (#[trigger] index_of(kind, blocks)[i]).0 == blocks[i][0].0
                &&& index_of(kind, blocks)[i].1.offset == start_of(block_images(kind, blocks), i)
                &&& index_of(kind, blocks)[i].1.size == block_images(kind, blocks)[i].len()
                &&& block_bytes(blocks_image(kind, blocks), index_of(kind, blocks)[i].1)
                    == block_images(kind, blocks)[i]
            },
{
    let images = block_images(kind, blocks);
    let index = index_of(kind, blocks);
    let whole = blocks_image(kind, blocks);
    let n = blocks.len() as int;
    assert forall|i: int| 0 <= i < n implies {
        &&& (#[trigger] index[i]).0 == blocks[i][0].0
        &&& index[i].1.offset == start_of(images, i)
        &&& index[i].1.size == images[i].len()
        &&& block_bytes(whole, index[i].1) == images[i]
        &&& start_of(images, i + 1) == start_of(images, i) + images[i].len()
        &&& start_of(images, i + 1) <= whole.len()
        &&& images[i].len() >= 1
    } by {
        lemma_joined_part(images, i);
        assert(block_sound(kind, blocks[i]));
    }
    if n > 0 {
        lemma_joined_part(images, 0);
        lemma_joined_part(images, n - 1);
    } else {
        assert(images =~= Seq::<Seq<u8>>::empty());
    }
    assert forall|i: int, j: int| 0 <= i && j == i + 1 && j < index.len() implies (
    #[trigger] index[j]).1.offset == (#[trigger] index[i]).1.offset + index[i].1.size by {
        assert(index[j].1.offset == start_of(images, j));
    }
}

/// The first keys of blocks whose entries ascend ascend too.
pub proof fn lemma_index_keys_ascend(kind: CompressionType, blocks: Seq<Seq<Entry>>, i: int, j: int)
    requires
        forall|b: int| 0 <= b < blocks.len() ==> (#[trigger] blocks[b]).len() > 0,
        sorted(run_keys(joined(blocks))),
        0 <= i < j < blocks.len(),
    ensures
        lex_le(blocks[i][0].0, blocks[j][0].0),
        strictly_sorted(run_keys(joined(blocks))) ==> lex_lt(blocks[i][0].0, blocks[j][0].0),
{
    let flat = joined(blocks);
    let keys = run_keys(flat);
    lemma_joined_part(blocks, i);
    lemma_joined_part(blocks, j);
    lemma_start_of_ascends(blocks, i, j);
    let a = start_of(blocks, i);
    let b = start_of(blocks, j);
    assert(flat.subrange(a, start_of(blocks, i + 1))[0] == flat[a]);
    assert(flat.subrange(b, start_of(blocks, j + 1))[0] == flat[b]);
    assert(keys[a] == blocks[i][0].0);
    assert(keys[b] == blocks[j][0].0);
}

/// The file of sound blocks whose keys ascend is a table with the layout
/// that the blocks give.
pub proof fn lemma_image_parses(kind: CompressionType, blocks: Seq<Seq<Entry>>, num_entries: u64)
    requires
        blocks_sound(kind, blocks),
        index_sound(kind, blocks),
        sorted(run_keys(joined(blocks))),
    ensures
        parse_table(table_image(kind, blocks, num_entries)) == Ok::<TableLayout, ErrorKind>(
            table_layout(kind, blocks, num_entries),
        ),
        table_image(kind, blocks, num_entries).len() == blocks_image(kind, blocks).len()
            + index_image(kind, blocks).len() + FOOTER_SIZE,
{
    reveal(parse_table);
    let data_part = blocks_image(kind, blocks);
    let index_part = index_image(kind, blocks);
    let footer = table_footer(kind, blocks, num_entries);
    let image = table_image(kind, blocks, num_entries);
    let index = index_of(kind, blocks);
    let lines = index_entries(index);
    assert(footer.crc == crc32(footer_body(footer)));
    lemma_footer_round_trip(footer);
    assert(image.skip(image.len() - FOOTER_SIZE) =~= footer_bytes(footer));
    assert(image.subrange(
        footer.index_offset as int,
        footer.index_offset + footer.index_size,
    ) =~= index_part);
    lemma_index_of_lines(kind, blocks);
    assert(entries_fit(lines)) by {
        assert forall|i: int| 0 <= i < lines.len() implies entry_fits(#[trigger] lines[i]) by {
            lemma_handle_round_trip(index[i].1);
            assert(block_sound(kind, blocks[i]));
            assert(entry_fits(blocks[i][0]));
        }
    }
    lemma_parse_entries(lines);
    lemma_index_round_trip(index);
    assert(sorted(index_keys(index))) by {
        assert forall|i: int, j: int| 0 <= i < j < index.len() implies lex_le(
            #[trigger] index_keys(index)[i],
            #[trigger] index_keys(index)[j],
        ) by {
            assert(block_sound(kind, blocks[i]));
            assert forall|b: int| 0 <= b < blocks.len() implies (#[trigger] blocks[b]).len()
                > 0 by {
                assert(block_sound(kind, blocks[b]));
            }
            lemma_index_keys_ascend(kind, blocks, i, j);
        }
    }
    assert(index_ok(index, footer.index_offset));
}

/// A key below the first key of the first block stands in no block.
pub proof fn lemma_key_before_blocks(blocks: Seq<Seq<Entry>>, key: Seq<u8>)
    requires
        forall|b: int| 0 <= b < blocks.len() ==> (#[trigger] blocks[b]).len() > 0,
        strictly_sorted(run_keys(joined(blocks))),
        blocks.len() > 0 ==> lex_lt(key, blocks[0][0].0),
    ensures
        !holds_key(joined(blocks), key),
{
    let flat = joined(blocks);
    let keys = run_keys(flat);
    if holds_key(flat, key) {
        let p = place_of(flat, key);
        assert(keys[p] == key);
        if blocks.len() == 0 {
        } else {
            lemma_joined_part(blocks, 0);
            assert(flat.subrange(0, start_of(blocks, 1))[0] == flat[0]);
            assert(keys[0] == blocks[0][0].0);
            if p > 0 {
                assert(lex_lt(keys[0], keys[p]));
                lemma_lex_asymmetric(keys[0], keys[p]);
            } else {
                lemma_lex_irreflexive(key);
            }
        }
    }
}

/// A key between the first key of a block and the first key of the next
/// stands in that block or in none.
pub proof fn lemma_key_in_block(blocks: Seq<Seq<Entry>>, i: int, key: Seq<u8>)
    requires
        forall|b: int| 0 <= b < blocks.len() ==> (#[trigger] blocks[b]).len() > 0,
        strictly_sorted(run_keys(joined(blocks))),
        0 <= i < blocks.len(),
        lex_le(blocks[i][0].0, key),
        i + 1 < blocks.len() ==> lex_lt(key, blocks[i + 1][0].0),
    ensures
        strictly_sorted(run_keys(blocks[i])),
        found_in(joined(blocks), key) == found_in(blocks[i], key),
{
    let flat = joined(blocks);
    let keys = run_keys(flat);
    let n = blocks.len() as int;
    let block = blocks[i];
    lemma_joined_part(blocks, i);
    let a = start_of(blocks, i);
    let b = start_of(blocks, i + 1);
    assert(flat.subrange(a, b) == block);
    assert forall|x: int| 0 <= x < block.len() implies #[trigger] block[x] == flat[a + x] by {
        assert(flat.subrange(a, b)[x] == flat[a + x]);
    }
    assert(strictly_sorted(run_keys(block))) by {
        assert forall|x: int, y: int| 0 <= x < y < block.len() implies lex_lt(
            #[trigger] run_keys(block)[x],
            #[trigger] run_keys(block)[y],
        ) by {
            assert(block[x] == flat[a + x] && block[y] == flat[a + y]);
            assert(lex_lt(keys[a + x], keys[a + y]));
        }
    }
    assert(block[0] == flat[a]);
    assert(keys[a] == block[0].0);
    if holds_key(flat, key) {
        let p = place_of(flat, key);
        assert(keys[p] == key);
        if p < a {
            assert(lex_lt(keys[p], keys[a]));
            lemma_lex_le_transitive(keys[p], keys[a], key);
            lemma_lex_irreflexive(key);
        }
        if p >= b {
            lemma_joined_part(blocks, n - 1);
            lemma_start_of_ascends(blocks, i + 1, n);
            assert(i + 1 < n);
            lemma_joined_part(blocks, i + 1);
            assert(flat.subrange(b, start_of(blocks, i + 2))[0] == flat[b]);
            assert(keys[b] == blocks[i + 1][0].0);
            if p > b {
                assert(lex_lt(keys[b], keys[p]));
                lemma_lex_asymmetric(keys[b], keys[p]);
            } else {
                lemma_lex_irreflexive(key);
            }
        }
        assert(block[p - a] == flat[p]);
        assert(holds_key(block, key));
        let q = place_of(block, key);
        assert(flat[a + q] == block[q]);
        assert(keys[a + q] == key);
        crate::storage::search::lemma_strictly_sorted_unique(keys, p, a + q);
    } else if holds_key(block, key) {
        let q = place_of(block, key);
        assert(flat[a + q] == block[q]);
    }
}

/// A block of the file of sound blocks decompresses to the layout of its
/// entries, and reading it finds what the block holds.
pub proof fn lemma_block_reads(
    kind: CompressionType,
    blocks: Seq<Seq<Entry>>,
    num_entries: u64,
    i: int,
    key: Seq<u8>,
)
    requires
        blocks_sound(kind, blocks),
        0 <= i < blocks.len(),
    ensures
        unpacked(
            kind,
            block_bytes(table_image(kind, blocks, num_entries), index_of(kind, blocks)[i].1),
        ) == Some(entries_bytes(blocks[i])),
        search_block(entries_bytes(blocks[i]), key) == Ok::<Option<Option<Seq<u8>>>, ErrorKind>(
            find_first(blocks[i], key),
        ),
{
    let image = table_image(kind, blocks, num_entries);
    let data_part = blocks_image(kind, blocks);
    let handle = index_of(kind, blocks)[i].1;
    lemma_index_of_lines(kind, blocks);
    assert(block_sound(kind, blocks[i]));
    lemma_handle_in_data(kind, blocks, i);
    assert(block_bytes(image, handle) =~= block_bytes(data_part, handle));
    lemma_parse_entries(blocks[i]);
}

/// Every block lies within the data part of the file.
proof fn lemma_handle_in_data(kind: CompressionType, blocks: Seq<Seq<Entry>>, i: int)
    requires
        blocks_sound(kind, blocks),
        0 <= i < blocks.len(),
    ensures
        index_of(kind, blocks)[i].1.offset + index_of(kind, blocks)[i].1.size <= blocks_image(
            kind,
            blocks,
        ).len(),
{
    lemma_index_of_lines(kind, blocks);
    lemma_joined_part(block_images(kind, blocks), i);
}

/// Reading a key from the file of sound blocks, whose keys ascend without
/// repetition, gives what the blocks hold for the key.
pub proof fn lemma_image_reads(
    kind: CompressionType,
    blocks: Seq<Seq<Entry>>,
    num_entries: u64,
    path: Seq<char>,
    key: Seq<u8>,
)
    requires
        blocks_sound(kind, blocks),
        index_sound(kind, blocks),
        strictly_sorted(run_keys(joined(blocks))),
    ensures
        table_read(
            table_layout(kind, blocks, num_entries),
            table_image(kind, blocks, num_entries),
            path,
            Seq::empty(),
            key,
        ) == Ok::<Option<Option<Seq<u8>>>, ErrorKind>(found_in(joined(blocks), key)),
{
    let index = index_of(kind, blocks);
    let n = blocks.len() as int;
    lemma_index_of_lines(kind, blocks);
    assert forall|b: int| 0 <= b < blocks.len() implies (#[trigger] blocks[b]).len() > 0 by {
        assert(block_sound(kind, blocks[b]));
    }
    let first_keys = index_keys(index);
    let at = upper_place(first_keys, key);
    lemma_upper_bound_exists(kind, blocks, key, n);
    assert forall|name: Seq<char>| cached(Seq::<Cached>::empty(), name).is_none() by {}
    if at <= 0 {
        if n > 0 {
            assert(lex_lt(key, first_keys[0]));
        }
        lemma_key_before_blocks(blocks, key);
    } else {
        let i = at - 1;
        assert(lex_le(first_keys[i], key));
        if i + 1 < n {
            assert(lex_lt(key, first_keys[i + 1]));
        }
        lemma_key_in_block(blocks, i, key);
        lemma_block_reads(kind, blocks, num_entries, i, key);
        lemma_find_first_is_found(blocks[i], key);
    }
}

/// Among first keys that ascend there is a place that parts those up to
/// `key` from those above it.
proof fn lemma_upper_bound_exists(
    kind: CompressionType,
    blocks: Seq<Seq<Entry>>,
    key: Seq<u8>,
    n: int,
)
    requires
        blocks_sound(kind, blocks),
        sorted(run_keys(joined(blocks))),
        n == blocks.len(),
    ensures
        is_upper_bound(
            index_keys(index_of(kind, blocks)),
            key,
            upper_place(index_keys(index_of(kind, blocks)), key),
        ),
{
    let first_keys = index_keys(index_of(kind, blocks));
    lemma_index_of_lines(kind, blocks);
    assert forall|b: int| 0 <= b < blocks.len() implies (#[trigger] blocks[b]).len() > 0 by {
        assert(block_sound(kind, blocks[b]));
    }
    assert(sorted(first_keys)) by {
        assert forall|i: int, j: int| 0 <= i < j < first_keys.len() implies lex_le(
            #[trigger] first_keys[i],
            #[trigger] first_keys[j],
        ) by {
            lemma_index_keys_ascend(kind, blocks, i, j);
        }
    }
    lemma_upper_place_exists(first_keys, key);
}

} // verus!
