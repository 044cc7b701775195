//! The tree as a mathematical value, and what its operations make of it.
//!
//! A tree is its memtable, its queue of frozen memtables, the tables of
//! level 0, its next sequence number, and the image of its log. The tiers
//! are asked from the newest to the oldest, and the first that knows a key
//! decides, by a value or by a tombstone.

use vstd::prelude::*;
use crate::storage::block_key::table_path;
use crate::storage::bytes::be32_value;
use crate::storage::codec::{lemma_parse_entry_shrinks, Entry};
use crate::storage::compression::CompressionType;
use crate::storage::error::{ErrorKind, StorageError};
use crate::storage::kv::KVPairView;
use crate::storage::memtable::{footprint, lookup, MemEntryView};
use crate::storage::search::{
    holds_key,
    lemma_placed,
    lemma_strictly_sorted_unique,
    map_of,
    place_of,
    placed,
    run_keys,
    strictly_sorted,
};
use crate::storage::sstable::{fails_as, table_fault};
use crate::storage::table_image::found_in;
use crate::storage::wal::{
    decode_record,
    frame_bytes,
    lemma_frame_round_trip,
    lemma_recovered_concat,
    lemma_whole_frames,
    whole_frames,
    loggable,
    parse_record,
    recovered,
    well_framed,
};

verus! {

/// The entries of a memtable in ascending key order.
pub type Listing = Seq<(Seq<u8>, MemEntryView)>;

/// A table of level 0: the path of its file and the entries that it was
/// built of.
pub struct TableView {
    pub path: Seq<char>,
    pub entries: Seq<Entry>,
}

/// A tree as a mathematical value.
pub struct TreeView {
    /// The memtable that takes the writes.
    pub active: Listing,
    /// The frozen memtables, the oldest first.
    pub queue: Seq<Listing>,
    /// The tables of level 0, the oldest first.
    pub tables: Seq<TableView>,
    /// The sequence number that the next mutation or table gets.
    pub next_sequence: u64,
    /// The image of the write-ahead log.
    pub log: Seq<u8>,
}

/// What decides how a tree writes its tables: the compression kind, the
/// directory of the tables, and the size at which a memtable is frozen.
pub struct Settings {
    pub kind: CompressionType,
    pub dir: Seq<char>,
    pub threshold: nat,
}

/// What a memtable holds for `key`.
pub open spec fn listing_lookup(listing: Listing, key: Seq<u8>) -> Option<Option<Seq<u8>>> {
    lookup(map_of(listing), key)
}

/// What frozen memtables hold for `key`; the last of the queue is the
/// newest and is asked first.
pub open spec fn queue_lookup(queue: Seq<Listing>, key: Seq<u8>) -> Option<Option<Seq<u8>>>
    decreases queue.len(),
{
    if queue.len() == 0 {
        None
    } else {
        match listing_lookup(queue.last(), key) {
            Some(found) => Some(found),
            None => queue_lookup(queue.drop_last(), key),
        }
    }
}

/// What the tables of a level hold for `key`; the last of the level is the
/// newest and is asked first.
pub open spec fn tables_lookup(tables: Seq<TableView>, key: Seq<u8>) -> Option<Option<Seq<u8>>>
    decreases tables.len(),
{
    if tables.len() == 0 {
        None
    } else {
        match found_in(tables.last().entries, key) {
            Some(found) => Some(found),
            None => tables_lookup(tables.drop_last(), key),
        }
    }
}

/// What a tree holds for `key`: the first answer on the way from the
/// memtable through the frozen memtables to the tables.
pub open spec fn contents(view: TreeView, key: Seq<u8>) -> Option<Option<Seq<u8>>> {
    match listing_lookup(view.active, key) {
        Some(found) => Some(found),
        None => match queue_lookup(view.queue, key) {
            Some(found) => Some(found),
            None => tables_lookup(view.tables, key),
        },
    }
}

/// What a caller sees of an answer: a tombstone reads as absent.
pub open spec fn visible(found: Option<Option<Seq<u8>>>) -> Option<Seq<u8>> {
    match found {
        Some(Some(value)) => Some(value),
        _ => None,
    }
}

/// Whether the listings of a tree are in order: keys ascend without
/// repetition in every memtable and in every table.
pub open spec fn in_order(view: TreeView) -> bool {
    &&& strictly_sorted(run_keys(view.active))
    &&& forall|i: int| 0 <= i < view.queue.len() ==> strictly_sorted(run_keys(#[trigger] view.queue[i]))
    &&& forall|i: int|
        0 <= i < view.tables.len() ==> strictly_sorted(run_keys((#[trigger] view.tables[i]).entries))
}

/// What a mutation puts into a memtable.
pub open spec fn entry_of(kv: KVPairView) -> MemEntryView {
    MemEntryView { value: kv.value, sequence: kv.sequence }
}

/// The entries that a memtable hands to a table: its keys with their
/// values or tombstones.
pub open spec fn flushed(listing: Listing) -> Seq<Entry> {
    listing.map_values(|item: (Seq<u8>, MemEntryView)| (item.0, item.1.value))
}

/// Why a mutation is refused, if it is: no sequence number is left, which
/// is an internal error; or the mutation does not fit a log record.
pub open spec fn mutation_fault(view: TreeView, kv: KVPairView) -> Option<ErrorKind> {
    if view.next_sequence == u64::MAX {
        Some(ErrorKind::Internal)
    } else if !loggable(kv) {
        Some(ErrorKind::Wal)
    } else {
        None
    }
}

/// A tree after a mutation was logged and applied to the memtable.
pub open spec fn logged(view: TreeView, kv: KVPairView) -> TreeView {
    TreeView {
        active: placed(view.active, kv.key, entry_of(kv)),
        log: view.log + frame_bytes(kv),
        next_sequence: (view.next_sequence + 1) as u64,
        ..view
    }
}

/// A tree after its memtable was frozen: a fresh memtable takes its
/// place, and the old one, unless it is empty, is the newest of the queue.
pub open spec fn rotated(view: TreeView) -> TreeView {
    TreeView {
        active: Seq::empty(),
        queue: if view.active.len() > 0 {
            view.queue.push(view.active)
        } else {
            view.queue
        },
        ..view
    }
}

/// Why the oldest frozen memtable cannot be written to a table, if it
/// cannot: no sequence number is left to name the table, or no table can
/// be built of its entries. An empty memtable is dropped without a table.
pub open spec fn drain_fault(settings: Settings, view: TreeView) -> Option<ErrorKind> {
    if view.queue.len() == 0 || view.queue[0].len() == 0 {
        None
    } else if view.next_sequence == u64::MAX {
        Some(ErrorKind::Internal)
    } else {
        table_fault(settings.kind, flushed(view.queue[0]))
    }
}

/// A tree after its oldest frozen memtable was written to a table: the
/// table is named by the next sequence number and is the newest of level
/// 0. An empty memtable is dropped without a table. Where the memtable
/// cannot be written, or none is frozen, the tree stays as it is.
pub open spec fn drain_step(settings: Settings, view: TreeView) -> TreeView {
    if view.queue.len() == 0 || drain_fault(settings, view) is Some {
        view
    } else if view.queue[0].len() == 0 {
        TreeView { queue: view.queue.skip(1), ..view }
    } else {
        TreeView {
            queue: view.queue.skip(1),
            tables: view.tables.push(
                TableView {
                    path: table_path(settings.dir, view.next_sequence),
                    entries: flushed(view.queue[0]),
                },
            ),
            next_sequence: (view.next_sequence + 1) as u64,
            ..view
        }
    }
}

/// A tree after `n` frozen memtables were written, the oldest first, as
/// far as they can be.
pub open spec fn drained(settings: Settings, view: TreeView, n: nat) -> TreeView
    decreases n,
{
    if n == 0 {
        view
    } else {
        drain_step(settings, drained(settings, view, (n - 1) as nat))
    }
}

/// Whether `end` is what writing the queue of `start` leads to, and `r`
/// says how it ended: with an empty queue; or at a memtable that cannot
/// be written, with its fault; or, under Zstandard, at a memtable on which
/// the compressor failed.
pub open spec fn drains_to(
    settings: Settings,
    start: TreeView,
    end: TreeView,
    r: Result<(), StorageError>,
) -> bool {
    exists|n: nat|
        {
            &&& n <= start.queue.len()
            &&& end == #[trigger] drained(settings, start, n)
            &&& match r {
                Ok(_) => end.queue.len() == 0,
                Err(e) => end.queue.len() > 0 && fails_as(
                    settings.kind,
                    drain_fault(settings, end),
                    e,
                ),
            }
        }
}

/// Whether the log of a tree is a run of whole frames from which what the
/// tree holds can be recovered.
pub open spec fn log_faithful(view: TreeView) -> bool {
    &&& well_framed(view.log)
    &&& forall|key: Seq<u8>| #[trigger]
        contents(view, key) == listing_lookup(replayed(recovered(view.log)), key)
}

/// The memtable that replaying mutations in order gives.
pub open spec fn replayed(entries: Seq<KVPairView>) -> Listing
    decreases entries.len(),
{
    if entries.len() == 0 {
        Seq::empty()
    } else {
        placed(replayed(entries.drop_last()), entries.last().key, entry_of(entries.last()))
    }
}

/// One past the highest sequence number among mutations, or 0 for none.
pub open spec fn sequence_past(entries: Seq<KVPairView>) -> nat
    decreases entries.len(),
{
    if entries.len() == 0 {
        0
    } else {
        let before = sequence_past(entries.drop_last());
        if entries.last().sequence >= before {
            (entries.last().sequence + 1) as nat
        } else {
            before
        }
    }
}

/// The footprints of mutations, added up.
pub open spec fn replay_cost(entries: Seq<KVPairView>) -> nat
    decreases entries.len(),
{
    if entries.len() == 0 {
        0
    } else {
        replay_cost(entries.drop_last()) + footprint(entries.last().key, entries.last().value)
    }
}

/// The tree that opening over a log gives: the memtable is what replaying
/// the log gives, nothing is frozen, the level is empty, the sequence
/// counter is one past the highest sequence number in the log, and the log
/// is cut to its whole frames.
pub open spec fn opened(log: Seq<u8>) -> TreeView {
    TreeView {
        active: replayed(recovered(log)),
        queue: Seq::empty(),
        tables: Seq::empty(),
        next_sequence: sequence_past(recovered(log)) as u64,
        log: whole_frames(log),
    }
}

/// What replaying gives is in order.
pub proof fn lemma_replayed_in_order(entries: Seq<KVPairView>)
    ensures
        strictly_sorted(run_keys(replayed(entries))),
    decreases entries.len(),
{
    if entries.len() > 0 {
        lemma_replayed_in_order(entries.drop_last());
        lemma_placed(replayed(entries.drop_last()), entries.last().key, entry_of(entries.last()));
    }
}

/// The oldest frozen memtable is asked last among the frozen ones.
pub proof fn lemma_queue_lookup_front(queue: Seq<Listing>, key: Seq<u8>)
    requires
        queue.len() > 0,
    ensures
        queue_lookup(queue, key) == match queue_lookup(queue.skip(1), key) {
            Some(found) => Some(found),
            None => listing_lookup(queue[0], key),
        },
    decreases queue.len(),
{
    if queue.len() == 1 {
        assert(queue.drop_last() =~= queue.skip(1));
    } else {
        lemma_queue_lookup_front(queue.drop_last(), key);
        assert(queue.drop_last().skip(1) =~= queue.skip(1).drop_last());
        assert(queue.skip(1).last() == queue.last());
    }
}

/// What a memtable hands to a table holds for each key what the memtable
/// holds, and its keys ascend without repetition as the memtable's do.
pub proof fn lemma_flushed_holds(listing: Listing, key: Seq<u8>)
    requires
        strictly_sorted(run_keys(listing)),
    ensures
        strictly_sorted(run_keys(flushed(listing))),
        found_in(flushed(listing), key) == listing_lookup(listing, key),
{
    let out = flushed(listing);
    assert(run_keys(out) =~= run_keys(listing));
    if holds_key(listing, key) {
        let p = place_of(listing, key);
        assert(out[p].0 == key);
        let q = place_of(out, key);
        assert(run_keys(listing)[p] == key && run_keys(listing)[q] == key);
        lemma_strictly_sorted_unique(run_keys(listing), p, q);
    } else if holds_key(out, key) {
        let q = place_of(out, key);
        assert(listing[q].0 == key);
    }
}

/// A mutation that was logged is what the tree holds for its key, and the
/// tree holds for every other key what it held.
pub proof fn lemma_logged_holds(view: TreeView, kv: KVPairView, key: Seq<u8>)
    requires
        in_order(view),
    ensures
        in_order(logged(view, kv)),
        contents(logged(view, kv), key) == if key == kv.key {
            Some(kv.value)
        } else {
            contents(view, key)
        },
{
    lemma_placed(view.active, kv.key, entry_of(kv));
}

/// Freezing the memtable changes nothing that the tree holds.
pub proof fn lemma_rotated_holds(view: TreeView, key: Seq<u8>)
    requires
        in_order(view),
    ensures
        in_order(rotated(view)),
        contents(rotated(view), key) == contents(view, key),
{
    let after = rotated(view);
    assert(map_of(Seq::<(Seq<u8>, MemEntryView)>::empty()) =~= Map::<
        Seq<u8>,
        MemEntryView,
    >::empty());
    if view.active.len() > 0 {
        assert(view.queue.push(view.active).drop_last() =~= view.queue);
        assert forall|i: int| 0 <= i < after.queue.len() implies strictly_sorted(
            run_keys(#[trigger] after.queue[i]),
        ) by {
            if i < view.queue.len() {
                assert(after.queue[i] == view.queue[i]);
            }
        }
    } else {
        assert(map_of(view.active) =~= Map::<Seq<u8>, MemEntryView>::empty());
    }
}

/// Writing the oldest frozen memtable to a table changes nothing that the
/// tree holds.
pub proof fn lemma_drain_step_holds(settings: Settings, view: TreeView, key: Seq<u8>)
    requires
        in_order(view),
    ensures
        in_order(drain_step(settings, view)),
        contents(drain_step(settings, view), key) == contents(view, key),
        drain_step(settings, view).active == view.active,
        drain_step(settings, view).log == view.log,
        drain_step(settings, view).next_sequence >= view.next_sequence,
        drain_step(settings, view).queue.len() <= view.queue.len(),
{
    let after = drain_step(settings, view);
    if view.queue.len() > 0 && drain_fault(settings, view) is None {
        lemma_queue_lookup_front(view.queue, key);
        assert(strictly_sorted(run_keys(view.queue[0])));
        lemma_flushed_holds(view.queue[0], key);
        assert forall|i: int| 0 <= i < after.queue.len() implies strictly_sorted(
            run_keys(#[trigger] after.queue[i]),
        ) by {
            assert(after.queue[i] == view.queue[i + 1]);
        }
        if view.queue[0].len() == 0 {
            assert(map_of(view.queue[0]) =~= Map::<Seq<u8>, MemEntryView>::empty());
        } else {
            assert(after.tables.drop_last() =~= view.tables);
            assert forall|i: int| 0 <= i < after.tables.len() implies strictly_sorted(
                run_keys((#[trigger] after.tables[i]).entries),
            ) by {
                if i < view.tables.len() {
                    assert(after.tables[i] == view.tables[i]);
                }
            }
        }
    }
}

/// Writing frozen memtables to tables changes nothing that the tree holds.
pub proof fn lemma_drained_holds(settings: Settings, view: TreeView, n: nat, key: Seq<u8>)
    requires
        in_order(view),
    ensures
        in_order(drained(settings, view, n)),
        contents(drained(settings, view, n), key) == contents(view, key),
        drained(settings, view, n).active == view.active,
        drained(settings, view, n).log == view.log,
        drained(settings, view, n).next_sequence >= view.next_sequence,
        drained(settings, view, n).queue.len() <= view.queue.len(),
    decreases n,
{
    if n > 0 {
        lemma_drained_holds(settings, view, (n - 1) as nat, key);
        lemma_drain_step_holds(settings, drained(settings, view, (n - 1) as nat), key);
    }
}

/// Replaying one more mutation puts it into what the others gave.
pub proof fn lemma_replayed_push(entries: Seq<KVPairView>, kv: KVPairView)
    ensures
        replayed(entries.push(kv)) == placed(replayed(entries), kv.key, entry_of(kv)),
{
    assert(entries.push(kv).drop_last() =~= entries);
}

/// A mutation that was logged can be recovered with what could be
/// recovered before.
pub proof fn lemma_logged_faithful(view: TreeView, kv: KVPairView)
    requires
        in_order(view),
        log_faithful(view),
        loggable(kv),
    ensures
        log_faithful(logged(view, kv)),
{
    let after = logged(view, kv);
    lemma_frame_round_trip(kv);
    lemma_recovered_concat(view.log, frame_bytes(kv));
    let before = recovered(view.log);
    assert(recovered(after.log) =~= before.push(kv));
    lemma_replayed_push(before, kv);
    lemma_replayed_in_order(before);
    lemma_placed(replayed(before), kv.key, entry_of(kv));
    assert forall|key: Seq<u8>| #[trigger]
        contents(after, key) == listing_lookup(replayed(recovered(after.log)), key) by {
        lemma_logged_holds(view, kv, key);
        assert(contents(view, key) == listing_lookup(replayed(before), key));
    }
}

/// What can be recovered from the log of a tree does not change while the
/// tree holds the same and its log stays.
pub proof fn lemma_faithful_kept(before: TreeView, after: TreeView)
    requires
        log_faithful(before),
        after.log == before.log,
        forall|key: Seq<u8>| contents(after, key) == #[trigger] contents(before, key),
    ensures
        log_faithful(after),
{
    assert forall|key: Seq<u8>| #[trigger]
        contents(after, key) == listing_lookup(replayed(recovered(after.log)), key) by {
        assert(contents(after, key) == contents(before, key));
    }
}

/// A tree that is opened over a log holds what replaying the log gives,
/// and can be recovered from its own log.
pub proof fn lemma_opened(log: Seq<u8>)
    ensures
        in_order(opened(log)),
        forall|key: Seq<u8>| #[trigger]
            contents(opened(log), key) == listing_lookup(replayed(recovered(log)), key),
        log_faithful(opened(log)),
{
    lemma_replayed_in_order(recovered(log));
    lemma_whole_frames(log);
    assert forall|key: Seq<u8>| #[trigger]
        contents(opened(log), key) == listing_lookup(replayed(recovered(log)), key) by {
        assert(queue_lookup(Seq::<Listing>::empty(), key).is_none());
        assert(tables_lookup(Seq::<TableView>::empty(), key).is_none());
    }
}

/// A mutation read from a record takes no more room in a memtable than
/// the record takes in the log.
pub proof fn lemma_record_cost(record: Seq<u8>)
    ensures
        decode_record(record) matches Some(kv) ==> footprint(kv.key, kv.value) <= record.len(),
{
    match parse_record(record) {
        None => {},
        Some(payload) => {
            lemma_parse_entry_shrinks(payload);
        },
    }
}

/// The mutations read from a log take no more room in a memtable than the
/// log has bytes.
pub proof fn lemma_recovered_cost(log: Seq<u8>)
    ensures
        replay_cost(recovered(log)) <= log.len(),
    decreases log.len(),
{
    if log.len() >= 4 {
        let n = be32_value(log) as int;
        if log.len() - 4 >= n {
            let rest = recovered(log.skip(4 + n));
            lemma_recovered_cost(log.skip(4 + n));
            lemma_record_cost(log.subrange(4, 4 + n));
            match decode_record(log.subrange(4, 4 + n)) {
                Some(kv) => {
                    lemma_replay_cost_front(seq![kv] + rest);
                    assert((seq![kv] + rest).skip(1) =~= rest);
                },
                None => {},
            }
        }
    }
}

/// The cost of a run of mutations is that of the first and of the rest.
pub proof fn lemma_replay_cost_front(entries: Seq<KVPairView>)
    requires
        entries.len() > 0,
    ensures
        replay_cost(entries) == footprint(entries[0].key, entries[0].value) + replay_cost(
            entries.skip(1),
        ),
    decreases entries.len(),
{
    if entries.len() == 1 {
        assert(entries.drop_last() =~= entries.skip(1));
    } else {
        lemma_replay_cost_front(entries.drop_last());
        assert(entries.drop_last().skip(1) =~= entries.skip(1).drop_last());
        assert(entries.skip(1).last() == entries.last());
    }
}

/// The cost of the first mutations of a run is no more than that of all.
pub proof fn lemma_replay_cost_prefix(entries: Seq<KVPairView>, n: int)
    requires
        0 <= n <= entries.len(),
    ensures
        replay_cost(entries.take(n)) <= replay_cost(entries),
    decreases entries.len(),
{
    if n < entries.len() {
        lemma_replay_cost_prefix(entries.drop_last(), n);
        assert(entries.drop_last().take(n) =~= entries.take(n));
    } else {
        assert(entries.take(n) =~= entries);
    }
}

/// One past the highest sequence number of the first mutations is no more
/// than that of all, and each of them is below it.
pub proof fn lemma_sequence_past_prefix(entries: Seq<KVPairView>, n: int)
    requires
        0 < n <= entries.len(),
    ensures
        sequence_past(entries.take(n)) <= sequence_past(entries),
        entries[n - 1].sequence < sequence_past(entries),
    decreases entries.len(),
{
    if n < entries.len() {
        lemma_sequence_past_prefix(entries.drop_last(), n);
        assert(entries.drop_last().take(n) =~= entries.take(n));
    } else {
        assert(entries.take(n) =~= entries);
    }
}

/// A tombstone in the newest table that knows a key hides what every
/// older table holds for the key.
pub proof fn lemma_tombstone_shadows(tables: Seq<TableView>, newest: TableView, key: Seq<u8>)
    requires
        found_in(newest.entries, key) == Some(None::<Seq<u8>>),
    ensures
        tables_lookup(tables.push(newest), key) == Some(None::<Seq<u8>>),
{
    assert(tables.push(newest).drop_last() =~= tables);
}

} // verus!
