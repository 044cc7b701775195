//! The tree: writes go to the write-ahead log and the memtable; a memtable
//! that has grown to the threshold is frozen and written to a table of
//! level 0; reads ask the tiers from the newest to the oldest.
//!
//! The tree holds the images of its log and of its tables. A host program
//! writes them to the files that they are images of.

use vstd::prelude::*;
use vstd::slice::slice_to_vec;
use crate::clock::now_millis;
use crate::storage::block_key::{
    block_key,
    lemma_block_key_injective,
    lemma_table_path_injective,
    make_table_path,
    table_path,
};
use crate::storage::cache::{cached, BlockCache, Cached};
use crate::storage::codec::Entry;
use crate::storage::compression::CompressionType;
use crate::storage::error::{kind_of_error, ErrorKind, StorageError};
use crate::storage::kv::{value_view, KVPair, KVPairView, StorageConfig};
use crate::storage::lsm_model::{
    contents,
    drain_fault,
    drain_step,
    drained,
    drains_to,
    flushed,
    in_order,
    lemma_drain_step_holds,
    lemma_drained_holds,
    lemma_faithful_kept,
    lemma_flushed_holds,
    lemma_logged_faithful,
    lemma_logged_holds,
    lemma_opened,
    lemma_recovered_cost,
    lemma_replay_cost_prefix,
    lemma_rotated_holds,
    lemma_sequence_past_prefix,
    log_faithful,
    logged,
    mutation_fault,
    opened,
    queue_lookup,
    replay_cost,
    replayed,
    rotated,
    sequence_past,
    tables_lookup,
    visible,
    Listing,
    Settings,
    TableView,
    TreeView,
};
use crate::storage::memtable::{found_view, listing_view, total_footprint, MemTable};
use crate::storage::search::{run_keys, strictly_sorted};
use crate::storage::sstable::{
    build,
    cache_after_read,
    fails_as,
    lemma_build_fails_on,
    lemma_coherent_read,
    lemma_read_keeps_coherent,
    table_fault,
    table_file,
    BuildState,
    SSTable,
    SSTableBuilder,
};
use crate::storage::table_image::found_in;
use crate::storage::wal::{
    lemma_frame_round_trip,
    pairs_view,
    recovered,
    whole_frames,
    WriteAheadLog,
};

verus! {

/// The bytes of one mebibyte.
pub const MEBIBYTE: usize = 1024 * 1024;

/// Whether a configuration can be opened: it has a level, and its sizes in
/// bytes fit a `usize`.
pub open spec fn config_ok(config: StorageConfig) -> bool {
    &&& config.max_levels >= 1
    &&& config.cache_size_mb * MEBIBYTE <= usize::MAX
    &&& config.memtable_size_mb * MEBIBYTE <= usize::MAX
}

/// What a configuration decides of the writing of tables.
pub open spec fn settings_of(config: StorageConfig) -> Settings {
    Settings {
        kind: config.compression,
        dir: config.data_dir@,
        threshold: (config.memtable_size_mb * MEBIBYTE) as nat,
    }
}

/// The listings of a queue of memtables.
pub open spec fn queue_listings(queue: Seq<MemTable>) -> Seq<Listing> {
    queue.map_values(|table: MemTable| table.entries())
}

/// The tables of a level as mathematical values: the path of each with
/// the entries that it was built of.
pub open spec fn table_views(tables: Seq<SSTable>, sources: Seq<Seq<Entry>>) -> Seq<TableView> {
    Seq::new(tables.len(), |j: int| TableView { path: tables[j].path(), entries: sources[j] })
}

/// No block of a table that is yet to be numbered is cached.
pub open spec fn cache_fresh(cache: Seq<Cached>, dir: Seq<char>, next: u64) -> bool {
    forall|n: u64, offset: u64|
        n >= next ==> cached(cache, #[trigger] block_key(table_path(dir, n), offset)).is_none()
}

/// The tables of a level are sound: each holds the layout of its image, has
/// the path of its number, can be read for every key, and agrees with the
/// cache; and no number is given twice.
pub open spec fn tables_ok(
    tables: Seq<SSTable>,
    numbers: Seq<u64>,
    dir: Seq<char>,
    next: u64,
    cache: Seq<Cached>,
) -> bool {
    &&& numbers.len() == tables.len()
    &&& forall|j: int|
        0 <= j < tables.len() ==> {
            &&& (#[trigger] tables[j]).well_formed()
            &&& tables[j].path() == table_path(dir, numbers[j])
            &&& numbers[j] < next
            &&& tables[j].agrees_with(cache)
            &&& forall|key: Seq<u8>| (#[trigger] tables[j].lookup(key)) is Ok
        }
    &&& forall|i: int, j: int|
        0 <= i < j < numbers.len() ==> #[trigger] numbers[i] != #[trigger] numbers[j]
}

/// The tables of a level hold what they were built of: the file of each is
/// the file of its entries, whose keys ascend without repetition, and
/// reading a key from it gives what the entries hold for the key.
pub open spec fn tables_built(
    kind: CompressionType,
    tables: Seq<SSTable>,
    sources: Seq<Seq<Entry>>,
) -> bool {
    &&& sources.len() == tables.len()
    &&& forall|j: int|
        0 <= j < tables.len() ==> {
            &&& strictly_sorted(run_keys(#[trigger] sources[j]))
            &&& table_fault(kind, sources[j]) is None
            &&& tables[j].image() == table_file(kind, sources[j])
            &&& forall|key: Seq<u8>| #[trigger]
                tables[j].lookup(key) == Ok::<Option<Option<Seq<u8>>>, ErrorKind>(
                    found_in(sources[j], key),
                )
        }
}

/// Asks the tables of a level for `key`, from the newest to the oldest.
fn search_tables(
    tables: &Vec<SSTable>,
    cache: &mut BlockCache,
    key: &[u8],
    Ghost(numbers): Ghost<Seq<u64>>,
    Ghost(sources): Ghost<Seq<Seq<Entry>>>,
    Ghost(kind): Ghost<CompressionType>,
    Ghost(dir): Ghost<Seq<char>>,
    Ghost(next): Ghost<u64>,
) -> (r: Result<Option<Option<Vec<u8>>>, StorageError>)
    requires
        old(cache).well_formed(),
        tables_ok(tables@, numbers, dir, next, old(cache)@),
        tables_built(kind, tables@, sources),
        cache_fresh(old(cache)@, dir, next),
    ensures
        final(cache).well_formed(),
        final(cache).limit() == old(cache).limit(),
        tables_ok(tables@, numbers, dir, next, final(cache)@),
        cache_fresh(final(cache)@, dir, next),
        tables@.len() == 0 ==> final(cache)@ == old(cache)@,
        r matches Ok(found) && found_view(found) == tables_lookup(
            table_views(tables@, sources),
            key@,
        ),
{
    let ghost views = table_views(tables@, sources);
    let mut j: usize = tables.len();
    assert(views.take(j as int) =~= views);
    while j > 0
        invariant
            j <= tables@.len(),
            cache.well_formed(),
            cache.limit() == old(cache).limit(),
            tables_ok(tables@, numbers, dir, next, cache@),
            tables_built(kind, tables@, sources),
            cache_fresh(cache@, dir, next),
            tables@.len() == 0 ==> cache@ == old(cache)@,
            views == table_views(tables@, sources),
            tables_lookup(views, key@) == tables_lookup(views.take(j as int), key@),
        decreases j,
    {
        j -= 1;
        let table = &tables[j];
        let ghost before = cache@;
        proof {
            assert(views.take(j + 1).last() == views[j as int]);
            assert(views.take(j + 1).drop_last() =~= views.take(j as int));
            assert(tables@[j as int].well_formed());
            table.lemma_well_formed();
            cache.lemma_well_formed();
            lemma_coherent_read(before, table.layout(), table.image(), table.path(), key@);
        }
        let answer = table.get(key, cache);
        proof {
            lemma_search_keeps(tables@, numbers, dir, next, before, cache.limit(), j as int, key@);
            assert(tables@[j as int].lookup(key@) == Ok::<Option<Option<Seq<u8>>>, ErrorKind>(
                found_in(sources[j as int], key@),
            ));
        }
        match answer {
            Ok(Some(found)) => {
                return Ok(Some(found));
            },
            Ok(None) => {},
            Err(e) => {
                return Err(e);
            },
        }
    }
    assert(views.take(0) =~= Seq::<TableView>::empty());
    Ok(None)
}

/// A read of one table of a level leaves every table of the level in
/// agreement with the cache, and caches no block of a table to come.
proof fn lemma_search_keeps(
    tables: Seq<SSTable>,
    numbers: Seq<u64>,
    dir: Seq<char>,
    next: u64,
    cache: Seq<Cached>,
    limit: nat,
    j: int,
    key: Seq<u8>,
)
    requires
        crate::storage::cache::distinct(cache),
        tables_ok(tables, numbers, dir, next, cache),
        cache_fresh(cache, dir, next),
        0 <= j < tables.len(),
    ensures
        tables_ok(
            tables,
            numbers,
            dir,
            next,
            cache_after_read(
                tables[j].layout(),
                tables[j].image(),
                tables[j].path(),
                cache,
                limit,
                key,
            ),
        ),
        cache_fresh(
            cache_after_read(
                tables[j].layout(),
                tables[j].image(),
                tables[j].path(),
                cache,
                limit,
                key,
            ),
            dir,
            next,
        ),
{
    let table = tables[j];
    let after = cache_after_read(table.layout(), table.image(), table.path(), cache, limit, key);
    assert(table.well_formed());
    table.lemma_well_formed();
    assert forall|i: int| 0 <= i < tables.len() implies (#[trigger] tables[i]).agrees_with(
        after,
    ) by {
        let other = tables[i];
        assert(other.well_formed());
        if i != j && other.path() == table.path() {
            lemma_table_path_injective(dir, numbers[i], numbers[j]);
            if i < j {
                assert(numbers[i] != numbers[j]);
            } else {
                assert(numbers[j] != numbers[i]);
            }
        }
        lemma_read_keeps_coherent(
            cache,
            limit,
            table.layout(),
            table.image(),
            table.path(),
            key,
            other.layout(),
            other.image(),
            other.path(),
        );
    }
    assert forall|n: u64, offset: u64| n >= next implies cached(
        after,
        #[trigger] block_key(table_path(dir, n), offset),
    ).is_none() by {
        lemma_fresh_after_read(table, dir, numbers[j], cache, limit, key, n, offset);
    }
}

/// A read of a table caches blocks of that table only.
proof fn lemma_fresh_after_read(
    table: SSTable,
    dir: Seq<char>,
    number: u64,
    cache: Seq<Cached>,
    limit: nat,
    key: Seq<u8>,
    n: u64,
    offset: u64,
)
    requires
        crate::storage::cache::distinct(cache),
        table.path() == table_path(dir, number),
        n != number,
        cached(cache, block_key(table_path(dir, n), offset)).is_none(),
    ensures
        cached(
            cache_after_read(table.layout(), table.image(), table.path(), cache, limit, key),
            block_key(table_path(dir, n), offset),
        ).is_none(),
{
    let name = block_key(table_path(dir, n), offset);
    match crate::storage::sstable::seek(table.layout().index, key) {
        None => {},
        Some(i) => {
            let handle = table.layout().index[i].1;
            let read_name = block_key(table.path(), handle.offset);
            if read_name == name {
                lemma_block_key_injective(table.path(), handle.offset, table_path(dir, n), offset);
                lemma_table_path_injective(dir, number, n);
            }
            match cached(cache, read_name) {
                Some(_) => {
                    crate::storage::cache::lemma_touched_keeps(cache, read_name, name);
                },
                None => match crate::storage::compression::unpacked(
                    table.layout().footer.compression,
                    crate::storage::sstable::block_bytes(table.image(), handle),
                ) {
                    None => {},
                    Some(plain) => {
                        crate::storage::cache::lemma_stored_keeps(
                            cache,
                            read_name,
                            plain,
                            limit,
                            name,
                        );
                    },
                },
            }
        },
    }
}

/// Writes the entries of a memtable to a new table.
fn build_table(memtable: &MemTable, path: &str, compression: CompressionType) -> (r: Result<
    SSTable,
    StorageError,
>)
    requires
        memtable.well_formed(),
    ensures
        match r {
            Ok(table) => {
                &&& table.well_formed()
                &&& table.path() == path@
                &&& table_fault(compression, flushed(memtable.entries())) is None
                &&& table.image() == table_file(compression, flushed(memtable.entries()))
                &&& forall|key: Seq<u8>| #[trigger]
                    table.lookup(key) == Ok::<Option<Option<Seq<u8>>>, ErrorKind>(
                        found_in(flushed(memtable.entries()), key),
                    )
            },
            Err(e) => fails_as(compression, table_fault(compression, flushed(memtable.entries())), e),
        },
{
    let mut builder = match SSTableBuilder::new(path, compression) {
        Ok(builder) => builder,
        Err(e) => {
            return Err(e);
        },
    };
    let listing = memtable.iter();
    let ghost all = flushed(memtable.entries());
    proof {
        lemma_flushed_holds(memtable.entries(), Seq::empty());
        assert(all.take(0) =~= Seq::<Entry>::empty());
        assert(builder.entries() =~= Seq::<Entry>::empty());
    }
    let mut i: usize = 0;
    while i < listing.len()
        invariant
            i <= listing@.len(),
            listing_view(listing@) == memtable.entries(),
            all == flushed(memtable.entries()),
            strictly_sorted(run_keys(all)),
            builder.well_formed(),
            builder.path() == path@,
            builder.kind() == compression,
            builder.entries() == all.take(i as int),
            build(compression, all.take(i as int)) == Ok::<BuildState, ErrorKind>(builder.state()),
        decreases listing@.len() - i,
    {
        let ghost entry = all[i as int];
        let ghost before = builder.entries();
        proof {
            assert(memtable.entries()[i as int] == (listing@[i as int].0@, listing@[i as int].1@));
            assert(entry == (listing@[i as int].0@, value_view(listing@[i as int].1.value)));
            assert(all.take(i + 1).drop_last() =~= all.take(i as int));
            assert(all.take(i + 1).last() == entry);
            if i > 0 {
                assert(before.last() == all[i - 1]);
                assert(run_keys(all)[i - 1] == all[i - 1].0);
                assert(run_keys(all)[i as int] == all[i as int].0);
                crate::storage::bytes::lemma_lex_asymmetric(all[i - 1].0, all[i as int].0);
            }
        }
        match builder.add(listing[i].0.as_slice(), &listing[i].1.value, listing[i].1.sequence) {
            Ok(_) => {},
            Err(e) => {
                proof {
                    if build(compression, all.take(i + 1)) is Err {
                        lemma_build_fails_on(compression, all, i + 1);
                    }
                }
                return Err(e);
            },
        }
        proof {
            assert(builder.entries() =~= before.push(entry));
            assert(all.take(i as int).push(entry) =~= all.take(i + 1));
        }
        i += 1;
    }
    assert(all.take(i as int) =~= all);
    builder.finish()
}

/// LSM-tree storage engine.
pub struct LSMTree {
    config: StorageConfig,
    sequence_number: u64,
    active_memtable: MemTable,
    immutable_memtables: Vec<MemTable>,
    wal: WriteAheadLog,
    levels: Vec<Vec<SSTable>>,
    cache: BlockCache,
    threshold: usize,
    compaction_due: bool,
    numbers: Ghost<Seq<u64>>,
    sources: Ghost<Seq<Seq<Entry>>>,
}

impl View for LSMTree {
    type V = TreeView;

    /// The tree as a mathematical value.
    closed spec fn view(&self) -> TreeView {
        TreeView {
            active: self.active_memtable.entries(),
            queue: queue_listings(self.immutable_memtables@),
            tables: table_views(self.files(), self.sources@),
            next_sequence: self.sequence_number,
            log: self.wal.image(),
        }
    }
}

impl LSMTree {
    /// The tables of level 0, the oldest first.
    pub closed spec fn files(&self) -> Seq<SSTable> {
        if self.levels@.len() > 0 {
            self.levels@[0]@
        } else {
            Seq::empty()
        }
    }

    /// The configuration that the tree was opened with.
    pub closed spec fn settings(&self) -> StorageConfig {
        self.config
    }

    /// What the configuration decides of the writing of tables.
    pub open spec fn rules(&self) -> Settings {
        settings_of(self.settings())
    }

    /// What the tree holds for `key`: a value, a tombstone, or nothing.
    pub open spec fn contents(&self, key: Seq<u8>) -> Option<Option<Seq<u8>>> {
        contents(self@, key)
    }

    /// What a read of `key` gives.
    pub open spec fn read(&self, key: Seq<u8>) -> Option<Seq<u8>> {
        visible(self.contents(key))
    }

    /// The parts are sound, only level 0 holds tables, the tables hold what
    /// they were built of and agree with the cache, the memtable is no
    /// larger than the log, and what the tree holds can be recovered from
    /// the log.
    pub closed spec fn well_formed(&self) -> bool {
        &&& self.active_memtable.well_formed()
        &&& forall|i: int|
            0 <= i < self.immutable_memtables@.len() ==> (
            #[trigger] self.immutable_memtables@[i]).well_formed()
        &&& self.cache.well_formed()
        &&& config_ok(self.config)
        &&& self.levels@.len() == self.config.max_levels
        &&& forall|l: int| 1 <= l < self.levels@.len() ==> (#[trigger] self.levels@[l])@.len() == 0
        &&& self.threshold == self.config.memtable_size_mb * MEBIBYTE
        &&& self.active_memtable.footprint() <= self.wal.image().len()
        &&& tables_ok(
            self.levels@[0]@,
            self.numbers@,
            self.config.data_dir@,
            self.sequence_number,
            self.cache@,
        )
        &&& tables_built(self.config.compression, self.levels@[0]@, self.sources@)
        &&& cache_fresh(self.cache@, self.config.data_dir@, self.sequence_number)
        &&& self.compaction_due == (self.levels@[0]@.len() >= 1 && self.levels@[0]@.len()
            >= self.config.l0_compaction_trigger)
        &&& log_faithful(self@)
    }

    /// What the invariant says to the outside: the listings of the tree are
    /// in order, what the tree holds can be recovered from its log, and the
    /// file of each table of level 0 is the file of the entries that the
    /// table was built of, under its path.
    pub proof fn lemma_well_formed(&self)
        requires
            self.well_formed(),
        ensures
            in_order(self@),
            log_faithful(self@),
            config_ok(self.settings()),
            self.files().len() == self@.tables.len(),
            forall|j: int|
                0 <= j < self.files().len() ==> {
                    &&& (#[trigger] self.files()[j]).well_formed()
                    &&& self.files()[j].path() == self@.tables[j].path
                    &&& self.files()[j].image() == table_file(
                        self.rules().kind,
                        self@.tables[j].entries,
                    )
                },
    {
        self.active_memtable.lemma_well_formed();
        assert forall|i: int| 0 <= i < self@.queue.len() implies strictly_sorted(
            run_keys(#[trigger] self@.queue[i]),
        ) by {
            assert(self.immutable_memtables@[i].well_formed());
            self.immutable_memtables@[i].lemma_well_formed();
        }
        assert forall|j: int| 0 <= j < self@.tables.len() implies strictly_sorted(
            run_keys((#[trigger] self@.tables[j]).entries),
        ) by {
            assert(strictly_sorted(run_keys(self.sources@[j])));
        }
        assert forall|j: int| 0 <= j < self.files().len() implies {
            &&& (#[trigger] self.files()[j]).well_formed()
            &&& self.files()[j].path() == self@.tables[j].path
            &&& self.files()[j].image() == table_file(self.rules().kind, self@.tables[j].entries)
        } by {
            assert(strictly_sorted(run_keys(self.sources@[j])));
        }
    }

    /// Opens a tree over the log whose file holds `wal_image`: the memtable
    /// is what replaying the log gives, the level array is empty, and the
    /// sequence counter is one past the highest sequence number in the log.
    ///
    /// A configuration without a level, or with a size that does not fit a
    /// `usize` in bytes, is refused. So is a log that holds the sequence
    /// number `u64::MAX`, past which none is left.
    pub fn open(config: StorageConfig, wal_image: Vec<u8>) -> (r: Result<Self, StorageError>)
        ensures
            match r {
                Ok(tree) => {
                    &&& tree.well_formed()
                    &&& config_ok(config)
                    &&& sequence_past(recovered(wal_image@)) <= u64::MAX
                    &&& tree.settings() == config
                    &&& tree@ == opened(wal_image@)
                },
                Err(e) => if config_ok(config) {
                    kind_of_error(e) == ErrorKind::Wal && sequence_past(recovered(wal_image@))
                        > u64::MAX
                } else {
                    kind_of_error(e) == ErrorKind::Config
                },
            },
    {
        if config.max_levels < 1 {
            return Err(StorageError::Config("max_levels must be at least 1".to_string()));
        }
        let capacity: usize = match config.cache_size_mb.checked_mul(MEBIBYTE) {
            Some(bytes) => bytes,
            None => {
                return Err(StorageError::Config("cache_size_mb is too large".to_string()));
            },
        };
        let threshold: usize = match config.memtable_size_mb.checked_mul(MEBIBYTE) {
            Some(bytes) => bytes,
            None => {
                return Err(StorageError::Config("memtable_size_mb is too large".to_string()));
            },
        };
        let mut wal = WriteAheadLog::open(wal_image);
        let cache = BlockCache::new(capacity);
        let mut levels: Vec<Vec<SSTable>> = Vec::new();
        let mut l: usize = 0;
        while l < config.max_levels
            invariant
                l <= config.max_levels,
                levels@.len() == l,
                forall|k: int| 0 <= k < levels@.len() ==> (#[trigger] levels@[k])@.len() == 0,
            decreases config.max_levels - l,
        {
            levels.push(Vec::new());
            l += 1;
        }
        let (active_memtable, sequence_number) = match Self::recover_from_wal(&mut wal) {
            Ok(recovered_state) => recovered_state,
            Err(e) => {
                return Err(e);
            },
        };
        let tree = LSMTree {
            config,
            sequence_number,
            active_memtable,
            immutable_memtables: Vec::new(),
            wal,
            levels,
            cache,
            threshold,
            compaction_due: false,
            numbers: Ghost(Seq::empty()),
            sources: Ghost(Seq::empty()),
        };
        proof {
            assert(tree@.queue =~= Seq::<Listing>::empty());
            assert(tree@.tables =~= Seq::<TableView>::empty());
            assert forall|name: Seq<char>| cached(Seq::<Cached>::empty(), name).is_none() by {}
            lemma_opened(wal_image@);
        }
        Ok(tree)
    }

    /// Replays the log into a fresh memtable.
    fn recover_from_wal(wal: &mut WriteAheadLog) -> (r: Result<(MemTable, u64), StorageError>)
        ensures
            final(wal).image() == whole_frames(old(wal).image()),
            match r {
                Ok((memtable, sequence)) => {
                    &&& memtable.well_formed()
                    &&& memtable.entries() == replayed(recovered(old(wal).image()))
                    &&& memtable.footprint() <= final(wal).image().len()
                    &&& sequence == sequence_past(recovered(old(wal).image()))
                },
                Err(e) => kind_of_error(e) == ErrorKind::Wal && sequence_past(
                    recovered(old(wal).image()),
                ) > u64::MAX,
            },
    {
        let entries = match wal.recover() {
            Ok(entries) => entries,
            Err(e) => {
                return Err(e);
            },
        };
        let ghost all = pairs_view(entries@);
        let mut memtable = MemTable::new();
        let mut sequence: u64 = 0;
        let mut i: usize = 0;
        let log_len: usize = wal.as_bytes().len();
        proof {
            lemma_recovered_cost(wal.image());
            assert(all.take(0) =~= Seq::<KVPairView>::empty());
        }
        while i < entries.len()
            invariant
                i <= entries@.len(),
                all == pairs_view(entries@),
                all == recovered(old(wal).image()),
                wal.image() == whole_frames(old(wal).image()),
                replay_cost(all) <= log_len == wal.image().len(),
                memtable.well_formed(),
                memtable.entries() == replayed(all.take(i as int)),
                memtable.footprint() <= replay_cost(all.take(i as int)),
                sequence == sequence_past(all.take(i as int)),
            decreases entries@.len() - i,
        {
            let entry = &entries[i];
            proof {
                assert(all[i as int] == entry@);
                assert(all.take(i + 1).drop_last() =~= all.take(i as int));
                assert(all.take(i + 1).last() == entry@);
                lemma_replay_cost_prefix(all, i + 1);
            }
            if entry.sequence == u64::MAX {
                proof {
                    lemma_sequence_past_prefix(all, i + 1);
                }
                return Err(StorageError::Wal("WAL holds the last sequence number".to_string()));
            }
            let key = slice_to_vec(entry.key.as_slice());
            match &entry.value {
                Some(value) => {
                    memtable.put(key, slice_to_vec(value.as_slice()), entry.sequence);
                },
                None => {
                    memtable.delete(key, entry.sequence);
                },
            }
            if entry.sequence >= sequence {
                sequence = entry.sequence + 1;
            }
            i += 1;
        }
        proof {
            assert(all.take(i as int) =~= all);
        }
        Ok((memtable, sequence))
    }

    /// Writes `value` under `key`, stamped with the time of the system
    /// clock. See `put_at`, which does the work for any time.
    pub fn put(&mut self, key: Vec<u8>, value: Vec<u8>) -> (r: Result<(), StorageError>)
        requires
            old(self).well_formed(),
        ensures
            final(self).well_formed(),
            final(self).settings() == old(self).settings(),
            exists|timestamp: u64|
                mutation_outcome(
                    old(self).rules(),
                    old(self)@,
                    final(self)@,
                    KVPairView {
                        key: key@,
                        value: Some(value@),
                        timestamp,
                        sequence: old(self)@.next_sequence,
                    },
                    r,
                ),
    {
        let timestamp = now_millis();
        self.put_at(key, value, timestamp)
    }

    /// Writes `value` under `key` with the given timestamp: the mutation
    /// gets the next sequence number, is appended to the log, and is
    /// applied to the memtable; a memtable that has reached the threshold
    /// is then frozen, and the frozen memtables are written to level 0.
    ///
    /// Where no sequence number is left, or the mutation does not fit a log
    /// record, nothing changes and the error says so. Otherwise the write
    /// is in the log and in the tree, whatever is returned: an error then
    /// tells that a frozen memtable could not be written to a table, and
    /// it stays in the queue.
    pub fn put_at(&mut self, key: Vec<u8>, value: Vec<u8>, timestamp: u64) -> (r: Result<
        (),
        StorageError,
    >)
        requires
            old(self).well_formed(),
        ensures
            final(self).well_formed(),
            final(self).settings() == old(self).settings(),
            mutation_outcome(
                old(self).rules(),
                old(self)@,
                final(self)@,
                KVPairView {
                    key: key@,
                    value: Some(value@),
                    timestamp,
                    sequence: old(self)@.next_sequence,
                },
                r,
            ),
    {
        let kv = KVPair { key, value: Some(value), timestamp, sequence: self.sequence_number };
        self.mutate(kv)
    }

    /// Deletes `key`, stamped with the time of the system clock. See
    /// `delete_at`, which does the work for any time.
    pub fn delete(&mut self, key: &[u8]) -> (r: Result<(), StorageError>)
        requires
            old(self).well_formed(),
        ensures
            final(self).well_formed(),
            final(self).settings() == old(self).settings(),
            exists|timestamp: u64|
                mutation_outcome(
                    old(self).rules(),
                    old(self)@,
                    final(self)@,
                    KVPairView {
                        key: key@,
                        value: None,
                        timestamp,
                        sequence: old(self)@.next_sequence,
                    },
                    r,
                ),
    {
        let timestamp = now_millis();
        self.delete_at(key, timestamp)
    }

    /// Deletes `key` with the given timestamp: a tombstone is written as
    /// `put_at` writes a value, and shadows what older tiers hold.
    pub fn delete_at(&mut self, key: &[u8], timestamp: u64) -> (r: Result<(), StorageError>)
        requires
            old(self).well_formed(),
        ensures
            final(self).well_formed(),
            final(self).settings() == old(self).settings(),
            mutation_outcome(
                old(self).rules(),
                old(self)@,
                final(self)@,
                KVPairView {
                    key: key@,
                    value: None,
                    timestamp,
                    sequence: old(self)@.next_sequence,
                },
                r,
            ),
    {
        let kv = KVPair {
            key: slice_to_vec(key),
            value: None,
            timestamp,
            sequence: self.sequence_number,
        };
        self.mutate(kv)
    }

    /// Logs and applies one mutation, then rotates a full memtable.
    fn mutate(&mut self, kv: KVPair) -> (r: Result<(), StorageError>)
        requires
            old(self).well_formed(),
            kv.sequence == old(self)@.next_sequence,
        ensures
            final(self).well_formed(),
            final(self).settings() == old(self).settings(),
            mutation_outcome(old(self).rules(), old(self)@, final(self)@, kv@, r),
    {
        if self.sequence_number == u64::MAX {
            return Err(StorageError::Internal("sequence numbers are used up".to_string()));
        }
        match self.wal.append(&kv) {
            Ok(_) => {},
            Err(e) => {
                return Err(e);
            },
        }
        let log_len: usize = self.wal.as_bytes().len();
        proof {
            lemma_frame_round_trip(kv@);
        }
        let sequence = kv.sequence;
        let ghost view = kv@;
        let KVPair { key, value, .. } = kv;
        match value {
            Some(bytes) => {
                self.active_memtable.put(key, bytes, sequence);
            },
            None => {
                self.active_memtable.delete(key, sequence);
            },
        }
        self.sequence_number = self.sequence_number + 1;
        proof {
            lemma_fresh_later(
                self.cache@,
                self.config.data_dir@,
                old(self).sequence_number,
                self.sequence_number,
            );
            assert(self@.tables =~= old(self)@.tables);
            assert(self@ == logged(old(self)@, view));
            self.active_memtable.lemma_well_formed();
            old(self).lemma_well_formed();
            lemma_logged_faithful(old(self)@, view);
        }
        if self.active_memtable.size() >= self.threshold {
            self.rotate_memtable()
        } else {
            Ok(())
        }
    }

    /// Reads `key`: the value that the newest tier that knows the key has
    /// for it, or `None` where that is a tombstone or no tier knows it.
    pub fn get(&mut self, key: &[u8]) -> (r: Result<Option<Vec<u8>>, StorageError>)
        requires
            old(self).well_formed(),
        ensures
            final(self).well_formed(),
            final(self)@ == old(self)@,
            final(self).settings() == old(self).settings(),
            final(self).files() == old(self).files(),
            r matches Ok(found) && value_view(found) == old(self).read(key@),
    {
        proof {
            self.active_memtable.lemma_well_formed();
        }
        match self.active_memtable.get(key) {
            Some(found) => {
                return Ok(found);
            },
            None => {},
        }
        match self.search_queue(key) {
            Some(found) => {
                return Ok(found);
            },
            None => {},
        }
        let found = search_tables(
            &self.levels[0],
            &mut self.cache,
            key,
            Ghost(self.numbers@),
            Ghost(self.sources@),
            Ghost(self.config.compression),
            Ghost(self.config.data_dir@),
            Ghost(self.sequence_number),
        );
        match found {
            Ok(Some(value)) => {
                return Ok(value);
            },
            Ok(None) => {},
            Err(e) => {
                return Err(e);
            },
        }
        // The deeper levels, which hold no table while nothing is compacted.
        let mut l: usize = 1;
        while l < self.levels.len()
            invariant
                1 <= l,
                self.well_formed(),
                self.levels == old(self).levels,
                self.active_memtable == old(self).active_memtable,
                self.immutable_memtables == old(self).immutable_memtables,
                self.wal == old(self).wal,
                self.sequence_number == old(self).sequence_number,
                self.config == old(self).config,
                self.sources == old(self).sources,
            decreases self.levels@.len() - l,
        {
            let deeper = search_tables(
                &self.levels[l],
                &mut self.cache,
                key,
                Ghost(Seq::empty()),
                Ghost(Seq::empty()),
                Ghost(self.config.compression),
                Ghost(self.config.data_dir@),
                Ghost(self.sequence_number),
            );
            proof {
                self.cache.lemma_well_formed();
                assert(table_views(self.levels@[l as int]@, Seq::<Seq<Entry>>::empty())
                    =~= Seq::<TableView>::empty());
            }
            match deeper {
                Ok(Some(value)) => {
                    return Ok(value);
                },
                Ok(None) => {},
                Err(e) => {
                    return Err(e);
                },
            }
            l += 1;
        }
        Ok(None)
    }

    /// Asks the frozen memtables for `key`, from the newest to the oldest.
    fn search_queue(&self, key: &[u8]) -> (found: Option<Option<Vec<u8>>>)
        requires
            self.well_formed(),
        ensures
            found_view(found) == queue_lookup(self@.queue, key@),
    {
        let ghost queue = self@.queue;
        let mut i: usize = self.immutable_memtables.len();
        assert(queue.take(i as int) =~= queue);
        while i > 0
            invariant
                i <= self.immutable_memtables@.len(),
                self.well_formed(),
                queue == self@.queue,
                queue_lookup(queue, key@) == queue_lookup(queue.take(i as int), key@),
            decreases i,
        {
            i -= 1;
            proof {
                assert(queue.take(i + 1).last() == self.immutable_memtables@[i as int].entries());
                assert(queue.take(i + 1).drop_last() =~= queue.take(i as int));
                assert(self.immutable_memtables@[i as int].well_formed());
            }
            match self.immutable_memtables[i].get(key) {
                Some(found) => {
                    return Some(found);
                },
                None => {},
            }
        }
        assert(queue.take(0) =~= Seq::<Listing>::empty());
        None
    }

    /// Freezes the memtable, even under the threshold, and writes every
    /// frozen memtable to a table of level 0, the oldest first.
    ///
    /// After a success nothing is left in memory: the memtable and the
    /// queue are empty. A memtable that cannot be written stays in the
    /// queue with those behind it, and the error tells why.
    pub fn flush(&mut self) -> (r: Result<(), StorageError>)
        requires
            old(self).well_formed(),
        ensures
            final(self).well_formed(),
            final(self).settings() == old(self).settings(),
            drains_to(old(self).rules(), rotated(old(self)@), final(self)@, r),
    {
        match self.rotate_memtable() {
            Ok(_) => {},
            Err(e) => {
                return Err(e);
            },
        }
        let ghost mid = self@;
        let r = self.flush_immutable_memtables();
        proof {
            // Nothing was left to write after the rotation.
            assert(mid.queue.len() == 0);
            let n = choose|n: nat|
                n <= mid.queue.len() && self@ == #[trigger] drained(self.rules(), mid, n);
            assert(self@ == mid);
        }
        r
    }

    /// Puts a fresh memtable in the place of the memtable, queues the old
    /// one unless it is empty, and writes the queue to tables.
    fn rotate_memtable(&mut self) -> (r: Result<(), StorageError>)
        requires
            old(self).well_formed(),
        ensures
            final(self).well_formed(),
            final(self).settings() == old(self).settings(),
            drains_to(old(self).rules(), rotated(old(self)@), final(self)@, r),
    {
        let mut frozen = MemTable::new();
        std::mem::swap(&mut self.active_memtable, &mut frozen);
        let ghost queue = self@.queue;
        if !frozen.is_empty() {
            self.immutable_memtables.push(frozen);
            proof {
                assert(self@.queue =~= queue.push(frozen.entries()));
            }
        }
        proof {
            assert(self@.tables =~= old(self)@.tables);
            assert(self@ == rotated(old(self)@));
            old(self).lemma_well_formed();
            assert forall|key: Seq<u8>| contents(self@, key) == #[trigger] contents(
                old(self)@,
                key,
            ) by {
                lemma_rotated_holds(old(self)@, key);
            }
            lemma_faithful_kept(old(self)@, self@);
        }
        self.flush_immutable_memtables()
    }

    /// Writes the frozen memtables to tables, the oldest first, until the
    /// queue is empty or one cannot be written.
    fn flush_immutable_memtables(&mut self) -> (r: Result<(), StorageError>)
        requires
            old(self).well_formed(),
        ensures
            final(self).well_formed(),
            final(self).settings() == old(self).settings(),
            drains_to(old(self).rules(), old(self)@, final(self)@, r),
    {
        let ghost start = self@;
        let ghost rules = self.rules();
        let ghost mut n: nat = 0;
        while self.immutable_memtables.len() > 0
            invariant
                self.well_formed(),
                self.settings() == old(self).settings(),
                rules == self.rules(),
                start == old(self)@,
                n <= start.queue.len(),
                self@.queue.len() == start.queue.len() - n,
                self@ == drained(rules, start, n),
            decreases self@.queue.len(),
        {
            assert(self@.queue.len() == self.immutable_memtables@.len());
            match self.flush_memtable_to_l0() {
                Ok(_) => {},
                Err(e) => {
                    return Err(e);
                },
            }
            proof {
                n = n + 1;
            }
        }
        assert(self@.queue.len() == 0);
        Ok(())
    }

    /// Writes the oldest frozen memtable to a new table, named by the next
    /// sequence number, and makes it the newest table of level 0. An empty
    /// memtable is dropped without a table.
    fn flush_memtable_to_l0(&mut self) -> (r: Result<(), StorageError>)
        requires
            old(self).well_formed(),
            old(self)@.queue.len() > 0,
        ensures
            final(self).well_formed(),
            final(self).settings() == old(self).settings(),
            match r {
                Ok(_) => {
                    &&& drain_fault(old(self).rules(), old(self)@) is None
                    &&& final(self)@ == drain_step(old(self).rules(), old(self)@)
                    &&& final(self)@.queue.len() == old(self)@.queue.len() - 1
                },
                Err(e) => {
                    &&& final(self)@ == old(self)@
                    &&& fails_as(
                        old(self).rules().kind,
                        drain_fault(old(self).rules(), old(self)@),
                        e,
                    )
                },
            },
    {
        let ghost queue = self@.queue;
        let ghost tables = self.levels@[0]@;
        let ghost numbers = self.numbers@;
        let ghost sources = self.sources@;
        let ghost dir = self.config.data_dir@;
        let ghost kind = self.config.compression;
        let ghost oldest = self.immutable_memtables@[0];
        assert(queue[0] == oldest.entries());
        assert(oldest.well_formed());
        if self.immutable_memtables[0].is_empty() {
            let dropped = self.immutable_memtables.remove(0);
            proof {
                assert(self@.queue =~= queue.skip(1));
                assert(self@.tables =~= old(self)@.tables);
                old(self).lemma_well_formed();
                assert forall|key: Seq<u8>| contents(self@, key) == #[trigger] contents(
                    old(self)@,
                    key,
                ) by {
                    lemma_drain_step_holds(old(self).rules(), old(self)@, key);
                }
                lemma_faithful_kept(old(self)@, self@);
            }
            return Ok(());
        }
        if self.sequence_number == u64::MAX {
            return Err(StorageError::Internal("sequence numbers are used up".to_string()));
        }
        let number: u64 = self.sequence_number;
        let path = make_table_path(self.config.data_dir.as_str(), number);
        let table = match build_table(
            &self.immutable_memtables[0],
            path.as_str(),
            self.config.compression,
        ) {
            Ok(table) => table,
            Err(e) => {
                return Err(e);
            },
        };
        let ghost source = flushed(oldest.entries());
        proof {
            oldest.lemma_well_formed();
            lemma_flushed_holds(oldest.entries(), Seq::empty());
            // No block of the new table is cached, so it agrees with the cache.
            assert(table.agrees_with(self.cache@)) by {
                assert forall|i: int| 0 <= i < table.layout().index.len() implies cached(
                    self.cache@,
                    block_key(table.path(), (#[trigger] table.layout().index[i]).1.offset),
                ).is_none() by {
                    assert(cached(
                        self.cache@,
                        block_key(table_path(dir, number), table.layout().index[i].1.offset),
                    ).is_none());
                }
            }
            lemma_fresh_later(self.cache@, dir, number, (number + 1) as u64);
            assert(tables_ok(
                tables.push(table),
                numbers.push(number),
                dir,
                (number + 1) as u64,
                self.cache@,
            )) by {
                let grown = tables.push(table);
                let grown_numbers = numbers.push(number);
                assert forall|j: int| 0 <= j < grown.len() implies {
                    &&& (#[trigger] grown[j]).well_formed()
                    &&& grown[j].path() == table_path(dir, grown_numbers[j])
                    &&& grown_numbers[j] < number + 1
                    &&& grown[j].agrees_with(self.cache@)
                    &&& forall|key: Seq<u8>| (#[trigger] grown[j].lookup(key)) is Ok
                } by {
                    if j < tables.len() {
                        assert(grown[j] == tables[j]);
                        assert(tables[j].well_formed());
                    }
                }
                assert forall|i: int, j: int| 0 <= i < j < grown_numbers.len() implies
                    #[trigger] grown_numbers[i] != #[trigger] grown_numbers[j] by {
                    if j < numbers.len() {
                        assert(numbers[i] != numbers[j]);
                    } else {
                        assert(tables[i].well_formed());
                        assert(numbers[i] < number);
                    }
                }
            }
            assert(tables_built(kind, tables.push(table), sources.push(source))) by {
                let grown = tables.push(table);
                let grown_sources = sources.push(source);
                assert forall|j: int| 0 <= j < grown.len() implies {
                    &&& strictly_sorted(run_keys(#[trigger] grown_sources[j]))
                    &&& table_fault(kind, grown_sources[j]) is None
                    &&& grown[j].image() == table_file(kind, grown_sources[j])
                    &&& forall|key: Seq<u8>| #[trigger]
                        grown[j].lookup(key) == Ok::<Option<Option<Seq<u8>>>, ErrorKind>(
                            found_in(grown_sources[j], key),
                        )
                } by {
                    if j < tables.len() {
                        assert(grown[j] == tables[j]);
                        assert(grown_sources[j] == sources[j]);
                        assert(strictly_sorted(run_keys(sources[j])));
                    }
                }
            }
        }
        self.sequence_number = number + 1;
        let flushed_memtable = self.immutable_memtables.remove(0);
        let mut level = self.levels.remove(0);
        level.push(table);
        self.compaction_due = level.len() >= self.config.l0_compaction_trigger;
        self.levels.insert(0, level);
        self.numbers = Ghost(numbers.push(number));
        self.sources = Ghost(sources.push(source));
        proof {
            assert(self@.queue =~= queue.skip(1));
            assert(self.levels@[0]@ =~= tables.push(table));
            assert(self.levels@.len() == old(self).levels@.len());
            assert forall|l: int| 1 <= l < self.levels@.len() implies (
            #[trigger] self.levels@[l])@.len() == 0 by {
                assert(self.levels@[l] == old(self).levels@[l]);
            }
            assert(self@.tables =~= old(self)@.tables.push(
                TableView { path: table_path(dir, number), entries: source },
            ));
            old(self).lemma_well_formed();
            assert forall|key: Seq<u8>| contents(self@, key) == #[trigger] contents(
                old(self)@,
                key,
            ) by {
                lemma_drain_step_holds(old(self).rules(), old(self)@, key);
            }
            lemma_faithful_kept(old(self)@, self@);
        }
        Ok(())
    }

    /// The image of the write-ahead log, for the host to persist.
    pub fn wal_bytes(&self) -> (bytes: &Vec<u8>)
        ensures
            bytes@ == self@.log,
    {
        self.wal.as_bytes()
    }

    /// The tables of a level, the oldest first, for the host to persist.
    /// Only level 0 holds tables while nothing is compacted.
    pub fn level(&self, level: usize) -> (tables: &Vec<SSTable>)
        requires
            self.well_formed(),
            level < self.settings().max_levels,
        ensures
            level == 0 ==> tables@ == self.files(),
            level > 0 ==> tables@.len() == 0,
    {
        &self.levels[level]
    }

    /// The number of levels.
    pub fn level_count(&self) -> (n: usize)
        requires
            self.well_formed(),
        ensures
            n == self.settings().max_levels,
            n >= 1,
    {
        self.levels.len()
    }

    /// The sequence number that the next mutation or table gets.
    pub fn sequence_number(&self) -> (n: u64)
        ensures
            n == self@.next_sequence,
    {
        self.sequence_number
    }

    /// The configuration that the tree was opened with.
    pub fn config(&self) -> (config: &StorageConfig)
        ensures
            *config == self.settings(),
    {
        &self.config
    }

    /// Whether a compaction is due: level 0 has a table, and as many tables
    /// as the compaction trigger asks for. The merge itself is not part of
    /// this engine.
    pub fn compaction_due(&self) -> (due: bool)
        requires
            self.well_formed(),
        ensures
            due == (self@.tables.len() >= 1 && self@.tables.len()
                >= self.settings().l0_compaction_trigger),
    {
        self.compaction_due
    }
}

/// What one mutation makes of a tree. Without a sequence number left, or
/// where the mutation does not fit a log record, the tree stays as it is
/// and the error is `Internal` or `Wal`. Otherwise the mutation is logged
/// and applied to the memtable; where the memtable has then reached the
/// threshold, it is frozen and the frozen memtables are written to tables.
pub open spec fn mutation_outcome(
    settings: Settings,
    before: TreeView,
    after: TreeView,
    kv: KVPairView,
    r: Result<(), StorageError>,
) -> bool {
    match mutation_fault(before, kv) {
        Some(fault) => {
            &&& r matches Err(e) && kind_of_error(e) == fault
            &&& after == before
        },
        None => {
            let start = logged(before, kv);
            if total_footprint(start.active) >= settings.threshold {
                drains_to(settings, rotated(start), after, r)
            } else {
                after == start && r is Ok
            }
        },
    }
}

/// A cache that holds no block of the tables from `next` on holds none of
/// those from a later number on.
proof fn lemma_fresh_later(cache: Seq<Cached>, dir: Seq<char>, next: u64, later: u64)
    requires
        cache_fresh(cache, dir, next),
        next <= later,
    ensures
        cache_fresh(cache, dir, later),
{
}

/// A value that was written is the value that is read: right after the
/// write, after the memtable that took it was frozen, and after any number
/// of frozen memtables went to tables.
pub proof fn lemma_read_after_write(
    settings: Settings,
    view: TreeView,
    kv: KVPairView,
    value: Seq<u8>,
    n: nat,
)
    requires
        in_order(view),
        kv.value == Some(value),
    ensures
        visible(contents(logged(view, kv), kv.key)) == Some(value),
        visible(contents(rotated(logged(view, kv)), kv.key)) == Some(value),
        visible(contents(drained(settings, rotated(logged(view, kv)), n), kv.key)) == Some(value),
{
    lemma_logged_holds(view, kv, kv.key);
    lemma_rotated_holds(logged(view, kv), kv.key);
    lemma_drained_holds(settings, rotated(logged(view, kv)), n, kv.key);
}

/// A key that was deleted reads as absent, whatever the older tiers hold
/// for it: right after the deletion, after the memtable that took the
/// tombstone was frozen, and after any number of frozen memtables went to
/// tables.
pub proof fn lemma_read_after_delete(settings: Settings, view: TreeView, kv: KVPairView, n: nat)
    requires
        in_order(view),
        kv.value is None,
    ensures
        visible(contents(logged(view, kv), kv.key)) is None,
        visible(contents(rotated(logged(view, kv)), kv.key)) is None,
        visible(contents(drained(settings, rotated(logged(view, kv)), n), kv.key)) is None,
{
    lemma_logged_holds(view, kv, kv.key);
    lemma_rotated_holds(logged(view, kv), kv.key);
    lemma_drained_holds(settings, rotated(logged(view, kv)), n, kv.key);
}

/// A mutation changes what the tree holds for its key only, however far
/// the writing of frozen memtables gets; and a log from which the tree
/// could be recovered is one from which it can be recovered afterwards.
pub proof fn lemma_mutation_holds(
    settings: Settings,
    before: TreeView,
    after: TreeView,
    kv: KVPairView,
    r: Result<(), StorageError>,
    key: Seq<u8>,
)
    requires
        in_order(before),
        mutation_outcome(settings, before, after, kv, r),
    ensures
        in_order(after),
        contents(after, key) == if mutation_fault(before, kv) is None && key == kv.key {
            Some(kv.value)
        } else {
            contents(before, key)
        },
        log_faithful(before) ==> log_faithful(after),
        r is Ok ==> mutation_fault(before, kv) is None,
{
    if mutation_fault(before, kv) is None {
        let start = logged(before, kv);
        lemma_logged_holds(before, kv, key);
        if log_faithful(before) {
            lemma_logged_faithful(before, kv);
        }
        if total_footprint(start.active) >= settings.threshold {
            lemma_drains_to_holds(settings, rotated(start), after, r, key);
            lemma_rotated_holds(start, key);
            if log_faithful(start) {
                assert forall|k: Seq<u8>| contents(after, k) == #[trigger] contents(start, k) by {
                    lemma_drains_to_holds(settings, rotated(start), after, r, k);
                    lemma_rotated_holds(start, k);
                }
                lemma_faithful_kept(start, after);
            }
        }
    }
}

/// Writing frozen memtables to tables changes nothing that the tree holds,
/// however far it gets.
pub proof fn lemma_drains_to_holds(
    settings: Settings,
    start: TreeView,
    end: TreeView,
    r: Result<(), StorageError>,
    key: Seq<u8>,
)
    requires
        in_order(start),
        drains_to(settings, start, end, r),
    ensures
        in_order(end),
        contents(end, key) == contents(start, key),
        end.log == start.log,
        end.active == start.active,
{
    let n = choose|n: nat| n <= start.queue.len() && end == #[trigger] drained(settings, start, n);
    lemma_drained_holds(settings, start, n, key);
}

/// A flush changes nothing that the tree holds, and a log from which the
/// tree could be recovered is one from which it can be recovered
/// afterwards.
pub proof fn lemma_flush_holds(
    settings: Settings,
    before: TreeView,
    after: TreeView,
    r: Result<(), StorageError>,
    key: Seq<u8>,
)
    requires
        in_order(before),
        drains_to(settings, rotated(before), after, r),
    ensures
        in_order(after),
        contents(after, key) == contents(before, key),
        after.log == before.log,
        log_faithful(before) ==> log_faithful(after),
{
    lemma_rotated_holds(before, key);
    lemma_drains_to_holds(settings, rotated(before), after, r, key);
    if log_faithful(before) {
        assert forall|k: Seq<u8>| contents(after, k) == #[trigger] contents(before, k) by {
            lemma_rotated_holds(before, k);
            lemma_drains_to_holds(settings, rotated(before), after, r, k);
        }
        lemma_faithful_kept(before, after);
    }
}

/// A tree that is opened over the log of a tree that could be recovered
/// from it, as every tree can that was opened and then written to, holds
/// for every key what that tree held: the memtable that replaying the log
/// gives stands for all its tiers.
pub proof fn lemma_recovery_restores(crashed: TreeView, key: Seq<u8>)
    requires
        log_faithful(crashed),
    ensures
        contents(opened(crashed.log), key) == contents(crashed, key),
        opened(crashed.log).log == crashed.log,
        log_faithful(opened(crashed.log)),
{
    lemma_opened(crashed.log);
    crate::storage::wal::lemma_whole_frames(crashed.log);
}

} // verus!
