//! The memtable: the sorted, in-memory buffer of recent writes.

use vstd::prelude::*;
use vstd::slice::slice_to_vec;
use crate::storage::bytes::{compare_keys, KeyOrder};
use crate::storage::kv::value_view;
use crate::storage::search::{
    keys_of,
    lemma_insert_at_lower_bound,
    lemma_lower_bound_finds,
    lemma_strictly_sorted_is_sorted,
    lemma_update_at_place,
    lemma_lower_place,
    lower_bound,
    placed,
    map_of,
    holds_key,
    run_keys,
    strictly_sorted,
};

verus! {

/// What the memtable keeps for one key: the value, or `None` for a
/// tombstone, and the sequence number of the write.
#[derive(Debug, Clone)]
pub struct MemTableEntry {
    pub value: Option<Vec<u8>>,
    pub sequence: u64,
}

/// A memtable entry as a mathematical value.
pub struct MemEntryView {
    pub value: Option<Seq<u8>>,
    pub sequence: u64,
}

impl View for MemTableEntry {
    type V = MemEntryView;

    open spec fn view(&self) -> MemEntryView {
        MemEntryView { value: value_view(self.value), sequence: self.sequence }
    }
}

/// The fixed cost that the size estimate adds for each entry.
pub const ENTRY_OVERHEAD: usize = 16;

/// The bytes that the size estimate counts for one entry.
pub open spec fn footprint(key: Seq<u8>, value: Option<Seq<u8>>) -> nat {
    match value {
        Some(v) => key.len() + v.len() + ENTRY_OVERHEAD as nat,
        None => key.len() + ENTRY_OVERHEAD as nat,
    }
}

/// The size estimate of a run of entries.
pub open spec fn total_footprint(run: Seq<(Seq<u8>, MemEntryView)>) -> nat
    decreases run.len(),
{
    if run.len() == 0 {
        0
    } else {
        total_footprint(run.drop_last()) + footprint(run.last().0, run.last().1.value)
    }
}

/// The bytes that a memtable counts for `key`: the footprint of its entry,
/// or nothing where it has none.
pub open spec fn footprint_in(table: Map<Seq<u8>, MemEntryView>, key: Seq<u8>) -> nat {
    if table.contains_key(key) {
        footprint(key, table[key].value)
    } else {
        0
    }
}

/// What a read of `key` in a memtable gives: `None` where the key is absent,
/// `Some(None)` for a tombstone, `Some(Some(v))` for a live value.
pub open spec fn lookup(table: Map<Seq<u8>, MemEntryView>, key: Seq<u8>) -> Option<
    Option<Seq<u8>>,
> {
    if table.contains_key(key) {
        Some(table[key].value)
    } else {
        None
    }
}

/// The view of what a read returns.
pub open spec fn found_view(found: Option<Option<Vec<u8>>>) -> Option<Option<Seq<u8>>> {
    match found {
        Some(value) => Some(value_view(value)),
        None => None,
    }
}

/// The views of a run of memtable entries.
pub open spec fn listing_view(run: Seq<(Vec<u8>, MemTableEntry)>) -> Seq<(Seq<u8>, MemEntryView)> {
    run.map_values(|item: (Vec<u8>, MemTableEntry)| (item.0@, item.1@))
}
/// An entry that is put in adds its footprint.

proof fn lemma_total_insert(
    run: Seq<(Seq<u8>, MemEntryView)>,
    at: int,
    item: (Seq<u8>, MemEntryView),
)
    requires
        0 <= at <= run.len(),
    ensures
        total_footprint(run.insert(at, item)) == total_footprint(run) + footprint(
            item.0,
            item.1.value,
        ),
    decreases run.len(),
{
    let grown = run.insert(at, item);
    if at == run.len() {
        assert(grown.drop_last() =~= run);
    } else {
        assert(grown.drop_last() =~= run.drop_last().insert(at, item));
        lemma_total_insert(run.drop_last(), at, item);
    }
}
/// An entry that takes the place of another trades the footprints.

proof fn lemma_total_update(
    run: Seq<(Seq<u8>, MemEntryView)>,
    at: int,
    item: (Seq<u8>, MemEntryView),
)
    requires
        0 <= at < run.len(),
    ensures
        total_footprint(run.update(at, item)) + footprint(run[at].0, run[at].1.value)
            == total_footprint(run) + footprint(item.0, item.1.value),
        footprint(run[at].0, run[at].1.value) <= total_footprint(run),
    decreases run.len(),
{
    let changed = run.update(at, item);
    if at == run.len() - 1 {
        assert(changed.drop_last() =~= run.drop_last());
    } else {
        assert(changed.drop_last() =~= run.drop_last().update(at, item));
        lemma_total_update(run.drop_last(), at, item);
    }
}

/// A copy of an optional byte string.
pub fn copy_value(value: &Option<Vec<u8>>) -> (copy: Option<Vec<u8>>)
    ensures
        value_view(copy) == value_view(*value),
{
    match value {
        Some(bytes) => Some(slice_to_vec(bytes.as_slice())),
        None => None,
    }
}

/// In-memory sorted table of the most recent write of each key.
pub struct MemTable {
    data: Vec<(Vec<u8>, MemTableEntry)>,
    size: usize,
}

impl View for MemTable {
    type V = Map<Seq<u8>, MemEntryView>;

    /// The entry of each key that the memtable holds.
    open spec fn view(&self) -> Map<Seq<u8>, MemEntryView> {
        map_of(self.entries())
    }
}

impl MemTable {
    /// The entries in ascending key order.
    pub closed spec fn entries(&self) -> Seq<(Seq<u8>, MemEntryView)> {
        listing_view(self.data@)
    }

    /// The size estimate that is kept.
    pub closed spec fn footprint(&self) -> nat {
        self.size as nat
    }

    /// Keys ascend without repetition and the size estimate is the sum of
    /// the footprints.
    pub closed spec fn well_formed(&self) -> bool {
        &&& strictly_sorted(run_keys(self.entries()))
        &&& self.size == total_footprint(self.entries())
    }

    /// What the invariant says to the outside.
    pub proof fn lemma_well_formed(&self)
        requires
            self.well_formed(),
        ensures
            strictly_sorted(run_keys(self.entries())),
            self.footprint() == total_footprint(self.entries()),
            self@.dom().finite(),
    {
        let run = self.entries();
        let places = Set::new(|i: int| 0 <= i < run.len());
        vstd::set_lib::lemma_int_range(0, run.len() as int);
        assert(places =~= vstd::set_lib::set_int_range(0, run.len() as int));
        let keys = places.map(|i: int| run[i].0);
        places.lemma_map_finite(|i: int| run[i].0);
        assert(self@.dom() =~= keys) by {
            assert forall|k: Seq<u8>| self@.dom().contains(k) <==> keys.contains(k) by {
                if self@.dom().contains(k) {
                    let p = crate::storage::search::place_of(run, k);
                    assert(places.contains(p));
                }
            }
        }
    }

    /// An empty memtable.
    pub fn new() -> (table: Self)
        ensures
            table.well_formed(),
            table.entries() == Seq::<(Seq<u8>, MemEntryView)>::empty(),
            table@ == Map::<Seq<u8>, MemEntryView>::empty(),
            table.footprint() == 0,
    {
        let table = MemTable { data: Vec::new(), size: 0 };
        proof {
            assert(table.entries() =~= Seq::<(Seq<u8>, MemEntryView)>::empty());
            assert(table@ =~= Map::<Seq<u8>, MemEntryView>::empty());
        }
        table
    }

    /// Writes `entry` under `key`, over whatever the key had.
    fn upsert(&mut self, key: Vec<u8>, entry: MemTableEntry)
        requires
            old(self).well_formed(),
            old(self).footprint() - footprint_in(old(self)@, key@) + footprint(
                key@,
                entry@.value,
            ) <= usize::MAX,
        ensures
            final(self).well_formed(),
            final(self).entries() == placed(old(self).entries(), key@, entry@),
            final(self)@ == old(self)@.insert(key@, entry@),
            final(self).footprint() == old(self).footprint() - footprint_in(old(self)@, key@)
                + footprint(key@, entry@.value),
    {
        let ghost run = self.entries();
        proof {
            assert(keys_of(self.data@) =~= run_keys(run));
            lemma_strictly_sorted_is_sorted(run_keys(run));
        }
        let at: usize = lower_bound(self.data.as_slice(), key.as_slice());
        proof {
            lemma_lower_bound_finds(run, key@, at as int);
            lemma_lower_place(run_keys(run), key@, at as int);
        }
        let present = at < self.data.len() && compare_keys(
            self.data[at].0.as_slice(),
            key.as_slice(),
        ) == KeyOrder::Equal;
        assert(present == holds_key(run, key@)) by {
            if at < run.len() {
                assert(run[at as int].0 == self.data@[at as int].0@);
            }
        }
        let value_len: usize = match &entry.value {
            Some(v) => v.len(),
            None => 0,
        };
        if present {
            let old_len: usize = match &self.data[at].1.value {
                Some(v) => v.len(),
                None => 0,
            };
            proof {
                lemma_total_update(run, at as int, (key@, entry@));
                lemma_update_at_place(run, key@, entry@, at as int);
                assert(run[at as int].1 == self.data@[at as int].1@);
            }
            let old_size: usize = key.len() + old_len + ENTRY_OVERHEAD;
            let rest: usize = self.size - old_size;
            self.size = rest + key.len() + value_len + ENTRY_OVERHEAD;
            self.data.set(at, (key, entry));
            proof {
                assert(self.entries() =~= run.update(at as int, (key@, entry@)));
            }
        } else {
            proof {
                lemma_total_insert(run, at as int, (key@, entry@));
                lemma_insert_at_lower_bound(run, key@, entry@, at as int);
            }
            self.size = self.size + key.len() + value_len + ENTRY_OVERHEAD;
            self.data.insert(at, (key, entry));
            proof {
                assert(self.entries() =~= run.insert(at as int, (key@, entry@)));
            }
        }
    }

    /// Writes `value` under `key`, over whatever the key had.
    pub fn put(&mut self, key: Vec<u8>, value: Vec<u8>, sequence: u64)
        requires
            old(self).well_formed(),
            old(self).footprint() - footprint_in(old(self)@, key@) + footprint(
                key@,
                Some(value@),
            ) <= usize::MAX,
        ensures
            final(self).well_formed(),
            final(self).entries() == placed(
                old(self).entries(),
                key@,
                MemEntryView { value: Some(value@), sequence },
            ),
            final(self)@ == old(self)@.insert(
                key@,
                MemEntryView { value: Some(value@), sequence },
            ),
            final(self).footprint() == old(self).footprint() - footprint_in(old(self)@, key@)
                + footprint(key@, Some(value@)),
    {
        self.upsert(key, MemTableEntry { value: Some(value), sequence });
    }

    /// Writes a tombstone under `key`, over whatever the key had.
    pub fn delete(&mut self, key: Vec<u8>, sequence: u64)
        requires
            old(self).well_formed(),
            old(self).footprint() - footprint_in(old(self)@, key@) + footprint(key@, None)
                <= usize::MAX,
        ensures
            final(self).well_formed(),
            final(self).entries() == placed(
                old(self).entries(),
                key@,
                MemEntryView { value: None, sequence },
            ),
            final(self)@ == old(self)@.insert(key@, MemEntryView { value: None, sequence }),
            final(self).footprint() == old(self).footprint() - footprint_in(old(self)@, key@)
                + footprint(key@, None),
    {
        self.upsert(key, MemTableEntry { value: None, sequence });
    }

    /// Reads `key`: `None` where it is absent, `Some(None)` for a tombstone,
    /// `Some(Some(v))` for a live value.
    pub fn get(&self, key: &[u8]) -> (found: Option<Option<Vec<u8>>>)
        requires
            self.well_formed(),
        ensures
            found_view(found) == lookup(self@, key@),
    {
        let ghost run = self.entries();
        proof {
            assert(keys_of(self.data@) =~= run_keys(run));
            lemma_strictly_sorted_is_sorted(run_keys(run));
        }
        let at: usize = lower_bound(self.data.as_slice(), key);
        proof {
            lemma_lower_bound_finds(run, key@, at as int);
            if at < run.len() {
                assert(run[at as int] == (self.data@[at as int].0@, self.data@[at as int].1@));
            }
        }
        if at < self.data.len() && compare_keys(self.data[at].0.as_slice(), key)
            == KeyOrder::Equal {
            Some(copy_value(&self.data[at].1.value))
        } else {
            None
        }
    }

    /// The size estimate: for each entry its key, its value and a fixed
    /// overhead.
    pub fn size(&self) -> (n: usize)
        ensures
            n == self.footprint(),
    {
        self.size
    }

    /// Whether the memtable holds no entry.
    pub fn is_empty(&self) -> (empty: bool)
        ensures
            empty == (self.entries().len() == 0),
    {
        self.data.is_empty()
    }

    /// The entries in ascending key order.
    pub fn iter(&self) -> (listing: &Vec<(Vec<u8>, MemTableEntry)>)
        requires
            self.well_formed(),
        ensures
            listing_view(listing@) == self.entries(),
            strictly_sorted(run_keys(self.entries())),
            self@ == map_of(self.entries()),
    {
        &self.data
    }
}

} // verus!
