//! What the simulated endpoints of the server decide: the kind of answer
//! that a query gets, the steps of the simulated counters, and the numbers
//! that stand for chance.

use vstd::prelude::*;
use std::collections::hash_map::DefaultHasher;
use std::hash::Hasher;
use vstd::std_specs::hash::DefaultHasherAdditionalSpecFns;
use crate::clock::now_nanos;
use crate::text::{chars_of, find, lowercase, lowercased, search_from};

verus! {

/// The kind of answer that the simulated query endpoint gives.
#[derive(Debug, Clone, Copy, PartialEq, Eq, Structural)]
pub enum QueryKind {
    /// The query holds `select`: two sample rows are returned.
    Select,
    /// The query holds `insert` and no `select`: one row is affected.
    Insert,
    /// Any other query is not supported in simulation mode.
    Unsupported,
}

/// The kind of answer that a query gets: by the words that it holds, in
/// whatever case.
pub open spec fn kind_of_query(sql: Seq<char>) -> QueryKind {
    let text = lowercased(sql);
    if find(text, "select"@).is_some() {
        QueryKind::Select
    } else if find(text, "insert"@).is_some() {
        QueryKind::Insert
    } else {
        QueryKind::Unsupported
    }
}

/// The kind of answer that the simulated query endpoint gives to a query.
pub fn classify_query(sql: &str) -> (kind: QueryKind)
    ensures
        kind == kind_of_query(sql@),
{
    let lower = lowercase(sql);
    let text = chars_of(lower.as_str());
    if search_from(text.as_slice(), chars_of("select").as_slice(), 0).is_some() {
        QueryKind::Select
    } else if search_from(text.as_slice(), chars_of("insert").as_slice(), 0).is_some() {
        QueryKind::Insert
    } else {
        QueryKind::Unsupported
    }
}

/// The first `n` bytes of a number, least significant first.
pub open spec fn le_bytes(x: u128, n: nat) -> Seq<u8>
    decreases n,
{
    if n == 0 {
        Seq::empty()
    } else {
        seq![(x % 256) as u8] + le_bytes(x / 256, (n - 1) as nat)
    }
}

/// What the default hasher of the standard library makes of the sixteen
/// bytes of a number.
pub open spec fn scrambled(x: u128) -> u64 {
    DefaultHasher::spec_finish(seq![le_bytes(x, 16)])
}

/// Hashes the sixteen bytes of a number with the default hasher.
pub fn scramble(x: u128) -> (hash: u64)
    ensures
        hash == scrambled(x),
{
    let mut bytes: Vec<u8> = Vec::new();
    let mut rest: u128 = x;
    let mut i: usize = 0;
    assert(bytes@ + le_bytes(rest, 16) =~= le_bytes(x, 16));
    while i < 16
        invariant
            i <= 16,
            le_bytes(x, 16) == bytes@ + le_bytes(rest, (16 - i) as nat),
        decreases 16 - i,
    {
        proof {
            assert(bytes@.push((rest % 256) as u8) + le_bytes(rest / 256, (16 - i - 1) as nat)
                =~= bytes@ + le_bytes(rest, (16 - i) as nat));
        }
        bytes.push((rest % 256) as u8);
        rest = rest / 256;
        i += 1;
    }
    assert(bytes@ =~= le_bytes(x, 16));
    let mut hasher = DefaultHasher::new();
    hasher.write(bytes.as_slice());
    assert(hasher@ =~= seq![le_bytes(x, 16)]);
    hasher.finish()
}

/// A number that stands for chance: the hash of the nanoseconds that the
/// system clock shows.
pub fn random() -> (number: u64)
    ensures
        exists|nanos: u128| number == scrambled(nanos),
{
    scramble(now_nanos())
}

/// The simulated counters of the storage engine that are whole numbers.
#[derive(Debug, Clone, Copy, PartialEq, Eq, Structural)]
pub struct StorageCounters {
    pub memtable_size: u64,
    pub sstable_count: u32,
    pub total_keys: u64,
    pub total_size_bytes: u64,
    pub compaction_count: u32,
}

impl StorageCounters {
    /// The counters that the simulation starts with.
    pub fn initial() -> (counters: Self)
        ensures
            counters == (StorageCounters {
                memtable_size: 1048576,
                sstable_count: 5,
                total_keys: 10000,
                total_size_bytes: 104857600,
                compaction_count: 0,
            }),
    {
        StorageCounters {
            memtable_size: 1024 * 1024,
            sstable_count: 5,
            total_keys: 10000,
            total_size_bytes: 100 * 1024 * 1024,
            compaction_count: 0,
        }
    }

    /// One step of the simulation: 150 keys of 4096 bytes arrive, the
    /// memtable grows by 2048 bytes and starts over at 64,000,000, and a
    /// compaction, where one happens, adds a table. The counters wrap
    /// around at the end of their range.
    pub fn step(&mut self, compacted: bool)
        ensures
            final(self).total_keys == (old(self).total_keys + 150) % 0x1_0000_0000_0000_0000,
            final(self).total_size_bytes == (old(self).total_size_bytes + 4096 * 150)
                % 0x1_0000_0000_0000_0000,
            final(self).memtable_size == ((old(self).memtable_size + 2048)
                % 0x1_0000_0000_0000_0000) % 64000000,
            final(self).compaction_count == if compacted {
                (old(self).compaction_count + 1) % 0x1_0000_0000
            } else {
                old(self).compaction_count as int
            },
            final(self).sstable_count == if compacted {
                (old(self).sstable_count + 1) % 0x1_0000_0000
            } else {
                old(self).sstable_count as int
            },
    {
        self.total_keys = self.total_keys.wrapping_add(150);
        self.total_size_bytes = self.total_size_bytes.wrapping_add(4096 * 150);
        self.memtable_size = self.memtable_size.wrapping_add(2048) % 64000000;
        if compacted {
            self.compaction_count = self.compaction_count.wrapping_add(1);
            self.sstable_count = self.sstable_count.wrapping_add(1);
        }
    }
}

/// The number of queries that one step of the simulation adds: 50 and up
/// to 99 more, by chance.
pub fn new_queries(chance: u64) -> (queries: u64)
    ensures
        queries == 50 + chance % 100,
{
    50 + chance % 100
}

} // verus!
