//! The block cache: a bounded store of decompressed blocks that gives up
//! the least recently used first.

use vstd::prelude::*;
use vstd::slice::slice_to_vec;
use vstd::utf8::encode_utf8;

verus! {

/// A cached block under its key.
pub type Cached = (Seq<char>, Seq<u8>);

/// The bytes that an entry counts against the capacity: the length of its
/// key in UTF-8 and the length of its value.
pub open spec fn cost(key: Seq<char>, value: Seq<u8>) -> nat {
    encode_utf8(key).len() + value.len()
}

/// The bytes that a run of entries counts against the capacity.
pub open spec fn total_cost(entries: Seq<Cached>) -> nat
    decreases entries.len(),
{
    if entries.len() == 0 {
        0
    } else {
        total_cost(entries.drop_last()) + cost(entries.last().0, entries.last().1)
    }
}

/// Whether some entry has this key.
pub open spec fn holds(entries: Seq<Cached>, key: Seq<char>) -> bool {
    exists|i: int| 0 <= i < entries.len() && (#[trigger] entries[i]).0 == key
}

/// A place at which the key stands, where it stands at one.
pub open spec fn place(entries: Seq<Cached>, key: Seq<char>) -> int {
    choose|i: int| 0 <= i < entries.len() && (#[trigger] entries[i]).0 == key
}

/// No key stands twice.
pub open spec fn distinct(entries: Seq<Cached>) -> bool {
    forall|i: int, j: int|
        0 <= i < j < entries.len() ==> (#[trigger] entries[i]).0 != (#[trigger] entries[j]).0
}

/// The block that is cached under `key`, if one is.
pub open spec fn cached(entries: Seq<Cached>, key: Seq<char>) -> Option<Seq<u8>> {
    if holds(entries, key) {
        Some(entries[place(entries, key)].1)
    } else {
        None
    }
}

/// The recency order after a read of `key`: the entry read moves to the
/// most recent end; a miss changes nothing.
pub open spec fn touched(entries: Seq<Cached>, key: Seq<char>) -> Seq<Cached> {
    if holds(entries, key) {
        let at = place(entries, key);
        entries.remove(at).push(entries[at])
    } else {
        entries
    }
}

/// The entries without the one under `key`.
pub open spec fn dropped(entries: Seq<Cached>, key: Seq<char>) -> Seq<Cached> {
    if holds(entries, key) {
        entries.remove(place(entries, key))
    } else {
        entries
    }
}

/// The entries that stay when room for `need` bytes is made: the least
/// recently used leave, one at a time, until the rest and `need` fit the
/// capacity or nothing is left.
pub open spec fn evicted(entries: Seq<Cached>, need: nat, capacity: nat) -> Seq<Cached>
    decreases entries.len(),
{
    if entries.len() > 0 && total_cost(entries) + need > capacity {
        evicted(entries.skip(1), need, capacity)
    } else {
        entries
    }
}

/// The recency order after `value` was put under `key`: the old entry of
/// the key leaves, room is made, and the new entry becomes the most recent
/// one, unless it alone exceeds the capacity.
pub open spec fn stored(entries: Seq<Cached>, key: Seq<char>, value: Seq<u8>, capacity: nat) -> Seq<
    Cached,
> {
    let kept = evicted(dropped(entries, key), cost(key, value), capacity);
    if cost(key, value) <= capacity {
        kept.push((key, value))
    } else {
        kept
    }
}

/// The views of a run of cached entries.
pub open spec fn cached_view(entries: Seq<(String, Vec<u8>)>) -> Seq<Cached> {
    entries.map_values(|item: (String, Vec<u8>)| (item.0@, item.1@))
}
/// An entry that leaves takes its cost with it.

pub proof fn lemma_total_cost_remove(entries: Seq<Cached>, at: int)
    requires
        0 <= at < entries.len(),
    ensures
        total_cost(entries.remove(at)) + cost(entries[at].0, entries[at].1) == total_cost(entries),
    decreases entries.len(),
{
    if at == entries.len() - 1 {
        assert(entries.remove(at) =~= entries.drop_last());
    } else {
        assert(entries.remove(at).drop_last() =~= entries.drop_last().remove(at));
        assert(entries.remove(at).last() == entries.last());
        lemma_total_cost_remove(entries.drop_last(), at);
    }
}
/// An entry that comes brings its cost.

pub proof fn lemma_total_cost_push(entries: Seq<Cached>, item: Cached)
    ensures
        total_cost(entries.push(item)) == total_cost(entries) + cost(item.0, item.1),
{
    assert(entries.push(item).drop_last() =~= entries);
}

/// In a run without repeated keys a key stands where it is found.
pub proof fn lemma_place_unique(entries: Seq<Cached>, key: Seq<char>, at: int)
    requires
        distinct(entries),
        0 <= at < entries.len(),
        entries[at].0 == key,
    ensures
        holds(entries, key),
        place(entries, key) == at,
{
    let p = place(entries, key);
    if p < at {
        assert(entries[p].0 != entries[at].0);
    } else if at < p {
        assert(entries[at].0 != entries[p].0);
    }
}

/// What leaves for room is a prefix of the recency order: the entries that
/// stay are the most recently used ones, in their order.
pub proof fn lemma_evicted_is_suffix(entries: Seq<Cached>, need: nat, capacity: nat)
    ensures
        ({
            let kept = evicted(entries, need, capacity);
            &&& kept.len() <= entries.len()
            &&& kept == entries.skip(entries.len() - kept.len())
            &&& kept.len() == 0 || total_cost(kept) + need <= capacity
            &&& kept.len() < entries.len() ==> total_cost(
                entries.skip(entries.len() - kept.len() - 1),
            ) + need > capacity
        }),
    decreases entries.len(),
{
    let kept = evicted(entries, need, capacity);
    if entries.len() > 0 && total_cost(entries) + need > capacity {
        let rest = entries.skip(1);
        lemma_evicted_is_suffix(rest, need, capacity);
        assert(rest.skip(rest.len() - kept.len()) =~= entries.skip(entries.len() - kept.len()));
        if kept.len() < rest.len() {
            assert(rest.skip(rest.len() - kept.len() - 1) =~= entries.skip(
                entries.len() - kept.len() - 1,
            ));
        } else {
            assert(entries.skip(0) =~= entries);
        }
    } else {
        assert(entries.skip(0) =~= entries);
    }
}

/// The entry that was read last is the last to leave: while any entry
/// stays when room is made, it stays.
pub proof fn lemma_read_protects(entries: Seq<Cached>, key: Seq<char>, need: nat, capacity: nat)
    requires
        distinct(entries),
        holds(entries, key),
    ensures
        touched(entries, key).len() == entries.len(),
        touched(entries, key).last().0 == key,
        evicted(touched(entries, key), need, capacity).len() > 0 ==> holds(
            evicted(touched(entries, key), need, capacity),
            key,
        ),
        entries.len() >= 2 ==> holds(touched(entries, key).skip(1), key),
{
    let order = touched(entries, key);
    let kept = evicted(order, need, capacity);
    lemma_evicted_is_suffix(order, need, capacity);
    if kept.len() > 0 {
        assert(kept.last() == order.last());
    }
    if entries.len() >= 2 {
        assert(order.skip(1).last() == order.last());
    }
}

/// A read keeps what is cached under every key.
pub proof fn lemma_touched_keeps(entries: Seq<Cached>, key: Seq<char>, other: Seq<char>)
    requires
        distinct(entries),
    ensures
        distinct(touched(entries, key)),
        cached(touched(entries, key), other) == cached(entries, other),
        total_cost(touched(entries, key)) == total_cost(entries),
{
    if holds(entries, key) {
        let at = place(entries, key);
        let after = touched(entries, key);
        let last = after.len() - 1;
        lemma_total_cost_remove(entries, at);
        lemma_total_cost_push(entries.remove(at), entries[at]);
        assert forall|i: int, j: int| 0 <= i < j < after.len() implies (#[trigger] after[i]).0 != (
        #[trigger] after[j]).0 by {
            let pi = if i < at { i } else { i + 1 };
            let pj = if j == last { at } else if j < at { j } else { j + 1 };
            assert(after[i] == entries[pi]);
            assert(after[j] == entries[pj]);
            if pi < pj {
                assert(entries[pi].0 != entries[pj].0);
            } else {
                assert(entries[pj].0 != entries[pi].0);
            }
        }
        if holds(entries, other) {
            let p = place(entries, other);
            let q = if p == at { last } else if p < at { p } else { p - 1 };
            assert(after[q] == entries[p]);
            lemma_place_unique(after, other, q);
        } else if holds(after, other) {
            let q = place(after, other);
            let p = if q == last { at } else if q < at { q } else { q + 1 };
            assert(after[q] == entries[p]);
            assert(entries[p].0 == other);
        }
    }
}

/// After a put, the key put holds the new value or nothing, and every other
/// key holds what it held or nothing.
pub proof fn lemma_stored_keeps(
    entries: Seq<Cached>,
    key: Seq<char>,
    value: Seq<u8>,
    capacity: nat,
    other: Seq<char>,
)
    requires
        distinct(entries),
    ensures
        distinct(stored(entries, key, value, capacity)),
        total_cost(stored(entries, key, value, capacity)) <= capacity || stored(
            entries,
            key,
            value,
            capacity,
        ).len() == 0,
        cached(stored(entries, key, value, capacity), key) == if cost(key, value) <= capacity {
            Some(value)
        } else {
            None::<Seq<u8>>
        },
        other != key ==> cached(stored(entries, key, value, capacity), other) == cached(
            entries,
            other,
        ) || cached(stored(entries, key, value, capacity), other).is_none(),
{
    let need = cost(key, value);
    let less = dropped(entries, key);
    let kept = evicted(less, need, capacity);
    let after = stored(entries, key, value, capacity);
    lemma_evicted_is_suffix(less, need, capacity);
    let gone = less.len() - kept.len();
    // Where each entry of `less` came from in `entries`.
    let at = place(entries, key);
    let origin = |i: int| if holds(entries, key) && i >= at { i + 1 } else { i };
    assert forall|i: int| 0 <= i < less.len() implies less[i] == entries[origin(i)]
        && less[i].0 != key by {
        if holds(entries, key) {
            if i < at {
                assert(entries[i].0 != entries[at].0);
            } else {
                assert(entries[at].0 != entries[i + 1].0);
            }
        } else {
            assert(entries[i].0 != key);
        }
    }
    assert forall|i: int, j: int| 0 <= i < j < after.len() implies (#[trigger] after[i]).0 != (
    #[trigger] after[j]).0 by {
        assert(after[i] == less[gone + i]);
        if j < kept.len() {
            assert(after[j] == less[gone + j]);
            assert(entries[origin(gone + i)].0 != entries[origin(gone + j)].0);
        } else {
            assert(after[j] == (key, value));
        }
    }
    if need <= capacity {
        lemma_total_cost_push(kept, (key, value));
        lemma_place_unique(after, key, after.len() - 1);
    } else {
        if holds(after, key) {
            let p = place(after, key);
            assert(after[p] == less[gone + p]);
        }
    }
    if other != key && holds(after, other) {
        let p = place(after, other);
        assert(after[p] == less[gone + p]);
        lemma_place_unique(entries, other, origin(gone + p));
    }
}

/// A block cache of bounded capacity.
pub struct BlockCache {
    entries: Vec<(String, Vec<u8>)>,
    capacity: usize,
    current_size: usize,
}

impl View for BlockCache {
    type V = Seq<Cached>;

    /// The entries from the least recently used to the most recently used.
    closed spec fn view(&self) -> Seq<Cached> {
        cached_view(self.entries@)
    }
}

impl BlockCache {
    /// The capacity in bytes.
    pub closed spec fn limit(&self) -> nat {
        self.capacity as nat
    }

    /// No key is cached twice, and the size that is kept is the cost of the
    /// entries and within the capacity.
    pub closed spec fn well_formed(&self) -> bool {
        &&& distinct(self@)
        &&& self.current_size == total_cost(self@)
        &&& self.current_size <= self.capacity
    }

    /// What the invariant says to the outside.
    pub proof fn lemma_well_formed(&self)
        requires
            self.well_formed(),
        ensures
            distinct(self@),
            total_cost(self@) <= self.limit(),
    {
    }

    /// An empty cache of the given capacity in bytes.
    pub fn new(capacity: usize) -> (cache: Self)
        ensures
            cache.well_formed(),
            cache@ == Seq::<Cached>::empty(),
            cache.limit() == capacity,
    {
        let cache = BlockCache { entries: Vec::new(), capacity, current_size: 0 };
        assert(cache@ =~= Seq::<Cached>::empty());
        cache
    }

    /// The place of `key`, if it is cached.
    fn find(&self, key: &String) -> (found: Option<usize>)
        requires
            self.well_formed(),
        ensures
            match found {
                Some(at) => holds(self@, key@) && place(self@, key@) == at && at < self@.len(),
                None => !holds(self@, key@),
            },
    {
        let mut i: usize = 0;
        while i < self.entries.len()
            invariant
                i <= self.entries@.len(),
                self.well_formed(),
                forall|j: int| 0 <= j < i ==> (#[trigger] self@[j]).0 != key@,
            decreases self.entries@.len() - i,
        {
            if self.entries[i].0 == *key {
                proof {
                    lemma_place_unique(self@, key@, i as int);
                }
                return Some(i);
            }
            i += 1;
        }
        None
    }

    /// Returns a copy of the block under `key` and makes it the most
    /// recently used; a miss changes nothing.
    pub fn get(&mut self, key: &str) -> (found: Option<Vec<u8>>)
        requires
            old(self).well_formed(),
        ensures
            final(self).well_formed(),
            final(self).limit() == old(self).limit(),
            final(self)@ == touched(old(self)@, key@),
            match found {
                Some(block) => cached(old(self)@, key@) == Some(block@),
                None => cached(old(self)@, key@).is_none(),
            },
    {
        let wanted = key.to_owned();
        match self.find(&wanted) {
            Some(at) => {
                proof {
                    lemma_touched_keeps(self@, key@, key@);
                }
                let ghost before = self@;
                let entry = self.entries.remove(at);
                let block = slice_to_vec(entry.1.as_slice());
                self.entries.push(entry);
                proof {
                    assert(self@ =~= before.remove(at as int).push(before[at as int]));
                }
                Some(block)
            },
            None => None,
        }
    }

    /// Whether room has to be made before `need` more bytes fit.
    fn lacks_room(&self, need: Option<usize>) -> (lacking: bool)
        requires
            self.well_formed(),
        ensures
            lacking == (self@.len() > 0 && match need {
                Some(n) => total_cost(self@) + n > self.limit(),
                None => true,
            }),
    {
        if self.entries.is_empty() {
            false
        } else {
            match need {
                Some(n) => n > self.capacity - self.current_size,
                None => true,
            }
        }
    }

    /// Caches `value` under `key` as the most recently used entry.
    ///
    /// The old entry of the key leaves first. Then the least recently used
    /// entries leave, one at a time, until the new entry fits. An entry
    /// that alone exceeds the capacity is not cached.
    pub fn put(&mut self, key: String, value: Vec<u8>)
        requires
            old(self).well_formed(),
        ensures
            final(self).well_formed(),
            final(self).limit() == old(self).limit(),
            final(self)@ == stored(old(self)@, key@, value@, old(self).limit()),
    {
        let ghost start = self@;
        let ghost need_cost = cost(key@, value@);
        let key_len: usize = key.as_str().as_bytes().len();
        let need: Option<usize> = key_len.checked_add(value.len());
        match self.find(&key) {
            Some(at) => {
                proof {
                    lemma_total_cost_remove(self@, at as int);
                    lemma_stored_keeps(start, key@, value@, self.limit(), key@);
                }
                let ghost before = self@;
                let old_entry = self.entries.remove(at);
                proof {
                    assert(self@ =~= before.remove(at as int));
                    // What stays after a removal has no key twice.
                    assert forall|i: int, j: int| 0 <= i < j < self@.len() implies (
                    #[trigger] self@[i]).0 != (#[trigger] self@[j]).0 by {
                        let pi = if i < at { i } else { i + 1 };
                        let pj = if j < at { j } else { j + 1 };
                        assert(self@[i] == before[pi] && self@[j] == before[pj]);
                        assert(before[pi].0 != before[pj].0);
                    }
                }
                let old_len: usize = old_entry.0.as_str().as_bytes().len() + old_entry.1.len();
                self.current_size = self.current_size - old_len;
            },
            None => {},
        }
        assert(self@ == dropped(start, key@));
        let ghost less = self@;
        while self.lacks_room(need)
            invariant
                self.well_formed(),
                self.capacity == old(self).capacity,
                need matches Some(n) ==> n == need_cost,
                need is None ==> need_cost > usize::MAX,
                evicted(self@, need_cost, self.limit()) == evicted(less, need_cost, self.limit()),
            decreases self@.len(),
        {
            let ghost before = self@;
            proof {
                lemma_total_cost_remove(before, 0);
            }
            let lru = self.entries.remove(0);
            proof {
                assert(self@ =~= before.skip(1));
                assert forall|i: int, j: int| 0 <= i < j < self@.len() implies (
                #[trigger] self@[i]).0 != (#[trigger] self@[j]).0 by {
                    assert(self@[i] == before[i + 1] && self@[j] == before[j + 1]);
                    assert(before[i + 1].0 != before[j + 1].0);
                }
            }
            let lru_len: usize = lru.0.as_str().as_bytes().len() + lru.1.len();
            self.current_size = self.current_size - lru_len;
        }
        assert(self@ == evicted(less, need_cost, self.limit()));
        match need {
            Some(n) => {
                if n <= self.capacity {
                    proof {
                        lemma_total_cost_push(self@, (key@, value@));
                        lemma_stored_keeps(start, key@, value@, self.limit(), key@);
                    }
                    let ghost before = self@;
                    self.entries.push((key, value));
                    self.current_size = self.current_size + n;
                    proof {
                        assert(self@ =~= before.push((key@, value@)));
                    }
                }
            },
            None => {},
        }
    }

    /// The bytes that the cached entries count against the capacity.
    pub fn size(&self) -> (n: usize)
        requires
            self.well_formed(),
        ensures
            n == total_cost(self@),
    {
        self.current_size
    }

    /// The capacity in bytes.
    pub fn capacity(&self) -> (n: usize)
        ensures
            n == self.limit(),
    {
        self.capacity
    }
}

} // verus!
