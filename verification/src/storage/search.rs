//! Sorted runs of keyed items and binary search in them.

use vstd::prelude::*;
use crate::storage::bytes::{
    compare_keys,
    lemma_lex_asymmetric,
    lemma_lex_le_transitive,
    lemma_lex_total,
    lex_le,
    lex_lt,
    KeyOrder,
};

verus! {

/// The keys of a run of keyed items.
pub open spec fn keys_of<T>(run: Seq<(Vec<u8>, T)>) -> Seq<Seq<u8>> {
    run.map_values(|item: (Vec<u8>, T)| item.0@)
}

/// Keys in ascending order; equal neighbours are allowed.
pub open spec fn sorted(keys: Seq<Seq<u8>>) -> bool {
    forall|i: int, j: int| 0 <= i < j < keys.len() ==> lex_le(#[trigger] keys[i], #[trigger] keys[j])
}

/// Keys in ascending order with no key twice.
pub open spec fn strictly_sorted(keys: Seq<Seq<u8>>) -> bool {
    forall|i: int, j: int| 0 <= i < j < keys.len() ==> lex_lt(#[trigger] keys[i], #[trigger] keys[j])
}

/// Whether `at` parts the keys below `key` from the rest.
pub open spec fn is_lower_bound(keys: Seq<Seq<u8>>, key: Seq<u8>, at: int) -> bool {
    &&& 0 <= at <= keys.len()
    &&& forall|j: int| 0 <= j < at ==> lex_lt(#[trigger] keys[j], key)
    &&& forall|j: int| at <= j < keys.len() ==> lex_le(key, #[trigger] keys[j])
}

/// Whether `at` parts the keys up to `key` from those above it.
pub open spec fn is_upper_bound(keys: Seq<Seq<u8>>, key: Seq<u8>, at: int) -> bool {
    &&& 0 <= at <= keys.len()
    &&& forall|j: int| 0 <= j < at ==> lex_le(#[trigger] keys[j], key)
    &&& forall|j: int| at <= j < keys.len() ==> lex_lt(key, #[trigger] keys[j])
}
/// Keys that ascend without repetition ascend.

pub proof fn lemma_strictly_sorted_is_sorted(keys: Seq<Seq<u8>>)
    requires
        strictly_sorted(keys),
    ensures
        sorted(keys),
{
}

/// In a run without repeated keys a key stands at one place at most.
pub proof fn lemma_strictly_sorted_unique(keys: Seq<Seq<u8>>, i: int, j: int)
    requires
        strictly_sorted(keys),
        0 <= i < keys.len(),
        0 <= j < keys.len(),
        keys[i] == keys[j],
    ensures
        i == j,
{
    if i < j {
        lemma_lex_asymmetric(keys[i], keys[j]);
    } else if j < i {
        lemma_lex_asymmetric(keys[j], keys[i]);
    }
}

/// The place of the first item whose key is not below `key`.
pub fn lower_bound<T>(run: &[(Vec<u8>, T)], key: &[u8]) -> (at: usize)
    requires
        sorted(keys_of(run@)),
    ensures
        is_lower_bound(keys_of(run@), key@, at as int),
{
    let ghost keys = keys_of(run@);
    let mut lo: usize = 0;
    let mut hi: usize = run.len();
    while lo < hi
        invariant
            0 <= lo <= hi <= run@.len(),
            keys == keys_of(run@),
            sorted(keys),
            forall|j: int| 0 <= j < lo ==> lex_lt(#[trigger] keys[j], key@),
            forall|j: int| hi <= j < keys.len() ==> lex_le(key@, #[trigger] keys[j]),
        decreases hi - lo,
    {
        let mid: usize = lo + (hi - lo) / 2;
        let order = compare_keys(run[mid].0.as_slice(), key);
        assert(keys[mid as int] == run@[mid as int].0@);
        match order {
            KeyOrder::Less => {
                assert forall|j: int| 0 <= j < mid + 1 implies lex_lt(#[trigger] keys[j], key@) by {
                    if j < mid {
                        lemma_lex_le_transitive(keys[j], keys[mid as int], key@);
                    }
                }
                lo = mid + 1;
            },
            _ => {
                assert forall|j: int| mid <= j < keys.len() implies lex_le(
                    key@,
                    #[trigger] keys[j],
                ) by {
                    lemma_lex_total(keys[mid as int], key@);
                    if j > mid {
                        lemma_lex_le_transitive(key@, keys[mid as int], keys[j]);
                    }
                }
                hi = mid;
            },
        }
    }
    lo
}

/// The place of the first item whose key is above `key`.
pub fn upper_bound<T>(run: &[(Vec<u8>, T)], key: &[u8]) -> (at: usize)
    requires
        sorted(keys_of(run@)),
    ensures
        is_upper_bound(keys_of(run@), key@, at as int),
{
    let ghost keys = keys_of(run@);
    let mut lo: usize = 0;
    let mut hi: usize = run.len();
    while lo < hi
        invariant
            0 <= lo <= hi <= run@.len(),
            keys == keys_of(run@),
            sorted(keys),
            forall|j: int| 0 <= j < lo ==> lex_le(#[trigger] keys[j], key@),
            forall|j: int| hi <= j < keys.len() ==> lex_lt(key@, #[trigger] keys[j]),
        decreases hi - lo,
    {
        let mid: usize = lo + (hi - lo) / 2;
        let order = compare_keys(run[mid].0.as_slice(), key);
        assert(keys[mid as int] == run@[mid as int].0@);
        match order {
            KeyOrder::Greater => {
                assert forall|j: int| mid <= j < keys.len() implies lex_lt(
                    key@,
                    #[trigger] keys[j],
                ) by {
                    lemma_lex_total(keys[mid as int], key@);
                    if j > mid {
                        lemma_lex_le_transitive(key@, keys[mid as int], keys[j]);
                    }
                }
                hi = mid;
            },
            _ => {
                assert forall|j: int| 0 <= j < mid + 1 implies lex_le(#[trigger] keys[j], key@) by {
                    if j < mid {
                        lemma_lex_le_transitive(keys[j], keys[mid as int], key@);
                    }
                }
                lo = mid + 1;
            },
        }
    }
    lo
}

} // verus!

verus! {

/// Whether some item of the run has this key.
pub open spec fn holds_key<V>(run: Seq<(Seq<u8>, V)>, key: Seq<u8>) -> bool {
    exists|i: int| 0 <= i < run.len() && (#[trigger] run[i]).0 == key
}

/// A place at which the run has this key, where it has it.
pub open spec fn place_of<V>(run: Seq<(Seq<u8>, V)>, key: Seq<u8>) -> int {
    choose|i: int| 0 <= i < run.len() && (#[trigger] run[i]).0 == key
}

/// The keys of a run of mathematical items.
pub open spec fn run_keys<V>(run: Seq<(Seq<u8>, V)>) -> Seq<Seq<u8>> {
    run.map_values(|item: (Seq<u8>, V)| item.0)
}

/// The map that a run without repeated keys lists.
pub open spec fn map_of<V>(run: Seq<(Seq<u8>, V)>) -> Map<Seq<u8>, V> {
    Map::new(|key: Seq<u8>| holds_key(run, key), |key: Seq<u8>| run[place_of(run, key)].1)
}

/// In a sorted run without repeated keys, the lower bound of a key is the
/// one place where the key can stand.
pub proof fn lemma_lower_bound_finds<V>(run: Seq<(Seq<u8>, V)>, key: Seq<u8>, at: int)
    requires
        strictly_sorted(run_keys(run)),
        is_lower_bound(run_keys(run), key, at),
    ensures
        holds_key(run, key) <==> (at < run.len() && run[at].0 == key),
        holds_key(run, key) ==> place_of(run, key) == at,
{
    let keys = run_keys(run);
    if holds_key(run, key) {
        let p = place_of(run, key);
        assert(keys[p] == key);
        if p < at {
            lemma_lex_asymmetric(keys[p], key);
        }
        if p > at {
            assert(lex_le(key, keys[at]));
            assert(lex_lt(keys[at], keys[p]));
            if keys[at] != key {
                lemma_lex_asymmetric(key, keys[at]);
            }
            lemma_lex_asymmetric(keys[at], keys[p]);
        }
    }
    if at < run.len() && run[at].0 == key {
        assert(holds_key(run, key));
    }
}

/// Putting a new key at its lower bound keeps the run sorted and adds the
/// key to the map it lists.
pub proof fn lemma_insert_at_lower_bound<V>(
    run: Seq<(Seq<u8>, V)>,
    key: Seq<u8>,
    value: V,
    at: int,
)
    requires
        strictly_sorted(run_keys(run)),
        is_lower_bound(run_keys(run), key, at),
        !holds_key(run, key),
    ensures
        strictly_sorted(run_keys(run.insert(at, (key, value)))),
        map_of(run.insert(at, (key, value))) == map_of(run).insert(key, value),
{
    let keys = run_keys(run);
    let new_run = run.insert(at, (key, value));
    let new_keys = run_keys(new_run);
    assert forall|i: int, j: int| 0 <= i < j < new_keys.len() implies lex_lt(
        #[trigger] new_keys[i],
        #[trigger] new_keys[j],
    ) by {
        if j < at {
            assert(new_keys[i] == keys[i] && new_keys[j] == keys[j]);
        } else if j == at {
            assert(new_keys[i] == keys[i]);
        } else if i < at {
            assert(new_keys[i] == keys[i] && new_keys[j] == keys[j - 1]);
        } else if i == at {
            assert(new_keys[j] == keys[j - 1]);
            assert(lex_le(key, keys[j - 1]));
            assert(run[j - 1].0 == keys[j - 1]);
        } else {
            assert(new_keys[i] == keys[i - 1] && new_keys[j] == keys[j - 1]);
        }
    }
    assert(new_run[at].0 == key);
    assert forall|k: Seq<u8>| holds_key(new_run, k) <==> (k == key || holds_key(run, k)) by {
        if holds_key(new_run, k) {
            let p = place_of(new_run, k);
            if p < at {
                assert(run[p].0 == k);
            } else if p > at {
                assert(run[p - 1].0 == k);
            }
        }
        if holds_key(run, k) {
            let p = place_of(run, k);
            if p < at {
                assert(new_run[p].0 == k);
            } else {
                assert(new_run[p + 1].0 == k);
            }
        }
    }
    assert forall|k: Seq<u8>| holds_key(run, k) && k != key implies new_run[place_of(new_run, k)].1
        == run[place_of(run, k)].1 by {
        let p = place_of(run, k);
        let q = place_of(new_run, k);
        let shifted = if p < at { p } else { p + 1 };
        assert(new_run[shifted].0 == k);
        assert(new_keys[shifted] == k && new_keys[q] == k);
        lemma_strictly_sorted_unique(new_keys, q, shifted);
    }
    assert(new_run[place_of(new_run, key)].1 == value) by {
        let q = place_of(new_run, key);
        assert(new_keys[at] == key && new_keys[q] == key);
        lemma_strictly_sorted_unique(new_keys, q, at);
    }
    assert(map_of(new_run) =~= map_of(run).insert(key, value));
}

/// Replacing the value at the place of a key keeps the run sorted and
/// changes the map it lists at that key only.
pub proof fn lemma_update_at_place<V>(run: Seq<(Seq<u8>, V)>, key: Seq<u8>, value: V, at: int)
    requires
        strictly_sorted(run_keys(run)),
        0 <= at < run.len(),
        run[at].0 == key,
    ensures
        strictly_sorted(run_keys(run.update(at, (key, value)))),
        map_of(run.update(at, (key, value))) == map_of(run).insert(key, value),
{
    let keys = run_keys(run);
    let new_run = run.update(at, (key, value));
    let new_keys = run_keys(new_run);
    assert(new_keys =~= keys);
    assert forall|k: Seq<u8>| holds_key(new_run, k) <==> holds_key(run, k) by {
        if holds_key(new_run, k) {
            let p = place_of(new_run, k);
            assert(run[p].0 == k);
        }
        if holds_key(run, k) {
            let p = place_of(run, k);
            assert(new_run[p].0 == k);
        }
    }
    assert(holds_key(run, key));
    assert forall|k: Seq<u8>| holds_key(run, k) implies new_run[place_of(new_run, k)].1 == (if k
        == key {
        value
    } else {
        run[place_of(run, k)].1
    }) by {
        let p = place_of(run, k);
        let q = place_of(new_run, k);
        assert(keys[p] == k && keys[q] == k);
        lemma_strictly_sorted_unique(keys, p, q);
        if k == key {
            assert(keys[at] == k);
            lemma_strictly_sorted_unique(keys, p, at);
        }
    }
    assert(map_of(new_run) =~= map_of(run).insert(key, value));
}


/// The place that parts the keys below `key` from the rest.
pub open spec fn lower_place(keys: Seq<Seq<u8>>, key: Seq<u8>) -> int {
    choose|at: int| is_lower_bound(keys, key, at)
}

/// There is one lower bound at most.
pub proof fn lemma_lower_place(keys: Seq<Seq<u8>>, key: Seq<u8>, at: int)
    requires
        is_lower_bound(keys, key, at),
    ensures
        lower_place(keys, key) == at,
{
    let other = lower_place(keys, key);
    if other < at {
        assert(lex_lt(keys[other], key));
        assert(lex_le(key, keys[other]));
        if key != keys[other] {
            lemma_lex_asymmetric(key, keys[other]);
        } else {
            crate::storage::bytes::lemma_lex_irreflexive(key);
        }
    } else if at < other {
        assert(lex_lt(keys[at], key));
        assert(lex_le(key, keys[at]));
        if key != keys[at] {
            lemma_lex_asymmetric(key, keys[at]);
        } else {
            crate::storage::bytes::lemma_lex_irreflexive(key);
        }
    }
}

/// The number of keys among the first `n` that are below `key`, where the
/// keys ascend.
spec fn count_below(keys: Seq<Seq<u8>>, key: Seq<u8>, n: int) -> int
    decreases n,
{
    if n <= 0 {
        0
    } else if lex_lt(keys[n - 1], key) {
        n
    } else {
        count_below(keys, key, n - 1)
    }
}
/// `count_below` parts the keys below `key` from the rest.

proof fn lemma_count_below(keys: Seq<Seq<u8>>, key: Seq<u8>, n: int)
    requires
        sorted(keys),
        0 <= n <= keys.len(),
    ensures
        0 <= count_below(keys, key, n) <= n,
        forall|j: int| 0 <= j < count_below(keys, key, n) ==> lex_lt(#[trigger] keys[j], key),
        forall|j: int| count_below(keys, key, n) <= j < n ==> lex_le(key, #[trigger] keys[j]),
    decreases n,
{
    if n > 0 {
        if lex_lt(keys[n - 1], key) {
            assert forall|j: int| 0 <= j < n implies lex_lt(#[trigger] keys[j], key) by {
                if j < n - 1 {
                    lemma_lex_le_transitive(keys[j], keys[n - 1], key);
                }
            }
        } else {
            lemma_count_below(keys, key, n - 1);
            lemma_lex_total(keys[n - 1], key);
        }
    }
}

/// Among keys that ascend there is a place that parts those below `key`
/// from the rest.
pub proof fn lemma_lower_place_exists(keys: Seq<Seq<u8>>, key: Seq<u8>)
    requires
        sorted(keys),
    ensures
        is_lower_bound(keys, key, lower_place(keys, key)),
{
    lemma_count_below(keys, key, keys.len() as int);
    assert(is_lower_bound(keys, key, count_below(keys, key, keys.len() as int)));
}

/// A sorted run without repeated keys after `value` was put under `key`:
/// the value takes the place of what the key had, or the key is put in at
/// its place in the order.
pub open spec fn placed<V>(run: Seq<(Seq<u8>, V)>, key: Seq<u8>, value: V) -> Seq<(Seq<u8>, V)> {
    let at = lower_place(run_keys(run), key);
    if 0 <= at < run.len() && run[at].0 == key {
        run.update(at, (key, value))
    } else if 0 <= at <= run.len() {
        run.insert(at, (key, value))
    } else {
        run
    }
}

/// Putting a value under a key keeps a run sorted without repeated keys,
/// and the map that it lists then holds the value under the key.
pub proof fn lemma_placed<V>(run: Seq<(Seq<u8>, V)>, key: Seq<u8>, value: V)
    requires
        strictly_sorted(run_keys(run)),
    ensures
        strictly_sorted(run_keys(placed(run, key, value))),
        map_of(placed(run, key, value)) == map_of(run).insert(key, value),
{
    lemma_strictly_sorted_is_sorted(run_keys(run));
    lemma_lower_place_exists(run_keys(run), key);
    let at = lower_place(run_keys(run), key);
    lemma_lower_bound_finds(run, key, at);
    if at < run.len() && run[at].0 == key {
        lemma_update_at_place(run, key, value, at);
    } else {
        lemma_insert_at_lower_bound(run, key, value, at);
    }
}

} // verus!
