//! The length-prefixed layout of keys and values that the write-ahead log, the
//! data blocks and the index of a sorted table share.
//!
//! A field is its length as four big-endian bytes, then its bytes. An entry
//! is the field of its key, then one byte that tells a tombstone (0) from a
//! value (1), then, for a value, its field.

use vstd::prelude::*;
use vstd::slice::{slice_subrange, slice_to_vec};
use crate::storage::bytes::{
    be32,
    be32_value,
    lemma_be32_round_trip,
    put_u32,
    read_u32,
};
use crate::storage::kv::value_view;

verus! {

/// A key with its value, or with `None` for a tombstone.
pub type Entry = (Seq<u8>, Option<Seq<u8>>);

/// The longest byte string that a field holds.
pub const MAX_FIELD: usize = 0xFFFF_FFFF;
/// A byte string behind its length.

pub open spec fn field(data: Seq<u8>) -> Seq<u8> {
    be32(data.len() as u32) + data
}
/// A tombstone as the byte 0, a value as the byte 1 and its field.

pub open spec fn opt_field(value: Option<Seq<u8>>) -> Seq<u8> {
    match value {
        None => seq![0u8],
        Some(data) => seq![1u8] + field(data),
    }
}

/// The layout of one entry: the field of its key, then its value or tombstone.
#[verifier::opaque]
pub open spec fn entry_bytes(entry: Entry) -> Seq<u8> {
    field(entry.0) + opt_field(entry.1)
}

/// Whether an entry can be laid out: both lengths fit four bytes.
pub open spec fn entry_fits(entry: Entry) -> bool {
    &&& entry.0.len() <= MAX_FIELD
    &&& entry.1 matches Some(data) ==> data.len() <= MAX_FIELD
}

/// The number of bytes that an entry takes.
pub open spec fn entry_len(entry: Entry) -> nat {
    match entry.1 {
        None => 4 + entry.0.len() + 1,
        Some(data) => 4 + entry.0.len() + 1 + 4 + data.len(),
    }
}

/// The entries of a run, laid out one after the other.
pub open spec fn entries_bytes(entries: Seq<Entry>) -> Seq<u8>
    decreases entries.len(),
{
    if entries.len() == 0 {
        Seq::empty()
    } else {
        entries_bytes(entries.drop_last()) + entry_bytes(entries.last())
    }
}
/// Whether every entry of a run can be laid out.

pub open spec fn entries_fit(entries: Seq<Entry>) -> bool {
    forall|i: int| 0 <= i < entries.len() ==> entry_fits(#[trigger] entries[i])
}

/// The field at the head of `s` and what follows it.
pub open spec fn parse_field(s: Seq<u8>) -> Option<(Seq<u8>, Seq<u8>)> {
    if s.len() < 4 {
        None
    } else {
        let n = be32_value(s) as int;
        if s.len() - 4 < n {
            None
        } else {
            Some((s.subrange(4, 4 + n), s.skip(4 + n)))
        }
    }
}
/// The value or tombstone at the head of `s` and what follows it.

pub open spec fn parse_opt_field(s: Seq<u8>) -> Option<(Option<Seq<u8>>, Seq<u8>)> {
    if s.len() < 1 {
        None
    } else if s[0] == 0 {
        Some((None, s.skip(1)))
    } else if s[0] == 1 {
        match parse_field(s.skip(1)) {
            Some((data, rest)) => Some((Some(data), rest)),
            None => None,
        }
    } else {
        None
    }
}

/// The entry at the head of `s` and what follows it.
#[verifier::opaque]
pub open spec fn parse_entry(s: Seq<u8>) -> Option<(Entry, Seq<u8>)> {
    match parse_field(s) {
        None => None,
        Some((key, after_key)) => match parse_opt_field(after_key) {
            None => None,
            Some((value, rest)) => Some(((key, value), rest)),
        },
    }
}

/// The run of entries that `s` is the layout of, if it is one.
pub open spec fn parse_entries(s: Seq<u8>) -> Option<Seq<Entry>>
    decreases s.len(),
{
    if s.len() == 0 {
        Some(Seq::empty())
    } else {
        match parse_entry(s) {
            None => None,
            Some((entry, rest)) => if rest.len() < s.len() {
                match parse_entries(rest) {
                    None => None,
                    Some(entries) => Some(seq![entry] + entries),
                }
            } else {
                None
            },
        }
    }
}
/// A field is read back as the byte string that it was laid out from.

pub proof fn lemma_parse_field(data: Seq<u8>, rest: Seq<u8>)
    requires
        data.len() <= MAX_FIELD,
    ensures
        parse_field(field(data) + rest) == Some((data, rest)),
        field(data).len() == 4 + data.len(),
{
    let s = field(data) + rest;
    assert(s =~= be32(data.len() as u32) + (data + rest));
    lemma_be32_round_trip(data.len() as u32, data + rest);
    assert(s.subrange(4, 4 + data.len() as int) =~= data);
    assert(s.skip(4 + data.len() as int) =~= rest);
}
/// A value or tombstone is read back as it was laid out.

pub proof fn lemma_parse_opt_field(value: Option<Seq<u8>>, rest: Seq<u8>)
    requires
        value matches Some(data) ==> data.len() <= MAX_FIELD,
    ensures
        parse_opt_field(opt_field(value) + rest) == Some((value, rest)),
{
    let s = opt_field(value) + rest;
    match value {
        None => {
            assert(s.skip(1) =~= rest);
        },
        Some(data) => {
            assert(s.skip(1) =~= field(data) + rest);
            lemma_parse_field(data, rest);
        },
    }
}

/// An entry that fits is read back as it was laid out.
pub proof fn lemma_parse_entry(entry: Entry, rest: Seq<u8>)
    requires
        entry_fits(entry),
    ensures
        parse_entry(entry_bytes(entry) + rest) == Some((entry, rest)),
        entry_bytes(entry).len() == entry_len(entry),
        entry_len(entry) >= 5,
{
    reveal(entry_bytes);
    reveal(parse_entry);
    let s = entry_bytes(entry) + rest;
    assert(s =~= field(entry.0) + (opt_field(entry.1) + rest));
    lemma_parse_field(entry.0, opt_field(entry.1) + rest);
    lemma_parse_opt_field(entry.1, rest);
    match entry.1 {
        None => {},
        Some(data) => {
            lemma_parse_field(data, Seq::empty());
        },
    }
}

/// What is parsed is never longer than what it was parsed from.
pub proof fn lemma_parse_entry_shrinks(s: Seq<u8>)
    ensures
        parse_entry(s) matches Some((entry, rest)) ==> rest.len() + entry_len(entry) == s.len()
            && entry_fits(entry),
{
    reveal(parse_entry);
}
/// The layout of a run is the layout of its first entry and of the rest.

pub proof fn lemma_entries_bytes_front(entries: Seq<Entry>)
    requires
        entries.len() > 0,
    ensures
        entries_bytes(entries) == entry_bytes(entries[0]) + entries_bytes(entries.skip(1)),
    decreases entries.len(),
{
    if entries.len() == 1 {
        assert(entries.drop_last() =~= Seq::<Entry>::empty());
        assert(entries.skip(1) =~= Seq::<Entry>::empty());
        assert(entries_bytes(entries) =~= entry_bytes(entries[0]) + entries_bytes(
            entries.skip(1),
        ));
    } else {
        lemma_entries_bytes_front(entries.drop_last());
        assert(entries.drop_last().skip(1) =~= entries.skip(1).drop_last());
        assert(entries.skip(1).last() == entries.last());
        assert(entries_bytes(entries) =~= entry_bytes(entries[0]) + entries_bytes(
            entries.skip(1),
        ));
    }
}

/// A run of entries that fit is read back as it was laid out.
pub proof fn lemma_parse_entries(entries: Seq<Entry>)
    requires
        entries_fit(entries),
    ensures
        parse_entries(entries_bytes(entries)) == Some(entries),
    decreases entries.len(),
{
    if entries.len() == 0 {
    } else {
        let tail = entries.skip(1);
        lemma_entries_bytes_front(entries);
        lemma_parse_entry(entries[0], entries_bytes(tail));
        assert(entries_fit(tail)) by {
            assert forall|i: int| 0 <= i < tail.len() implies entry_fits(#[trigger] tail[i]) by {
                assert(tail[i] == entries[i + 1]);
            }
        }
        lemma_parse_entries(tail);
        assert(seq![entries[0]] + tail =~= entries);
    }
}

/// One more entry is laid out behind the others.
pub proof fn lemma_entries_bytes_push(entries: Seq<Entry>, entry: Entry)
    ensures
        entries_bytes(entries.push(entry)) == entries_bytes(entries) + entry_bytes(entry),
{
    assert(entries.push(entry).drop_last() =~= entries);
}

/// The view of a key with its optional value.
pub open spec fn entry_view(entry: (Vec<u8>, Option<Vec<u8>>)) -> Entry {
    (entry.0@, value_view(entry.1))
}

/// The view of a run of entries.
pub open spec fn entries_view(entries: Seq<(Vec<u8>, Option<Vec<u8>>)>) -> Seq<Entry> {
    entries.map_values(|e: (Vec<u8>, Option<Vec<u8>>)| entry_view(e))
}

/// Appends the field of `data` to `out`.
pub fn put_field(out: &mut Vec<u8>, data: &[u8])
    requires
        data@.len() <= MAX_FIELD,
    ensures
        final(out)@ == old(out)@ + field(data@),
{
    let len: usize = data.len();
    put_u32(out, len as u32);
    let ghost mid = out@;
    out.extend_from_slice(data);
    assert(out@ =~= mid + data@);
    assert(out@ =~= old(out)@ + field(data@));
}

/// Appends the layout of one entry to `out`.
pub fn put_entry(out: &mut Vec<u8>, key: &[u8], value: &Option<Vec<u8>>)
    requires
        entry_fits((key@, value_view(*value))),
    ensures
        final(out)@ == old(out)@ + entry_bytes((key@, value_view(*value))),
{
    reveal(entry_bytes);
    put_field(out, key);
    match value {
        None => {
            out.push(0u8);
            assert(out@ =~= old(out)@ + entry_bytes((key@, value_view(*value))));
        },
        Some(data) => {
            out.push(1u8);
            put_field(out, data.as_slice());
            assert(out@ =~= old(out)@ + entry_bytes((key@, value_view(*value))));
        },
    }
}

/// Reads the field that starts at `at`: its bytes and the place behind it.
pub fn take_field(data: &[u8], at: usize) -> (r: Option<(Vec<u8>, usize)>)
    requires
        at <= data@.len(),
    ensures
        match r {
            Some((bytes, next)) => {
                &&& at <= next <= data@.len()
                &&& parse_field(data@.skip(at as int)) == Some(
                    (bytes@, data@.skip(next as int)),
                )
            },
            None => parse_field(data@.skip(at as int)).is_none(),
        },
{
    let len: usize = data.len();
    if len - at < 4 {
        return None;
    }
    let n: usize = read_u32(data, at) as usize;
    if len - at - 4 < n {
        return None;
    }
    let start: usize = at + 4;
    let bytes = slice_to_vec(slice_subrange(data, start, start + n));
    proof {
        let s = data@.skip(at as int);
        assert(s.subrange(4, 4 + n) =~= data@.subrange(start as int, start + n));
        assert(s.skip(4 + n) =~= data@.skip(start + n));
    }
    Some((bytes, start + n))
}

/// Reads the entry that starts at `at`: the entry and the place behind it.
pub fn take_entry(data: &[u8], at: usize) -> (r: Option<((Vec<u8>, Option<Vec<u8>>), usize)>)
    requires
        at <= data@.len(),
    ensures
        match r {
            Some((entry, next)) => {
                &&& at < next <= data@.len()
                &&& parse_entry(data@.skip(at as int)) == Some(
                    (entry_view(entry), data@.skip(next as int)),
                )
            },
            None => parse_entry(data@.skip(at as int)).is_none(),
        },
{
    reveal(parse_entry);
    let (key, after_key) = match take_field(data, at) {
        Some(found) => found,
        None => {
            return None;
        },
    };
    let len: usize = data.len();
    if after_key >= len {
        return None;
    }
    let tag: u8 = data[after_key];
    proof {
        let s = data@.skip(after_key as int);
        assert(s[0] == data@[after_key as int]);
        assert(s.skip(1) =~= data@.skip(after_key + 1));
    }
    if tag == 0 {
        Some(((key, None), after_key + 1))
    } else if tag == 1 {
        match take_field(data, after_key + 1) {
            Some((value, next)) => Some(((key, Some(value)), next)),
            None => None,
        }
    } else {
        None
    }
}

/// Reads a whole run of entries, or nothing where `data` is not the layout
/// of one.
pub fn decode_entries(data: &[u8]) -> (r: Option<Vec<(Vec<u8>, Option<Vec<u8>>)>>)
    ensures
        match r {
            Some(entries) => parse_entries(data@) == Some(entries_view(entries@)),
            None => parse_entries(data@).is_none(),
        },
{
    let mut entries: Vec<(Vec<u8>, Option<Vec<u8>>)> = Vec::new();
    let mut at: usize = 0;
    let len: usize = data.len();
    assert(data@.skip(0) =~= data@);
    assert(entries_view(entries@) =~= Seq::<Entry>::empty());
    while at < len
        invariant
            at <= len,
            len == data@.len(),
            match parse_entries(data@.skip(at as int)) {
                Some(rest) => parse_entries(data@) == Some(entries_view(entries@) + rest),
                None => parse_entries(data@).is_none(),
            },
        decreases len - at,
    {
        match take_entry(data, at) {
            None => {
                return None;
            },
            Some((entry, next)) => {
                proof {
                    let before = entries_view(entries@);
                    let after = entries_view(entries@.push(entry));
                    assert(after =~= before.push(entry_view(entry)));
                    match parse_entries(data@.skip(next as int)) {
                        Some(rest) => {
                            assert(before + (seq![entry_view(entry)] + rest) =~= after + rest);
                        },
                        None => {},
                    }
                }
                entries.push(entry);
                at = next;
            },
        }
    }
    proof {
        assert(entries_view(entries@) + Seq::<Entry>::empty() =~= entries_view(entries@));
    }
    Some(entries)
}

} // verus!
