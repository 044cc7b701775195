//! The write-ahead log: an append-only run of length-prefixed, checksummed
//! records, one for each mutation.
//!
//! The log is kept as the image of its file. A frame is the length of a
//! record as four big-endian bytes, then the record. A record is the CRC-32
//! of its payload, the length of the payload, and the payload: the layout of
//! one mutation.

use vstd::prelude::*;
use vstd::slice::slice_subrange;
use crate::storage::bytes::{
    be32,
    be32_value,
    be64,
    be64_value,
    lemma_be32_round_trip,
    lemma_be32_value_prefix,
    lemma_be64_round_trip,
    put_u32,
    put_u64,
    read_u32,
    read_u64,
};
use crate::storage::checksum::{checksum, crc32};
use crate::storage::codec::{
    entry_bytes,
    entry_len,
    lemma_parse_entry,
    parse_entry,
    put_entry,
    take_entry,
};
use crate::storage::error::StorageError;
use crate::storage::kv::{KVPair, KVPairView};

verus! {

/// The longest payload that a record holds: with the eight bytes before it,
/// its length must fit the four bytes of a frame.
pub const MAX_PAYLOAD: usize = 0xFFFF_FFF7;

/// The layout of one mutation.
pub open spec fn payload_bytes(kv: KVPairView) -> Seq<u8> {
    entry_bytes((kv.key, kv.value)) + be64(kv.timestamp) + be64(kv.sequence)
}

/// The mutation that `s` is the layout of, if it is one.
pub open spec fn parse_payload(s: Seq<u8>) -> Option<KVPairView> {
    match parse_entry(s) {
        None => None,
        Some((entry, rest)) => if rest.len() == 16 {
            Some(
                KVPairView {
                    key: entry.0,
                    value: entry.1,
                    timestamp: be64_value(rest),
                    sequence: be64_value(rest.skip(8)),
                },
            )
        } else {
            None
        },
    }
}

/// A payload behind its checksum and its length.
pub open spec fn record_bytes(payload: Seq<u8>) -> Seq<u8> {
    be32(crc32(payload)) + be32(payload.len() as u32) + payload
}

/// The payload of the record `s`, if its length and its checksum are right.
pub open spec fn parse_record(s: Seq<u8>) -> Option<Seq<u8>> {
    if s.len() < 8 {
        None
    } else if be32_value(s.skip(4)) != s.len() - 8 {
        None
    } else if be32_value(s) != crc32(s.skip(8)) {
        None
    } else {
        Some(s.skip(8))
    }
}

/// The mutation that the record `s` holds, if it is well formed.
pub open spec fn decode_record(s: Seq<u8>) -> Option<KVPairView> {
    match parse_record(s) {
        None => None,
        Some(payload) => parse_payload(payload),
    }
}

/// What `append` adds to the log for one mutation.
#[verifier::opaque]
pub open spec fn frame_bytes(kv: KVPairView) -> Seq<u8> {
    let record = record_bytes(payload_bytes(kv));
    be32(record.len() as u32) + record
}

/// Whether a mutation can be logged: its payload fits a record.
pub open spec fn loggable(kv: KVPairView) -> bool {
    entry_len((kv.key, kv.value)) + 16 <= MAX_PAYLOAD
}

/// What recovery reads from a log image: the mutations of its well-formed
/// records, in order, up to the first frame that runs past the end.
pub open spec fn recovered(log: Seq<u8>) -> Seq<KVPairView>
    decreases log.len(),
{
    if log.len() < 4 {
        Seq::empty()
    } else {
        let n = be32_value(log) as int;
        if log.len() - 4 < n {
            Seq::empty()
        } else {
            let rest = recovered(log.skip(4 + n));
            match decode_record(log.subrange(4, 4 + n)) {
                Some(kv) => seq![kv] + rest,
                None => rest,
            }
        }
    }
}

/// Whether a log image is a run of whole frames, with nothing torn at its end.
pub open spec fn well_framed(log: Seq<u8>) -> bool
    decreases log.len(),
{
    if log.len() == 0 {
        true
    } else if log.len() < 4 {
        false
    } else {
        let n = be32_value(log) as int;
        log.len() - 4 >= n && well_framed(log.skip(4 + n))
    }
}

/// The length of the run of whole frames at the start of a log image.
pub open spec fn whole_len(log: Seq<u8>) -> nat
    decreases log.len(),
{
    if log.len() < 4 {
        0
    } else {
        let n = be32_value(log) as int;
        if log.len() - 4 < n {
            0
        } else {
            (4 + n + whole_len(log.skip(4 + n))) as nat
        }
    }
}

/// The run of whole frames at the start of a log image: the image without
/// what a write that was cut short has left at its end.
pub open spec fn whole_frames(log: Seq<u8>) -> Seq<u8> {
    log.take(whole_len(log) as int)
}

/// The sequence number that follows the last of `entries`, or `start` where
/// there is none.
pub open spec fn sequence_after(start: u64, entries: Seq<KVPairView>) -> u64 {
    if entries.len() == 0 {
        start
    } else if entries.last().sequence == u64::MAX {
        0
    } else {
        (entries.last().sequence + 1) as u64
    }
}

/// A payload that fits is read back as the mutation it was laid out from.
pub proof fn lemma_payload_round_trip(kv: KVPairView)
    requires
        loggable(kv),
    ensures
        parse_payload(payload_bytes(kv)) == Some(kv),
        payload_bytes(kv).len() == entry_len((kv.key, kv.value)) + 16,
{
    let entry = (kv.key, kv.value);
    let tail = be64(kv.timestamp) + be64(kv.sequence);
    assert(payload_bytes(kv) =~= entry_bytes(entry) + tail);
    lemma_parse_entry(entry, tail);
    lemma_be64_round_trip(kv.timestamp, be64(kv.sequence));
    lemma_be64_round_trip(kv.sequence, Seq::empty());
    assert(be64(kv.sequence) + Seq::<u8>::empty() =~= be64(kv.sequence));
}

/// A record is read back as its payload.
pub proof fn lemma_record_round_trip(payload: Seq<u8>)
    requires
        payload.len() <= MAX_PAYLOAD,
    ensures
        parse_record(record_bytes(payload)) == Some(payload),
        record_bytes(payload).len() == payload.len() + 8,
{
    let s = record_bytes(payload);
    let tail = be32(payload.len() as u32) + payload;
    assert(s =~= be32(crc32(payload)) + tail);
    lemma_be32_round_trip(crc32(payload), tail);
    lemma_be32_round_trip(payload.len() as u32, payload);
    assert(s.skip(4) =~= tail);
    assert(s.skip(8) =~= payload);
}

/// The frame of a mutation is one whole frame, and recovery reads the
/// mutation from it.
pub proof fn lemma_frame_round_trip(kv: KVPairView)
    requires
        loggable(kv),
    ensures
        well_framed(frame_bytes(kv)),
        recovered(frame_bytes(kv)) == seq![kv],
        frame_bytes(kv).len() == entry_len((kv.key, kv.value)) + 28,
{
    reveal(frame_bytes);
    let payload = payload_bytes(kv);
    let record = record_bytes(payload);
    let frame = frame_bytes(kv);
    lemma_payload_round_trip(kv);
    lemma_record_round_trip(payload);
    lemma_be32_round_trip(record.len() as u32, record);
    assert(frame.subrange(4, 4 + record.len() as int) =~= record);
    assert(frame.skip(4 + record.len() as int) =~= Seq::<u8>::empty());
    assert(well_framed(frame)) by {
        assert(be32_value(frame) == record.len());
        assert(well_framed(frame.skip(4 + record.len() as int)));
    }
    assert(recovered(frame) =~= seq![kv]) by {
        assert(recovered(Seq::<u8>::empty()) =~= Seq::<KVPairView>::empty());
        assert(seq![kv] + Seq::<KVPairView>::empty() =~= seq![kv]);
    }
}

/// Behind a run of whole frames, recovery goes on as if it started there.
pub proof fn lemma_recovered_concat(a: Seq<u8>, b: Seq<u8>)
    requires
        well_framed(a),
    ensures
        recovered(a + b) == recovered(a) + recovered(b),
        well_framed(b) ==> well_framed(a + b),
    decreases a.len(),
{
    if a.len() == 0 {
        assert(a + b =~= b);
        assert(recovered(a) + recovered(b) =~= recovered(b));
    } else {
        let n = be32_value(a) as int;
        let s = a + b;
        lemma_be32_value_prefix(a, b);
        assert(s.subrange(4, 4 + n) =~= a.subrange(4, 4 + n));
        assert(s.skip(4 + n) =~= a.skip(4 + n) + b);
        lemma_recovered_concat(a.skip(4 + n), b);
        match decode_record(a.subrange(4, 4 + n)) {
            Some(kv) => {
                assert(seq![kv] + (recovered(a.skip(4 + n)) + recovered(b)) =~= (seq![kv]
                    + recovered(a.skip(4 + n))) + recovered(b));
            },
            None => {},
        }
    }
}

/// The whole frames of a log are a run of whole frames, and recovery reads
/// from them what it reads from the log. A log that is a run of whole
/// frames has nothing else.
pub proof fn lemma_whole_frames(log: Seq<u8>)
    ensures
        whole_len(log) <= log.len(),
        well_framed(whole_frames(log)),
        recovered(whole_frames(log)) == recovered(log),
        well_framed(log) ==> whole_frames(log) == log,
    decreases log.len(),
{
    let whole = whole_frames(log);
    if log.len() < 4 {
        assert(whole =~= Seq::<u8>::empty());
        if log.len() == 0 {
            assert(whole =~= log);
        }
    } else {
        let n = be32_value(log) as int;
        if log.len() - 4 < n {
            assert(whole =~= Seq::<u8>::empty());
        } else {
            let rest = log.skip(4 + n);
            lemma_whole_frames(rest);
            let frame = log.take(4 + n);
            assert(whole =~= frame + whole_frames(rest));
            assert(log =~= frame + rest);
            lemma_be32_value_prefix(frame, rest);
            lemma_be32_value_prefix(frame, whole_frames(rest));
            assert(whole.skip(4 + n) =~= whole_frames(rest));
            assert(whole.subrange(4, 4 + n) =~= log.subrange(4, 4 + n));
            if well_framed(log) {
                assert(whole =~= log);
            }
        }
    }
}

/// A whole frame whose record is not well formed, such as one with a wrong
/// checksum, adds nothing to what is recovered and does not end the
/// recovery of what follows it.
pub proof fn lemma_corrupt_record_skipped(before: Seq<u8>, record: Seq<u8>, after: Seq<u8>)
    requires
        well_framed(before),
        record.len() <= u32::MAX,
        decode_record(record).is_none(),
    ensures
        recovered(before + (be32(record.len() as u32) + record) + after) == recovered(before)
            + recovered(after),
{
    let frame = be32(record.len() as u32) + record;
    lemma_be32_round_trip(record.len() as u32, record);
    assert(frame.subrange(4, 4 + record.len() as int) =~= record);
    assert(frame.skip(4 + record.len() as int) =~= Seq::<u8>::empty());
    assert(well_framed(frame)) by {
        assert(well_framed(frame.skip(4 + record.len() as int)));
    }
    assert(recovered(frame) =~= Seq::<KVPairView>::empty()) by {
        assert(recovered(Seq::<u8>::empty()) =~= Seq::<KVPairView>::empty());
    }
    lemma_recovered_concat(frame, after);
    lemma_recovered_concat(before, frame + after);
    assert(before + frame + after =~= before + (frame + after));
    assert(recovered(frame) + recovered(after) =~= recovered(after));
}

/// The views of a run of mutations.
pub open spec fn pairs_view(pairs: Seq<KVPair>) -> Seq<KVPairView> {
    pairs.map_values(|kv: KVPair| kv@)
}

/// The write-ahead log of one engine.
pub struct WriteAheadLog {
    log: Vec<u8>,
    sequence: u64,
}

impl WriteAheadLog {
    /// The image of the log file.
    pub closed spec fn image(&self) -> Seq<u8> {
        self.log@
    }

    /// The log's own count of records.
    pub closed spec fn counter(&self) -> u64 {
        self.sequence
    }

    /// Opens the log whose file holds `image`.
    pub fn open(image: Vec<u8>) -> (wal: Self)
        ensures
            wal.image() == image@,
            wal.counter() == 0,
    {
        WriteAheadLog { log: image, sequence: 0 }
    }

    /// The image of the log file, for the host to persist.
    pub fn as_bytes(&self) -> (bytes: &Vec<u8>)
        ensures
            bytes@ == self.image(),
    {
        &self.log
    }

    /// The log's own count of records.
    pub fn sequence(&self) -> (n: u64)
        ensures
            n == self.counter(),
    {
        self.sequence
    }

    /// Appends the record of one mutation.
    ///
    /// A mutation too large for a record is refused and the log stays as it
    /// was. After a run of whole frames, recovery reads what it read before
    /// and then this mutation.
    pub fn append(&mut self, kv_pair: &KVPair) -> (r: Result<(), StorageError>)
        ensures
            match r {
                Ok(_) => {
                    &&& loggable(kv_pair@)
                    &&& final(self).image() == old(self).image() + frame_bytes(kv_pair@)
                    &&& final(self).counter() == if old(self).counter() == u64::MAX {
                        0
                    } else {
                        (old(self).counter() + 1) as u64
                    }
                    &&& well_framed(old(self).image()) ==> well_framed(final(self).image())
                        && recovered(final(self).image()) == recovered(old(self).image()).push(
                        kv_pair@,
                    )
                },
                Err(e) => {
                    &&& e is Wal
                    &&& !loggable(kv_pair@)
                    &&& *final(self) == *old(self)
                },
            },
    {
        let key_len: usize = kv_pair.key.len();
        let fits = match &kv_pair.value {
            None => key_len <= MAX_PAYLOAD - 21,
            Some(value) => key_len <= MAX_PAYLOAD - 25 && value.len() <= MAX_PAYLOAD - 25 - key_len,
        };
        if !fits {
            return Err(StorageError::Wal("Failed to serialize WAL entry: entry too large".to_string()));
        }
        let mut payload: Vec<u8> = Vec::new();
        put_entry(&mut payload, kv_pair.key.as_slice(), &kv_pair.value);
        put_u64(&mut payload, kv_pair.timestamp);
        put_u64(&mut payload, kv_pair.sequence);
        proof {
            assert(payload@ =~= payload_bytes(kv_pair@));
            lemma_payload_round_trip(kv_pair@);
            lemma_record_round_trip(payload@);
            lemma_frame_round_trip(kv_pair@);
            if well_framed(old(self).image()) {
                lemma_recovered_concat(old(self).image(), frame_bytes(kv_pair@));
            }
            reveal(frame_bytes);
        }
        let crc: u32 = checksum(payload.as_slice());
        let payload_len: usize = payload.len();
        let record_len: usize = payload_len + 8;
        let ghost before = self.log@;
        put_u32(&mut self.log, record_len as u32);
        put_u32(&mut self.log, crc);
        put_u32(&mut self.log, payload_len as u32);
        self.log.extend_from_slice(payload.as_slice());
        self.sequence = self.sequence.wrapping_add(1);
        proof {
            assert(self.log@ =~= before + frame_bytes(kv_pair@));
            assert(recovered(before) + seq![kv_pair@] =~= recovered(before).push(kv_pair@));
        }
        Ok(())
    }

    /// Reads the log from its start and returns the mutations of its
    /// well-formed records in order. A record whose checksum or layout is
    /// wrong is passed over; a frame that runs past the end of the log ends
    /// the reading and is cut off, so that what is appended later stands
    /// behind whole frames and can be read.
    pub fn recover(&mut self) -> (r: Result<Vec<KVPair>, StorageError>)
        ensures
            r matches Ok(entries) && pairs_view(entries@) == recovered(old(self).image()),
            final(self).image() == whole_frames(old(self).image()),
            well_framed(final(self).image()),
            recovered(final(self).image()) == recovered(old(self).image()),
            final(self).counter() == sequence_after(
                old(self).counter(),
                recovered(old(self).image()),
            ),
    {
        let mut entries: Vec<KVPair> = Vec::new();
        let mut position: usize = 0;
        let mut kept: usize = 0;
        let mut torn: bool = false;
        let len: usize = self.log.len();
        let mut sequence: u64 = self.sequence;
        proof {
            assert(self.log@.skip(0) =~= self.log@);
            assert(pairs_view(entries@) + recovered(self.log@) =~= recovered(self.log@));
        }
        while position < len
            invariant
                kept <= position <= len,
                len == self.log@.len(),
                self.log@ == old(self).log@,
                recovered(self.log@) == pairs_view(entries@) + recovered(
                    self.log@.skip(position as int),
                ),
                sequence == sequence_after(old(self).sequence, pairs_view(entries@)),
                !torn ==> kept == position,
                torn ==> position == len,
                whole_len(self.log@) == if torn {
                    kept as int
                } else {
                    kept + whole_len(self.log@.skip(position as int))
                },
            decreases len - position,
        {
            let ghost tail = self.log@.skip(position as int);
            if len - position < 4 {
                proof {
                    assert(recovered(tail) =~= Seq::<KVPairView>::empty());
                }
                torn = true;
                position = len;
            } else {
                let entry_len: usize = read_u32(self.log.as_slice(), position) as usize;
                if len - position - 4 < entry_len {
                    proof {
                        assert(recovered(tail) =~= Seq::<KVPairView>::empty());
                    }
                    torn = true;
                    position = len;
                } else {
                    let start: usize = position + 4;
                    let record = slice_subrange(self.log.as_slice(), start, start + entry_len);
                    proof {
                        assert(tail.subrange(4, 4 + entry_len) =~= record@);
                        assert(tail.skip(4 + entry_len) =~= self.log@.skip(start + entry_len));
                    }
                    position = start + entry_len;
                    kept = position;
                    match read_record(record) {
                        Some(kv) => {
                            proof {
                                let before = pairs_view(entries@);
                                let after = pairs_view(entries@.push(kv));
                                assert(after =~= before.push(kv@));
                                let rest = recovered(self.log@.skip(position as int));
                                assert(before + (seq![kv@] + rest) =~= after + rest);
                            }
                            sequence = kv.sequence.wrapping_add(1);
                            entries.push(kv);
                        },
                        None => {},
                    }
                }
            }
            proof {
                if position == len {
                    assert(self.log@.skip(len as int) =~= Seq::<u8>::empty());
                }
            }
        }
        proof {
            assert(self.log@.skip(len as int) =~= Seq::<u8>::empty());
            assert(pairs_view(entries@) + Seq::<KVPairView>::empty() =~= pairs_view(entries@));
            lemma_whole_frames(self.log@);
            assert(self.log@.subrange(0, kept as int) =~= whole_frames(self.log@));
        }
        self.log.truncate(kept);
        self.sequence = sequence;
        Ok(entries)
    }

    /// Empties the log and resets its count of records.
    pub fn truncate(&mut self) -> (r: Result<(), StorageError>)
        ensures
            r is Ok,
            final(self).image() == Seq::<u8>::empty(),
            final(self).counter() == 0,
    {
        self.log.clear();
        self.sequence = 0;
        Ok(())
    }
}

/// Reads one record: the mutation it holds, or nothing where its length, its
/// checksum or its layout is wrong.
pub fn read_record(record: &[u8]) -> (r: Option<KVPair>)
    ensures
        match r {
            Some(kv) => decode_record(record@) == Some(kv@),
            None => decode_record(record@).is_none(),
        },
{
    let len: usize = record.len();
    if len < 8 {
        return None;
    }
    let stored_crc: u32 = read_u32(record, 0);
    let declared: u32 = read_u32(record, 4);
    proof {
        assert(record@.skip(0) =~= record@);
    }
    if declared as usize != len - 8 {
        return None;
    }
    let payload = slice_subrange(record, 8, len);
    assert(payload@ =~= record@.skip(8));
    if checksum(payload) != stored_crc {
        return None;
    }
    let (entry, next) = match take_entry(payload, 0) {
        Some(found) => found,
        None => {
            proof {
                assert(payload@.skip(0) =~= payload@);
            }
            return None;
        },
    };
    proof {
        assert(payload@.skip(0) =~= payload@);
    }
    let payload_len: usize = payload.len();
    if payload_len - next != 16 {
        return None;
    }
    let timestamp: u64 = read_u64(payload, next);
    let sequence: u64 = read_u64(payload, next + 8);
    proof {
        assert(payload@.skip(next as int).skip(8) =~= payload@.skip(next + 8));
    }
    Some(KVPair { key: entry.0, value: entry.1, timestamp, sequence })
}

} // verus!
