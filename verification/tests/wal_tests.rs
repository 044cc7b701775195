use nextdb::storage::error::{ErrorKind, StorageError};
use nextdb::storage::kv::KVPair;
use nextdb::storage::wal::{read_record, WriteAheadLog};

#[test]
fn test_wal_append_and_recover() {
    let mut wal = WriteAheadLog::open(Vec::new());

    let kv1 = KVPair::new(b"key1".to_vec(), b"value1".to_vec(), 1000, 1);
    let kv2 = KVPair::new(b"key2".to_vec(), b"value2".to_vec(), 1001, 2);
    let kv3 = KVPair::delete(b"key1".to_vec(), 1002, 3);

    // Append entries
    wal.append(&kv1).unwrap();
    wal.append(&kv2).unwrap();
    wal.append(&kv3).unwrap();

    // Recover entries
    let recovered = wal.recover().unwrap();

    assert_eq!(recovered.len(), 3);
    assert_eq!(recovered[0].key, kv1.key);
    assert_eq!(recovered[0].value, kv1.value);
    assert_eq!(recovered[1].key, kv2.key);
    assert_eq!(recovered[1].value, kv2.value);
    assert_eq!(recovered[2].key, kv3.key);
    assert!(recovered[2].value.is_none()); // Deletion
}

fn frame_of(kv: &KVPair) -> Vec<u8> {
    let mut wal = WriteAheadLog::open(Vec::new());
    wal.append(kv).unwrap();
    wal.as_bytes().clone()
}

#[test]
fn kv_pair_constructors() {
    let written = KVPair::new(b"k".to_vec(), b"v".to_vec(), 7, 9);
    assert_eq!(written.key, b"k".to_vec());
    assert_eq!(written.value, Some(b"v".to_vec()));
    assert_eq!(written.timestamp, 7);
    assert_eq!(written.sequence, 9);
    assert!(!written.is_deleted());

    let deleted = KVPair::delete(b"k".to_vec(), 8, 10);
    assert_eq!(deleted.key, b"k".to_vec());
    assert_eq!(deleted.value, None);
    assert_eq!(deleted.timestamp, 8);
    assert_eq!(deleted.sequence, 10);
    assert!(deleted.is_deleted());
}

#[test]
fn wal_frame_is_length_checksum_length_payload() {
    let kv = KVPair::new(b"k".to_vec(), b"vv".to_vec(), 0x0102, 0x0a0b0c0d0e0f1011);
    let payload: Vec<u8> = vec![
        0, 0, 0, 1, b'k', // the key
        1, 0, 0, 0, 2, b'v', b'v', // the value
        0, 0, 0, 0, 0, 0, 1, 2, // the timestamp
        0x0a, 0x0b, 0x0c, 0x0d, 0x0e, 0x0f, 0x10, 0x11, // the sequence number
    ];
    let mut expected: Vec<u8> = Vec::new();
    expected.extend_from_slice(&(payload.len() as u32 + 8).to_be_bytes());
    expected.extend_from_slice(&crc32fast::hash(&payload).to_be_bytes());
    expected.extend_from_slice(&(payload.len() as u32).to_be_bytes());
    expected.extend_from_slice(&payload);
    assert_eq!(frame_of(&kv), expected);
    assert_eq!(expected.len(), 4 + 8 + 28);
}

#[test]
fn wal_frame_of_a_tombstone() {
    let kv = KVPair::delete(b"key".to_vec(), 1, 2);
    let payload: Vec<u8> = vec![
        0, 0, 0, 3, b'k', b'e', b'y', 0, 0, 0, 0, 0, 0, 0, 0, 1, 0, 0, 0, 0, 0, 0, 0, 2,
    ];
    let frame = frame_of(&kv);
    assert_eq!(&frame[..4], &(payload.len() as u32 + 8).to_be_bytes());
    assert_eq!(&frame[4..8], &crc32fast::hash(&payload).to_be_bytes());
    assert_eq!(&frame[12..], &payload[..]);
}

#[test]
fn wal_checksum_is_crc32_of_the_payload() {
    // The CRC-32 of "123456789" is the check value of the algorithm.
    assert_eq!(crc32fast::hash(b"123456789"), 0xcbf43926);
    let frame = frame_of(&KVPair::new(vec![], vec![], 0, 0));
    let payload = &frame[12..];
    let stored = u32::from_be_bytes([frame[4], frame[5], frame[6], frame[7]]);
    assert_eq!(stored, crc32fast::hash(payload));
    assert_ne!(stored, 0);
}

#[test]
fn wal_counts_its_records() {
    let mut wal = WriteAheadLog::open(Vec::new());
    assert_eq!(wal.sequence(), 0);
    wal.append(&KVPair::new(b"a".to_vec(), b"1".to_vec(), 0, 41)).unwrap();
    wal.append(&KVPair::new(b"b".to_vec(), b"2".to_vec(), 0, 42)).unwrap();
    assert_eq!(wal.sequence(), 2);
    // Recovery sets the count to one past the last sequence number read.
    wal.recover().unwrap();
    assert_eq!(wal.sequence(), 43);
    wal.truncate().unwrap();
    assert_eq!(wal.sequence(), 0);
    assert!(wal.as_bytes().is_empty());
    assert!(wal.recover().unwrap().is_empty());
    assert_eq!(wal.sequence(), 0);
}

#[test]
fn wal_recovers_what_another_log_wrote() {
    let mut first = WriteAheadLog::open(Vec::new());
    for i in 0..50u64 {
        let key = format!("key{}", i).into_bytes();
        if i % 7 == 3 {
            first.append(&KVPair::delete(key, 1000 + i, i)).unwrap();
        } else {
            first.append(&KVPair::new(key, vec![i as u8; i as usize], 1000 + i, i)).unwrap();
        }
    }
    let mut second = WriteAheadLog::open(first.as_bytes().clone());
    let recovered = second.recover().unwrap();
    assert_eq!(recovered.len(), 50);
    for (i, kv) in recovered.iter().enumerate() {
        let i = i as u64;
        assert_eq!(kv.key, format!("key{}", i).into_bytes());
        assert_eq!(kv.timestamp, 1000 + i);
        assert_eq!(kv.sequence, i);
        if i % 7 == 3 {
            assert_eq!(kv.value, None);
        } else {
            assert_eq!(kv.value, Some(vec![i as u8; i as usize]));
        }
    }
    assert_eq!(second.as_bytes(), first.as_bytes());
}

#[test]
fn wal_passes_over_a_record_with_a_wrong_checksum() {
    let kv1 = KVPair::new(b"key1".to_vec(), b"value1".to_vec(), 1, 1);
    let kv2 = KVPair::new(b"key2".to_vec(), b"value2".to_vec(), 2, 2);
    let kv3 = KVPair::new(b"key3".to_vec(), b"value3".to_vec(), 3, 3);
    let mut image = frame_of(&kv1);
    let second_at = image.len();
    image.extend_from_slice(&frame_of(&kv2));
    image.extend_from_slice(&frame_of(&kv3));

    // One bit of the payload of the second record flips.
    image[second_at + 12 + 5] ^= 0x01;
    let recovered = WriteAheadLog::open(image.clone()).recover().unwrap();
    assert_eq!(recovered.len(), 2);
    assert_eq!(recovered[0].key, b"key1".to_vec());
    assert_eq!(recovered[1].key, b"key3".to_vec());
    assert_eq!(recovered[1].value, Some(b"value3".to_vec()));

    // The same holds where the stored checksum itself is wrong.
    image[second_at + 12 + 5] ^= 0x01;
    image[second_at + 4] ^= 0x80;
    let recovered = WriteAheadLog::open(image).recover().unwrap();
    assert_eq!(recovered.len(), 2);
    assert_eq!(recovered[1].key, b"key3".to_vec());
}

#[test]
fn wal_passes_over_a_record_with_a_wrong_length_or_layout() {
    let kv1 = KVPair::new(b"key1".to_vec(), b"value1".to_vec(), 1, 1);
    let kv2 = KVPair::new(b"key2".to_vec(), b"value2".to_vec(), 2, 2);
    let good = frame_of(&kv1);

    // A record whose payload length disagrees with the frame.
    let mut wrong_length = frame_of(&kv2);
    wrong_length[11] ^= 0x01;
    let mut image = wrong_length.clone();
    image.extend_from_slice(&good);
    let recovered = WriteAheadLog::open(image).recover().unwrap();
    assert_eq!(recovered.len(), 1);
    assert_eq!(recovered[0].key, b"key1".to_vec());

    // A record with the right checksum over a payload that is no mutation.
    let payload = b"not a mutation".to_vec();
    let mut odd: Vec<u8> = Vec::new();
    odd.extend_from_slice(&(payload.len() as u32 + 8).to_be_bytes());
    odd.extend_from_slice(&crc32fast::hash(&payload).to_be_bytes());
    odd.extend_from_slice(&(payload.len() as u32).to_be_bytes());
    odd.extend_from_slice(&payload);
    odd.extend_from_slice(&good);
    let recovered = WriteAheadLog::open(odd).recover().unwrap();
    assert_eq!(recovered.len(), 1);

    // A record shorter than its own header.
    let mut short: Vec<u8> = vec![0, 0, 0, 3, 1, 2, 3];
    short.extend_from_slice(&good);
    let recovered = WriteAheadLog::open(short).recover().unwrap();
    assert_eq!(recovered.len(), 1);
}

#[test]
fn wal_stops_at_a_torn_tail() {
    let kv1 = KVPair::new(b"key1".to_vec(), b"value1".to_vec(), 1, 1);
    let kv2 = KVPair::new(b"key2".to_vec(), b"value2".to_vec(), 2, 2);
    let mut image = frame_of(&kv1);
    let whole = image.len();
    image.extend_from_slice(&frame_of(&kv2));

    // Every cut within the second frame leaves the first record alone.
    for cut in whole..image.len() {
        let recovered = WriteAheadLog::open(image[..cut].to_vec()).recover().unwrap();
        assert_eq!(recovered.len(), 1, "cut at {}", cut);
        assert_eq!(recovered[0].key, b"key1".to_vec());
    }
    // Every cut within the first frame leaves nothing.
    for cut in 0..whole {
        assert!(WriteAheadLog::open(image[..cut].to_vec()).recover().unwrap().is_empty());
    }
    assert_eq!(WriteAheadLog::open(image).recover().unwrap().len(), 2);
}

#[test]
fn wal_cuts_a_torn_tail_off() {
    let kv1 = KVPair::new(b"key1".to_vec(), b"value1".to_vec(), 1, 1);
    let kv2 = KVPair::new(b"key2".to_vec(), b"value2".to_vec(), 2, 2);
    let kv3 = KVPair::new(b"key3".to_vec(), b"value3".to_vec(), 3, 3);
    let whole = frame_of(&kv1);
    let mut image = whole.clone();
    let second = frame_of(&kv2);
    image.extend_from_slice(&second[..second.len() - 3]);

    let mut wal = WriteAheadLog::open(image.clone());
    assert_eq!(wal.as_bytes(), &image);
    assert_eq!(wal.recover().unwrap().len(), 1);
    assert_eq!(wal.as_bytes(), &whole);

    // What is appended now stands behind whole frames and is read again.
    wal.append(&kv3).unwrap();
    let recovered = WriteAheadLog::open(wal.as_bytes().clone()).recover().unwrap();
    assert_eq!(recovered.len(), 2);
    assert_eq!(recovered[0].key, b"key1".to_vec());
    assert_eq!(recovered[1].key, b"key3".to_vec());

    // A record that is passed over for its checksum stays in the log.
    let mut bad = frame_of(&kv1);
    bad[4] ^= 1;
    bad.extend_from_slice(&frame_of(&kv2));
    let mut wal = WriteAheadLog::open(bad.clone());
    assert_eq!(wal.recover().unwrap().len(), 1);
    assert_eq!(wal.as_bytes(), &bad);
}

#[test]
fn wal_reads_one_record() {
    let kv = KVPair::new(b"key".to_vec(), b"value".to_vec(), 5, 6);
    let frame = frame_of(&kv);
    let read = read_record(&frame[4..]).unwrap();
    assert_eq!(read.key, kv.key);
    assert_eq!(read.value, kv.value);
    assert_eq!(read.timestamp, 5);
    assert_eq!(read.sequence, 6);
    assert!(read_record(&frame[5..]).is_none());
    assert!(read_record(&[]).is_none());
}

#[test]
fn wal_takes_empty_keys_and_values() {
    let mut wal = WriteAheadLog::open(Vec::new());
    wal.append(&KVPair::new(vec![], vec![], 0, 0)).unwrap();
    wal.append(&KVPair::delete(vec![], u64::MAX, u64::MAX)).unwrap();
    let recovered = wal.recover().unwrap();
    assert_eq!(recovered.len(), 2);
    assert_eq!(recovered[0].value, Some(vec![]));
    assert_eq!(recovered[1].value, None);
    assert_eq!(recovered[1].timestamp, u64::MAX);
    assert_eq!(recovered[1].sequence, u64::MAX);
    // One past the last sequence number wraps around.
    assert_eq!(wal.sequence(), 0);
}

#[test]
fn storage_errors_say_what_they_are() {
    let cases = vec![
        (StorageError::Io("x".to_string()), ErrorKind::Io, "IO error: x"),
        (StorageError::Serde("x".to_string()), ErrorKind::Serde, "Serialization error: x"),
        (
            StorageError::KeyNotFound { key: vec![1, 2] },
            ErrorKind::KeyNotFound,
            "Key not found: [1, 2]",
        ),
        (StorageError::Corruption("x".to_string()), ErrorKind::Corruption, "Corruption detected: x"),
        (StorageError::Compression("x".to_string()), ErrorKind::Compression, "Compression error: x"),
        (StorageError::Wal("x".to_string()), ErrorKind::Wal, "WAL error: x"),
        (StorageError::Compaction("x".to_string()), ErrorKind::Compaction, "Compaction error: x"),
        (StorageError::Config("x".to_string()), ErrorKind::Config, "Invalid configuration: x"),
        (StorageError::Internal("x".to_string()), ErrorKind::Internal, "Internal error: x"),
    ];
    for (error, kind, text) in cases {
        assert_eq!(error.kind(), kind);
        assert_eq!(error.message(), text);
    }
}
