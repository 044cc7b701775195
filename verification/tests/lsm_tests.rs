use nextdb::storage::cache::BlockCache;
use nextdb::storage::compression::CompressionType;
use nextdb::storage::error::ErrorKind;
use nextdb::storage::kv::{KVPair, StorageConfig};
use nextdb::storage::lsm::LSMTree;
use nextdb::storage::sstable::{SSTable, SSTableBuilder};
use nextdb::storage::wal::WriteAheadLog;

fn config_in(dir: &str) -> StorageConfig {
    let mut config = StorageConfig::default();
    config.data_dir = format!("{}/data", dir);
    config.wal_dir = format!("{}/wal", dir);
    config
}

#[test]
fn test_lsm_basic_operations() {
    let config = config_in("/tmp/basic");

    let mut lsm = LSMTree::open(config, Vec::new()).expect("Failed to open LSM tree");

    // Test basic put/get operations
    let key = b"test_key".to_vec();
    let value = b"test_value".to_vec();

    lsm.put(key.clone(), value.clone()).expect("Failed to put");

    let retrieved = lsm.get(&key).expect("Failed to get");
    assert_eq!(retrieved, Some(value));

    // Test key that doesn't exist
    let nonexistent = lsm.get(b"nonexistent").expect("Failed to get nonexistent");
    assert_eq!(nonexistent, None);
}

#[test]
fn test_lsm_delete_operations() {
    let config = config_in("/tmp/delete");

    let mut lsm = LSMTree::open(config, Vec::new()).expect("Failed to open LSM tree");

    let key = b"delete_test".to_vec();
    let value = b"to_be_deleted".to_vec();

    // Put then delete
    lsm.put(key.clone(), value.clone()).expect("Failed to put");
    let retrieved = lsm.get(&key).expect("Failed to get");
    assert_eq!(retrieved, Some(value));

    lsm.delete(&key).expect("Failed to delete");
    let deleted = lsm.get(&key).expect("Failed to get after delete");
    assert_eq!(deleted, None);
}

#[test]
fn test_lsm_persistence() {
    let config = config_in("/tmp/persistence");

    let key = b"persistent_key".to_vec();
    let value = b"persistent_value".to_vec();

    // Write data and close
    let log = {
        let mut lsm = LSMTree::open(config.clone(), Vec::new()).expect("Failed to open LSM tree");
        lsm.put(key.clone(), value.clone()).expect("Failed to put");
        lsm.flush().expect("Failed to flush");
        lsm.wal_bytes().clone()
    };

    // Reopen and verify data persists
    {
        let mut lsm = LSMTree::open(config, log).expect("Failed to reopen LSM tree");
        let retrieved = lsm.get(&key).expect("Failed to get after reopen");
        assert_eq!(retrieved, Some(value));
    }
}

#[test]
fn default_config() {
    let config = StorageConfig::default();
    assert_eq!(config.data_dir, "./data");
    assert_eq!(config.wal_dir, "./wal");
    assert_eq!(config.memtable_size_mb, 64);
    assert_eq!(config.l0_compaction_trigger, 4);
    assert_eq!(config.max_levels, 7);
    assert_eq!(config.target_file_size_mb, 64);
    assert_eq!(config.compression, CompressionType::LZ4);
    assert_eq!(config.cache_size_mb, 256);
}

#[test]
fn open_makes_an_empty_tree() {
    let mut lsm = LSMTree::open(config_in("/tmp/open"), Vec::new()).unwrap();
    assert_eq!(lsm.level_count(), 7);
    for level in 0..7 {
        assert!(lsm.level(level).is_empty());
    }
    assert_eq!(lsm.sequence_number(), 0);
    assert!(lsm.wal_bytes().is_empty());
    assert!(!lsm.compaction_due());
    assert_eq!(lsm.config().max_levels, 7);
    assert_eq!(lsm.get(b"k").unwrap(), None);
}

#[test]
fn open_refuses_a_configuration_that_cannot_work() {
    let mut config = config_in("/tmp/config");
    config.max_levels = 0;
    let error = LSMTree::open(config, Vec::new()).err().unwrap();
    assert_eq!(error.kind(), ErrorKind::Config);

    let mut config = config_in("/tmp/config");
    config.cache_size_mb = usize::MAX / 1024;
    assert_eq!(LSMTree::open(config, Vec::new()).err().unwrap().kind(), ErrorKind::Config);

    let mut config = config_in("/tmp/config");
    config.memtable_size_mb = usize::MAX;
    assert_eq!(LSMTree::open(config, Vec::new()).err().unwrap().kind(), ErrorKind::Config);

    let mut config = config_in("/tmp/config");
    config.max_levels = 1;
    config.cache_size_mb = 0;
    config.memtable_size_mb = 0;
    assert!(LSMTree::open(config, Vec::new()).is_ok());
}

#[test]
fn tiny_threshold_flushes_every_put_to_level_0() {
    for kind in [CompressionType::Uncompressed, CompressionType::LZ4, CompressionType::Zstd] {
        let mut config = config_in("/tmp/tiny");
        config.memtable_size_mb = 0;
        config.compression = kind;
        let mut lsm = LSMTree::open(config, Vec::new()).unwrap();

        lsm.put_at(b"a".to_vec(), b"1".to_vec(), 10).unwrap();
        assert_eq!(lsm.level(0).len(), 1);
        lsm.put_at(b"b".to_vec(), b"2".to_vec(), 11).unwrap();
        assert_eq!(lsm.level(0).len(), 2);

        // Both keys are read from the tables.
        assert_eq!(lsm.get(b"a").unwrap(), Some(b"1".to_vec()));
        assert_eq!(lsm.get(b"b").unwrap(), Some(b"2".to_vec()));
        assert_eq!(lsm.get(b"c").unwrap(), None);

        // The tables are named by the sequence numbers that followed the writes.
        assert_eq!(lsm.level(0)[0].file_path(), "/tmp/tiny/data/1.sst");
        assert_eq!(lsm.level(0)[1].file_path(), "/tmp/tiny/data/3.sst");
        assert_eq!(lsm.sequence_number(), 4);
        let mut cache = BlockCache::new(0);
        assert_eq!(lsm.level(0)[0].get(b"a", &mut cache).unwrap(), Some(Some(b"1".to_vec())));
        assert_eq!(lsm.level(0)[0].get(b"b", &mut cache).unwrap(), None);
        assert_eq!(lsm.level(0)[1].get(b"b", &mut cache).unwrap(), Some(Some(b"2".to_vec())));
        for level in 1..lsm.level_count() {
            assert!(lsm.level(level).is_empty());
        }
    }
}

#[test]
fn newest_table_wins() {
    let mut config = config_in("/tmp/newest");
    config.memtable_size_mb = 0;
    let mut lsm = LSMTree::open(config, Vec::new()).unwrap();
    lsm.put_at(b"k".to_vec(), b"old".to_vec(), 1).unwrap();
    lsm.put_at(b"k".to_vec(), b"new".to_vec(), 2).unwrap();
    lsm.put_at(b"other".to_vec(), b"x".to_vec(), 3).unwrap();
    assert_eq!(lsm.level(0).len(), 3);
    assert_eq!(lsm.get(b"k").unwrap(), Some(b"new".to_vec()));
    // Twice, so that the second read goes through the cache.
    assert_eq!(lsm.get(b"k").unwrap(), Some(b"new".to_vec()));
}

#[test]
fn tombstone_in_a_table_shadows_an_older_table() {
    for kind in [CompressionType::Uncompressed, CompressionType::LZ4, CompressionType::Zstd] {
        let mut config = config_in("/tmp/shadow");
        config.compression = kind;
        let mut lsm = LSMTree::open(config, Vec::new()).unwrap();

        lsm.put_at(b"k".to_vec(), b"v".to_vec(), 1).unwrap();
        lsm.put_at(b"stays".to_vec(), b"s".to_vec(), 2).unwrap();
        assert_eq!(lsm.get(b"k").unwrap(), Some(b"v".to_vec()));
        lsm.flush().unwrap();
        assert_eq!(lsm.level(0).len(), 1);
        assert_eq!(lsm.get(b"k").unwrap(), Some(b"v".to_vec()));

        // The tombstone shadows the table from the memtable ...
        lsm.delete_at(b"k", 3).unwrap();
        assert_eq!(lsm.get(b"k").unwrap(), None);
        // ... and from a newer table.
        lsm.flush().unwrap();
        assert_eq!(lsm.level(0).len(), 2);
        assert_eq!(lsm.get(b"k").unwrap(), None);
        assert_eq!(lsm.get(b"k").unwrap(), None);
        assert_eq!(lsm.get(b"stays").unwrap(), Some(b"s".to_vec()));

        // The older table still holds the value, the newer one the tombstone.
        let mut cache = BlockCache::new(0);
        assert_eq!(lsm.level(0)[0].get(b"k", &mut cache).unwrap(), Some(Some(b"v".to_vec())));
        assert_eq!(lsm.level(0)[1].get(b"k", &mut cache).unwrap(), Some(None));

        // A later write shows again.
        lsm.put_at(b"k".to_vec(), b"again".to_vec(), 4).unwrap();
        assert_eq!(lsm.get(b"k").unwrap(), Some(b"again".to_vec()));
        lsm.flush().unwrap();
        assert_eq!(lsm.get(b"k").unwrap(), Some(b"again".to_vec()));
    }
}

#[test]
fn flush_of_an_empty_memtable_writes_no_table() {
    let mut lsm = LSMTree::open(config_in("/tmp/noop"), Vec::new()).unwrap();
    lsm.flush().unwrap();
    lsm.flush().unwrap();
    assert!(lsm.level(0).is_empty());
    assert_eq!(lsm.sequence_number(), 0);
}

#[test]
fn flush_records_when_compaction_is_due() {
    let mut config = config_in("/tmp/due");
    config.l0_compaction_trigger = 3;
    let mut lsm = LSMTree::open(config, Vec::new()).unwrap();
    for i in 0..3u8 {
        assert!(!lsm.compaction_due());
        lsm.put_at(vec![i], vec![i], 0).unwrap();
        lsm.flush().unwrap();
    }
    assert_eq!(lsm.level(0).len(), 3);
    assert!(lsm.compaction_due());
}

#[test]
fn put_appends_one_frame_to_the_log() {
    let mut lsm = LSMTree::open(config_in("/tmp/frames"), Vec::new()).unwrap();
    lsm.put_at(b"k".to_vec(), b"v".to_vec(), 77).unwrap();
    let first = lsm.wal_bytes().clone();
    lsm.delete_at(b"k", 78).unwrap();
    let both = lsm.wal_bytes().clone();
    assert_eq!(&both[..first.len()], &first[..]);

    let mut expected = WriteAheadLog::open(Vec::new());
    expected.append(&KVPair::new(b"k".to_vec(), b"v".to_vec(), 77, 0)).unwrap();
    assert_eq!(expected.as_bytes(), &first);
    expected.append(&KVPair::delete(b"k".to_vec(), 78, 1)).unwrap();
    assert_eq!(expected.as_bytes(), &both);
    assert_eq!(lsm.sequence_number(), 2);

    // A flush writes a table and leaves the log as it is.
    lsm.flush().unwrap();
    assert_eq!(lsm.wal_bytes(), &both);
}

#[test]
fn crash_before_any_flush_is_recovered_from_the_log() {
    let config = config_in("/tmp/crash");
    let mut lsm = LSMTree::open(config.clone(), Vec::new()).unwrap();
    let n = 200u32;
    for i in 0..n {
        let key = format!("key{}", i % 50).into_bytes();
        if i % 9 == 4 {
            lsm.delete_at(&key, i as u64).unwrap();
        } else {
            lsm.put_at(key, format!("value{}", i).into_bytes(), i as u64).unwrap();
        }
    }
    assert!(lsm.level(0).is_empty());
    let expected: Vec<Option<Vec<u8>>> =
        (0..60).map(|k| lsm.get(format!("key{}", k).as_bytes()).unwrap()).collect();
    let log = lsm.wal_bytes().clone();
    drop(lsm);

    let mut reopened = LSMTree::open(config, log.clone()).unwrap();
    assert!(reopened.level(0).is_empty());
    assert_eq!(reopened.sequence_number(), n as u64);
    assert_eq!(reopened.wal_bytes(), &log);
    for k in 0..60 {
        assert_eq!(reopened.get(format!("key{}", k).as_bytes()).unwrap(), expected[k]);
    }
    assert_eq!(reopened.get(b"key49").unwrap(), Some(b"value199".to_vec()));
    assert_eq!(reopened.get(b"key4").unwrap(), Some(b"value154".to_vec()));
    assert_eq!(reopened.get(b"key45").unwrap(), Some(b"value195".to_vec()));
    assert_eq!(reopened.get(b"key50").unwrap(), None);

    // The reopened tree goes on where the other one stopped.
    reopened.put_at(b"late".to_vec(), b"x".to_vec(), 1).unwrap();
    let recovered = WriteAheadLog::open(reopened.wal_bytes().clone()).recover().unwrap();
    assert_eq!(recovered.len(), n as usize + 1);
    assert_eq!(recovered.last().unwrap().sequence, n as u64);
}

#[test]
fn deletes_are_recovered_as_tombstones() {
    let config = config_in("/tmp/crash_delete");
    let mut lsm = LSMTree::open(config.clone(), Vec::new()).unwrap();
    lsm.put_at(b"k".to_vec(), b"v".to_vec(), 1).unwrap();
    lsm.flush().unwrap();
    lsm.delete_at(b"k", 2).unwrap();
    let log = lsm.wal_bytes().clone();

    let mut reopened = LSMTree::open(config, log).unwrap();
    assert_eq!(reopened.get(b"k").unwrap(), None);
}

#[test]
fn corrupt_record_is_left_out_of_the_recovery() {
    let config = config_in("/tmp/corrupt");
    let mut lsm = LSMTree::open(config.clone(), Vec::new()).unwrap();
    lsm.put_at(b"first".to_vec(), b"1".to_vec(), 1).unwrap();
    let second_at = lsm.wal_bytes().len();
    lsm.put_at(b"second".to_vec(), b"2".to_vec(), 2).unwrap();
    lsm.put_at(b"third".to_vec(), b"3".to_vec(), 3).unwrap();
    let mut log = lsm.wal_bytes().clone();
    log[second_at + 4] ^= 0xff;

    let mut reopened = LSMTree::open(config, log).unwrap();
    assert_eq!(reopened.get(b"first").unwrap(), Some(b"1".to_vec()));
    assert_eq!(reopened.get(b"second").unwrap(), None);
    assert_eq!(reopened.get(b"third").unwrap(), Some(b"3".to_vec()));
    assert_eq!(reopened.sequence_number(), 3);
}

#[test]
fn writes_behind_a_torn_tail_are_recovered() {
    let config = config_in("/tmp/torn");
    let mut lsm = LSMTree::open(config.clone(), Vec::new()).unwrap();
    lsm.put_at(b"first".to_vec(), b"1".to_vec(), 1).unwrap();
    let whole = lsm.wal_bytes().clone();
    lsm.put_at(b"second".to_vec(), b"2".to_vec(), 2).unwrap();
    let mut log = lsm.wal_bytes().clone();
    // The process dies while it writes the second record.
    log.truncate(log.len() - 5);

    let mut reopened = LSMTree::open(config.clone(), log).unwrap();
    assert_eq!(reopened.wal_bytes(), &whole);
    assert_eq!(reopened.get(b"first").unwrap(), Some(b"1".to_vec()));
    assert_eq!(reopened.get(b"second").unwrap(), None);
    reopened.put_at(b"third".to_vec(), b"3".to_vec(), 3).unwrap();

    let mut again = LSMTree::open(config, reopened.wal_bytes().clone()).unwrap();
    assert_eq!(again.get(b"first").unwrap(), Some(b"1".to_vec()));
    assert_eq!(again.get(b"second").unwrap(), None);
    assert_eq!(again.get(b"third").unwrap(), Some(b"3".to_vec()));
}

#[test]
fn sequence_numbers_run_out() {
    let config = config_in("/tmp/exhausted");
    let mut log = WriteAheadLog::open(Vec::new());
    log.append(&KVPair::new(b"k".to_vec(), b"v".to_vec(), 0, u64::MAX - 1)).unwrap();

    let mut lsm = LSMTree::open(config.clone(), log.as_bytes().clone()).unwrap();
    assert_eq!(lsm.sequence_number(), u64::MAX);
    assert_eq!(lsm.get(b"k").unwrap(), Some(b"v".to_vec()));
    let before = lsm.wal_bytes().clone();
    let error = lsm.put_at(b"k".to_vec(), b"w".to_vec(), 1).unwrap_err();
    assert_eq!(error.kind(), ErrorKind::Internal);
    assert_eq!(lsm.delete_at(b"k", 1).unwrap_err().kind(), ErrorKind::Internal);
    assert_eq!(lsm.put(b"k".to_vec(), b"w".to_vec()).unwrap_err().kind(), ErrorKind::Internal);
    assert_eq!(lsm.get(b"k").unwrap(), Some(b"v".to_vec()));
    assert_eq!(lsm.wal_bytes(), &before);
    // No number is left to name a table either; the memtable stays queued.
    assert_eq!(lsm.flush().unwrap_err().kind(), ErrorKind::Internal);
    assert_eq!(lsm.get(b"k").unwrap(), Some(b"v".to_vec()));

    // A log that holds the last sequence number cannot be opened.
    log.append(&KVPair::new(b"k".to_vec(), b"v".to_vec(), 0, u64::MAX)).unwrap();
    let error = LSMTree::open(config, log.as_bytes().clone()).err().unwrap();
    assert_eq!(error.kind(), ErrorKind::Wal);
}

#[test]
fn failed_flush_keeps_the_memtable_readable() {
    // A value that Zstandard could not give back from one block.
    let mut config = config_in("/tmp/failed");
    config.compression = CompressionType::Zstd;
    let mut lsm = LSMTree::open(config, Vec::new()).unwrap();
    let big = vec![3u8; 1024 * 1024 + 1];
    lsm.put_at(b"big".to_vec(), big.clone(), 1).unwrap();
    lsm.put_at(b"small".to_vec(), b"s".to_vec(), 2).unwrap();
    let error = lsm.flush().unwrap_err();
    assert_eq!(error.kind(), ErrorKind::Compression);
    assert!(lsm.level(0).is_empty());
    assert_eq!(lsm.get(b"big").unwrap(), Some(big.clone()));
    assert_eq!(lsm.get(b"small").unwrap(), Some(b"s".to_vec()));

    // Later writes land in the fresh memtable and shadow the queue.
    lsm.put_at(b"small".to_vec(), b"t".to_vec(), 3).unwrap();
    lsm.delete_at(b"big", 4).unwrap();
    assert_eq!(lsm.get(b"small").unwrap(), Some(b"t".to_vec()));
    assert_eq!(lsm.get(b"big").unwrap(), None);
    assert_eq!(lsm.flush().unwrap_err().kind(), ErrorKind::Compression);
    assert_eq!(lsm.get(b"small").unwrap(), Some(b"t".to_vec()));
    assert_eq!(lsm.get(b"big").unwrap(), None);
}

#[test]
fn many_keys_over_several_tables() {
    let mut config = config_in("/tmp/many");
    config.cache_size_mb = 1;
    let mut lsm = LSMTree::open(config, Vec::new()).unwrap();
    for round in 0..4u32 {
        for i in 0..500u32 {
            if (i + round) % 4 == 0 {
                let key = format!("key{:05}", i).into_bytes();
                if round == 3 && i % 8 == 0 {
                    lsm.delete_at(&key, 0).unwrap();
                } else {
                    lsm.put_at(key, format!("round{}-{}", round, i).into_bytes(), 0).unwrap();
                }
            }
        }
        if round < 3 {
            lsm.flush().unwrap();
        }
    }
    assert_eq!(lsm.level(0).len(), 3);
    for pass in 0..2 {
        for i in 0..500u32 {
            // The last round that wrote the key decides.
            let round = (0..4u32).rev().find(|round| (i + round) % 4 == 0).unwrap();
            let expected = if round == 3 && i % 8 == 0 {
                None
            } else {
                Some(format!("round{}-{}", round, i).into_bytes())
            };
            let key = format!("key{:05}", i).into_bytes();
            assert_eq!(lsm.get(&key).unwrap(), expected, "pass {} key {}", pass, i);
        }
    }
}

#[test]
fn flush_writes_the_file_that_a_builder_writes() {
    for kind in [CompressionType::Uncompressed, CompressionType::LZ4, CompressionType::Zstd] {
        let mut config = config_in("/tmp/exact");
        config.compression = kind;
        let mut lsm = LSMTree::open(config, Vec::new()).unwrap();
        let mut builder = SSTableBuilder::new("/tmp/exact/data/300.sst", kind).unwrap();
        // The keys are written in descending order and are listed in ascending order.
        for i in (0..300u32).rev() {
            let key = format!("key{:05}", i).into_bytes();
            if i % 5 == 0 {
                lsm.delete_at(&key, 0).unwrap();
            } else {
                lsm.put_at(key, vec![i as u8; 40], 0).unwrap();
            }
        }
        for i in 0..300u32 {
            let key = format!("key{:05}", i).into_bytes();
            let value = if i % 5 == 0 { None } else { Some(vec![i as u8; 40]) };
            builder.add(&key, &value, 299 - i as u64).unwrap();
        }
        lsm.flush().unwrap();
        let expected = builder.finish().unwrap();
        assert_eq!(lsm.level(0).len(), 1);
        assert_eq!(lsm.level(0)[0].file_path(), expected.file_path());
        assert_eq!(lsm.level(0)[0].as_bytes(), expected.as_bytes());
    }
}

#[test]
fn tables_of_a_tree_reopen_from_their_images() {
    let mut lsm = LSMTree::open(config_in("/tmp/images"), Vec::new()).unwrap();
    lsm.put_at(b"a".to_vec(), b"1".to_vec(), 0).unwrap();
    lsm.delete_at(b"b", 0).unwrap();
    lsm.flush().unwrap();
    let table = &lsm.level(0)[0];
    assert_eq!(table.file_path(), "/tmp/images/data/2.sst");
    let reopened = SSTable::open(table.file_path(), table.as_bytes().clone()).unwrap();
    let mut cache = BlockCache::new(1024);
    assert_eq!(reopened.get(b"a", &mut cache).unwrap(), Some(Some(b"1".to_vec())));
    assert_eq!(reopened.get(b"b", &mut cache).unwrap(), Some(None));
    assert_eq!(reopened.num_entries(), 2);
}
