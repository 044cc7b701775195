use nextdb::storage::cache::BlockCache;
use nextdb::storage::compression::CompressionType;
use nextdb::storage::error::ErrorKind;
use nextdb::storage::sstable::{SSTable, SSTableBuilder};

#[test]
fn test_sstable_builder_and_reader() {
    let file_path = "test.sst";

    // Build SSTable
    let image = {
        let mut builder = SSTableBuilder::new(file_path, CompressionType::Uncompressed).unwrap();
        builder.add(b"key1", &Some(b"value1".to_vec()), 1).unwrap();
        builder.add(b"key2", &Some(b"value2".to_vec()), 2).unwrap();
        builder.add(b"key3", &None, 3).unwrap(); // Deletion

        let sstable = builder.finish().unwrap();
        sstable.as_bytes().clone()
    };

    // Read SSTable
    {
        let sstable = SSTable::open(file_path, image).unwrap();
        let mut cache = BlockCache::new(1024 * 1024);

        let result1 = sstable.get(b"key1", &mut cache).unwrap();
        assert_eq!(result1, Some(Some(b"value1".to_vec())));

        let result2 = sstable.get(b"key2", &mut cache).unwrap();
        assert_eq!(result2, Some(Some(b"value2".to_vec())));

        let result3 = sstable.get(b"key3", &mut cache).unwrap();
        assert_eq!(result3, Some(None)); // Deletion marker

        let result4 = sstable.get(b"nonexistent", &mut cache).unwrap();
        assert_eq!(result4, None);
    }
}

fn kinds() -> Vec<CompressionType> {
    vec![CompressionType::Uncompressed, CompressionType::LZ4, CompressionType::Zstd]
}

fn key(i: usize) -> Vec<u8> {
    format!("key{:06}", i).into_bytes()
}

fn value(i: usize) -> Option<Vec<u8>> {
    if i % 10 == 9 {
        None
    } else {
        Some(format!("value-{}-{}", i, "x".repeat(i % 50)).into_bytes())
    }
}

fn build(path: &str, kind: CompressionType, n: usize) -> SSTable {
    let mut builder = SSTableBuilder::new(path, kind).unwrap();
    for i in 0..n {
        builder.add(&key(2 * i), &value(i), i as u64).unwrap();
    }
    builder.finish().unwrap()
}

#[test]
fn sstable_of_many_blocks_reads_every_key() {
    for kind in kinds() {
        let table = build("many.sst", kind, 2000);
        assert_eq!(table.num_entries(), 2000);
        let reopened = SSTable::open("many.sst", table.as_bytes().clone()).unwrap();
        let mut cache = BlockCache::new(64 * 1024);
        for i in 0..2000 {
            assert_eq!(reopened.get(&key(2 * i), &mut cache).unwrap(), Some(value(i)));
            // The keys between those written are absent.
            assert_eq!(reopened.get(&key(2 * i + 1), &mut cache).unwrap(), None);
        }
        assert_eq!(reopened.get(b"", &mut cache).unwrap(), None);
        assert_eq!(reopened.get(b"key", &mut cache).unwrap(), None);
        assert_eq!(reopened.get(b"zzz", &mut cache).unwrap(), None);
        assert_eq!(reopened.get(&[0xff; 40], &mut cache).unwrap(), None);
    }
}

#[test]
fn sstable_reads_the_same_with_and_without_cache() {
    let table = build("cache.sst", CompressionType::LZ4, 500);
    let mut no_cache = BlockCache::new(0);
    let mut cache = BlockCache::new(1024 * 1024);
    for round in 0..3 {
        for i in 0..500 {
            let through_cache = table.get(&key(2 * i), &mut cache).unwrap();
            let from_image = table.get(&key(2 * i), &mut no_cache).unwrap();
            assert_eq!(through_cache, from_image, "round {}", round);
            assert_eq!(through_cache, Some(value(i)));
        }
    }
    assert_eq!(no_cache.size(), 0);
    assert!(cache.size() > 4096);
}

#[test]
fn sstable_caches_blocks_by_path_and_offset() {
    let table = build("dir/7.sst", CompressionType::Uncompressed, 1000);
    let mut cache = BlockCache::new(1024 * 1024);
    assert_eq!(table.get(&key(0), &mut cache).unwrap(), Some(value(0)));

    // The first block lies at offset 0 and holds the layout of its entries.
    let block = cache.get("dir/7.sst:0").unwrap();
    assert_eq!(&block[..4], &[0, 0, 0, 9]);
    assert_eq!(&block[4..13], &key(0)[..]);
    assert!(block.len() >= 4096);
    assert_eq!(cache.size(), "dir/7.sst:0".len() + block.len());

    // A block further on is cached under its own offset.
    assert_eq!(table.get(&key(1998), &mut cache).unwrap(), Some(value(999)));
    let (_, last) = table.key_range().unwrap();
    assert!(last.len() == 9);
    assert!(cache.size() > "dir/7.sst:0".len() + block.len());
}

#[test]
fn sstable_file_ends_in_a_footer_of_48_bytes() {
    for (code, kind) in kinds().into_iter().enumerate() {
        let table = build("footer.sst", kind, 300);
        let image = table.as_bytes();
        let footer = &image[image.len() - 48..];
        let u64_at = |at: usize| u64::from_be_bytes(footer[at..at + 8].try_into().unwrap());
        let u32_at = |at: usize| u32::from_be_bytes(footer[at..at + 4].try_into().unwrap());
        let index_offset = u64_at(0);
        let index_size = u64_at(8);
        assert_eq!(index_offset + index_size + 48, image.len() as u64);
        assert_eq!(u64_at(16), 0);
        assert_eq!(u64_at(24), 0);
        assert_eq!(u32_at(32), code as u32);
        assert_eq!(u64_at(36), 300);
        assert_eq!(u32_at(44), crc32fast::hash(&footer[..44]));
        assert_eq!(table.file_size(), image.len() as u64);
    }
}

#[test]
fn sstable_without_entries() {
    for kind in kinds() {
        let builder = SSTableBuilder::new("empty.sst", kind).unwrap();
        let table = builder.finish().unwrap();
        assert_eq!(table.key_range(), None);
        assert_eq!(table.num_entries(), 0);
        let mut cache = BlockCache::new(100);
        assert_eq!(table.get(b"any", &mut cache).unwrap(), None);
        let reopened = SSTable::open("empty.sst", table.as_bytes().clone()).unwrap();
        assert_eq!(reopened.get(b"any", &mut cache).unwrap(), None);
    }
    let plain = SSTableBuilder::new("empty.sst", CompressionType::Uncompressed).unwrap().finish().unwrap();
    assert_eq!(plain.file_size(), 48);
}

#[test]
fn sstable_key_range_names_the_first_keys_of_the_outer_blocks() {
    let table = build("range.sst", CompressionType::Uncompressed, 3);
    let (first, last) = table.key_range().unwrap();
    assert_eq!(first, &key(0)[..]);
    // Three small entries make one block.
    assert_eq!(last, &key(0)[..]);

    let table = build("range.sst", CompressionType::Uncompressed, 2000);
    let (first, last) = table.key_range().unwrap();
    assert_eq!(first, &key(0)[..]);
    assert!(last > first);
    assert!(last <= &key(3998)[..]);
}

#[test]
fn sstable_closes_a_block_at_4096_bytes() {
    // Each entry takes 4 + 9 + 1 + 4 + 100 = 118 bytes: 35 of them reach 4096.
    let mut builder = SSTableBuilder::new("blocks.sst", CompressionType::Uncompressed).unwrap();
    for i in 0..70 {
        builder.add(&key(i), &Some(vec![b'v'; 100]), i as u64).unwrap();
    }
    let table = builder.finish().unwrap();
    let image = table.as_bytes();
    let index_offset = u64::from_be_bytes(image[image.len() - 48..image.len() - 40].try_into().unwrap());
    assert_eq!(index_offset, 70 * 118);
    let (first, last) = table.key_range().unwrap();
    assert_eq!(first, &key(0)[..]);
    assert_eq!(last, &key(35)[..]);
    let mut cache = BlockCache::new(1 << 20);
    table.get(&key(34), &mut cache).unwrap();
    assert_eq!(cache.get("blocks.sst:0").map(|b| b.len()), Some(35 * 118));
    table.get(&key(35), &mut cache).unwrap();
    assert_eq!(cache.get("blocks.sst:4130").map(|b| b.len()), Some(35 * 118));
}

#[test]
fn sstable_last_entry_of_a_key_wins() {
    let mut builder = SSTableBuilder::new("twice.sst", CompressionType::Uncompressed).unwrap();
    builder.add(b"a", &Some(b"1".to_vec()), 1).unwrap();
    builder.add(b"b", &Some(b"old".to_vec()), 2).unwrap();
    builder.add(b"b", &Some(b"new".to_vec()), 3).unwrap();
    builder.add(b"b", &None, 4).unwrap();
    builder.add(b"c", &Some(b"3".to_vec()), 5).unwrap();
    let table = builder.finish().unwrap();
    assert_eq!(table.num_entries(), 5);
    let mut cache = BlockCache::new(0);
    assert_eq!(table.get(b"a", &mut cache).unwrap(), Some(Some(b"1".to_vec())));
    assert_eq!(table.get(b"b", &mut cache).unwrap(), Some(None));
    assert_eq!(table.get(b"c", &mut cache).unwrap(), Some(Some(b"3".to_vec())));
}

#[test]
fn sstable_too_small_is_corruption() {
    for len in [0usize, 1, 47] {
        let error = SSTable::open("short.sst", vec![0u8; len]).err().unwrap();
        assert_eq!(error.kind(), ErrorKind::Corruption);
        assert_eq!(error.message(), "Corruption detected: SSTable too small");
    }
}

#[test]
fn sstable_with_a_broken_footer_is_corruption() {
    let table = build("broken.sst", CompressionType::Uncompressed, 100);
    let image = table.as_bytes().clone();
    let len = image.len();

    // Any change to the footer is caught by its checksum.
    for at in len - 48..len {
        let mut broken = image.clone();
        broken[at] ^= 0x40;
        let error = SSTable::open("broken.sst", broken).err().unwrap();
        assert_eq!(error.kind(), ErrorKind::Corruption, "byte {}", at);
    }
    assert_eq!(SSTable::open("x", vec![0u8; 48]).err().unwrap().kind(), ErrorKind::Corruption);

    // A file that was cut has no footer at its end.
    let error = SSTable::open("broken.sst", image[..len - 1].to_vec()).err().unwrap();
    assert_eq!(error.kind(), ErrorKind::Corruption);
    assert!(SSTable::open("broken.sst", image).is_ok());
}

fn with_footer(mut body: Vec<u8>, index_offset: u64, index_size: u64, kind: u32) -> Vec<u8> {
    let mut footer: Vec<u8> = Vec::new();
    footer.extend_from_slice(&index_offset.to_be_bytes());
    footer.extend_from_slice(&index_size.to_be_bytes());
    footer.extend_from_slice(&0u64.to_be_bytes());
    footer.extend_from_slice(&0u64.to_be_bytes());
    footer.extend_from_slice(&kind.to_be_bytes());
    footer.extend_from_slice(&0u64.to_be_bytes());
    let crc = crc32fast::hash(&footer);
    footer.extend_from_slice(&crc.to_be_bytes());
    body.extend_from_slice(&footer);
    body
}

#[test]
fn sstable_with_a_broken_index_is_refused() {
    // An unknown compression kind.
    let error = SSTable::open("x", with_footer(vec![], 0, 0, 3)).err().unwrap();
    assert_eq!(error.kind(), ErrorKind::Corruption);
    // An index that runs past the footer.
    let error = SSTable::open("x", with_footer(vec![1, 2, 3], 0, 4, 0)).err().unwrap();
    assert_eq!(error.kind(), ErrorKind::Corruption);
    let error = SSTable::open("x", with_footer(vec![1, 2, 3], 4, 0, 0)).err().unwrap();
    assert_eq!(error.kind(), ErrorKind::Corruption);
    // An index that is no run of entries.
    let error = SSTable::open("x", with_footer(vec![1, 2, 3], 0, 3, 0)).err().unwrap();
    assert_eq!(error.kind(), ErrorKind::Corruption);
    // An index that does not decompress.
    let error = SSTable::open("x", with_footer(vec![0xff; 9], 0, 9, 1)).err().unwrap();
    assert_eq!(error.kind(), ErrorKind::Compression);
    let error = SSTable::open("x", with_footer(vec![0xff; 9], 0, 9, 2)).err().unwrap();
    assert_eq!(error.kind(), ErrorKind::Compression);
    // An index whose value is no block handle: the entry of the key `k` holds a tombstone.
    let error = SSTable::open("x", with_footer(vec![0, 0, 0, 1, b'k', 0], 0, 6, 0)).err().unwrap();
    assert_eq!(error.kind(), ErrorKind::Corruption);
    // Blocks before an index without lines.
    let error = SSTable::open("x", with_footer(vec![9, 9], 2, 0, 0)).err().unwrap();
    assert_eq!(error.kind(), ErrorKind::Corruption);
    // An empty table is sound.
    assert!(SSTable::open("x", with_footer(vec![], 0, 0, 0)).is_ok());
}

fn index_line(key: &[u8], offset: u64, size: u32) -> Vec<u8> {
    let mut line: Vec<u8> = Vec::new();
    line.extend_from_slice(&(key.len() as u32).to_be_bytes());
    line.extend_from_slice(key);
    line.push(1);
    line.extend_from_slice(&12u32.to_be_bytes());
    line.extend_from_slice(&offset.to_be_bytes());
    line.extend_from_slice(&size.to_be_bytes());
    line
}

#[test]
fn sstable_index_must_list_adjoining_blocks_in_key_order() {
    let block_a: Vec<u8> = vec![0, 0, 0, 1, b'a', 1, 0, 0, 0, 1, b'1'];
    let block_m: Vec<u8> = vec![0, 0, 0, 1, b'm', 0];
    let blocks = [block_a.clone(), block_m.clone()].concat();
    let make = |lines: Vec<Vec<u8>>| {
        let index = lines.concat();
        let mut body = blocks.clone();
        body.extend_from_slice(&index);
        with_footer(body, blocks.len() as u64, index.len() as u64, 0)
    };

    let sound = make(vec![index_line(b"a", 0, 11), index_line(b"m", 11, 6)]);
    let table = SSTable::open("x", sound).unwrap();
    let mut cache = BlockCache::new(0);
    assert_eq!(table.get(b"a", &mut cache).unwrap(), Some(Some(b"1".to_vec())));
    assert_eq!(table.get(b"m", &mut cache).unwrap(), Some(None));
    assert_eq!(table.get(b"b", &mut cache).unwrap(), None);
    assert_eq!(table.get(b"z", &mut cache).unwrap(), None);
    assert_eq!(table.key_range(), Some((&b"a"[..], &b"m"[..])));

    let refused = vec![
        // Keys that descend.
        make(vec![index_line(b"m", 0, 11), index_line(b"a", 11, 6)]),
        // A gap between the blocks.
        make(vec![index_line(b"a", 0, 10), index_line(b"m", 11, 6)]),
        // Blocks that overlap.
        make(vec![index_line(b"a", 0, 12), index_line(b"m", 11, 6)]),
        // A first block that does not start the file.
        make(vec![index_line(b"a", 1, 10), index_line(b"m", 11, 6)]),
        // A last block that does not reach the index.
        make(vec![index_line(b"a", 0, 11), index_line(b"m", 11, 5)]),
        // A last block that runs into the index.
        make(vec![index_line(b"a", 0, 11), index_line(b"m", 11, 7)]),
        // An empty block.
        make(vec![index_line(b"a", 0, 11), index_line(b"b", 11, 0), index_line(b"m", 11, 6)]),
    ];
    for image in refused {
        assert_eq!(SSTable::open("x", image).err().unwrap().kind(), ErrorKind::Corruption);
    }
}

#[test]
fn sstable_block_that_is_broken_fails_the_read() {
    // A table whose one block is no run of entries.
    let block: Vec<u8> = vec![0, 0, 0, 9, b'k'];
    let index = index_line(b"a", 0, 5);
    let mut body = block.clone();
    body.extend_from_slice(&index);
    let table = SSTable::open("x", with_footer(body, 5, index.len() as u64, 0)).unwrap();
    let mut cache = BlockCache::new(100);
    assert_eq!(table.get(b"k", &mut cache).unwrap_err().kind(), ErrorKind::Corruption);
    // A key before the first block is absent without a look at any block.
    assert_eq!(table.get(b"", &mut cache).unwrap(), None);

    // A table whose one block does not decompress.
    let index = index_line(b"a", 0, 5);
    let packed_index = lz4_flex::compress_prepend_size(&index);
    let mut body = vec![0xffu8; 5];
    body.extend_from_slice(&packed_index);
    let table = SSTable::open("y", with_footer(body, 5, packed_index.len() as u64, 1)).unwrap();
    assert_eq!(table.get(b"k", &mut cache).unwrap_err().kind(), ErrorKind::Compression);
}

#[test]
fn sstable_builder_compresses_blocks_and_index() {
    let plain = build("size.sst", CompressionType::Uncompressed, 2000);
    let lz4 = build("size.sst", CompressionType::LZ4, 2000);
    let zstd = build("size.sst", CompressionType::Zstd, 2000);
    assert!(lz4.file_size() < plain.file_size());
    assert!(zstd.file_size() < plain.file_size());
    assert_eq!(plain.file_path(), "size.sst");
}

#[test]
fn sstable_block_too_long_for_zstd_fails_the_build() {
    // One entry of more than a mebibyte makes a block that Zstandard could
    // not give back.
    let mut builder = SSTableBuilder::new("big.sst", CompressionType::Zstd).unwrap();
    let error = builder.add(b"k", &Some(vec![0u8; 1024 * 1024 + 1]), 0).unwrap_err();
    assert_eq!(error.kind(), ErrorKind::Compression);
    assert_eq!(builder.finish().err().unwrap().kind(), ErrorKind::Compression);

    let mut builder = SSTableBuilder::new("big.sst", CompressionType::Uncompressed).unwrap();
    builder.add(b"k", &Some(vec![7u8; 1024 * 1024 + 1]), 0).unwrap();
    let table = builder.finish().unwrap();
    let mut cache = BlockCache::new(0);
    assert_eq!(table.get(b"k", &mut cache).unwrap(), Some(Some(vec![7u8; 1024 * 1024 + 1])));
}
