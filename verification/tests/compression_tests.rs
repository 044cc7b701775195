use nextdb::storage::compression::{compress, decompress, CompressionType};
use nextdb::storage::error::ErrorKind;

#[test]
fn test_no_compression() {
    let data = b"test data for compression";
    let compressed = compress(data, &CompressionType::Uncompressed).unwrap();
    let decompressed = decompress(&compressed, &CompressionType::Uncompressed).unwrap();

    assert_eq!(data, decompressed.as_slice());
}

#[test]
fn test_lz4_compression() {
    let data = b"test data for compression that should compress well with repeated patterns patterns patterns";
    let compressed = compress(data, &CompressionType::LZ4).unwrap();
    let decompressed = decompress(&compressed, &CompressionType::LZ4).unwrap();

    assert_eq!(data, decompressed.as_slice());
    // LZ4 should achieve some compression on repeated data
    assert!(compressed.len() < data.len());
}

#[test]
fn test_zstd_compression() {
    let data = b"test data for compression that should compress well with repeated patterns patterns patterns";
    let compressed = compress(data, &CompressionType::Zstd).unwrap();
    let decompressed = decompress(&compressed, &CompressionType::Zstd).unwrap();

    assert_eq!(data, decompressed.as_slice());
    // ZSTD should achieve some compression on repeated data
    assert!(compressed.len() < data.len());
}

fn kinds() -> Vec<CompressionType> {
    vec![CompressionType::Uncompressed, CompressionType::LZ4, CompressionType::Zstd]
}

#[test]
fn round_trip_of_empty_input() {
    for kind in kinds() {
        let compressed = compress(&[], &kind).unwrap();
        assert_eq!(decompress(&compressed, &kind).unwrap(), Vec::<u8>::new());
    }
}

#[test]
fn round_trip_of_small_input() {
    for kind in kinds() {
        for data in [&b"a"[..], &b"ab"[..], &[0u8, 255, 1, 254][..]] {
            let compressed = compress(data, &kind).unwrap();
            assert_eq!(decompress(&compressed, &kind).unwrap(), data.to_vec());
        }
    }
}

#[test]
fn round_trip_of_repetitive_input_is_no_longer() {
    let data = vec![b'x'; 10_000];
    for kind in kinds() {
        let compressed = compress(&data, &kind).unwrap();
        assert_eq!(decompress(&compressed, &kind).unwrap(), data);
        assert!(compressed.len() <= data.len());
    }
    let lz4 = compress(&data, &CompressionType::LZ4).unwrap();
    let zstd = compress(&data, &CompressionType::Zstd).unwrap();
    assert!(lz4.len() < 200);
    assert!(zstd.len() < 200);
}

#[test]
fn uncompressed_is_the_input() {
    let data = b"as it is".to_vec();
    assert_eq!(compress(&data, &CompressionType::Uncompressed).unwrap(), data);
    assert_eq!(decompress(&data, &CompressionType::Uncompressed).unwrap(), data);
}

#[test]
fn lz4_puts_the_length_first() {
    let data = vec![7u8; 300];
    let compressed = compress(&data, &CompressionType::LZ4).unwrap();
    assert_eq!(&compressed[..4], &300u32.to_le_bytes());
    assert_ne!(compressed, data);
}

#[test]
fn zstd_writes_a_frame() {
    let data = vec![7u8; 300];
    let compressed = compress(&data, &CompressionType::Zstd).unwrap();
    assert_eq!(&compressed[..4], &[0x28, 0xb5, 0x2f, 0xfd]);
}

#[test]
fn garbage_does_not_decompress() {
    let garbage = vec![0xffu8; 40];
    let lz4 = decompress(&garbage, &CompressionType::LZ4).unwrap_err();
    assert_eq!(lz4.kind(), ErrorKind::Compression);
    assert!(lz4.message().starts_with("Compression error: LZ4 decompression failed"));
    let zstd = decompress(&garbage, &CompressionType::Zstd).unwrap_err();
    assert_eq!(zstd.kind(), ErrorKind::Compression);
    assert!(zstd.message().starts_with("Compression error: ZSTD decompression failed"));
    assert_eq!(decompress(&[], &CompressionType::LZ4).unwrap_err().kind(), ErrorKind::Compression);
}

#[test]
fn lz4_block_that_declares_too_much_is_refused_unread() {
    // A block that declares eight mebibytes and one byte.
    let mut block = (8u32 * 1024 * 1024 + 1).to_le_bytes().to_vec();
    block.extend_from_slice(&[0x10, b'a']);
    let refused = decompress(&block, &CompressionType::LZ4).unwrap_err();
    assert_eq!(refused.message(), "Compression error: LZ4 decompression failed: block too large");
    // A block of one literal byte that declares as much.
    let block = vec![1, 0, 0, 0, 0x10, b'a'];
    assert_eq!(decompress(&block, &CompressionType::LZ4).unwrap(), b"a".to_vec());
    // Incompressible input stays within what is read back.
    let mut noise = vec![0u8; 8 * 1024 * 1024];
    let mut state: u32 = 12345;
    for byte in noise.iter_mut() {
        state = state.wrapping_mul(1664525).wrapping_add(1013904223);
        *byte = (state >> 24) as u8;
    }
    let compressed = compress(&noise, &CompressionType::LZ4).unwrap();
    assert!(compressed.len() > noise.len());
    assert_eq!(decompress(&compressed, &CompressionType::LZ4).unwrap(), noise);
}

#[test]
fn zstd_takes_what_it_can_give_back() {
    let limit = 1024 * 1024;
    let fits = vec![1u8; limit];
    let compressed = compress(&fits, &CompressionType::Zstd).unwrap();
    assert_eq!(decompress(&compressed, &CompressionType::Zstd).unwrap(), fits);

    let too_long = vec![1u8; limit + 1];
    let refused = compress(&too_long, &CompressionType::Zstd).unwrap_err();
    assert_eq!(refused.kind(), ErrorKind::Compression);
}

#[test]
fn lz4_takes_what_it_can_give_back() {
    let limit = 8 * 1024 * 1024;
    let too_long = vec![1u8; limit + 1];
    let refused = compress(&too_long, &CompressionType::LZ4).unwrap_err();
    assert_eq!(refused.kind(), ErrorKind::Compression);
    let fits = vec![1u8; limit];
    let compressed = compress(&fits, &CompressionType::LZ4).unwrap();
    assert_eq!(decompress(&compressed, &CompressionType::LZ4).unwrap(), fits);
}
