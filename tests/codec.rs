use progress_store::codec::{compress, content_hash, decompress, CodecError};

#[test]
fn compress_round_trip() {
    let data: Vec<u8> = (0..2000u32).map(|i| (i % 7) as u8).collect();
    let packed = compress(&data);
    assert_ne!(packed, data);
    assert!(packed.len() < data.len());
    assert_eq!(decompress(&packed).unwrap(), data);
}

#[test]
fn compress_round_trip_empty() {
    let packed = compress(&[]);
    assert_eq!(&packed[..4], &[0x28, 0xB5, 0x2F, 0xFD]);
    assert_eq!(decompress(&packed).unwrap(), Vec::<u8>::new());
}

#[test]
fn legacy_blob_passes_through() {
    let legacy = vec![0x0a, 0x03, b'a', b'b', b'c', 0x10, 0x02];
    assert_eq!(decompress(&legacy).unwrap(), legacy);
    assert_eq!(decompress(&[]).unwrap(), Vec::<u8>::new());
    assert_eq!(decompress(&[0x28, 0xB5]).unwrap(), vec![0x28, 0xB5]);
}

#[test]
fn legacy_frame_magic_is_not_passed_through() {
    // a v0.4 frame header: the size is not recorded
    let old_frame = vec![0x24, 0xB5, 0x2F, 0xFD, 0x00, 0x00, 0x00];
    assert!(decompress(&old_frame).is_err());
}

#[test]
fn huge_claimed_size_is_refused() {
    // a single-segment frame header claiming 2^63 bytes
    let mut frame = vec![0x28, 0xB5, 0x2F, 0xFD, 0xE0];
    frame.extend_from_slice(&(1u64 << 63).to_le_bytes());
    assert!(matches!(decompress(&frame), Err(CodecError::TooLarge)));
}

#[test]
fn corrupt_frame_is_an_error() {
    let data = vec![7u8; 500];
    let mut packed = compress(&data);
    let n = packed.len();
    packed.truncate(n - 3);
    assert!(matches!(decompress(&packed), Err(CodecError::Corrupt)));
}

#[test]
fn content_hash_is_blake3() {
    let empty = content_hash(&[]);
    assert_eq!(empty.len(), 32);
    assert_eq!(empty[..4], [0xaf, 0x13, 0x49, 0xb9]);
    let abc = content_hash(b"abc");
    assert_eq!(abc[..4], [0x64, 0x37, 0xb3, 0xac]);
    assert_ne!(abc, empty);
}
