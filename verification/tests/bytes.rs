use wal_db::bytes::{le32_bytes, le64_bytes, read_le32, read_le64};

#[test]
fn integers_are_little_endian() {
    assert_eq!(le32_bytes(0x0102_0304), vec![4, 3, 2, 1]);
    assert_eq!(le64_bytes(0x0102_0304_0506_0708), vec![8, 7, 6, 5, 4, 3, 2, 1]);
    assert_eq!(read_le32(&[4, 3, 2, 1]), 0x0102_0304);
    assert_eq!(read_le64(&[8, 7, 6, 5, 4, 3, 2, 1]), 0x0102_0304_0506_0708);
}

#[test]
fn integers_read_back() {
    for x in [0, 1, 0x80, 0xFF00_FF00, u32::MAX] {
        assert_eq!(read_le32(&le32_bytes(x)), x);
        assert_eq!(le32_bytes(x), x.to_le_bytes().to_vec());
    }
    for x in [0, 1, 0x80, 0xFF00_FF00_FF00_FF00, u64::MAX] {
        assert_eq!(read_le64(&le64_bytes(x)), x);
        assert_eq!(le64_bytes(x), x.to_le_bytes().to_vec());
    }
}
