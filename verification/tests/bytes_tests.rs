use lsplt_rs::bytes::{read_le16, read_le32, read_le64, write_le64};

#[test]
fn read_little_endian_values() {
    let b = vec![0x78u8, 0x56, 0x34, 0x12, 0xaa, 0xbb, 0xcc, 0xdd, 0x01];
    assert_eq!(read_le16(&b, 0), 0x5678);
    assert_eq!(read_le32(&b, 0), 0x12345678);
    assert_eq!(read_le64(&b, 0), 0xddccbbaa12345678);
    assert_eq!(read_le64(&b, 1), 0x01ddccbbaa123456);
}

#[test]
fn write_then_read_round_trip() {
    let mut b = vec![0u8; 16];
    write_le64(&mut b, 3, 0x1122334455667788);
    assert_eq!(read_le64(&b, 3), 0x1122334455667788);
    assert_eq!(b[0], 0);
    assert_eq!(b[3], 0x88);
    assert_eq!(b[10], 0x11);
    assert_eq!(b[11], 0);
}
