use pk2::parse::{read_le_u16, read_le_u32, read_le_u64, read_le_u8};

#[test]
fn reads_advance_the_slice() {
    let data = [1u8, 2, 3, 4, 5, 6, 7, 8, 9, 10, 11, 12, 13, 14, 15];
    let mut buf: &[u8] = &data;
    assert_eq!(read_le_u8(&mut buf), Ok(1));
    assert_eq!(read_le_u16(&mut buf), Ok(0x0302));
    assert_eq!(read_le_u32(&mut buf), Ok(0x0706_0504));
    assert_eq!(read_le_u64(&mut buf), Ok(0x0F0E_0D0C_0B0A_0908));
    assert!(buf.is_empty());
}

#[test]
fn short_input_reports_missing_bytes() {
    let data = [1u8, 2, 3];
    let mut buf: &[u8] = &data;
    assert_eq!(read_le_u32(&mut buf), Err(1));
    assert_eq!(buf.len(), 3);
    assert_eq!(read_le_u64(&mut buf), Err(5));
    assert_eq!(read_le_u16(&mut buf), Ok(0x0201));
    assert_eq!(read_le_u16(&mut buf), Err(1));
    assert_eq!(read_le_u8(&mut buf), Ok(3));
    assert_eq!(read_le_u8(&mut buf), Err(1));
}

#[test]
fn u64_read_is_two_u32_reads() {
    let bytes = [0x01u8, 0x02, 0x03, 0x04, 0x05, 0x06, 0x07, 0x08, 0x09];
    let mut a: &[u8] = &bytes;
    let whole = read_le_u64(&mut a).unwrap();
    let mut b: &[u8] = &bytes;
    let lo = read_le_u32(&mut b).unwrap();
    let hi = read_le_u32(&mut b).unwrap();
    assert_eq!(whole, lo as u64 | (hi as u64) << 32);
    assert_eq!(whole, 0x0807_0605_0403_0201);
    assert_eq!(a, b);
}
