use gunzip::crc::crc32;

#[test]
fn crc_of_nothing_is_zero() {
    assert_eq!(crc32(&[]), 0);
}

#[test]
fn crc_of_the_check_string() {
    assert_eq!(crc32(b"123456789"), 0xCBF4_3926);
}

#[test]
fn crc_of_single_bytes() {
    assert_eq!(crc32(b"A"), 0xD3D9_9E8B);
    assert_eq!(crc32(b"a"), 0xE8B7_BE43);
    assert_eq!(crc32(&[0]), 0xD202_EF8D);
    assert_eq!(crc32(&[0xff]), 0xFF00_0000);
}

#[test]
fn crc_depends_on_the_order_of_bytes() {
    assert_eq!(crc32(b"aaaaa"), 0xEEAC_93B9);
    assert_eq!(crc32(b"ab"), 0x9E83_486D);
    assert_eq!(crc32(b"ba"), 0x2CA7_4A14);
}
