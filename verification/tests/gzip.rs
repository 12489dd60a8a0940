use gunzip::error::GzipError;
use gunzip::flag;
use gunzip::gzip::{parse_gzip_meta, ungzip};

/// A member with the given flags and optional fields around `payload`.
fn member_with(flg: u8, optional: &[u8], payload: &[u8], crc: u32, isize: u32) -> Vec<u8> {
    let mut v = vec![0x1f, 0x8b, 0x08, flg, 0x10, 0x2a, 0x3c, 0x5f, 0x02, 0x03];
    v.extend_from_slice(optional);
    v.extend_from_slice(payload);
    v.extend_from_slice(&crc.to_le_bytes());
    v.extend_from_slice(&isize.to_le_bytes());
    v
}

fn member(payload: &[u8], crc: u32, isize: u32) -> Vec<u8> {
    member_with(0, &[], payload, crc, isize)
}

const EMPTY_STORED: [u8; 5] = [0x01, 0x00, 0x00, 0xff, 0xff];

const STORED_A: [u8; 6] = [0x01, 0x01, 0x00, 0xfe, 0xff, 0x41];

/// What a reference encoder makes of `hello, hello, hello!` and a line
/// feed, with the file name `hello.txt`.
const HELLO: [u8; 41] = [
    0x1f, 0x8b, 0x08, 0x08, 0x10, 0x2a, 0x3c, 0x5f, 0x02, 0xff, 0x68, 0x65, 0x6c, 0x6c, 0x6f, 0x2e,
    0x74, 0x78, 0x74, 0x00, 0xcb, 0x48, 0xcd, 0xc9, 0xc9, 0xd7, 0x51, 0xc8, 0x40, 0xa2, 0x14, 0xb9,
    0x00, 0x63, 0xe2, 0x9b, 0x7a, 0x15, 0x00, 0x00, 0x00,
];

/// Words drawn by a linear congruential generator, joined by blanks.
fn words(count: usize, seed: u64) -> Vec<u8> {
    let list: [&[u8]; 10] = [
        b"alpha", b"beta", b"gamma", b"delta", b"epsilon", b"zeta", b"eta", b"theta", b"iota",
        b"kappa",
    ];
    let mut state = seed;
    let mut text = Vec::new();
    for i in 0..count {
        state = (state * 1103515245 + 12345) % (1 << 31);
        if i > 0 {
            text.push(b' ');
        }
        text.extend_from_slice(list[((state >> 16) % 10) as usize]);
    }
    text
}

const DYNAMIC: [u8; 166] = [
    0x6d, 0x92, 0x5b, 0x0e, 0x84, 0x20, 0x0c, 0x45, 0xb7, 0xe2, 0xd6, 0x20, 0x92, 0x91, 0x0c, 0x2a,
    0xc9, 0xf8, 0xc5, 0xea, 0x27, 0x70, 0x90, 0xb6, 0xe2, 0xcf, 0x4d, 0xa1, 0xf7, 0x51, 0x1a, 0xe2,
    0x79, 0xb9, 0x25, 0x56, 0xb8, 0xb6, 0x60, 0xcb, 0x52, 0xc1, 0x57, 0xf8, 0xb8, 0x7d, 0x77, 0x8b,
    0x4b, 0x79, 0x33, 0x17, 0x5f, 0x97, 0xf3, 0xac, 0x68, 0xe7, 0x35, 0xa4, 0x41, 0x6b, 0x8a, 0xe1,
    0x25, 0xae, 0xa6, 0x80, 0x1a, 0xf2, 0x2f, 0xa6, 0xf3, 0xe8, 0xd7, 0xfd, 0x80, 0x17, 0xe9, 0xa2,
    0xe9, 0x4d, 0x74, 0x50, 0xc0, 0xda, 0x65, 0x32, 0xdd, 0x2b, 0x12, 0xc2, 0xac, 0xd4, 0xea, 0x1a,
    0xde, 0x4b, 0x72, 0x11, 0x47, 0xa4, 0x8c, 0xd2, 0xde, 0x49, 0x09, 0x16, 0x2d, 0x85, 0x8f, 0x81,
    0x5a, 0x8e, 0x92, 0xde, 0x4c, 0xb5, 0x77, 0x09, 0x9a, 0xcc, 0x61, 0x8d, 0x75, 0xc1, 0x7a, 0xbe,
    0x49, 0xf6, 0x4f, 0xdf, 0x3f, 0x22, 0xa5, 0xff, 0xb6, 0xee, 0x69, 0x7a, 0x59, 0x79, 0x8f, 0xeb,
    0xdd, 0xe6, 0xa0, 0xfe, 0xc1, 0xad, 0x66, 0x08, 0xcb, 0xb5, 0x41, 0xd6, 0x5f, 0xa3, 0x1f, 0xcf,
    0xd3, 0x5f, 0x07, 0xac, 0x79, 0x7f,
];

#[test]
fn empty_stored_block() {
    let bytes = member(&[0x01, 0x00, 0x00, 0xff, 0xff], 0, 0);
    let gz = ungzip(&bytes).unwrap();
    assert_eq!(gz.data, Vec::<u8>::new());
    assert_eq!(gz.meta.crc32, 0);
    assert_eq!(gz.meta.isize, 0);
}

#[test]
fn gzip_of_the_empty_file() {
    // An empty block in the fixed code, as compressors write it.
    let bytes = member(&[0x03, 0x00], 0, 0);
    let gz = ungzip(&bytes).unwrap();
    assert_eq!(gz.data, Vec::<u8>::new());
}

#[test]
fn stored_single_byte() {
    let bytes = member(&STORED_A, 0xD3D9_9E8B, 1);
    let gz = ungzip(&bytes).unwrap();
    assert_eq!(gz.data, vec![0x41]);
    assert_eq!(gz.meta.crc32, 0xD3D9_9E8B);
    assert_eq!(gz.meta.isize, 1);
}

#[test]
fn fixed_single_literal() {
    let bytes = member(&[0x4b, 0x04, 0x00], 0xE8B7_BE43, 1);
    let gz = ungzip(&bytes).unwrap();
    assert_eq!(gz.data, vec![0x61]);
}

#[test]
fn fixed_back_reference() {
    let bytes = member(&[0x4b, 0x04, 0x01, 0x00], 0xEEAC_93B9, 5);
    let gz = ungzip(&bytes).unwrap();
    assert_eq!(gz.data, vec![0x61, 0x61, 0x61, 0x61, 0x61]);
}

#[test]
fn member_of_a_reference_encoder() {
    let gz = ungzip(&HELLO).unwrap();
    assert_eq!(gz.data, b"hello, hello, hello!\n");
    assert_eq!(gz.meta.filename, Some(b"hello.txt".to_vec()));
    assert_eq!(gz.meta.crc32, 0x7A9B_E263);
    assert_eq!(gz.meta.isize, 21);
}

#[test]
fn dynamic_member_of_a_reference_encoder() {
    let text = words(120, 12345);
    let bytes = member(&DYNAMIC, 0x2396_8333, 680);
    let gz = ungzip(&bytes).unwrap();
    assert_eq!(gz.data, text);
    assert_eq!(gz.meta.cdata, &DYNAMIC[..]);
    let bytes = member(&DYNAMIC, 0x2396_8333, 681);
    assert!(matches!(ungzip(&bytes), Err(GzipError::LengthMismatch)));
    let bytes = member(&DYNAMIC, 0x2396_8332, 680);
    assert!(matches!(ungzip(&bytes), Err(GzipError::CrcMismatch)));
}

#[test]
fn a_wrong_checksum_is_a_crc_mismatch() {
    let bytes = member(&STORED_A, 0xD3D9_9E8A, 1);
    assert!(matches!(ungzip(&bytes), Err(GzipError::CrcMismatch)));
    let bytes = member(&EMPTY_STORED, 1, 0);
    assert!(matches!(ungzip(&bytes), Err(GzipError::CrcMismatch)));
    let mut bytes = HELLO.to_vec();
    bytes[33] ^= 0x80;
    assert!(matches!(ungzip(&bytes), Err(GzipError::CrcMismatch)));
}

#[test]
fn a_wrong_length_is_a_length_mismatch() {
    let bytes = member(&STORED_A, 0xD3D9_9E8B, 2);
    assert!(matches!(ungzip(&bytes), Err(GzipError::LengthMismatch)));
    let bytes = member(&STORED_A, 0xD3D9_9E8B, 0);
    assert!(matches!(ungzip(&bytes), Err(GzipError::LengthMismatch)));
    let bytes = member(&STORED_A, 0xD3D9_9E8B, 0x0100_0001);
    assert!(matches!(ungzip(&bytes), Err(GzipError::LengthMismatch)));
}

#[test]
fn the_length_is_checked_before_the_checksum() {
    let bytes = member(&STORED_A, 0, 7);
    assert!(matches!(ungzip(&bytes), Err(GzipError::LengthMismatch)));
}

#[test]
fn the_stream_is_decoded_before_the_trailer_is_checked() {
    let bytes = member(&[0x07], 0, 0);
    assert!(matches!(ungzip(&bytes), Err(GzipError::ReservedBlockType)));
    let bytes = member(&[0x01, 0x01, 0x00, 0xff, 0xff, 0x41], 0, 7);
    assert!(matches!(ungzip(&bytes), Err(GzipError::StoredLengthMismatch)));
    let bytes = member(&[], 0, 0);
    assert!(matches!(ungzip(&bytes), Err(GzipError::TruncatedInput)));
}

#[test]
fn the_fixed_header_is_read_field_by_field() {
    let bytes = member(&EMPTY_STORED, 0x0403_0201, 0x0807_0605);
    let meta = parse_gzip_meta(&bytes).unwrap();
    assert_eq!(meta.id1, 0x1f);
    assert_eq!(meta.id2, 0x8b);
    assert_eq!(meta.cm, 8);
    assert_eq!(meta.flg, 0);
    assert_eq!(meta.mtime, 0x5f3c_2a10);
    assert_eq!(meta.xfl, 2);
    assert_eq!(meta.os, 3);
    assert_eq!(meta.filename, None);
    assert_eq!(meta.cdata, &EMPTY_STORED[..]);
    assert_eq!(meta.crc32, 0x0403_0201);
    assert_eq!(meta.isize, 0x0807_0605);
}

#[test]
fn the_shortest_member_has_no_payload() {
    let bytes = member(&[], 0xdead_beef, 0);
    assert_eq!(bytes.len(), 18);
    let meta = parse_gzip_meta(&bytes).unwrap();
    assert!(meta.cdata.is_empty());
    assert_eq!(meta.crc32, 0xdead_beef);
}

#[test]
fn an_input_shorter_than_header_and_trailer_is_truncated() {
    let bytes = member(&[], 0, 0);
    for len in 0..18 {
        assert!(matches!(parse_gzip_meta(&bytes[..len]), Err(GzipError::TruncatedInput)));
        assert!(matches!(ungzip(&bytes[..len]), Err(GzipError::TruncatedInput)));
    }
    assert!(matches!(parse_gzip_meta(&[0u8; 17]), Err(GzipError::TruncatedInput)));
}

#[test]
fn bad_magic_is_rejected() {
    for at in 0..3 {
        let mut bytes = member(&EMPTY_STORED, 0, 0);
        bytes[at] ^= 0x01;
        assert!(matches!(parse_gzip_meta(&bytes), Err(GzipError::BadMagic)));
        assert!(matches!(ungzip(&bytes), Err(GzipError::BadMagic)));
    }
    assert!(matches!(parse_gzip_meta(&[0u8; 18]), Err(GzipError::BadMagic)));
}

#[test]
fn reserved_flags_are_rejected() {
    for flg in [0x20u8, 0x40, 0x80, 0xe0, 0xff, 0x28] {
        let bytes = member_with(flg, &[], &EMPTY_STORED, 0, 0);
        assert!(matches!(parse_gzip_meta(&bytes), Err(GzipError::UnsupportedFlag)));
    }
}

#[test]
fn the_magic_is_checked_before_the_flags() {
    let mut bytes = member_with(0x80, &[], &EMPTY_STORED, 0, 0);
    bytes[2] = 7;
    assert!(matches!(parse_gzip_meta(&bytes), Err(GzipError::BadMagic)));
}

#[test]
fn the_text_flag_changes_nothing() {
    let bytes = member_with(flag::FTEXT, &[], &STORED_A, 0xD3D9_9E8B, 1);
    let gz = ungzip(&bytes).unwrap();
    assert_eq!(gz.data, vec![0x41]);
    assert_eq!(gz.meta.flg, 1);
}

#[test]
fn the_extra_field_is_skipped() {
    let bytes = member_with(flag::FEXTRA, &[3, 0, 9, 0, 9], &STORED_A, 0xD3D9_9E8B, 1);
    let meta = parse_gzip_meta(&bytes).unwrap();
    assert_eq!(meta.cdata, &STORED_A[..]);
    assert_eq!(meta.filename, None);
    let bytes = member_with(flag::FEXTRA, &[0, 0], &STORED_A, 0xD3D9_9E8B, 1);
    assert_eq!(parse_gzip_meta(&bytes).unwrap().cdata, &STORED_A[..]);
    let mut optional = vec![0x00, 0x01];
    optional.extend_from_slice(&[0x55; 256]);
    let bytes = member_with(flag::FEXTRA, &optional, &STORED_A, 0xD3D9_9E8B, 1);
    assert_eq!(ungzip(&bytes).unwrap().data, vec![0x41]);
}

#[test]
fn the_file_name_ends_with_a_zero_byte() {
    let bytes = member_with(flag::FNAME, b"a.txt\0", &STORED_A, 0xD3D9_9E8B, 1);
    let meta = parse_gzip_meta(&bytes).unwrap();
    assert_eq!(meta.filename, Some(b"a.txt".to_vec()));
    assert_eq!(meta.cdata, &STORED_A[..]);
    let bytes = member_with(flag::FNAME, b"\0", &STORED_A, 0xD3D9_9E8B, 1);
    let meta = parse_gzip_meta(&bytes).unwrap();
    assert_eq!(meta.filename, Some(vec![]));
    assert_eq!(meta.cdata, &STORED_A[..]);
    let bytes = member_with(flag::FNAME, &[0xe9, 0xff, 0x00], &STORED_A, 0xD3D9_9E8B, 1);
    assert_eq!(parse_gzip_meta(&bytes).unwrap().filename, Some(vec![0xe9, 0xff]));
}

#[test]
fn the_comment_is_skipped() {
    let bytes = member_with(flag::FCOMMENT, b"no comment\0", &STORED_A, 0xD3D9_9E8B, 1);
    let meta = parse_gzip_meta(&bytes).unwrap();
    assert_eq!(meta.filename, None);
    assert_eq!(meta.cdata, &STORED_A[..]);
}

#[test]
fn the_header_checksum_is_skipped() {
    let bytes = member_with(flag::FHCRC, &[0xaa, 0xbb], &STORED_A, 0xD3D9_9E8B, 1);
    let meta = parse_gzip_meta(&bytes).unwrap();
    assert_eq!(meta.cdata, &STORED_A[..]);
}

#[test]
fn the_optional_fields_come_in_their_order() {
    let flg = flag::FEXTRA | flag::FNAME | flag::FCOMMENT | flag::FHCRC | flag::FTEXT;
    let mut optional = vec![2, 0, 0, 0];
    optional.extend_from_slice(b"name\0");
    optional.extend_from_slice(b"comment\0");
    optional.extend_from_slice(&[0x12, 0x34]);
    let bytes = member_with(flg, &optional, &STORED_A, 0xD3D9_9E8B, 1);
    let gz = ungzip(&bytes).unwrap();
    assert_eq!(gz.meta.filename, Some(b"name".to_vec()));
    assert_eq!(gz.meta.cdata, &STORED_A[..]);
    assert_eq!(gz.data, vec![0x41]);
}

#[test]
fn an_optional_field_may_not_reach_the_trailer() {
    // An extra field whose length is cut off, or longer than what is left.
    let bytes = member_with(flag::FEXTRA, &[5], &[], 0, 0);
    assert!(matches!(parse_gzip_meta(&bytes), Err(GzipError::TruncatedInput)));
    let bytes = member_with(flag::FEXTRA, &[5, 0, 1, 2, 3, 4], &[], 0, 0);
    assert!(matches!(parse_gzip_meta(&bytes), Err(GzipError::TruncatedInput)));
    let bytes = member_with(flag::FEXTRA, &[5, 0, 1, 2, 3, 4, 5], &[], 0, 0);
    assert!(parse_gzip_meta(&bytes).is_ok());
    // A name or a comment without its zero byte before the trailer.
    let bytes = member_with(flag::FNAME, b"name", &[], 0, 0);
    assert!(matches!(parse_gzip_meta(&bytes), Err(GzipError::TruncatedInput)));
    let bytes = member_with(flag::FCOMMENT, b"", &[], 0, 0);
    assert!(matches!(parse_gzip_meta(&bytes), Err(GzipError::TruncatedInput)));
    let bytes = member_with(flag::FNAME | flag::FCOMMENT, b"name\0comment", &[], 0, 0);
    assert!(matches!(parse_gzip_meta(&bytes), Err(GzipError::TruncatedInput)));
    // A header checksum of one byte.
    let bytes = member_with(flag::FHCRC, &[0xaa], &[], 0, 0);
    assert!(matches!(parse_gzip_meta(&bytes), Err(GzipError::TruncatedInput)));
    let bytes = member_with(flag::FHCRC, &[0xaa, 0xbb], &[], 0, 0);
    assert!(parse_gzip_meta(&bytes).is_ok());
}

#[test]
fn a_member_cut_short_is_never_accepted() {
    for len in 0..HELLO.len() {
        assert!(ungzip(&HELLO[..len]).is_err());
    }
}
