use gunzip::driver::{check_case, is_case_name};
use gunzip::error::GzipError;

const STORED_HI: [u8; 25] = [
    0x1f, 0x8b, 0x08, 0x00, 0x00, 0x00, 0x00, 0x00, 0x00, 0xff, 0x01, 0x02, 0x00, 0xfd, 0xff, 0x68,
    0x69, 0xac, 0x2a, 0x93, 0xd8, 0x02, 0x00, 0x00, 0x00,
];

#[test]
fn every_file_but_a_compressed_one_is_a_case() {
    assert!(is_case_name(b"notes.txt"));
    assert!(is_case_name(b"notes"));
    assert!(is_case_name(b""));
    assert!(is_case_name(b"gz"));
    assert!(is_case_name(b".g"));
    assert!(is_case_name(b"notes.gz.txt"));
    assert!(is_case_name(b"notes.GZ"));
    assert!(is_case_name(b"notesgz"));
}

#[test]
fn a_compressed_file_is_no_case() {
    assert!(!is_case_name(b"notes.txt.gz"));
    assert!(!is_case_name(b"notes.gz"));
    assert!(!is_case_name(b".gz"));
    assert!(!is_case_name(b"a.gz.gz"));
}

#[test]
fn a_case_passes_when_the_content_is_as_expected() {
    assert_eq!(check_case(&STORED_HI, b"hi"), Ok(true));
}

#[test]
fn a_case_fails_when_the_content_differs() {
    assert_eq!(check_case(&STORED_HI, b"ho"), Ok(false));
    assert_eq!(check_case(&STORED_HI, b"h"), Ok(false));
    assert_eq!(check_case(&STORED_HI, b"hi!"), Ok(false));
    assert_eq!(check_case(&STORED_HI, b""), Ok(false));
}

#[test]
fn a_case_that_does_not_decode_gives_the_reason() {
    let mut bytes = STORED_HI;
    bytes[17] ^= 1;
    assert_eq!(check_case(&bytes, b"hi"), Err(GzipError::CrcMismatch));
    assert_eq!(check_case(&STORED_HI[..17], b"hi"), Err(GzipError::TruncatedInput));
}
