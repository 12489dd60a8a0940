use gunzip::bits::BitStream;
use gunzip::error::GzipError;
use gunzip::inflate::inflate;
use gunzip::stored::inflate_stored;

#[test]
fn empty_stored_block_inflates_to_nothing() {
    assert_eq!(inflate(&[0x01, 0x00, 0x00, 0xff, 0xff]), Ok(vec![]));
}

#[test]
fn stored_block_is_copied() {
    assert_eq!(inflate(&[0x01, 0x01, 0x00, 0xfe, 0xff, 0x41]), Ok(vec![0x41]));
    assert_eq!(
        inflate(&[0x01, 0x03, 0x00, 0xfc, 0xff, 0x00, 0xff, 0x80, 0x99]),
        Ok(vec![0x00, 0xff, 0x80])
    );
}

#[test]
fn stored_block_ignores_the_rest_of_its_first_byte() {
    assert_eq!(inflate(&[0xf9, 0x01, 0x00, 0xfe, 0xff, 0x41]), Ok(vec![0x41]));
}

#[test]
fn stored_block_with_a_wrong_complement_is_rejected() {
    assert_eq!(
        inflate(&[0x01, 0x01, 0x00, 0xff, 0xff, 0x41]),
        Err(GzipError::StoredLengthMismatch)
    );
    assert_eq!(
        inflate(&[0x01, 0x00, 0x00, 0x00, 0x00]),
        Err(GzipError::StoredLengthMismatch)
    );
    assert_eq!(
        inflate(&[0x01, 0xff, 0xff, 0xff, 0xff]),
        Err(GzipError::StoredLengthMismatch)
    );
}

#[test]
fn stored_block_that_ends_early_is_truncated() {
    assert_eq!(inflate(&[0x01]), Err(GzipError::TruncatedInput));
    assert_eq!(inflate(&[0x01, 0x02, 0x00]), Err(GzipError::TruncatedInput));
    assert_eq!(inflate(&[0x01, 0x02, 0x00, 0xfd]), Err(GzipError::TruncatedInput));
    assert_eq!(
        inflate(&[0x01, 0x02, 0x00, 0xfd, 0xff, 0x41]),
        Err(GzipError::TruncatedInput)
    );
}

#[test]
fn inflate_stored_reads_from_behind_the_header() {
    let data = [0x01u8, 0x02, 0x00, 0xfd, 0xff, 0x68, 0x69, 0x77];
    let mut bs = BitStream::new(&data);
    assert_eq!(bs.get_nbit(3), Ok(1));
    assert_eq!(inflate_stored(&mut bs, b"oh ".to_vec()), Ok(b"oh hi".to_vec()));
    assert_eq!(bs.get_nbit(8), Ok(0x77));
}

#[test]
fn a_rejected_stored_block_consumes_nothing() {
    let data = [0x01u8, 0x02, 0x00, 0xfd, 0xfe, 0x68, 0x69];
    let mut bs = BitStream::new(&data);
    assert_eq!(bs.get_nbit(3), Ok(1));
    assert_eq!(inflate_stored(&mut bs, vec![]), Err(GzipError::StoredLengthMismatch));
    assert_eq!(bs.get_nbit(5), Ok(0));
    assert_eq!(bs.get_nbit(16), Ok(2));
    let data = [0x01u8, 0x02, 0x00, 0xfd, 0xff, 0x68];
    let mut bs = BitStream::new(&data);
    assert_eq!(bs.get_nbit(3), Ok(1));
    assert_eq!(inflate_stored(&mut bs, vec![]), Err(GzipError::TruncatedInput));
    assert_eq!(bs.get_nbit(13), Ok(0x40));
}
