use gunzip::bits::BitStream;
use gunzip::error::GzipError;
use gunzip::fixed::inflate_fixed_huff;
use gunzip::inflate::inflate;

#[test]
fn a_literal_and_a_run_come_out_as_copies_of_the_literal() {
    // Literal A, then a match of 3 and of 258 bytes at distance 1.
    assert_eq!(inflate(&[0x73, 0x04, 0x02, 0x00]), Ok(vec![0x41; 4]));
    assert_eq!(inflate(&[0x73, 0x1c, 0x05, 0x00]), Ok(vec![0x41; 259]));
}

#[test]
fn empty_fixed_block_inflates_to_nothing() {
    assert_eq!(inflate(&[0x03, 0x00]), Ok(vec![]));
}

#[test]
fn fixed_block_with_one_literal() {
    assert_eq!(inflate(&[0x4b, 0x04, 0x00]), Ok(vec![0x61]));
}

#[test]
fn fixed_block_with_a_run() {
    // Literal a, then a match of four bytes at distance one.
    assert_eq!(inflate(&[0x4b, 0x04, 0x01, 0x00]), Ok(vec![0x61; 5]));
    // Literals a, a, then a match of three bytes at distance one.
    assert_eq!(inflate(&[0x4b, 0x4c, 0x04, 0x02, 0x00]), Ok(vec![0x61; 5]));
}

#[test]
fn fixed_block_with_extra_bits() {
    // abcdef, then a match of 11 + 1 bytes at distance 5 + 1.
    let stream = [0x4b, 0x4c, 0x4a, 0x4e, 0x49, 0x4d, 0x43, 0x26, 0x01];
    assert_eq!(inflate(&stream), Ok(b"abcdefabcdefabcdef".to_vec()));
}

#[test]
fn inflate_fixed_huff_reads_from_behind_the_header() {
    let data = [0x4bu8, 0x04, 0x01, 0x00];
    let mut bs = BitStream::new(&data);
    assert_eq!(bs.get_nbit(3), Ok(3));
    assert_eq!(inflate_fixed_huff(&mut bs, b"zz".to_vec()), Ok(b"zzaaaaa".to_vec()));
}

#[test]
fn fixed_block_without_an_end_is_truncated() {
    assert_eq!(inflate(&[0x4b]), Err(GzipError::TruncatedInput));
    assert_eq!(inflate(&[0x4b, 0x04]), Err(GzipError::TruncatedInput));
    assert_eq!(inflate(&[0x03]), Err(GzipError::TruncatedInput));
}

#[test]
fn a_match_before_the_start_is_rejected() {
    // A match as the first symbol.
    assert_eq!(inflate(&[0x03, 0x02, 0x00]), Err(GzipError::InvalidBackReference));
    // Literal a, then a match at distance two.
    assert_eq!(inflate(&[0x4b, 0x04, 0x42, 0x00]), Err(GzipError::InvalidBackReference));
}

#[test]
fn the_unused_length_symbols_are_rejected() {
    assert_eq!(inflate(&[0x1b, 0x03, 0x00]), Err(GzipError::InvalidHuffmanSymbol));
    assert_eq!(inflate(&[0x1b, 0x07, 0x00]), Err(GzipError::InvalidHuffmanSymbol));
}

#[test]
fn the_unused_distance_symbols_are_rejected() {
    assert_eq!(inflate(&[0x4b, 0x04, 0x3e, 0x00]), Err(GzipError::InvalidHuffmanSymbol));
    assert_eq!(inflate(&[0x4b, 0x04, 0x7e, 0x00]), Err(GzipError::InvalidHuffmanSymbol));
}

#[test]
fn a_rejected_fixed_block_consumes_nothing() {
    let data = [0x4bu8, 0x04, 0x42, 0x00];
    let mut bs = BitStream::new(&data);
    assert_eq!(bs.get_nbit(3), Ok(3));
    assert_eq!(inflate_fixed_huff(&mut bs, vec![]), Err(GzipError::InvalidBackReference));
    assert_eq!(bs.get_nbit(5), Ok(0x4b >> 3));
    assert_eq!(bs.get_nbit(8), Ok(0x04));
}
