use gunzip::bits::BitStream;
use gunzip::error::GzipError;

#[test]
fn bits_come_least_significant_first() {
    let data = [0b1010_0101u8, 0xff];
    let mut bs = BitStream::new(&data);
    assert_eq!(bs.get_bit(), Ok(1));
    assert_eq!(bs.get_bit(), Ok(0));
    assert_eq!(bs.get_nbit(3), Ok(0b001));
    assert_eq!(bs.get_nbit_rev(3), Ok(0b101));
    assert_eq!(bs.get_nbit(8), Ok(0xff));
    assert_eq!(bs.get_bit(), Err(GzipError::TruncatedInput));
}

#[test]
fn a_field_may_span_two_bytes() {
    let data = [0xb5u8, 0x01];
    let mut bs = BitStream::new(&data);
    assert_eq!(bs.get_nbit(9), Ok(0x1b5));
    assert_eq!(bs.get_nbit(7), Ok(0));
}

#[test]
fn sixteen_bits_are_a_little_endian_word() {
    let data = [0x34u8, 0x12, 0xcd, 0xab];
    let mut bs = BitStream::new(&data);
    assert_eq!(bs.get_nbit(16), Ok(0x1234));
    assert_eq!(bs.get_nbit(16), Ok(0xabcd));
}

#[test]
fn a_written_value_is_read_back_for_every_width() {
    let pattern: u32 = 0xa5c3;
    for n in 0..=16u16 {
        let v = (pattern & ((1u32 << n) - 1)) as u16;
        let data = [v as u8, (v >> 8) as u8, 0];
        let mut bs = BitStream::new(&data);
        assert_eq!(bs.get_nbit(n), Ok(v));
        let largest = ((1u32 << n) - 1) as u16;
        let data = [largest as u8, (largest >> 8) as u8, 0];
        let mut bs = BitStream::new(&data);
        assert_eq!(bs.get_nbit(n), Ok(largest));
        assert_eq!(bs.get_nbit(24 - n.max(8)), Ok(0));
    }
}

#[test]
fn no_bits_are_the_number_zero() {
    let data = [0xffu8];
    let mut bs = BitStream::new(&data);
    assert_eq!(bs.get_nbit(0), Ok(0));
    assert_eq!(bs.get_nbit_rev(0), Ok(0));
    assert_eq!(bs.get_nbit(8), Ok(0xff));
    assert_eq!(bs.get_nbit(0), Ok(0));
}

#[test]
fn codewords_come_most_significant_first() {
    // The bits 1, 0, 0, 1, 0, 0, 0, 1 in stream order.
    let data = [0b1000_1001u8, 0b0000_0101];
    let mut bs = BitStream::new(&data);
    assert_eq!(bs.get_nbit_rev(8), Ok(0b1001_0001));
    assert_eq!(bs.get_nbit_rev(3), Ok(0b101));
    let mut bs = BitStream::new(&data);
    assert_eq!(bs.get_nbit(8), Ok(0b1000_1001));
}

#[test]
fn both_orders_agree_on_one_bit() {
    let data = [0b10u8];
    let mut bs = BitStream::new(&data);
    assert_eq!(bs.get_nbit(1), Ok(0));
    assert_eq!(bs.get_nbit_rev(1), Ok(1));
}

#[test]
fn clear_bits_skips_to_the_next_byte() {
    let data = [0xffu8, 0x5a, 0x3c];
    let mut bs = BitStream::new(&data);
    assert_eq!(bs.get_nbit(3), Ok(7));
    bs.clear_bits();
    assert_eq!(bs.get_nbit(8), Ok(0x5a));
}

#[test]
fn clear_bits_leaves_an_aligned_reader_alone() {
    let data = [0x11u8, 0x22];
    let mut bs = BitStream::new(&data);
    bs.clear_bits();
    bs.clear_bits();
    assert_eq!(bs.get_nbit(8), Ok(0x11));
    bs.clear_bits();
    assert_eq!(bs.get_nbit(8), Ok(0x22));
    bs.clear_bits();
    assert_eq!(bs.get_bit(), Err(GzipError::TruncatedInput));
}

#[test]
fn clear_bits_in_the_last_byte_reaches_the_end() {
    let data = [0x01u8];
    let mut bs = BitStream::new(&data);
    assert_eq!(bs.get_bit(), Ok(1));
    bs.clear_bits();
    assert_eq!(bs.get_bit(), Err(GzipError::TruncatedInput));
    assert_eq!(bs.get_nbytes(0), Ok(vec![]));
}

#[test]
fn bytes_are_copied_as_they_are() {
    let data = [0x01u8, 0x02, 0x03, 0x04, 0x05];
    let mut bs = BitStream::new(&data);
    assert_eq!(bs.get_nbit(8), Ok(1));
    assert_eq!(bs.get_nbytes(3), Ok(vec![2, 3, 4]));
    assert_eq!(bs.get_nbytes(0), Ok(vec![]));
    assert_eq!(bs.get_nbit(8), Ok(5));
}

#[test]
fn a_read_past_the_end_is_truncated_and_consumes_nothing() {
    let data = [0xabu8, 0xcd];
    let mut bs = BitStream::new(&data);
    assert_eq!(bs.get_nbit(4), Ok(0xb));
    assert_eq!(bs.get_nbit(13), Err(GzipError::TruncatedInput));
    assert_eq!(bs.get_nbit_rev(13), Err(GzipError::TruncatedInput));
    assert_eq!(bs.get_nbit(12), Ok(0xcda));
    assert_eq!(bs.get_nbit(1), Err(GzipError::TruncatedInput));
    assert_eq!(bs.get_nbit_rev(1), Err(GzipError::TruncatedInput));
    assert_eq!(bs.get_bit(), Err(GzipError::TruncatedInput));
}

#[test]
fn too_many_bytes_are_truncated_and_consume_nothing() {
    let data = [0x01u8, 0x02, 0x03];
    let mut bs = BitStream::new(&data);
    assert_eq!(bs.get_nbytes(4), Err(GzipError::TruncatedInput));
    assert_eq!(bs.get_nbytes(usize::MAX), Err(GzipError::TruncatedInput));
    assert_eq!(bs.get_nbytes(3), Ok(vec![1, 2, 3]));
    assert_eq!(bs.get_nbytes(1), Err(GzipError::TruncatedInput));
}

#[test]
fn an_empty_input_has_no_bits() {
    let data: [u8; 0] = [];
    let mut bs = BitStream::new(&data);
    assert_eq!(bs.get_nbit(0), Ok(0));
    assert_eq!(bs.get_bit(), Err(GzipError::TruncatedInput));
    assert_eq!(bs.get_nbit(1), Err(GzipError::TruncatedInput));
}
