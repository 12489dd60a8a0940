use gunzip::backref::{copy_match, get_dis, get_len};
use gunzip::bits::BitStream;
use gunzip::error::GzipError;

#[test]
fn length_codes_without_extra_bits() {
    let data = [0xffu8];
    for (code, length) in [(0u16, 3u16), (1, 4), (7, 10), (28, 258)] {
        let mut bs = BitStream::new(&data);
        assert_eq!(get_len(&mut bs, code), Ok(length));
        assert_eq!(bs.get_nbit(8), Ok(0xff));
    }
}

#[test]
fn length_codes_add_their_extra_bits() {
    let data = [0b0101_1101u8];
    // One extra bit: 1.
    let mut bs = BitStream::new(&data);
    assert_eq!(get_len(&mut bs, 8), Ok(12));
    assert_eq!(get_len(&mut bs, 8), Ok(11));
    // Three extra bits: 101.
    let mut bs = BitStream::new(&data);
    assert_eq!(get_len(&mut bs, 16), Ok(35 + 5));
    // Five extra bits: 11101.
    let mut bs = BitStream::new(&data);
    assert_eq!(get_len(&mut bs, 24), Ok(131 + 29));
    let ones = [0xffu8];
    let mut bs = BitStream::new(&ones);
    assert_eq!(get_len(&mut bs, 27), Ok(258));
    let mut bs = BitStream::new(&ones);
    assert_eq!(get_len(&mut bs, 20), Ok(67 + 15));
}

#[test]
fn a_length_code_needs_its_extra_bits() {
    let data: [u8; 0] = [];
    let mut bs = BitStream::new(&data);
    assert_eq!(get_len(&mut bs, 0), Ok(3));
    assert_eq!(get_len(&mut bs, 28), Ok(258));
    assert_eq!(get_len(&mut bs, 8), Err(GzipError::TruncatedInput));
    let data = [0u8];
    let mut bs = BitStream::new(&data);
    assert_eq!(bs.get_nbit(4), Ok(0));
    assert_eq!(get_len(&mut bs, 24), Err(GzipError::TruncatedInput));
    assert_eq!(get_len(&mut bs, 20), Ok(67));
}

#[test]
fn distance_codes_without_extra_bits() {
    let data = [0xffu8];
    for (code, distance) in [(0u16, 1u16), (1, 2), (2, 3), (3, 4)] {
        let mut bs = BitStream::new(&data);
        assert_eq!(get_dis(&mut bs, code), Ok(distance));
        assert_eq!(bs.get_nbit(8), Ok(0xff));
    }
}

#[test]
fn distance_codes_add_their_extra_bits() {
    let data = [0b0101_1101u8, 0xff];
    let mut bs = BitStream::new(&data);
    assert_eq!(get_dis(&mut bs, 4), Ok(6));
    assert_eq!(get_dis(&mut bs, 5), Ok(7));
    // Four extra bits: 1101.
    let mut bs = BitStream::new(&data);
    assert_eq!(get_dis(&mut bs, 10), Ok(33 + 13));
    // Thirteen extra bits: 1 1111 0101 1101.
    let mut bs = BitStream::new(&data);
    assert_eq!(get_dis(&mut bs, 28), Ok(16385 + 0x1f5d));
    let ones = [0xffu8, 0xff];
    let mut bs = BitStream::new(&ones);
    assert_eq!(get_dis(&mut bs, 29), Ok(32768));
    let zeros = [0u8, 0];
    let mut bs = BitStream::new(&zeros);
    assert_eq!(get_dis(&mut bs, 29), Ok(24577));
}

#[test]
fn a_distance_code_needs_its_extra_bits() {
    let data = [0xffu8];
    let mut bs = BitStream::new(&data);
    assert_eq!(get_dis(&mut bs, 29), Err(GzipError::TruncatedInput));
    assert_eq!(get_dis(&mut bs, 16), Ok(257 + 127));
    assert_eq!(get_dis(&mut bs, 4), Ok(6));
    assert_eq!(get_dis(&mut bs, 4), Err(GzipError::TruncatedInput));
    assert_eq!(get_dis(&mut bs, 3), Ok(4));
}

#[test]
fn a_match_copies_from_behind() {
    let mut out = b"abcdef".to_vec();
    copy_match(&mut out, 3, 2);
    assert_eq!(out, b"abcdefde");
    copy_match(&mut out, 8, 8);
    assert_eq!(out, b"abcdefdeabcdefde");
    copy_match(&mut out, 1, 0);
    assert_eq!(out, b"abcdefdeabcdefde");
}

#[test]
fn a_match_may_overlap_what_it_writes() {
    let mut out = b"xab".to_vec();
    copy_match(&mut out, 2, 5);
    assert_eq!(out, b"xababababa"[..8].to_vec());
    let mut out = b"abc".to_vec();
    copy_match(&mut out, 3, 7);
    assert_eq!(out, b"abcabcabca");
}

#[test]
fn a_match_at_distance_one_repeats_the_last_byte() {
    for length in [3u16, 4, 17, 258] {
        let mut out = vec![0x41u8];
        copy_match(&mut out, 1, length);
        assert_eq!(out, vec![0x41u8; length as usize + 1]);
    }
    let mut out = b"xyz".to_vec();
    copy_match(&mut out, 1, 3);
    assert_eq!(out, b"xyzzzz");
}
