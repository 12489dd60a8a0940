//! The CRC-32 checksum of gzip: the reflected polynomial `0xEDB88320`,
//! a register that starts with all bits set, and a result with all bits
//! inverted.

use vstd::prelude::*;

verus! {

/// The generator polynomial, least significant bit first.
pub const POLYNOMIAL: u32 = 0xEDB8_8320;

/// The register after one bit was shifted out of it.
pub open spec fn crc_shift(crc: u32) -> u32 {
    if crc & 1 == 1 {
        (crc >> 1) ^ POLYNOMIAL
    } else {
        crc >> 1
    }
}

/// The register after eight bits were shifted out of it.
pub open spec fn crc_shift8(crc: u32) -> u32 {
    crc_shift(crc_shift(crc_shift(crc_shift(crc_shift(crc_shift(crc_shift(crc_shift(crc))))))))
}

/// The register after `byte` was fed to it.
pub open spec fn crc_byte(crc: u32, byte: u8) -> u32 {
    crc_shift8(crc ^ (byte as u32))
}

/// The register after all of `data` was fed to it, first byte first.
pub open spec fn crc_bytes(crc: u32, data: Seq<u8>) -> u32
    decreases data.len(),
{
    if data.len() == 0 {
        crc
    } else {
        crc_byte(crc_bytes(crc, data.drop_last()), data.last())
    }
}

/// The CRC-32 of `data`.
pub open spec fn crc32_of(data: Seq<u8>) -> u32 {
    crc_bytes(0xFFFF_FFFF, data) ^ 0xFFFF_FFFF
}

/// Feeding a byte comes to one look at the table of what eight shifts
/// make of each byte: the upper 24 bits of the register only move down.
#[verifier::rlimit(40)]
proof fn lemma_table_step(crc: u32, byte: u8)
    ensures
        crc_byte(crc, byte) == crc_shift8((crc ^ (byte as u32)) & 0xff) ^ (crc >> 8),
        (crc ^ (byte as u32)) & 0xff < 256,
{
    let x = crc ^ (byte as u32);
    assert(crc_shift8(x) == crc_shift8(x & 0xff) ^ (x >> 8)) by (bit_vector);
    assert(x >> 8 == crc >> 8) by (bit_vector)
        requires
            x == crc ^ (byte as u32),
    ;
    assert(x & 0xff < 256) by (bit_vector);
}

/// What eight shifts make of each of the 256 bytes.
fn make_table() -> (table: Vec<u32>)
    ensures
        table@.len() == 256,
        forall|i: int| 0 <= i < 256 ==> #[trigger] table@[i] == crc_shift8(i as u32),
{
    let mut table: Vec<u32> = Vec::new();
    let mut i: u32 = 0;
    while i < 256
        invariant
            i <= 256,
            table@.len() == i,
            forall|k: int| 0 <= k < i ==> #[trigger] table@[k] == crc_shift8(k as u32),
        decreases 256 - i,
    {
        let mut crc: u32 = i;
        crc = if crc & 1 == 1 { (crc >> 1) ^ POLYNOMIAL } else { crc >> 1 };
        crc = if crc & 1 == 1 { (crc >> 1) ^ POLYNOMIAL } else { crc >> 1 };
        crc = if crc & 1 == 1 { (crc >> 1) ^ POLYNOMIAL } else { crc >> 1 };
        crc = if crc & 1 == 1 { (crc >> 1) ^ POLYNOMIAL } else { crc >> 1 };
        crc = if crc & 1 == 1 { (crc >> 1) ^ POLYNOMIAL } else { crc >> 1 };
        crc = if crc & 1 == 1 { (crc >> 1) ^ POLYNOMIAL } else { crc >> 1 };
        crc = if crc & 1 == 1 { (crc >> 1) ^ POLYNOMIAL } else { crc >> 1 };
        crc = if crc & 1 == 1 { (crc >> 1) ^ POLYNOMIAL } else { crc >> 1 };
        table.push(crc);
        i += 1;
    }
    table
}

/// The CRC-32 of `bytes`.
pub fn crc32(bytes: &[u8]) -> (crc: u32)
    ensures
        crc == crc32_of(bytes@),
{
    let table = make_table();
    let mut crc: u32 = 0xFFFF_FFFF;
    let mut i: usize = 0;
    while i < bytes.len()
        invariant
            i <= bytes@.len(),
            table@.len() == 256,
            forall|k: int| 0 <= k < 256 ==> #[trigger] table@[k] == crc_shift8(k as u32),
            crc == crc_bytes(0xFFFF_FFFF, bytes@.subrange(0, i as int)),
        decreases bytes@.len() - i,
    {
        let slot: u32 = (crc ^ bytes[i] as u32) & 0xff;
        proof {
            lemma_table_step(crc, bytes[i as int]);
            let next = bytes@.subrange(0, i + 1);
            assert(next.drop_last() == bytes@.subrange(0, i as int));
        }
        crc = table[slot as usize] ^ (crc >> 8);
        i += 1;
    }
    assert(bytes@.subrange(0, i as int) == bytes@);
    crc ^ 0xFFFF_FFFF
}

} // verus!
