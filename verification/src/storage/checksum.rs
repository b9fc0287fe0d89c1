//! The checksum of log records: CRC-32, as IEEE 802.3 defines it.
//!
//! A register of 32 bits takes the bytes one after the other, the low-order bit of each first. It
//! starts with all bits set, and the checksum is what it holds at the end, with all bits inverted.

use vstd::prelude::*;

verus! {

/// The register after one bit: it is shifted, and the polynomial is added if a one drops out.
pub open spec fn crc_bit(register: u32) -> u32 {
    if register & 1 == 1 {
        (register >> 1) ^ 0xedb8_8320
    } else {
        register >> 1
    }
}

/// The register after `n` bits.
pub open spec fn crc_bits(register: u32, n: nat) -> u32
    decreases n,
{
    if n == 0 {
        register
    } else {
        crc_bit(crc_bits(register, (n - 1) as nat))
    }
}

/// The register after bytes.
pub open spec fn crc_register(bytes: Seq<u8>) -> u32
    decreases bytes.len(),
{
    if bytes.len() == 0 {
        0xffff_ffff
    } else {
        crc_bits(crc_register(bytes.drop_last()) ^ (bytes.last() as u32), 8)
    }
}

/// The CRC-32 checksum of bytes.
#[verifier::opaque]
pub open spec fn crc32(bytes: Seq<u8>) -> u32 {
    crc_register(bytes) ^ 0xffff_ffff
}

/// `crc32fast::hash`: the CRC-32 checksum of the bytes.
#[verifier::external_body]
pub(crate) fn crc32_of(bytes: &[u8]) -> (crc: u32)
    ensures
        crc == crc32(bytes@),
{
    crc32fast::hash(bytes)
}

/// Different registers stay different.
proof fn lemma_bits_injective(a: u32, b: u32, n: nat)
    requires
        a != b,
    ensures
        crc_bits(a, n) != crc_bits(b, n),
    decreases n,
{
    if n > 0 {
        lemma_bits_injective(a, b, (n - 1) as nat);
        let x = crc_bits(a, (n - 1) as nat);
        let y = crc_bits(b, (n - 1) as nat);
        assert(x != y ==> crc_bit(x) != crc_bit(y)) by (bit_vector);
    }
}

/// Bytes of which exactly one was changed have another checksum.
pub proof fn law_changed_byte_changes_checksum(bytes: Seq<u8>, i: int, byte: u8)
    requires
        0 <= i < bytes.len(),
        byte != bytes[i],
    ensures
        crc32(bytes.update(i, byte)) != crc32(bytes),
{
    reveal(crc32);
    lemma_changed_register(bytes, i, byte);
    let x = crc_register(bytes);
    let y = crc_register(bytes.update(i, byte));
    assert(x != y ==> x ^ 0xffff_ffff != y ^ 0xffff_ffff) by (bit_vector);
}

proof fn lemma_changed_register(bytes: Seq<u8>, i: int, byte: u8)
    requires
        0 <= i < bytes.len(),
        byte != bytes[i],
    ensures
        crc_register(bytes.update(i, byte)) != crc_register(bytes),
    decreases bytes.len(),
{
    let changed = bytes.update(i, byte);
    let x = crc_register(bytes.drop_last());
    let y = crc_register(changed.drop_last());
    let (a, b) = (bytes.last(), changed.last());
    if i == bytes.len() - 1 {
        assert(changed.drop_last() =~= bytes.drop_last());
        assert(a != b ==> x ^ (a as u32) != x ^ (b as u32)) by (bit_vector);
    } else {
        assert(changed.drop_last() =~= bytes.drop_last().update(i, byte));
        lemma_changed_register(bytes.drop_last(), i, byte);
        assert(x != y ==> x ^ (a as u32) != y ^ (a as u32)) by (bit_vector);
    }
    lemma_bits_injective(x ^ (a as u32), y ^ (b as u32), 8);
}

} // verus!
