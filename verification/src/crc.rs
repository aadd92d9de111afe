//! The 32-bit checksum that guards a chunk: CRC-32 with the IEEE 802.3
//! polynomial, bit-reflected, started and finished with all ones.

use vstd::prelude::*;
use crate::chunk_type::ChunkType;

verus! {

/// The IEEE 802.3 generator polynomial, bit-reflected.
pub const POLYNOMIAL: u32 = 0xEDB8_8320;

/// The shift register after one bit has left it.
pub open spec fn shift(reg: u32) -> u32 {
    if reg & 1 == 1 {
        (reg >> 1) ^ POLYNOMIAL
    } else {
        reg >> 1
    }
}

/// The shift register after `n` bits have left it.
pub open spec fn shift_n(reg: u32, n: nat) -> u32
    decreases n,
{
    if n == 0 {
        reg
    } else {
        shift(shift_n(reg, (n - 1) as nat))
    }
}

/// The shift register after one more byte of input.
pub open spec fn feed_byte(reg: u32, byte: u8) -> u32 {
    shift_n(reg ^ (byte as u32), 8)
}

/// The shift register after all of `bytes`, in order.
pub open spec fn feed(reg: u32, bytes: Seq<u8>) -> u32
    decreases bytes.len(),
{
    if bytes.len() == 0 {
        reg
    } else {
        feed_byte(feed(reg, bytes.drop_last()), bytes.last())
    }
}

/// CRC-32/ISO-HDLC of `bytes`.
pub open spec fn crc32(bytes: Seq<u8>) -> u32 {
    feed(0xFFFF_FFFF, bytes) ^ 0xFFFF_FFFF
}

/// The checksum of a chunk: CRC-32 of its type bytes followed by its data.
pub open spec fn checksum(chunk_type: Seq<u8>, data: Seq<u8>) -> u32 {
    crc32(chunk_type + data)
}

/// Feeding a concatenation is feeding its parts in turn.
pub proof fn lemma_feed_concat(reg: u32, a: Seq<u8>, b: Seq<u8>)
    ensures
        feed(reg, a + b) == feed(feed(reg, a), b),
    decreases b.len(),
{
    if b.len() == 0 {
        assert(a + b =~= a);
    } else {
        assert((a + b).drop_last() =~= a + b.drop_last());
        assert((a + b).last() == b.last());
        lemma_feed_concat(reg, a, b.drop_last());
    }
}

/// A shift loses nothing: registers that differ before it differ after it.
pub proof fn lemma_shift_one_to_one(a: u32, b: u32)
    requires
        a != b,
    ensures
        shift(a) != shift(b),
{
    assert(a != b ==> shift(a) != shift(b)) by (bit_vector);
}

/// Registers that differ before `n` shifts differ after them.
pub proof fn lemma_shift_n_one_to_one(a: u32, b: u32, n: nat)
    requires
        a != b,
    ensures
        shift_n(a, n) != shift_n(b, n),
    decreases n,
{
    if n > 0 {
        lemma_shift_n_one_to_one(a, b, (n - 1) as nat);
        lemma_shift_one_to_one(shift_n(a, (n - 1) as nat), shift_n(b, (n - 1) as nat));
    }
}

/// Feeding one byte keeps apart what differs: two registers fed the same
/// byte, or one register fed two bytes.
pub proof fn lemma_feed_byte_one_to_one(reg1: u32, byte1: u8, reg2: u32, byte2: u8)
    requires
        reg1 != reg2 && byte1 == byte2 || reg1 == reg2 && byte1 != byte2,
    ensures
        feed_byte(reg1, byte1) != feed_byte(reg2, byte2),
{
    assert((reg1 != reg2 && byte1 == byte2 || reg1 == reg2 && byte1 != byte2) ==> (reg1 ^ (
    byte1 as u32)) != (reg2 ^ (byte2 as u32))) by (bit_vector);
    lemma_shift_n_one_to_one(reg1 ^ (byte1 as u32), reg2 ^ (byte2 as u32), 8);
}

/// Registers that differ before the same input differ after it.
pub proof fn lemma_feed_one_to_one(reg1: u32, reg2: u32, bytes: Seq<u8>)
    requires
        reg1 != reg2,
    ensures
        feed(reg1, bytes) != feed(reg2, bytes),
    decreases bytes.len(),
{
    if bytes.len() > 0 {
        lemma_feed_one_to_one(reg1, reg2, bytes.drop_last());
        lemma_feed_byte_one_to_one(
            feed(reg1, bytes.drop_last()),
            bytes.last(),
            feed(reg2, bytes.drop_last()),
            bytes.last(),
        );
    }
}

/// Changing one byte of the input changes the register that results.
pub proof fn lemma_feed_detects_byte(reg: u32, bytes: Seq<u8>, at: int, byte: u8)
    requires
        0 <= at < bytes.len(),
        byte != bytes[at],
    ensures
        feed(reg, bytes.update(at, byte)) != feed(reg, bytes),
    decreases bytes.len(),
{
    let changed = bytes.update(at, byte);
    if at == bytes.len() - 1 {
        assert(changed.drop_last() =~= bytes.drop_last());
        lemma_feed_byte_one_to_one(
            feed(reg, bytes.drop_last()),
            byte,
            feed(reg, bytes.drop_last()),
            bytes.last(),
        );
    } else {
        assert(changed.drop_last() =~= bytes.drop_last().update(at, byte));
        lemma_feed_detects_byte(reg, bytes.drop_last(), at, byte);
        lemma_feed_byte_one_to_one(
            feed(reg, changed.drop_last()),
            bytes.last(),
            feed(reg, bytes.drop_last()),
            bytes.last(),
        );
    }
}

/// The checksum tells apart any two inputs that differ in exactly one byte:
/// no single-byte change, and so no single-bit flip, leaves it as it was.
pub proof fn lemma_crc32_detects_byte(bytes: Seq<u8>, at: int, byte: u8)
    requires
        0 <= at < bytes.len(),
        byte != bytes[at],
    ensures
        crc32(bytes.update(at, byte)) != crc32(bytes),
{
    lemma_feed_detects_byte(0xFFFF_FFFF, bytes, at, byte);
    let a = feed(0xFFFF_FFFF, bytes.update(at, byte));
    let b = feed(0xFFFF_FFFF, bytes);
    assert(a != b ==> (a ^ 0xFFFF_FFFFu32) != (b ^ 0xFFFF_FFFFu32)) by (bit_vector);
}

/// Advances the register by one byte.
fn step(reg: u32, byte: u8) -> (res: u32)
    ensures
        res == feed_byte(reg, byte),
{
    let start: u32 = reg ^ (byte as u32);
    let mut cur: u32 = start;
    let mut k: u8 = 0;
    while k < 8
        invariant
            k <= 8,
            cur == shift_n(start, k as nat),
        decreases 8 - k,
    {
        cur = if cur & 1 == 1 {
            (cur >> 1) ^ POLYNOMIAL
        } else {
            cur >> 1
        };
        k += 1;
    }
    cur
}

/// Advances the register over a whole slice.
fn run(reg: u32, bytes: &[u8]) -> (res: u32)
    ensures
        res == feed(reg, bytes@),
{
    let mut cur: u32 = reg;
    let mut i: usize = 0;
    while i < bytes.len()
        invariant
            i <= bytes@.len(),
            cur == feed(reg, bytes@.take(i as int)),
        decreases bytes@.len() - i,
    {
        proof {
            let next = bytes@.take(i + 1);
            assert(next.drop_last() =~= bytes@.take(i as int));
            assert(next.last() == bytes@[i as int]);
        }
        cur = step(cur, bytes[i]);
        i += 1;
    }
    proof {
        assert(bytes@.take(i as int) =~= bytes@);
    }
    cur
}

/// The checksum of a chunk with the given type and data.
pub fn compute(chunk_type: &ChunkType, data: &Vec<u8>) -> (crc: u32)
    ensures
        crc == checksum(chunk_type@, data@),
{
    let tag = chunk_type.bytes();
    let after_type = run(0xFFFF_FFFF, tag.as_slice());
    let after_data = run(after_type, data.as_slice());
    proof {
        lemma_feed_concat(0xFFFF_FFFF, chunk_type@, data@);
    }
    after_data ^ 0xFFFF_FFFF
}

} // verus!
