//! Big-endian 32-bit fields, as the chunk format stores lengths and
//! checksums.

use vstd::prelude::*;

verus! {

/// The four bytes of `value`, most significant first.
#[verifier::opaque]
pub open spec fn be_bytes(value: u32) -> Seq<u8> {
    seq![
        (value / 0x100_0000) as u8,
        ((value / 0x1_0000) % 0x100) as u8,
        ((value / 0x100) % 0x100) as u8,
        (value % 0x100) as u8,
    ]
}

/// The number that four bytes spell, most significant first.
#[verifier::opaque]
pub open spec fn be_value(bytes: Seq<u8>) -> u32
    recommends
        bytes.len() == 4,
{
    (bytes[0] * 0x100_0000 + bytes[1] * 0x1_0000 + bytes[2] * 0x100 + bytes[3]) as u32
}

/// Reading back the bytes of a number gives the number.
pub proof fn lemma_be_value_of_bytes(value: u32)
    ensures
        be_bytes(value).len() == 4,
        be_value(be_bytes(value)) == value,
{
    reveal(be_bytes);
    reveal(be_value);
}

/// Writing out the number that four bytes spell gives the four bytes.
pub proof fn lemma_be_bytes_of_value(bytes: Seq<u8>)
    requires
        bytes.len() == 4,
    ensures
        be_bytes(be_value(bytes)) == bytes,
{
    reveal(be_bytes);
    reveal(be_value);
    let (a, b, c, d) = (bytes[0], bytes[1], bytes[2], bytes[3]);
    let value: u32 = be_value(bytes);
    assert(a * 0x100_0000 + b * 0x1_0000 + c * 0x100 + d <= u32::MAX);
    assert(value == a * 0x100_0000 + b * 0x1_0000 + c * 0x100 + d);
    assert(value / 0x100_0000 == a && (value / 0x1_0000) % 0x100 == b && (value / 0x100) % 0x100
        == c && value % 0x100 == d) by (bit_vector)
        requires
            value == a * 0x100_0000 + b * 0x1_0000 + c * 0x100 + d,
    ;
    assert(be_bytes(value) =~= bytes);
}

/// Appends the four big-endian bytes of `value` to `out`.
pub fn put_be(out: &mut Vec<u8>, value: u32)
    ensures
        final(out)@ == old(out)@ + be_bytes(value),
{
    proof {
        reveal(be_bytes);
    }
    out.push((value / 0x100_0000) as u8);
    out.push(((value / 0x1_0000) % 0x100) as u8);
    out.push(((value / 0x100) % 0x100) as u8);
    out.push((value % 0x100) as u8);
    assert(out@ =~= old(out)@ + be_bytes(value));
}

/// Reads the big-endian number in the four bytes of `bytes` from `at` on.
pub fn get_be(bytes: &[u8], at: usize) -> (value: u32)
    requires
        at + 4 <= bytes@.len(),
    ensures
        value == be_value(bytes@.subrange(at as int, at + 4)),
{
    proof {
        reveal(be_value);
    }
    let b0: u32 = bytes[at] as u32;
    let b1: u32 = bytes[at + 1] as u32;
    let b2: u32 = bytes[at + 2] as u32;
    let b3: u32 = bytes[at + 3] as u32;
    b0 * 0x100_0000 + b1 * 0x1_0000 + b2 * 0x100 + b3
}

} // verus!
