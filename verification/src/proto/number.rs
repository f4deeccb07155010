//! Little-endian numbers.

use vstd::prelude::*;

verus! {

/// The four bytes of a number, lowest first.
pub open spec fn le4(x: u32) -> Seq<u8> {
    seq![
        (x % 256) as u8,
        (x / 256 % 256) as u8,
        (x / 65536 % 256) as u8,
        (x / 16777216 % 256) as u8,
    ]
}

/// The eight bytes of a number, lowest first.
pub open spec fn le8(x: u64) -> Seq<u8> {
    le4((x % 4294967296) as u32) + le4((x / 4294967296) as u32)
}

/// The number that four bytes make.
pub open spec fn value4(s: Seq<u8>) -> u32 {
    (s[0] + 256 * s[1] + 65536 * s[2] + 16777216 * s[3]) as u32
}

/// The number that eight bytes make.
pub open spec fn value8(s: Seq<u8>) -> u64 {
    (value4(s.take(4)) + 4294967296 * value4(s.skip(4))) as u64
}

/// Four bytes give back the number they were made from.
pub proof fn lemma_le4(x: u32)
    ensures
        le4(x).len() == 4,
        value4(le4(x)) == x,
{
    let s = le4(x);
    assert(s[0] == x % 256);
    assert(s[1] == x / 256 % 256);
    assert(s[2] == x / 65536 % 256);
    assert(s[3] == x / 16777216 % 256);
    assert(x == x % 256 + 256 * (x / 256 % 256) + 65536 * (x / 65536 % 256) + 16777216 * (x
        / 16777216 % 256)) by (nonlinear_arith)
        requires
            0 <= x <= 0xFFFF_FFFF,
    ;
}

/// Eight bytes give back the number they were made from.
pub proof fn lemma_le8(x: u64)
    ensures
        le8(x).len() == 8,
        value8(le8(x)) == x,
{
    let lo = (x % 4294967296) as u32;
    let hi = (x / 4294967296) as u32;
    lemma_le4(lo);
    lemma_le4(hi);
    assert(le8(x).take(4) =~= le4(lo));
    assert(le8(x).skip(4) =~= le4(hi));
}

/// Appends the four bytes of a number.
pub fn push_u32(out: &mut Vec<u8>, x: u32)
    ensures
        final(out)@ == old(out)@ + le4(x),
{
    out.push((x % 256) as u8);
    out.push((x / 256 % 256) as u8);
    out.push((x / 65536 % 256) as u8);
    out.push((x / 16777216 % 256) as u8);
    assert(out@ =~= old(out)@ + le4(x));
}

/// Appends the eight bytes of a number.
pub fn push_u64(out: &mut Vec<u8>, x: u64)
    ensures
        final(out)@ == old(out)@ + le8(x),
{
    push_u32(out, (x % 4294967296) as u32);
    push_u32(out, (x / 4294967296) as u32);
    assert(out@ =~= old(out)@ + le8(x));
}

/// The number in the four bytes at `at`.
pub fn read_u32(bytes: &[u8], at: usize) -> (x: u32)
    requires
        at + 4 <= bytes@.len(),
    ensures
        x == value4(bytes@.subrange(at as int, at + 4)),
{
    let ghost s = bytes@.subrange(at as int, at + 4);
    assert(s[0] == bytes@[at as int] && s[1] == bytes@[at + 1] && s[2] == bytes@[at + 2] && s[3]
        == bytes@[at + 3]);
    bytes[at] as u32 + 256 * (bytes[at + 1] as u32) + 65536 * (bytes[at + 2] as u32) + 16777216 * (
    bytes[at + 3] as u32)
}

/// The number in the eight bytes at `at`.
pub fn read_u64(bytes: &[u8], at: usize) -> (x: u64)
    requires
        at + 8 <= bytes@.len(),
    ensures
        x == value8(bytes@.subrange(at as int, at + 8)),
{
    let ghost s = bytes@.subrange(at as int, at + 8);
    assert(s.take(4) =~= bytes@.subrange(at as int, at + 4));
    assert(s.skip(4) =~= bytes@.subrange(at + 4, at + 8));
    assert(bytes.len() == bytes@.len());
    let lo = read_u32(bytes, at);
    let hi = read_u32(bytes, at + 4);
    lo as u64 + 4294967296 * (hi as u64)
}

/// A signed number's bits.
pub open spec fn bits_of(x: i64) -> u64 {
    x as u64
}

/// The bits of a signed number give it back.
pub proof fn lemma_bits(x: i64)
    ensures
        bits_of(x) as i64 == x,
{
    assert((x as u64) as i64 == x) by (bit_vector);
}

/// The bytes of a number stand lowest first: each weighs 256 times the one before
/// it.
pub proof fn law_little_endian(x: u32, y: u64)
    ensures
        le4(x).len() == 4,
        x == le4(x)[0] + 256 * le4(x)[1] + 65536 * le4(x)[2] + 16777216 * le4(x)[3],
        le8(y).len() == 8,
        y == value4(le8(y).take(4)) + 4294967296 * value4(le8(y).skip(4)),
{
    lemma_le4(x);
    lemma_le8(y);
    let lo = (y % 4294967296) as u32;
    let hi = (y / 4294967296) as u32;
    lemma_le4(lo);
    lemma_le4(hi);
    assert(le8(y).take(4) =~= le4(lo));
    assert(le8(y).skip(4) =~= le4(hi));
}

} // verus!
