use vstd::arithmetic::div_mod::lemma_fundamental_div_mod;
use vstd::prelude::*;

verus! {

/// The four bytes of `x`, least significant byte first.
pub open spec fn u32_le(x: u32) -> Seq<u8> {
    seq![
        (x % 256) as u8,
        (x / 256 % 256) as u8,
        (x / 256 / 256 % 256) as u8,
        (x / 256 / 256 / 256) as u8,
    ]
}

/// The number whose little-endian form is the first four bytes of `s`.
pub open spec fn u32_of_le(s: Seq<u8>) -> u32
    recommends
        s.len() >= 4,
{
    (s[0] + 256 * s[1] + 65536 * s[2] + 16777216 * s[3]) as u32
}

/// The two's-complement bit pattern of `x`, read as an unsigned number.
pub open spec fn i32_bits(x: i32) -> u32 {
    if x >= 0 {
        x as u32
    } else {
        (x + 0x1_0000_0000) as u32
    }
}

/// The signed number whose two's-complement bit pattern is `u`.
pub open spec fn bits_i32(u: u32) -> i32 {
    if u < 0x8000_0000 {
        u as i32
    } else {
        (u - 0x1_0000_0000) as i32
    }
}

/// The four bytes of `x` in two's complement, least significant byte first.
pub open spec fn i32_le(x: i32) -> Seq<u8> {
    u32_le(i32_bits(x))
}

/// The signed number whose little-endian two's-complement form is the first
/// four bytes of `s`.
pub open spec fn i32_of_le(s: Seq<u8>) -> i32
    recommends
        s.len() >= 4,
{
    bits_i32(u32_of_le(s))
}

/// Reading back what `u32_le` wrote gives the number, whatever follows.
pub proof fn lemma_u32_le_inverse(x: u32, rest: Seq<u8>)
    ensures
        u32_le(x).len() == 4,
        u32_of_le(u32_le(x) + rest) == x,
{
    let a = x as int;
    lemma_fundamental_div_mod(a, 256);
    lemma_fundamental_div_mod(a / 256, 256);
    lemma_fundamental_div_mod(a / 256 / 256, 256);
    let s = u32_le(x) + rest;
    assert(s[0] == a % 256);
    assert(s[1] == a / 256 % 256);
    assert(s[2] == a / 256 / 256 % 256);
    assert(s[3] == a / 256 / 256 / 256);
}

/// The bit pattern of a signed number determines it, and conversely.
pub proof fn lemma_i32_bits_inverse(x: i32, u: u32)
    ensures
        bits_i32(i32_bits(x)) == x,
        i32_bits(bits_i32(u)) == u,
{
}

/// Appends the little-endian form of `x` to `out`.
pub fn put_u32(out: &mut Vec<u8>, x: u32)
    ensures
        final(out)@ == old(out)@ + u32_le(x),
{
    out.push((x % 256) as u8);
    out.push((x / 256 % 256) as u8);
    out.push((x / 256 / 256 % 256) as u8);
    out.push((x / 256 / 256 / 256) as u8);
    assert(out@ =~= old(out)@ + u32_le(x));
}

/// Reads the little-endian number that starts at byte `at`.
pub fn get_u32(bs: &[u8], at: usize) -> (x: u32)
    requires
        at + 4 <= bs.len(),
    ensures
        x == u32_of_le(bs@.subrange(at as int, at + 4)),
{
    let b0: u32 = bs[at] as u32;
    let b1: u32 = bs[at + 1] as u32;
    let b2: u32 = bs[at + 2] as u32;
    let b3: u32 = bs[at + 3] as u32;
    b0 + 256 * b1 + 65536 * b2 + 16777216 * b3
}

/// The bit pattern of `x` as an unsigned number.
pub fn i32_to_bits(x: i32) -> (u: u32)
    ensures
        u == i32_bits(x),
{
    let u: u32 = x as u32;
    assert(u == if x >= 0 {
        x as u32
    } else {
        (x + 0x1_0000_0000) as u32
    }) by (bit_vector)
        requires
            u == x as u32,
    ;
    u
}

/// The signed number with bit pattern `u`.
pub fn bits_to_i32(u: u32) -> (x: i32)
    ensures
        x == bits_i32(u),
{
    let x: i32 = u as i32;
    assert(x == if u < 0x8000_0000 {
        u as i32
    } else {
        (u - 0x1_0000_0000) as i32
    }) by (bit_vector)
        requires
            x == u as i32,
    ;
    x
}

} // verus!
