use vstd::arithmetic::div_mod::lemma_fundamental_div_mod_converse;
use vstd::prelude::*;

verus! {

/// What the bit at place `j` of a byte is worth, place 0 being the highest.
pub open spec fn weight(j: int) -> int {
    if j == 0 {
        128
    } else if j == 1 {
        64
    } else if j == 2 {
        32
    } else if j == 3 {
        16
    } else if j == 4 {
        8
    } else if j == 5 {
        4
    } else if j == 6 {
        2
    } else {
        1
    }
}

/// What the `k`-th flag adds to its byte when it stands at place `j`.
pub open spec fn term(bits: Seq<bool>, k: int, j: int) -> int {
    if 0 <= k < bits.len() && bits[k] {
        weight(j)
    } else {
        0
    }
}

/// The worth of the first `j` places of byte `i`.
pub open spec fn partial_byte(bits: Seq<bool>, i: int, j: int) -> int
    decreases j,
{
    if j <= 0 {
        0
    } else {
        partial_byte(bits, i, j - 1) + term(bits, 8 * i + j - 1, j - 1)
    }
}

/// Byte `i` of the packed form: flag `8 * i + j` at place `j`, and zero
/// where the flags have run out.
pub open spec fn packed_byte(bits: Seq<bool>, i: int) -> u8 {
    partial_byte(bits, i, 8) as u8
}

/// The packed form of `bits`: eight flags to the byte, the first at the
/// highest place, the last byte filled up with zeros.
pub open spec fn packed(bits: Seq<bool>) -> Seq<u8> {
    Seq::new(((bits.len() + 7) / 8) as nat, |i: int| packed_byte(bits, i))
}

/// The flag at place `j` of `byte`.
pub open spec fn bit_of(byte: u8, j: int) -> bool {
    byte as int / weight(j) % 2 == 1
}

/// The first `len` flags that `bytes` hold, or all of them where they hold
/// fewer.
pub open spec fn unpacked(len: nat, bytes: Seq<u8>) -> Seq<bool> {
    Seq::new(
        if len <= 8 * bytes.len() {
            len
        } else {
            8 * bytes.len()
        },
        |k: int| bit_of(bytes[k / 8], k % 8),
    )
}

/// The worth of the first places of a byte is at most the worth of all of
/// them together.
proof fn lemma_partial_bound(bits: Seq<bool>, i: int, j: int)
    requires
        0 <= j <= 8,
    ensures
        0 <= partial_byte(bits, i, j),
        j == 0 ==> partial_byte(bits, i, j) == 0,
        j > 0 ==> partial_byte(bits, i, j) <= 256 - weight(j - 1),
    decreases j,
{
    if j > 0 {
        lemma_partial_bound(bits, i, j - 1);
    }
}

/// Each place of a packed byte holds the flag that was put there.
pub proof fn lemma_bit_of_packed(bits: Seq<bool>, i: int, j: int)
    requires
        0 <= j < 8,
    ensures
        bit_of(packed_byte(bits, i), j) == (0 <= 8 * i + j < bits.len() && bits[8 * i + j]),
        0 <= partial_byte(bits, i, 8) < 256,
{
    reveal_with_fuel(partial_byte, 9);
    let b = |t: int| if term(bits, 8 * i + t, t) == 0 { 0int } else { 1int };
    let v = partial_byte(bits, i, 8);
    assert(v == 128 * b(0) + 64 * b(1) + 32 * b(2) + 16 * b(3) + 8 * b(4) + 4 * b(5) + 2 * b(6)
        + b(7));
    if j == 0 {
        lemma_fundamental_div_mod_converse(v, 128, b(0), v - 128 * b(0));
    } else if j == 1 {
        lemma_fundamental_div_mod_converse(v, 64, 2 * b(0) + b(1), v - 128 * b(0) - 64 * b(1));
    } else if j == 2 {
        lemma_fundamental_div_mod_converse(
            v,
            32,
            4 * b(0) + 2 * b(1) + b(2),
            8 * b(4) + 4 * b(5) + 2 * b(6) + b(7) + 16 * b(3),
        );
    } else if j == 3 {
        lemma_fundamental_div_mod_converse(
            v,
            16,
            8 * b(0) + 4 * b(1) + 2 * b(2) + b(3),
            8 * b(4) + 4 * b(5) + 2 * b(6) + b(7),
        );
    } else if j == 4 {
        lemma_fundamental_div_mod_converse(
            v,
            8,
            16 * b(0) + 8 * b(1) + 4 * b(2) + 2 * b(3) + b(4),
            4 * b(5) + 2 * b(6) + b(7),
        );
    } else if j == 5 {
        lemma_fundamental_div_mod_converse(
            v,
            4,
            32 * b(0) + 16 * b(1) + 8 * b(2) + 4 * b(3) + 2 * b(4) + b(5),
            2 * b(6) + b(7),
        );
    } else if j == 6 {
        lemma_fundamental_div_mod_converse(
            v,
            2,
            64 * b(0) + 32 * b(1) + 16 * b(2) + 8 * b(3) + 4 * b(4) + 2 * b(5) + b(6),
            b(7),
        );
    } else {
        assert(v / 1 == v);
    }
}

/// Unpacking the packed form of a sequence of flags, to its own length,
/// gives the sequence back.
pub proof fn lemma_unpack_pack(bits: Seq<bool>)
    ensures
        unpacked(bits.len(), packed(bits)) == bits,
{
    let bytes = packed(bits);
    let n = bits.len() as int;
    assert(bytes.len() == (n + 7) / 8);
    assert(n <= 8 * bytes.len());
    assert forall|k: int| 0 <= k < n implies bit_of(bytes[k / 8], k % 8) == bits[k] by {
        assert(0 <= k / 8 < bytes.len());
        lemma_bit_of_packed(bits, k / 8, k % 8);
        assert(8 * (k / 8) + k % 8 == k);
    }
    assert(unpacked(bits.len(), bytes) =~= bits);
}

/// Packs flags into bytes, eight to the byte, the first flag at the highest
/// place; the last byte is filled up with zeros.
pub fn pack_bits(bits: &Vec<bool>) -> (bs: Vec<u8>)
    ensures
        bs@ == packed(bits@),
{
    let n: usize = bits.len();
    let len: usize = if n % 8 == 0 {
        n / 8
    } else {
        n / 8 + 1
    };
    assert(len == (n + 7) / 8);
    let mut bs: Vec<u8> = Vec::new();
    let mut i: usize = 0;
    while i < len
        invariant
            i <= len,
            n == bits.len(),
            len == (n + 7) / 8,
            bs@ == Seq::new(i as nat, |t: int| packed_byte(bits@, t)),
        decreases len - i,
    {
        let mut acc: u8 = 0;
        let mut w: u8 = 128;
        let mut j: usize = 0;
        while j < 8
            invariant
                j <= 8,
                i < len,
                n == bits.len(),
                len == (n + 7) / 8,
                acc == partial_byte(bits@, i as int, j as int),
                j < 8 ==> w == weight(j as int),
            decreases 8 - j,
        {
            proof {
                lemma_partial_bound(bits@, i as int, j as int);
                lemma_partial_bound(bits@, i as int, j + 1);
            }
            if 8 * i + j < n && bits[8 * i + j] {
                acc = acc + w;
            }
            w = w / 2;
            j += 1;
        }
        let ghost before = bs@;
        bs.push(acc);
        assert(bs@ =~= Seq::new((i + 1) as nat, |t: int| packed_byte(bits@, t)));
        i += 1;
    }
    assert(bs@ =~= packed(bits@));
    bs
}

/// The first `len` flags held in `bytes`: the inverse of `pack_bits`.
pub fn unpack_bits(len: usize, bytes: &[u8]) -> (bits: Vec<bool>)
    ensures
        bits@ == unpacked(len as nat, bytes@),
{
    let mut bits: Vec<bool> = Vec::new();
    let mut i: usize = 0;
    while i < bytes.len()
        invariant
            i <= bytes.len(),
            bits@ == unpacked((8 * i) as nat, bytes@),
        decreases bytes.len() - i,
    {
        let b: u8 = bytes[i];
        let mut w: u8 = 128;
        let mut j: usize = 0;
        while j < 8
            invariant
                j <= 8,
                i < bytes.len(),
                b == bytes@[i as int],
                bits@ == unpacked((8 * i + j) as nat, bytes@),
                j < 8 ==> w == weight(j as int),
            decreases 8 - j,
        {
            let bit: bool = (b / w) % 2 == 1;
            bits.push(bit);
            proof {
                let k = 8 * i + j;
                assert(k / 8 == i as int && k % 8 == j as int) by {
                    lemma_fundamental_div_mod_converse(k as int, 8, i as int, j as int);
                }
                assert(bits@ =~= unpacked((k + 1) as nat, bytes@));
            }
            w = w / 2;
            j += 1;
        }
        i += 1;
    }
    bits.truncate(len);
    assert(bits@ =~= unpacked(len as nat, bytes@));
    bits
}

} // verus!
