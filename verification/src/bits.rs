//! Bit-sequence arithmetic shared by the whole codec: the numeric value of a
//! most-significant-bit-first bit string, and conversion from byte strings to
//! bit strings.

use vstd::prelude::*;
use vstd::arithmetic::power2::pow2;

verus! {

/// Numeric value of a bit string, most significant bit first.
pub open spec fn bits_uint(s: Seq<bool>) -> nat
    decreases s.len(),
{
    if s.len() == 0 {
        0
    } else {
        bits_uint(s.drop_last()) * 2 + if s.last() {
            1nat
        } else {
            0nat
        }
    }
}

/// The value of a bit string is bounded by two to its length.
pub proof fn lemma_bits_uint_bound(s: Seq<bool>)
    ensures
        bits_uint(s) < pow2(s.len()),
    decreases s.len(),
{
    vstd::arithmetic::power2::lemma_pow2_pos(s.len());
    if s.len() == 0 {
        vstd::arithmetic::power2::lemma2_to64();
    } else {
        lemma_bits_uint_bound(s.drop_last());
        vstd::arithmetic::power2::lemma_pow2_unfold(s.len());
    }
}

/// Bit `k` (most significant first) of one byte.
pub open spec fn byte_bit(b: u8, k: int) -> bool {
    (b >> (7 - k) as u8) & 1 == 1
}

/// The bit string spelled by a byte string, each byte most significant bit
/// first.
pub open spec fn bits_of_bytes(s: Seq<u8>) -> Seq<bool> {
    Seq::new(s.len() * 8, |i: int| byte_bit(s[i / 8], i % 8))
}

/// Turns the first `nbits` bits of a byte string into an explicit bit vector.
pub fn bits_from_bytes(bytes: &Vec<u8>, nbits: usize) -> (r: Vec<bool>)
    requires
        nbits <= bytes@.len() * 8,
    ensures
        r@ == bits_of_bytes(bytes@).take(nbits as int),
{
    let mut r: Vec<bool> = Vec::new();
    let mut i: usize = 0;
    while i < nbits
        invariant
            i <= nbits,
            nbits <= bytes@.len() * 8,
            r@ == bits_of_bytes(bytes@).take(i as int),
        decreases nbits - i,
    {
        let byte = bytes[i / 8];
        let shift: u8 = (7 - (i % 8)) as u8;
        let bit = (byte >> shift) & 1 == 1;
        r.push(bit);
        proof {
            assert(bit == byte_bit(bytes@[i as int / 8], i as int % 8));
            assert(r@ =~= bits_of_bytes(bytes@).take(i + 1));
        }
        i = i + 1;
    }
    r
}

/// The number of bits needed to write `n` in binary; zero for zero.
pub open spec fn len_bits(n: nat) -> nat
    decreases n,
{
    if n == 0 {
        0
    } else {
        1 + len_bits(n / 2)
    }
}

/// A number below two to the `k` needs at most `k` bits.
pub proof fn lemma_len_bits_bound(n: nat, k: nat)
    requires
        n < pow2(k),
    ensures
        len_bits(n) <= k,
    decreases k,
{
    if n > 0 {
        vstd::arithmetic::power2::lemma_pow2_pos(k);
        if k == 0 {
            vstd::arithmetic::power2::lemma2_to64();
        } else {
            vstd::arithmetic::power2::lemma_pow2_unfold(k);
            lemma_len_bits_bound(n / 2, (k - 1) as nat);
        }
    }
}

/// Computes the binary width of a number.
pub fn bit_width(n: usize) -> (r: usize)
    ensures
        r == len_bits(n as nat),
{
    let mut r: usize = 0;
    let mut m: usize = n;
    proof {
        vstd::arithmetic::power2::lemma2_to64_rest();
        lemma_len_bits_bound(n as nat, 64);
    }
    while m > 0
        invariant
            len_bits(n as nat) <= 64,
            r + len_bits(m as nat) <= 64,
            len_bits(n as nat) == r + len_bits(m as nat),
        decreases m,
    {
        proof {
            vstd::arithmetic::power2::lemma2_to64();
            vstd::arithmetic::power2::lemma2_to64_rest();
            lemma_len_bits_bound(m as nat, 64);
        }
        r = r + 1;
        m = m / 2;
    }
    r
}

/// The numeric value of an explicit bit vector, most significant bit first.
pub fn bits_vec_value(bits: &Vec<bool>) -> (v: u64)
    requires
        bits@.len() <= 64,
    ensures
        v as nat == bits_uint(bits@),
{
    let n = bits.len();
    let mut v: u64 = 0;
    let mut i: usize = 0;
    proof {
        vstd::arithmetic::power2::lemma2_to64();
        assert(bits@.take(0) =~= Seq::<bool>::empty());
    }
    while i < n
        invariant
            n == bits@.len() <= 64,
            i <= n,
            v as nat == bits_uint(bits@.take(i as int)),
            (v as nat) < pow2(i as nat),
        decreases n - i,
    {
        let b = bits[i];
        proof {
            vstd::arithmetic::power2::lemma2_to64();
            vstd::arithmetic::power2::lemma2_to64_rest();
            if (i as nat) < 63 {
                vstd::arithmetic::power2::lemma_pow2_strictly_increases(i as nat, 63);
            }
            assert(v < 0x8000_0000_0000_0000);
            assert(bits@.take(i + 1).drop_last() =~= bits@.take(i as int));
            assert(bits@.take(i + 1).last() == bits@[i as int]);
            vstd::arithmetic::power2::lemma_pow2_unfold((i + 1) as nat);
        }
        v = v * 2 + if b {
            1
        } else {
            0
        };
        i = i + 1;
    }
    proof {
        assert(bits@.take(n as int) =~= bits@);
    }
    v
}

/// The hexadecimal digit character for a value below sixteen.
pub open spec fn hex_digit_char(d: nat) -> char {
    if d == 0 {
        '0'
    } else if d == 1 {
        '1'
    } else if d == 2 {
        '2'
    } else if d == 3 {
        '3'
    } else if d == 4 {
        '4'
    } else if d == 5 {
        '5'
    } else if d == 6 {
        '6'
    } else if d == 7 {
        '7'
    } else if d == 8 {
        '8'
    } else if d == 9 {
        '9'
    } else if d == 10 {
        'a'
    } else if d == 11 {
        'b'
    } else if d == 12 {
        'c'
    } else if d == 13 {
        'd'
    } else if d == 14 {
        'e'
    } else {
        'f'
    }
}

/// The value of a hexadecimal digit character, if it is one.
pub open spec fn hex_char_value(c: char) -> Option<u64> {
    if c == '0' {
        Some(0u64)
    } else if c == '1' {
        Some(1u64)
    } else if c == '2' {
        Some(2u64)
    } else if c == '3' {
        Some(3u64)
    } else if c == '4' {
        Some(4u64)
    } else if c == '5' {
        Some(5u64)
    } else if c == '6' {
        Some(6u64)
    } else if c == '7' {
        Some(7u64)
    } else if c == '8' {
        Some(8u64)
    } else if c == '9' {
        Some(9u64)
    } else if c == 'a' || c == 'A' {
        Some(10u64)
    } else if c == 'b' || c == 'B' {
        Some(11u64)
    } else if c == 'c' || c == 'C' {
        Some(12u64)
    } else if c == 'd' || c == 'D' {
        Some(13u64)
    } else if c == 'e' || c == 'E' {
        Some(14u64)
    } else if c == 'f' || c == 'F' {
        Some(15u64)
    } else {
        None
    }
}

/// Reads one hexadecimal digit character.
pub fn parse_hex_char(c: char) -> (r: Option<u64>)
    ensures
        r == hex_char_value(c),
{
    match c {
        '0' => Some(0u64),
        '1' => Some(1u64),
        '2' => Some(2u64),
        '3' => Some(3u64),
        '4' => Some(4u64),
        '5' => Some(5u64),
        '6' => Some(6u64),
        '7' => Some(7u64),
        '8' => Some(8u64),
        '9' => Some(9u64),
        'a' | 'A' => Some(10u64),
        'b' | 'B' => Some(11u64),
        'c' | 'C' => Some(12u64),
        'd' | 'D' => Some(13u64),
        'e' | 'E' => Some(14u64),
        'f' | 'F' => Some(15u64),
        _ => None,
    }
}

} // verus!
