//! Compact integer encodings: variable-length bytes, zigzag and bit fields.

use vstd::prelude::*;

verus! {

/// Number of bytes that a variable-length 32-bit integer takes up at most.
pub const VBYTE_LIMIT: usize = 5;

/// The integer that `s` begins with and the number of its bytes. Each byte holds seven bits of
/// the integer, the lowest ones first; the high bit is set on all bytes but the last.
pub open spec fn vbyte_number(s: Seq<u8>) -> Option<(nat, nat)>
    decreases s.len(),
{
    if s.len() == 0 {
        None
    } else if s[0] < 0x80 {
        Some((s[0] as nat, 1))
    } else {
        match vbyte_number(s.drop_first()) {
            Some((high, n)) => Some(((s[0] - 0x80 + 0x80 * high) as nat, n + 1)),
            None => None,
        }
    }
}

/// The variable-length 32-bit integer that `s` begins with and the number of its bytes, where
/// `s` begins with one: it ends, takes up at most five bytes and fits in 32 bits.
pub open spec fn vbyte(s: Seq<u8>) -> Option<(u32, nat)> {
    match vbyte_number(s) {
        Some((value, n)) => if n <= VBYTE_LIMIT && value <= u32::MAX {
            Some((value as u32, n))
        } else {
            None
        },
        None => None,
    }
}

/// The signed integer with the given zigzag code: 0, -1, 1, -2, 2 and so on.
pub open spec fn zigzag(code: u32) -> int {
    if code % 2 == 0 {
        code as int / 2
    } else {
        -(code as int / 2) - 1
    }
}

/// Bit `i` of a byte sequence, as 0 or 1; within a byte the lowest bit comes first.
pub open spec fn stream_bit(s: Seq<u8>, i: int) -> nat {
    ((s[i / 8] >> ((i % 8) as u8)) & 1) as nat
}

/// The `width` bits from bit `offset` on, read as a number whose lowest bit comes first.
pub open spec fn bit_field(s: Seq<u8>, offset: int, width: nat) -> nat
    decreases width,
{
    if width == 0 {
        0
    } else {
        stream_bit(s, offset) + 2 * bit_field(s, offset + 1, (width - 1) as nat)
    }
}

/// The integer and the length of a variable-length integer are positive in number of bytes and
/// within the input.
pub proof fn lemma_vbyte_len(s: Seq<u8>)
    ensures
        vbyte_number(s) matches Some((value, n)) ==> 1 <= n <= s.len(),
    decreases s.len(),
{
    if s.len() > 0 {
        lemma_vbyte_len(s.drop_first());
    }
}

/// A variable-length integer is determined by its own bytes.
pub proof fn lemma_vbyte_local(s: Seq<u8>, t: Seq<u8>)
    requires
        vbyte_number(s) matches Some((value, n)) && n <= t.len() && t.take(n as int) == s.take(
            n as int,
        ),
    ensures
        vbyte_number(t) == vbyte_number(s),
    decreases s.len(),
{
    lemma_vbyte_len(s);
    let n = vbyte_number(s).unwrap().1;
    assert(t[0] == t.take(n as int)[0] && s[0] == s.take(n as int)[0]);
    if s[0] >= 0x80 {
        lemma_vbyte_len(s.drop_first());
        assert(t.drop_first().take(n - 1) =~= t.take(n as int).drop_first());
        assert(s.drop_first().take(n - 1) =~= s.take(n as int).drop_first());
        lemma_vbyte_local(s.drop_first(), t.drop_first());
    }
}

/// A bit field is determined by the bytes that its bits lie in.
pub proof fn lemma_bit_field_local(s: Seq<u8>, t: Seq<u8>, offset: int, width: nat, n: int)
    requires
        0 <= offset,
        offset + width <= 8 * n,
        forall|i: int| 0 <= i < n ==> #[trigger] s[i] == t[i],
    ensures
        bit_field(s, offset, width) == bit_field(t, offset, width),
    decreases width,
{
    if width > 0 {
        assert(s[offset / 8] == t[offset / 8]);
        lemma_bit_field_local(s, t, offset + 1, (width - 1) as nat, n);
    }
}

/// A bit field of `width` bits is below `2^width`.
pub proof fn lemma_bit_field_bound(s: Seq<u8>, offset: int, width: nat)
    ensures
        bit_field(s, offset, width) < vstd::arithmetic::power2::pow2(width),
    decreases width,
{
    broadcast use vstd::arithmetic::power2::lemma_pow2_unfold;

    reveal(vstd::arithmetic::power2::pow2);
    vstd::arithmetic::power2::lemma2_to64();
    if width > 0 {
        lemma_bit_field_bound(s, offset + 1, (width - 1) as nat);
        vstd::arithmetic::power2::lemma_pow2_unfold(width);
        let b = s[offset / 8];
        let k = (offset % 8) as u8;
        assert((b >> k) & 1 <= 1) by (bit_vector);
    }
}

/// The bytes of a number, seven bits in each, the lowest ones first, with the highest bit set on
/// all bytes but the last.
pub open spec fn vbyte_bytes(n: nat) -> Seq<u8>
    decreases n,
{
    if n < 0x80 {
        seq![n as u8]
    } else {
        seq![(0x80 + n % 0x80) as u8] + vbyte_bytes(n / 0x80)
    }
}

/// A number that was written is read back.
proof fn lemma_vbyte_number_reads_back(n: nat, rest: Seq<u8>)
    ensures
        vbyte_number(vbyte_bytes(n) + rest) == Some((n, vbyte_bytes(n).len())),
    decreases n,
{
    let s = vbyte_bytes(n) + rest;
    assert(s[0] == vbyte_bytes(n)[0]);
    if n >= 0x80 {
        lemma_vbyte_number_reads_back(n / 0x80, rest);
        assert(s.drop_first() =~= vbyte_bytes(n / 0x80) + rest);
    }
}

/// A 32-bit integer that was written with a variable number of bytes is read back, whatever
/// follows, and takes up five bytes at most.
pub proof fn law_vbyte_reads_back(n: u32, rest: Seq<u8>)
    ensures
        vbyte(vbyte_bytes(n as nat) + rest) == Some((n, vbyte_bytes(n as nat).len())),
        vbyte_bytes(n as nat).len() <= 5,
{
    lemma_vbyte_number_reads_back(n as nat, rest);
    reveal_with_fuel(vbyte_bytes, 5);
}

/// The zigzag code of a signed integer, twice the integer where that is not negative and odd
/// otherwise, stands for the integer; and every code is that of one integer.
pub proof fn law_zigzag_codes_are_signed_integers(v: i32, code: u32)
    ensures
        v >= 0 ==> zigzag((2 * v) as u32) == v,
        v < 0 ==> zigzag((-2 * v - 1) as u32) == v,
        i32::MIN <= zigzag(code) <= i32::MAX,
        code == if zigzag(code) >= 0 { 2 * zigzag(code) } else { -2 * zigzag(code) - 1 },
{
}

/// A bit field is made up of its parts, the lower bits first.
pub proof fn law_bit_field_is_made_up_of_parts(s: Seq<u8>, offset: int, low: nat, high: nat)
    ensures
        bit_field(s, offset, low + high) == bit_field(s, offset, low)
            + vstd::arithmetic::power2::pow2(low) * bit_field(s, offset + low, high),
    decreases low,
{
    let p = vstd::arithmetic::power2::pow2(low) as int;
    if low == 0 {
        vstd::arithmetic::power2::lemma2_to64();
        assert(bit_field(s, offset, 0) == 0);
    } else {
        let q = vstd::arithmetic::power2::pow2((low - 1) as nat) as int;
        let rest = bit_field(s, offset + low, high) as int;
        law_bit_field_is_made_up_of_parts(s, offset + 1, (low - 1) as nat, high);
        vstd::arithmetic::power2::lemma_pow2_unfold(low);
        assert((low - 1) as nat + high == (low + high - 1) as nat);
        assert(offset + 1 + (low - 1) as nat == offset + low);
        assert(2 * (q * rest) == (2 * q) * rest) by (nonlinear_arith);
    }
}

/// The eight bits of a byte make up the byte.
pub proof fn law_bits_of_a_byte(s: Seq<u8>, i: int)
    requires
        0 <= i < s.len(),
    ensures
        bit_field(s, 8 * i, 8) == s[i],
{
    reveal_with_fuel(bit_field, 9);
    let b = s[i];
    assert(b == (b & 1) + 2 * ((b >> 1) & 1) + 4 * ((b >> 2) & 1) + 8 * ((b >> 3) & 1) + 16 * ((b
        >> 4) & 1) + 32 * ((b >> 5) & 1) + 64 * ((b >> 6) & 1) + 128 * ((b >> 7) & 1))
        by (bit_vector);
    assert(b >> 0 == b) by (bit_vector);
    assert(stream_bit(s, 8 * i) == b & 1);
    assert(stream_bit(s, 8 * i + 1) == (b >> 1) & 1);
    assert(stream_bit(s, 8 * i + 2) == (b >> 2) & 1);
    assert(stream_bit(s, 8 * i + 3) == (b >> 3) & 1);
    assert(stream_bit(s, 8 * i + 4) == (b >> 4) & 1);
    assert(stream_bit(s, 8 * i + 5) == (b >> 5) & 1);
    assert(stream_bit(s, 8 * i + 6) == (b >> 6) & 1);
    assert(stream_bit(s, 8 * i + 7) == (b >> 7) & 1);
}

/// Decodes the variable-length integer that `input` begins with: its value and the number of
/// its bytes.
pub fn decode_vbyte(input: &[u8]) -> (decoded: (u32, usize))
    requires
        vbyte(input@) is Some,
    ensures
        vbyte(input@) == Some((decoded.0, decoded.1 as nat)),
        1 <= decoded.1 <= input.len(),
{
    let ghost total = vbyte_number(input@).unwrap();
    let mut value: u64 = 0;
    let mut scale: u64 = 1;
    let mut n: usize = 0;
    proof {
        lemma_vbyte_len(input@);
        assert(input@.skip(0) =~= input@);
        vstd::arithmetic::power::lemma_pow0(0x80);
    }
    while input[n] >= 0x80
        invariant
            n < input.len(),
            n < VBYTE_LIMIT,
            total.1 <= VBYTE_LIMIT,
            total.0 <= u32::MAX,
            1 <= total.1 <= input.len(),
            scale == vstd::arithmetic::power::pow(0x80, n as nat),
            scale <= 0x1000_0000,
            value < scale,
            vbyte_number(input@.skip(n as int)) matches Some((high, m)) && {
                &&& total.1 == n + m
                &&& total.0 == value + scale * high
            },
        decreases VBYTE_LIMIT - n,
    {
        let b: u8 = input[n];
        proof {
            reveal(vstd::arithmetic::power::pow);
            let rest = input@.skip(n as int);
            let (high, m) = vbyte_number(rest).unwrap();
            assert(rest.drop_first() =~= input@.skip(n + 1));
            lemma_vbyte_len(input@.skip(n + 1));
            let (high2, m2) = vbyte_number(input@.skip(n + 1)).unwrap();
            assert(rest[0] == b);
            assert(scale * (b - 0x80 + 0x80 * high2) == scale * (b - 0x80) + (scale * 0x80) * high2)
                by (nonlinear_arith);
            assert(0 <= scale * (b - 0x80) <= scale * 0x7f) by (nonlinear_arith)
                requires
                    0x80 <= b <= 0xff,
                    0 <= scale,
            ;
            assert(vstd::arithmetic::power::pow(0x80, (n + 1) as nat) == scale * 0x80)
                by (nonlinear_arith)
                requires
                    vstd::arithmetic::power::pow(0x80, (n + 1) as nat) == 0x80
                        * vstd::arithmetic::power::pow(0x80, n as nat),
                    scale == vstd::arithmetic::power::pow(0x80, n as nat),
            ;
            assert(n + 1 < VBYTE_LIMIT);
            assert(scale * 0x80 <= 0x1000_0000) by {
                reveal_with_fuel(vstd::arithmetic::power::pow, 6);
            }
        }
        value = value + scale * ((b - 0x80) as u64);
        scale = scale * 0x80;
        n = n + 1;
    }
    let b: u8 = input[n];
    proof {
        assert(input@.skip(n as int)[0] == b);
        assert(scale * b <= 0x1000_0000 * 0x80) by (nonlinear_arith)
            requires
                0 <= scale <= 0x1000_0000,
                0 <= b <= 0x80,
        ;
    }
    ((value + scale * (b as u64)) as u32, n + 1)
}

/// Decodes a zigzag code.
pub fn decode_zigzag(code: u32) -> (value: i32)
    ensures
        value == zigzag(code),
{
    if code % 2 == 0 {
        (code / 2) as i32
    } else {
        -((code / 2) as i32) - 1
    }
}

/// Extracts the `bit_width` bits from bit `bit_offset` on.
pub fn extract_bits(data: &[u8], bit_offset: usize, bit_width: u8) -> (value: u32)
    requires
        bit_width <= 32,
        bit_offset + bit_width <= 8 * data.len(),
        bit_offset + bit_width <= usize::MAX,
    ensures
        value == bit_field(data@, bit_offset as int, bit_width as nat),
{
    let mut value: u64 = 0;
    let mut k: u8 = bit_width;
    proof {
        vstd::arithmetic::power2::lemma2_to64();
    }
    while k > 0
        invariant
            k <= bit_width <= 32,
            bit_offset + bit_width <= 8 * data.len(),
            bit_offset + bit_width <= usize::MAX,
            value == bit_field(data@, bit_offset + k, (bit_width - k) as nat),
            value < vstd::arithmetic::power2::pow2((bit_width - k) as nat),
        decreases k,
    {
        k = k - 1;
        let i: usize = bit_offset + k as usize;
        let byte: u8 = data[i / 8];
        let shift: u8 = (i % 8) as u8;
        let bit: u8 = (byte >> shift) & 1;
        proof {
            assert((byte >> shift) & 1 <= 1) by (bit_vector);
            lemma_bit_field_bound(data@, bit_offset + k + 1, (bit_width - k - 1) as nat);
            lemma_bit_field_bound(data@, bit_offset + k, (bit_width - k) as nat);
            vstd::arithmetic::power2::lemma2_to64();
            if bit_width - k < 32 {
                vstd::arithmetic::power2::lemma_pow2_strictly_increases(
                    (bit_width - k) as nat,
                    32,
                );
            }
            if bit_width - k - 1 < 32 {
                vstd::arithmetic::power2::lemma_pow2_strictly_increases(
                    (bit_width - k - 1) as nat,
                    32,
                );
            }
        }
        value = bit as u64 + 2 * value;
    }
    proof {
        lemma_bit_field_bound(data@, bit_offset as int, bit_width as nat);
        vstd::arithmetic::power2::lemma2_to64();
        if bit_width < 32 {
            vstd::arithmetic::power2::lemma_pow2_strictly_increases(bit_width as nat, 32);
        }
    }
    value as u32
}

} // verus!
