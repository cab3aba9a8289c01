//! Readers of UTF-16 strings with their length before them.

use vstd::prelude::*;
use vstd::slice::slice_subrange;

use crate::bytes;
use crate::error::{ReadError, ReadResult};

verus! {

/// `char::from_u32` returns the character with the given code point; there is one for each
/// number up to `0x10FFFF` but the surrogates.
pub assume_specification[ char::from_u32 ](i: u32) -> (c: Option<char>)
    ensures
        i < 0xD800 || 0xE000 <= i <= 0x10FFFF ==> c == Some(i as char),
        0xD800 <= i < 0xE000 || i > 0x10FFFF ==> c is None,
;

/// `String::push` appends a character.
pub assume_specification[ String::push ](s: &mut String, c: char)
    ensures
        final(s)@ == old(s)@.push(c),
;

/// Whether a code unit is the first one of a pair.
pub open spec fn is_high(unit: u16) -> bool {
    0xD800 <= unit < 0xDC00
}

/// Whether a code unit is the second one of a pair.
pub open spec fn is_low(unit: u16) -> bool {
    0xDC00 <= unit < 0xE000
}

/// The characters that UTF-16 code units stand for, if they are well-formed.
pub open spec fn decode_utf16(units: Seq<u16>) -> Option<Seq<char>>
    decreases units.len(),
{
    if units.len() == 0 {
        Some(Seq::empty())
    } else if !is_high(units[0]) && !is_low(units[0]) {
        match decode_utf16(units.skip(1)) {
            Some(rest) => Some(seq![units[0] as char] + rest),
            None => None,
        }
    } else if is_high(units[0]) && units.len() >= 2 && is_low(units[1]) {
        match decode_utf16(units.skip(2)) {
            Some(rest) => Some(seq![pair_char(units[0], units[1])] + rest),
            None => None,
        }
    } else {
        None
    }
}

/// The character that a pair of code units stands for.
pub open spec fn pair_char(high: u16, low: u16) -> char {
    (0x1_0000 + (high - 0xD800) * 0x400 + (low - 0xDC00)) as char
}

/// The UTF-16 code units of characters.
pub open spec fn encode_utf16(chars: Seq<char>) -> Seq<u16>
    decreases chars.len(),
{
    if chars.len() == 0 {
        Seq::empty()
    } else {
        let c = chars[0] as u32;
        let units = if c < 0x1_0000 {
            seq![c as u16]
        } else {
            seq![
                (0xD800 + (c - 0x1_0000) / 0x400) as u16,
                (0xDC00 + (c - 0x1_0000) % 0x400) as u16,
            ]
        };
        units + encode_utf16(chars.skip(1))
    }
}

/// The length that `s` begins with, in one byte or in two, and the number of its bytes.
pub open spec fn string_length(s: Seq<u8>) -> Result<(nat, u16), ReadError> {
    if s.len() == 0 || (s[0] >= 128 && s.len() < 2) {
        Err(ReadError::Eof)
    } else if s[0] < 128 {
        Ok((1, s[0] as u16))
    } else {
        Ok((2, ((s[0] - 128) * 0x100 + s[1]) as u16))
    }
}

/// The code units of the string that `s` begins with and the number of its bytes.
pub open spec fn string_units(s: Seq<u8>) -> Result<(nat, Seq<u16>), ReadError> {
    match string_length(s) {
        Err(e) => Err(e),
        Ok((n, length)) => if s.len() < n + 2 * length {
            Err(ReadError::Utf16String)
        } else {
            Ok(
                (
                    n + 2 * length as nat,
                    Seq::new(length as nat, |i: int| bytes::u16_at(s, n + 2 * i)),
                ),
            )
        },
    }
}

/// The string that `s` begins with and the number of its bytes.
pub open spec fn utf16_string(s: Seq<u8>) -> Result<(nat, Seq<char>), ReadError> {
    match string_units(s) {
        Err(e) => Err(e),
        Ok((n, units)) => match decode_utf16(units) {
            Some(chars) => Ok((n, chars)),
            None => Err(ReadError::Utf16String),
        },
    }
}

/// What passing over the string that `s` begins with comes to: the number of its bytes.
pub open spec fn skipped_string(s: Seq<u8>) -> Result<nat, ReadError> {
    match string_units(s) {
        Err(e) => Err(e),
        Ok((n, units)) => Ok(n),
    }
}

/// The code point of a character is no surrogate.
proof fn lemma_char_range(c: char)
    ensures
        (c as u32) < 0xD800 || 0xE000 <= (c as u32) <= 0x10FFFF,
        (c as u32) as char == c,
{
}

/// Decoding the code units of characters gives back the characters.
pub proof fn law_utf16_round_trip(chars: Seq<char>)
    ensures
        decode_utf16(encode_utf16(chars)) == Some(chars),
    decreases chars.len(),
{
    if chars.len() > 0 {
        law_utf16_round_trip(chars.skip(1));
        lemma_char_range(chars[0]);
        let c = chars[0] as u32;
        let rest = encode_utf16(chars.skip(1));
        let all = encode_utf16(chars);
        if c < 0x1_0000 {
            assert(all[0] == c as u16);
            assert(all.skip(1) =~= rest);
            assert(seq![chars[0]] + chars.skip(1) =~= chars);
        } else {
            assert(all[0] == (0xD800 + (c - 0x1_0000) / 0x400) as u16);
            assert(all[1] == (0xDC00 + (c - 0x1_0000) % 0x400) as u16);
            assert(all.skip(2) =~= rest);
            assert(pair_char(all[0], all[1]) == chars[0]);
            assert(seq![chars[0]] + chars.skip(1) =~= chars);
        }
    }
}

/// The bytes of a length: one byte below 128, and otherwise two, the upper one first and with its
/// highest bit set.
pub open spec fn length_bytes(n: nat) -> Seq<u8> {
    if n < 0x80 {
        seq![n as u8]
    } else {
        seq![(0x80 + n / 0x100) as u8, (n % 0x100) as u8]
    }
}

/// The bytes of code units, the lower one of each first.
pub open spec fn units_bytes(units: Seq<u16>) -> Seq<u8> {
    Seq::new(
        2 * units.len(),
        |i: int|
            if i % 2 == 0 {
                (units[i / 2] % 0x100) as u8
            } else {
                (units[i / 2] / 0x100) as u8
            },
    )
}

/// The bytes of a string: the number of its code units, and the code units.
pub open spec fn string_bytes(chars: Seq<char>) -> Seq<u8> {
    length_bytes(encode_utf16(chars).len()) + units_bytes(encode_utf16(chars))
}

/// A length that was written is read back, whatever follows.
pub proof fn law_length_reads_back(n: u16, rest: Seq<u8>)
    requires
        n < 0x8000,
    ensures
        string_length(length_bytes(n as nat) + rest) == Ok::<(nat, u16), ReadError>(
            (length_bytes(n as nat).len(), n),
        ),
{
    let s = length_bytes(n as nat) + rest;
    assert(s[0] == length_bytes(n as nat)[0]);
    if n >= 0x80 {
        assert(s[1] == length_bytes(n as nat)[1]);
    }
}

/// A string that was written is read back, whatever follows, and so many bytes are passed over
/// where it is not asked for.
pub proof fn law_string_reads_back(chars: Seq<char>, rest: Seq<u8>)
    requires
        encode_utf16(chars).len() < 0x8000,
    ensures
        utf16_string(string_bytes(chars) + rest) == Ok::<(nat, Seq<char>), ReadError>(
            (string_bytes(chars).len(), chars),
        ),
        skipped_string(string_bytes(chars) + rest) == Ok::<nat, ReadError>(
            string_bytes(chars).len(),
        ),
{
    let units = encode_utf16(chars);
    let head = length_bytes(units.len());
    let s = string_bytes(chars) + rest;
    assert(s =~= head + (units_bytes(units) + rest));
    law_length_reads_back(units.len() as u16, units_bytes(units) + rest);
    let got = string_units(s).unwrap().1;
    assert forall|i: int| 0 <= i < units.len() implies got[i] == units[i] by {
        let p = head.len() + 2 * i;
        assert(s[p] == units_bytes(units)[2 * i]);
        assert(s[p + 1] == units_bytes(units)[2 * i + 1]);
    }
    assert(got =~= units);
    law_utf16_round_trip(chars);
}

/// Code units that can be decoded are those of the characters that they decode to; others, with a
/// unit of a pair that stands alone or the pair in the wrong order, cannot be decoded.
pub proof fn law_utf16_has_one_form(units: Seq<u16>)
    ensures
        decode_utf16(units) matches Some(chars) ==> encode_utf16(chars) == units,
        (exists|chars: Seq<char>| #[trigger] encode_utf16(chars) == units) <==> decode_utf16(
            units,
        ) is Some,
    decreases units.len(),
{
    if let Some(chars) = decode_utf16(units) {
        if units.len() > 0 {
            let n: int = if is_high(units[0]) {
                2
            } else {
                1
            };
            law_utf16_has_one_form(units.skip(n));
            let rest = decode_utf16(units.skip(n)).unwrap();
            assert(chars.skip(1) =~= rest);
            if n == 2 {
                let c = pair_char(units[0], units[1]);
                let code = 0x1_0000 + (units[0] - 0xD800) * 0x400 + (units[1] - 0xDC00);
                assert(chars[0] == c);
                assert(c as u32 == code);
                assert((code - 0x1_0000) / 0x400 == units[0] - 0xD800);
                assert((code - 0x1_0000) % 0x400 == units[1] - 0xDC00);
            } else {
                assert(chars[0] == units[0] as char);
            }
            assert(encode_utf16(chars) =~= units);
        } else {
            assert(encode_utf16(chars) =~= units);
        }
    }
    if exists|chars: Seq<char>| #[trigger] encode_utf16(chars) == units {
        let chars = choose|chars: Seq<char>| #[trigger] encode_utf16(chars) == units;
        law_utf16_round_trip(chars);
    }
}

/// A string that is cut off within its length is an early end of the input; one that is cut off
/// within its code units, or whose code units cannot be decoded, is an ill-formed string.
pub proof fn law_strings_that_cannot_be_read(s: Seq<u8>)
    ensures
        utf16_string(s) == Err::<(nat, Seq<char>), ReadError>(ReadError::Eof) <==> s.len() == 0 || (
        s.len() == 1 && s[0] >= 0x80),
        s.len() >= 1 && s[0] < 0x80 && s.len() < 1 + 2 * s[0] ==> utf16_string(s) == Err::<
            (nat, Seq<char>),
            ReadError,
        >(ReadError::Utf16String),
        s.len() >= 2 && s[0] >= 0x80 && s.len() < 2 + 2 * ((s[0] - 0x80) * 0x100 + s[1])
            ==> utf16_string(s) == Err::<(nat, Seq<char>), ReadError>(ReadError::Utf16String),
        string_units(s) matches Ok((n, units)) && decode_utf16(units) is None ==> utf16_string(s)
            == Err::<(nat, Seq<char>), ReadError>(ReadError::Utf16String),
{
}

/// Where a string can be read, passing over it passes over the bytes that reading consumes.
pub proof fn law_skip_matches_read(s: Seq<u8>)
    ensures
        utf16_string(s) matches Ok((n, chars)) ==> skipped_string(s) == Ok::<nat, ReadError>(n),
        skipped_string(s) matches Err(e) ==> utf16_string(s) == Err::<
            (nat, Seq<char>),
            ReadError,
        >(e),
{
}

/// A string is determined by its own bytes.
pub proof fn lemma_string_local(s: Seq<u8>, t: Seq<u8>)
    requires
        string_units(s) matches Ok((n, units)) && n <= t.len() && t.take(n as int) == s.take(
            n as int,
        ),
    ensures
        string_units(t) == string_units(s),
{
    let (n, units) = string_units(s).unwrap();
    assert forall|i: int| 0 <= i < n implies t[i] == s[i] by {
        assert(t.take(n as int)[i] == s.take(n as int)[i]);
    }
    assert(string_length(t) == string_length(s));
    assert(string_units(t).unwrap().1 =~= units);
}

/// Reads a length, in one byte or in two.
pub fn string_length_parser(input: &[u8]) -> (res: ReadResult<u16>)
    ensures
        match string_length(input@) {
            Ok((n, length)) => res matches Ok((rest, value)) && rest@ == input@.skip(n as int)
                && value == length,
            Err(e) => res matches Err(got) && got == e,
        },
{
    if input.len() == 0 {
        return Err(ReadError::Eof);
    }
    let length: u8 = input[0];
    if length < 128 {
        return Ok((slice_subrange(input, 1, input.len()), length as u16));
    }
    if input.len() < 2 {
        return Err(ReadError::Eof);
    }
    let low: u8 = input[1];
    Ok((slice_subrange(input, 2, input.len()), (length - 128) as u16 * 0x100 + low as u16))
}

/// Reads the bytes of the code units of a string.
fn utf16_string_data(input: &[u8]) -> (res: ReadResult<&[u8]>)
    ensures
        match string_units(input@) {
            Ok((n, units)) => res matches Ok((rest, data)) && rest@ == input@.skip(n as int)
                && data@.len() == 2 * units.len() && forall|i: int|
                0 <= i < units.len() ==> #[trigger] units[i] == bytes::u16_at(data@, 2 * i),
            Err(e) => res matches Err(got) && got == e,
        },
{
    let (rest, length) = string_length_parser(input)?;
    let num_bytes: usize = length as usize * 2;
    if rest.len() < num_bytes {
        return Err(ReadError::Utf16String);
    }
    let data = slice_subrange(rest, 0, num_bytes);
    let next = slice_subrange(rest, num_bytes, rest.len());
    proof {
        let n = string_length(input@).unwrap().0;
        let units = string_units(input@).unwrap().1;
        assert(next@ =~= input@.skip((n + num_bytes) as int));
        assert forall|i: int| 0 <= i < units.len() implies #[trigger] units[i] == bytes::u16_at(
            data@,
            2 * i,
        ) by {
            assert(data@[2 * i] == input@[n + 2 * i]);
            assert(data@[2 * i + 1] == input@[n + 2 * i + 1]);
        }
    }
    Ok((next, data))
}

/// Reads a string.
pub fn utf16_string_parser(input: &[u8]) -> (res: ReadResult<String>)
    ensures
        match utf16_string(input@) {
            Ok((n, chars)) => res matches Ok((rest, value)) && rest@ == input@.skip(n as int)
                && value@ == chars,
            Err(e) => res matches Err(got) && got == e,
        },
{
    let (rest, data) = utf16_string_data(input)?;
    let ghost units = string_units(input@).unwrap().1;
    let ghost total = decode_utf16(units);
    let mut result: String = String::new();
    let count: usize = data.len() / 2;
    let mut i: usize = 0;
    assert(units.skip(0) =~= units);
    assert(total is Some ==> result@ + total.unwrap() =~= total.unwrap());
    while i < count
        invariant
            i <= count == units.len(),
            data.len() == 2 * count,
            data@.len() == 2 * units.len(),
            string_units(input@) matches Ok((n, us)) && us == units && rest@ == input@.skip(
                n as int,
            ),
            total == decode_utf16(units),
            forall|k: int| 0 <= k < units.len() ==> #[trigger] units[k] == bytes::u16_at(data@, 2 * k),
            total == (match decode_utf16(units.skip(i as int)) {
                Some(chars) => Some(result@ + chars),
                None => None,
            }),
        decreases count - i,
    {
        let unit: u16 = bytes::read_u16(data, 2 * i);
        let ghost left = units.skip(i as int);
        let ghost before = result@;
        assert(left[0] == units[i as int] && unit == units[i as int]);
        if unit < 0xD800 || unit >= 0xE000 {
            match char::from_u32(unit as u32) {
                Some(c) => {
                    result.push(c);
                    assert(left.skip(1) =~= units.skip(i + 1));
                    assert(total is Some ==> before + (seq![c] + decode_utf16(
                        units.skip(i + 1),
                    ).unwrap()) =~= result@ + decode_utf16(units.skip(i + 1)).unwrap());
                },
                None => {
                    return Err(ReadError::Utf16String);
                },
            }
            i = i + 1;
        } else {
            if unit >= 0xDC00 || count - i < 2 {
                return Err(ReadError::Utf16String);
            }
            let low: u16 = bytes::read_u16(data, 2 * i + 2);
            assert(left[1] == units[i + 1] && units[i + 1] == bytes::u16_at(data@, 2 * (i + 1)));
            if low < 0xDC00 || low >= 0xE000 {
                return Err(ReadError::Utf16String);
            }
            let code: u32 = 0x1_0000 + (unit - 0xD800) as u32 * 0x400 + (low - 0xDC00) as u32;
            match char::from_u32(code) {
                Some(c) => {
                    result.push(c);
                    assert(c == pair_char(unit, low));
                    assert(left.skip(2) =~= units.skip(i + 2));
                    assert(total is Some ==> before + (seq![c] + decode_utf16(
                        units.skip(i + 2),
                    ).unwrap()) =~= result@ + decode_utf16(units.skip(i + 2)).unwrap());
                },
                None => {
                    return Err(ReadError::Utf16String);
                },
            }
            i = i + 2;
        }
    }
    assert(decode_utf16(units.skip(i as int)) == Some(Seq::<char>::empty()));
    assert(result@ + Seq::<char>::empty() =~= result@);
    Ok((rest, result))
}

/// Passes over a string.
pub fn skip_u16_string(input: &[u8]) -> (res: ReadResult<String>)
    ensures
        match skipped_string(input@) {
            Ok(n) => res matches Ok((rest, value)) && rest@ == input@.skip(n as int) && value@
                == Seq::<char>::empty(),
            Err(e) => res matches Err(got) && got == e,
        },
{
    let (rest, _data) = utf16_string_data(input)?;
    Ok((rest, String::new()))
}

} // verus!
