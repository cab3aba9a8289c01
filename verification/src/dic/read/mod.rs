//! Readers of the primitive values that dictionary records are made of.
//!
//! Each reader takes the bytes that are left and returns those that are left after it, together
//! with the value.

pub mod u16str;
pub mod word_info;

use vstd::prelude::*;
use vstd::slice::slice_subrange;

use crate::bytes;
use crate::dic::compact;
use crate::dic::word_id::WordId;
use crate::error::{ReadError, ReadResult};

verus! {

/// The array that `s` begins with, a one-byte count before 32-bit integers, and the number of
/// its bytes.
pub open spec fn u32_array(s: Seq<u8>) -> Result<(nat, Seq<u32>), ReadError> {
    if s.len() == 0 || s.len() < 1 + 4 * s[0] {
        Err(ReadError::Eof)
    } else {
        Ok(((1 + 4 * s[0]) as nat, bytes::u32s_at(s, 1, s[0] as nat)))
    }
}

/// Word identifiers with the given compressed representations.
pub open spec fn word_ids(raws: Seq<u32>) -> Seq<WordId> {
    raws.map_values(|raw: u32| WordId { raw })
}

/// The array of word identifiers that `s` begins with and the number of its bytes.
pub open spec fn wid_array(s: Seq<u8>) -> Result<(nat, Seq<WordId>), ReadError> {
    match u32_array(s) {
        Ok((n, raws)) => Ok((n, word_ids(raws))),
        Err(e) => Err(e),
    }
}

/// What skipping the array that `s` begins with comes to: the number of its bytes. There is no
/// outcome where the array is announced and cut off.
pub open spec fn skipped_array(s: Seq<u8>) -> Option<Result<nat, ReadError>> {
    if s.len() == 0 {
        Some(Err(ReadError::Eof))
    } else if s.len() < 1 + 4 * s[0] {
        None
    } else {
        Some(Ok((1 + 4 * s[0]) as nat))
    }
}

/// The `count` variable-length integers that `s` begins with and the number of their bytes.
pub open spec fn vbytes(s: Seq<u8>, count: nat) -> Option<(Seq<u32>, nat)>
    decreases count,
{
    if count == 0 {
        Some((Seq::empty(), 0))
    } else {
        match vbytes(s, (count - 1) as nat) {
            Some((values, n)) => match compact::vbyte(s.skip(n as int)) {
                Some((value, m)) => Some((values.push(value), n + m)),
                None => None,
            },
            None => None,
        }
    }
}

/// The array that `s` begins with, its count and its values all variable-length integers, and
/// the number of its bytes.
pub open spec fn vbyte_array(s: Seq<u8>) -> Option<(Seq<u32>, nat)> {
    match compact::vbyte(s) {
        Some((count, n)) => match vbytes(s.skip(n as int), count as nat) {
            Some((values, m)) => Some((values, n + m)),
            None => None,
        },
        None => None,
    }
}

/// The first `count` of more variable-length integers can be read, and lie within the input.
pub proof fn lemma_vbytes_prefix(s: Seq<u8>, count: nat, more: nat)
    requires
        count <= more,
        vbytes(s, more) is Some,
    ensures
        vbytes(s, count) is Some,
        vbytes(s, count).unwrap().1 <= vbytes(s, more).unwrap().1 <= s.len(),
        vbytes(s, count).unwrap().0.len() == count,
    decreases more,
{
    if more > 0 {
        let (values, n) = vbytes(s, (more - 1) as nat).unwrap();
        compact::lemma_vbyte_len(s.skip(n as int));
        if count < more {
            lemma_vbytes_prefix(s, count, (more - 1) as nat);
        } else {
            lemma_vbytes_prefix(s, (more - 1) as nat, (more - 1) as nat);
        }
    }
}

/// Skipping an array of identifiers passes over the bytes that reading it consumes.
pub proof fn law_skip_matches_read(s: Seq<u8>)
    ensures
        u32_array(s) matches Ok((n, values)) ==> skipped_array(s) == Some(
            Ok::<nat, ReadError>(n),
        ),
        wid_array(s) matches Ok((n, ids)) ==> skipped_array(s) == Some(Ok::<nat, ReadError>(n)),
        skipped_array(s) matches Some(Ok(n)) ==> u32_array(s) == Ok::<(nat, Seq<u32>), ReadError>(
            (n, bytes::u32s_at(s, 1, s[0] as nat)),
        ),
        skipped_array(s) matches Some(Err(e)) ==> u32_array(s) == Err::<
            (nat, Seq<u32>),
            ReadError,
        >(e),
{
}

/// The bytes of an array: the number of its integers in one byte, and the integers.
pub open spec fn array_bytes(values: Seq<u32>) -> Seq<u8> {
    seq![values.len() as u8] + bytes::u32s_bytes(values)
}

/// An array that was written is read back, whatever follows, and so many bytes are passed over
/// where it is not asked for. Read as word identifiers, it gives those with its integers as
/// their raw numbers.
pub proof fn law_array_reads_back(values: Seq<u32>, rest: Seq<u8>)
    requires
        values.len() < 0x100,
    ensures
        u32_array(array_bytes(values) + rest) == Ok::<(nat, Seq<u32>), ReadError>(
            (1 + 4 * values.len(), values),
        ),
        skipped_array(array_bytes(values) + rest) == Some(
            Ok::<nat, ReadError>(1 + 4 * values.len()),
        ),
        wid_array(array_bytes(values) + rest) matches Ok((n, ids)) && n == 1 + 4 * values.len()
            && ids.len() == values.len() && forall|i: int|
            0 <= i < values.len() ==> (#[trigger] ids[i]).raw == values[i],
{
    let head = seq![values.len() as u8];
    let s = array_bytes(values) + rest;
    assert(s =~= head + bytes::u32s_bytes(values) + rest);
    bytes::lemma_u32s_bytes_len(values);
    bytes::lemma_u32s_round_trip(values, head, rest);
    assert(s[0] == head[0]);
}

/// An array that is cut off is an early end of the input where it is read. Where it is passed over,
/// that is so only for one without its count; for one that is cut off behind it there is no
/// outcome.
pub proof fn law_arrays_that_are_cut_off(s: Seq<u8>)
    ensures
        u32_array(s) is Err <==> s.len() == 0 || s.len() < 1 + 4 * s[0],
        u32_array(s) matches Err(e) ==> e == ReadError::Eof,
        s.len() == 0 ==> skipped_array(s) == Some(Err::<nat, ReadError>(ReadError::Eof)),
        skipped_array(s) is None <==> s.len() > 0 && s.len() < 1 + 4 * s[0],
{
}

/// The bytes of numbers of variable length, one behind the other.
pub open spec fn vbytes_bytes(values: Seq<u32>) -> Seq<u8>
    decreases values.len(),
{
    if values.len() == 0 {
        Seq::empty()
    } else {
        vbytes_bytes(values.drop_last()) + compact::vbyte_bytes(values.last() as nat)
    }
}

/// Numbers of variable length that were written are read back.
proof fn lemma_vbytes_read_back(values: Seq<u32>, rest: Seq<u8>)
    ensures
        vbytes(vbytes_bytes(values) + rest, values.len()) == Some(
            (values, vbytes_bytes(values).len()),
        ),
    decreases values.len(),
{
    let s = vbytes_bytes(values) + rest;
    if values.len() == 0 {
        assert(values =~= Seq::empty());
    } else {
        let before = values.drop_last();
        let last = compact::vbyte_bytes(values.last() as nat);
        lemma_vbytes_read_back(before, last + rest);
        assert(s =~= vbytes_bytes(before) + (last + rest));
        assert(s.skip(vbytes_bytes(before).len() as int) =~= last + rest);
        compact::law_vbyte_reads_back(values.last(), rest);
        assert(before.push(values.last()) =~= values);
    }
}

/// An array of numbers of variable length that was written, its count before it, is read back,
/// whatever follows.
pub proof fn law_vbyte_array_reads_back(values: Seq<u32>, rest: Seq<u8>)
    requires
        values.len() <= u32::MAX,
    ensures
        vbyte_array(compact::vbyte_bytes(values.len()) + vbytes_bytes(values) + rest) == Some(
            (values, compact::vbyte_bytes(values.len()).len() + vbytes_bytes(values).len()),
        ),
{
    let head = compact::vbyte_bytes(values.len());
    let s = head + vbytes_bytes(values) + rest;
    compact::law_vbyte_reads_back(values.len() as u32, vbytes_bytes(values) + rest);
    assert(s =~= head + (vbytes_bytes(values) + rest));
    assert(s.skip(head.len() as int) =~= vbytes_bytes(values) + rest);
    lemma_vbytes_read_back(values, rest);
}

/// Reads an array of 32-bit integers.
pub fn u32_array_parser(input: &[u8]) -> (res: ReadResult<Vec<u32>>)
    ensures
        match u32_array(input@) {
            Ok((n, values)) => res matches Ok((rest, read)) && rest@ == input@.skip(n as int)
                && read@ == values,
            Err(e) => res matches Err(got) && got == e,
        },
{
    if input.len() == 0 {
        return Err(ReadError::Eof);
    }
    let length: usize = input[0] as usize;
    if input.len() - 1 < 4 * length {
        return Err(ReadError::Eof);
    }
    let values: Vec<u32> = bytes::read_u32s(input, 1, length);
    let rest = slice_subrange(input, 1 + 4 * length, input.len());
    Ok((rest, values))
}

/// Reads an array of word identifiers.
pub fn u32_wid_array_parser(input: &[u8]) -> (res: ReadResult<Vec<WordId>>)
    ensures
        match wid_array(input@) {
            Ok((n, ids)) => res matches Ok((rest, read)) && rest@ == input@.skip(n as int)
                && read@ == ids,
            Err(e) => res matches Err(got) && got == e,
        },
{
    let (rest, raws) = u32_array_parser(input)?;
    Ok((rest, ids_from_raw(&raws)))
}

/// The word identifiers with the given compressed representations.
fn ids_from_raw(raws: &Vec<u32>) -> (ids: Vec<WordId>)
    ensures
        ids@ == word_ids(raws@),
{
    let mut ids: Vec<WordId> = Vec::new();
    let mut i: usize = 0;
    while i < raws.len()
        invariant
            i <= raws@.len(),
            ids@ =~= word_ids(raws@.take(i as int)),
        decreases raws@.len() - i,
    {
        ids.push(WordId::from_raw(raws[i]));
        i += 1;
    }
    assert(raws@.take(raws@.len() as int) =~= raws@);
    ids
}

/// Passes over an array of word identifiers.
pub fn skip_wid_array(input: &[u8]) -> (res: ReadResult<Vec<WordId>>)
    requires
        skipped_array(input@) is Some,
    ensures
        match skipped_array(input@).unwrap() {
            Ok(n) => res matches Ok((rest, read)) && rest@ == input@.skip(n as int) && read@
                == Seq::<WordId>::empty(),
            Err(e) => res matches Err(got) && got == e,
        },
{
    if input.len() == 0 {
        return Err(ReadError::Eof);
    }
    let num_bytes: usize = input[0] as usize * 4;
    let next = slice_subrange(input, 1 + num_bytes, input.len());
    Ok((next, Vec::new()))
}

/// Passes over an array of 32-bit integers.
pub fn skip_u32_array(input: &[u8]) -> (res: ReadResult<Vec<u32>>)
    requires
        skipped_array(input@) is Some,
    ensures
        match skipped_array(input@).unwrap() {
            Ok(n) => res matches Ok((rest, read)) && rest@ == input@.skip(n as int) && read@
                == Seq::<u32>::empty(),
            Err(e) => res matches Err(got) && got == e,
        },
{
    if input.len() == 0 {
        return Err(ReadError::Eof);
    }
    let num_bytes: usize = input[0] as usize * 4;
    let next = slice_subrange(input, 1 + num_bytes, input.len());
    Ok((next, Vec::new()))
}

/// Reads a 32-bit integer.
pub fn u32_parser(input: &[u8]) -> (res: ReadResult<u32>)
    ensures
        if input.len() < 4 {
            res matches Err(e) && e == ReadError::Eof
        } else {
            res matches Ok((rest, value)) && rest@ == input@.skip(4) && value == bytes::u32_at(input@, 0)
        },
{
    if input.len() < 4 {
        return Err(ReadError::Eof);
    }
    Ok((slice_subrange(input, 4, input.len()), bytes::read_u32(input, 0)))
}

/// Reads a variable-length integer.
pub fn vbyte_u32(input: &[u8]) -> (res: ReadResult<u32>)
    requires
        compact::vbyte(input@) is Some,
    ensures
        res matches Ok((rest, value)) && compact::vbyte(input@) matches Some((v, n)) && rest@ == input@.skip(
            n as int,
        ) && value == v,
{
    let (value, consumed) = compact::decode_vbyte(input);
    Ok((slice_subrange(input, consumed, input.len()), value))
}

/// Reads a variable-length integer and keeps its lower 16 bits.
pub fn vbyte_u16(input: &[u8]) -> (res: ReadResult<u16>)
    requires
        compact::vbyte(input@) is Some,
    ensures
        res matches Ok((rest, value)) && compact::vbyte(input@) matches Some((v, n)) && rest@ == input@.skip(
            n as int,
        ) && value == v % 0x1_0000,
{
    let (value, consumed) = compact::decode_vbyte(input);
    Ok((slice_subrange(input, consumed, input.len()), (value % 0x1_0000) as u16))
}

/// Reads a signed integer stored as the variable-length integer of its zigzag code.
pub fn zigzag_vbyte_i32(input: &[u8]) -> (res: ReadResult<i32>)
    requires
        compact::vbyte(input@) is Some,
    ensures
        res matches Ok((rest, value)) && compact::vbyte(input@) matches Some((v, n)) && rest@ == input@.skip(
            n as int,
        ) && value == compact::zigzag(v),
{
    let (value, consumed) = compact::decode_vbyte(input);
    Ok((slice_subrange(input, consumed, input.len()), compact::decode_zigzag(value)))
}

/// Reads an array of variable-length integers, their number before them.
pub fn vbyte_u32_array(input: &[u8]) -> (res: ReadResult<Vec<u32>>)
    requires
        vbyte_array(input@) is Some,
    ensures
        res matches Ok((rest, read)) && vbyte_array(input@) matches Some((values, n)) && rest@
            == input@.skip(n as int) && read@ == values,
{
    let (rest, count) = vbyte_u32(input)?;
    let mut result: Vec<u32> = Vec::new();
    let mut current = rest;
    let ghost mut used: nat = 0;
    assert(rest@.skip(0) =~= rest@);
    let mut i: u32 = 0;
    while i < count
        invariant
            i <= count,
            vbytes(rest@, count as nat) is Some,
            used <= rest@.len(),
            current@ == rest@.skip(used as int),
            vbytes(rest@, i as nat) == Some((result@, used)),
        decreases count - i,
    {
        proof {
            lemma_vbytes_prefix(rest@, (i + 1) as nat, count as nat);
            assert(compact::vbyte(current@) is Some);
        }
        let (next, value) = vbyte_u32(current)?;
        proof {
            let m = compact::vbyte(current@).unwrap().1;
            assert(current@.skip(m as int) =~= rest@.skip((used + m) as int));
            used = used + m;
        }
        result.push(value);
        current = next;
        i = i + 1;
    }
    proof {
        let n = compact::vbyte(input@).unwrap().1;
        compact::lemma_vbyte_len(input@);
        assert(rest@.skip(used as int) =~= input@.skip((n + used) as int));
    }
    Ok((current, result))
}

/// Reads an array of word identifiers stored as variable-length integers.
pub fn vbyte_wid_array(input: &[u8]) -> (res: ReadResult<Vec<WordId>>)
    requires
        vbyte_array(input@) is Some,
    ensures
        res matches Ok((rest, read)) && vbyte_array(input@) matches Some((values, n)) && rest@
            == input@.skip(n as int) && read@ == word_ids(values),
{
    let (rest, raws) = vbyte_u32_array(input)?;
    Ok((rest, ids_from_raw(&raws)))
}

/// Passes over `count` variable-length integers.
fn skip_vbytes(input: &[u8], count: u32) -> (rest: &[u8])
    requires
        vbytes(input@, count as nat) is Some,
    ensures
        vbytes(input@, count as nat) matches Some((values, n)) && rest@ == input@.skip(n as int),
{
    let mut current = input;
    let ghost mut used: nat = 0;
    assert(input@.skip(0) =~= input@);
    let mut i: u32 = 0;
    while i < count
        invariant
            i <= count,
            vbytes(input@, count as nat) is Some,
            used <= input@.len(),
            current@ == input@.skip(used as int),
            vbytes(input@, i as nat) matches Some((values, n)) && n == used,
        decreases count - i,
    {
        proof {
            lemma_vbytes_prefix(input@, (i + 1) as nat, count as nat);
        }
        let (_value, consumed) = compact::decode_vbyte(current);
        proof {
            assert(current@.skip(consumed as int) =~= input@.skip((used + consumed) as int));
            used = used + consumed as nat;
        }
        current = slice_subrange(current, consumed, current.len());
        i = i + 1;
    }
    current
}

/// Passes over an array of word identifiers stored as variable-length integers.
pub fn skip_vbyte_wid_array(input: &[u8]) -> (res: ReadResult<Vec<WordId>>)
    requires
        vbyte_array(input@) is Some,
    ensures
        res matches Ok((rest, read)) && vbyte_array(input@) matches Some((values, n)) && rest@
            == input@.skip(n as int) && read@ == Seq::<WordId>::empty(),
{
    let (rest, count) = vbyte_u32(input)?;
    let current = skip_vbytes(rest, count);
    proof {
        let n = compact::vbyte(input@).unwrap().1;
        let m = vbytes(rest@, count as nat).unwrap().1;
        compact::lemma_vbyte_len(input@);
        lemma_vbytes_prefix(rest@, count as nat, count as nat);
        assert(rest@.skip(m as int) =~= input@.skip((n + m) as int));
    }
    Ok((current, Vec::new()))
}

/// Passes over an array of variable-length integers.
pub fn skip_vbyte_u32_array(input: &[u8]) -> (res: ReadResult<Vec<u32>>)
    requires
        vbyte_array(input@) is Some,
    ensures
        res matches Ok((rest, read)) && vbyte_array(input@) matches Some((values, n)) && rest@
            == input@.skip(n as int) && read@ == Seq::<u32>::empty(),
{
    let (rest, count) = vbyte_u32(input)?;
    let current = skip_vbytes(rest, count);
    proof {
        let n = compact::vbyte(input@).unwrap().1;
        let m = vbytes(rest@, count as nat).unwrap().1;
        compact::lemma_vbyte_len(input@);
        lemma_vbytes_prefix(rest@, count as nat, count as nat);
        assert(rest@.skip(m as int) =~= input@.skip((n + m) as int));
    }
    Ok((current, Vec::new()))
}

} // verus!
