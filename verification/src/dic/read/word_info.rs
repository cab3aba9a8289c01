//! Reader of word records.

use vstd::prelude::*;
use vstd::slice::slice_subrange;

use crate::bytes;
use crate::dic::lexicon::word_infos::{InfoModel, WordInfoData};
use crate::dic::read::u16str;
use crate::dic::subset::{InfoSubset, FIELD_COUNT};
use crate::dic::word_id::WordId;
use crate::error::{ReadError, SudachiError, SudachiResult};

verus! {

/// How a field of a record is stored.
pub enum FieldKind {
    /// A UTF-16 string
    Text,
    /// A length of one or two bytes
    Length,
    /// A 16-bit integer
    Short,
    /// A signed 32-bit integer
    Int,
    /// An array of 32-bit integers
    Numbers,
}

/// The value of a field.
pub enum FieldValue {
    Text(Seq<char>),
    Short(u16),
    Int(i32),
    Numbers(Seq<u32>),
}

/// How field `k` is stored.
pub open spec fn field_kind(k: int) -> FieldKind {
    if k == 0 || k == 3 || k == 5 {
        FieldKind::Text
    } else if k == 1 {
        FieldKind::Length
    } else if k == 2 {
        FieldKind::Short
    } else if k == 4 {
        FieldKind::Int
    } else {
        FieldKind::Numbers
    }
}

/// The field that `s` begins with and the number of its bytes.
pub open spec fn read_field(kind: FieldKind, s: Seq<u8>) -> Result<(nat, FieldValue), ReadError> {
    match kind {
        FieldKind::Text => match u16str::utf16_string(s) {
            Ok((n, chars)) => Ok((n, FieldValue::Text(chars))),
            Err(e) => Err(e),
        },
        FieldKind::Length => match u16str::string_length(s) {
            Ok((n, length)) => Ok((n, FieldValue::Short(length))),
            Err(e) => Err(e),
        },
        FieldKind::Short => if s.len() < 2 {
            Err(ReadError::Eof)
        } else {
            Ok((2, FieldValue::Short(bytes::u16_at(s, 0))))
        },
        FieldKind::Int => if s.len() < 4 {
            Err(ReadError::Eof)
        } else {
            Ok((4, FieldValue::Int(bytes::i32_at(s, 0))))
        },
        FieldKind::Numbers => match super::u32_array(s) {
            Ok((n, numbers)) => Ok((n, FieldValue::Numbers(numbers))),
            Err(e) => Err(e),
        },
    }
}

/// What passing over the field that `s` begins with comes to: the number of its bytes.
pub open spec fn skip_field(kind: FieldKind, s: Seq<u8>) -> Option<Result<nat, ReadError>> {
    match kind {
        FieldKind::Text => Some(u16str::skipped_string(s)),
        FieldKind::Numbers => super::skipped_array(s),
        _ => match read_field(kind, s) {
            Ok((n, value)) => Some(Ok(n)),
            Err(e) => Some(Err(e)),
        },
    }
}

/// A record with the value of field `k` replaced.
pub open spec fn with_field(info: InfoModel, k: int, value: FieldValue) -> InfoModel {
    match value {
        FieldValue::Text(text) => if k == 0 {
            InfoModel { surface: text, ..info }
        } else if k == 3 {
            InfoModel { normalized_form: text, ..info }
        } else {
            InfoModel { reading_form: text, ..info }
        },
        FieldValue::Short(short) => if k == 1 {
            InfoModel { head_word_length: short, ..info }
        } else {
            InfoModel { pos_id: short, ..info }
        },
        FieldValue::Int(id) => InfoModel { dictionary_form_word_id: id, ..info },
        FieldValue::Numbers(numbers) => if k == 6 {
            InfoModel { a_unit_split: super::word_ids(numbers), ..info }
        } else if k == 7 {
            InfoModel { b_unit_split: super::word_ids(numbers), ..info }
        } else if k == 8 {
            InfoModel { word_structure: super::word_ids(numbers), ..info }
        } else {
            InfoModel { synonym_group_ids: numbers, ..info }
        },
    }
}

/// What field `k` at the beginning of `s` comes to: the number of its bytes, and the record with
/// its value, if the field is asked for.
pub open spec fn one_field(
    k: int,
    s: Seq<u8>,
    wanted: bool,
    info: InfoModel,
) -> Option<Result<(nat, InfoModel), ReadError>> {
    if wanted {
        match read_field(field_kind(k), s) {
            Ok((n, value)) => Some(Ok((n, with_field(info, k, value)))),
            Err(e) => Some(Err(e)),
        }
    } else {
        match skip_field(field_kind(k), s) {
            Some(Ok(n)) => Some(Ok((n, info))),
            Some(Err(e)) => Some(Err(e)),
            None => None,
        }
    }
}

/// What the fields from `k` on come to, `s` beginning with the first one of them: the record and
/// the number of bytes up to the last field that is asked for.
pub open spec fn fields_from(
    k: int,
    s: Seq<u8>,
    subset: InfoSubset,
    info: InfoModel,
) -> Option<Result<(nat, InfoModel), ReadError>>
    decreases FIELD_COUNT - k,
{
    if k >= FIELD_COUNT || !subset.has_from(k) {
        Some(Ok((0, info)))
    } else {
        match one_field(k, s, subset.has(k), info) {
            Some(Ok((n, next))) => further(n, fields_from(k + 1, s.skip(n as int), subset, next)),
            Some(Err(e)) => Some(Err(e)),
            None => None,
        }
    }
}

/// The outcome of reading on after `n` bytes.
pub open spec fn further(
    n: nat,
    outcome: Option<Result<(nat, InfoModel), ReadError>>,
) -> Option<Result<(nat, InfoModel), ReadError>> {
    match outcome {
        Some(Ok((m, info))) => Some(Ok((n + m, info))),
        Some(Err(e)) => Some(Err(e)),
        None => None,
    }
}

/// The record that `s` begins with, as far as it is asked for, and the number of bytes that were
/// needed for it.
pub open spec fn record(s: Seq<u8>, subset: InfoSubset) -> Option<
    Result<(nat, InfoModel), ReadError>,
> {
    fields_from(0, s, subset, InfoModel::blank())
}

/// A field is determined by its own bytes.
proof fn lemma_field_local(k: int, s: Seq<u8>, t: Seq<u8>, wanted: bool, info: InfoModel)
    requires
        one_field(k, s, wanted, info) matches Some(Ok((n, next))) && n <= t.len() && t.take(
            n as int,
        ) == s.take(n as int),
    ensures
        one_field(k, t, wanted, info) == one_field(k, s, wanted, info),
        one_field(k, s, wanted, info).unwrap().unwrap().0 <= s.len(),
{
    let n = one_field(k, s, wanted, info).unwrap().unwrap().0;
    assert forall|i: int| 0 <= i < n && i < s.len() implies t[i] == s[i] by {
        assert(t.take(n as int)[i] == s.take(n as int)[i]);
    }
    match field_kind(k) {
        FieldKind::Text => {
            u16str::lemma_string_local(s, t);
        },
        FieldKind::Numbers => {
            if wanted {
                assert(super::u32_array(t).unwrap().1 =~= super::u32_array(s).unwrap().1);
            }
        },
        _ => {},
    }
}

/// The fields lie within the input.
proof fn lemma_fields_len(k: int, s: Seq<u8>, subset: InfoSubset, info: InfoModel)
    ensures
        fields_from(k, s, subset, info) matches Some(Ok((n, next))) ==> n <= s.len(),
    decreases FIELD_COUNT - k,
{
    if k < FIELD_COUNT && subset.has_from(k) {
        if let Some(Ok((n, next))) = one_field(k, s, subset.has(k), info) {
            lemma_field_len(k, s, subset.has(k), info);
            lemma_fields_len(k + 1, s.skip(n as int), subset, next);
        }
    }
}

/// The fields of a record are determined by the bytes that were needed for them.
proof fn lemma_fields_local(
    k: int,
    s: Seq<u8>,
    t: Seq<u8>,
    subset: InfoSubset,
    info: InfoModel,
)
    requires
        0 <= k,
        fields_from(k, s, subset, info) matches Some(Ok((n, next))) && n <= t.len() && t.take(
            n as int,
        ) == s.take(n as int),
    ensures
        fields_from(k, t, subset, info) == fields_from(k, s, subset, info),
        fields_from(k, s, subset, info).unwrap().unwrap().0 <= s.len(),
    decreases FIELD_COUNT - k,
{
    if k < FIELD_COUNT && subset.has_from(k) {
        let total = fields_from(k, s, subset, info).unwrap().unwrap().0;
        let (n, next) = one_field(k, s, subset.has(k), info).unwrap().unwrap();
        lemma_fields_len(k, s, subset, info);
        assert(t.take(n as int) =~= t.take(total as int).take(n as int));
        assert(s.take(n as int) =~= s.take(total as int).take(n as int));
        lemma_field_local(k, s, t, subset.has(k), info);
        let m = (total - n) as int;
        assert(t.skip(n as int).take(m) =~= t.take(total as int).skip(n as int));
        assert(s.skip(n as int).take(m) =~= s.take(total as int).skip(n as int));
        lemma_fields_local(k + 1, s.skip(n as int), t.skip(n as int), subset, next);
    }
}

/// A field lies within the input.
proof fn lemma_field_len(k: int, s: Seq<u8>, wanted: bool, info: InfoModel)
    ensures
        one_field(k, s, wanted, info) matches Some(Ok((n, next))) ==> n <= s.len(),
{
}

/// A record lies within the input.
pub proof fn lemma_record_len(s: Seq<u8>, subset: InfoSubset)
    ensures
        record(s, subset) matches Some(Ok((n, info))) ==> n <= s.len(),
{
    lemma_fields_len(0, s, subset, InfoModel::blank());
}

/// A record is determined by the bytes that were needed for it: more bytes behind them change
/// nothing.
pub proof fn law_record_local(s: Seq<u8>, t: Seq<u8>, subset: InfoSubset)
    requires
        record(s, subset) matches Some(Ok((n, info))) && n <= t.len() && t.take(n as int)
            == s.take(n as int),
    ensures
        record(t, subset) == record(s, subset),
        record(s, subset).unwrap().unwrap().0 <= s.len(),
{
    lemma_fields_local(0, s, t, subset, InfoModel::blank());
}

/// The raw numbers of word identifiers.
pub open spec fn raws(ids: Seq<WordId>) -> Seq<u32> {
    ids.map_values(|id: WordId| id.raw)
}

/// The bytes of a signed integer in two's complement.
pub open spec fn int_bytes(v: i32) -> Seq<u8> {
    bytes::u32_bytes(
        if v < 0 {
            (v + 0x1_0000_0000) as u32
        } else {
            v as u32
        },
    )
}

/// The bytes of a record from behind its surface up to its synonym groups: the length of the head
/// word, the part of speech, the normalized form, the word of the dictionary form, the reading,
/// the short units, the middle units and the structure, one behind the other.
#[verifier::opaque]
pub open spec fn inner_bytes(r: InfoModel) -> Seq<u8> {
    u16str::length_bytes(r.head_word_length as nat) + (seq![
        (r.pos_id % 0x100) as u8,
        (r.pos_id / 0x100) as u8,
    ] + (u16str::string_bytes(r.normalized_form) + (int_bytes(r.dictionary_form_word_id) + (
    u16str::string_bytes(r.reading_form) + (super::array_bytes(raws(r.a_unit_split)) + (
    super::array_bytes(raws(r.b_unit_split)) + super::array_bytes(raws(r.word_structure))))))))
}

/// The bytes of a record up to its synonym groups: the surface, and the other fields behind it.
#[verifier::opaque]
pub open spec fn main_bytes(r: InfoModel) -> Seq<u8> {
    u16str::string_bytes(r.surface) + inner_bytes(r)
}

/// The bytes of a record: those up to its synonym groups, and these.
#[verifier::opaque]
pub open spec fn record_bytes(r: InfoModel) -> Seq<u8> {
    main_bytes(r) + super::array_bytes(r.synonym_group_ids)
}

/// A record can be written: its texts and arrays have lengths that their heads can hold, and its
/// dictionary form is not held in it.
pub open spec fn can_be_written(r: InfoModel) -> bool {
    &&& u16str::encode_utf16(r.surface).len() < 0x8000
    &&& r.head_word_length < 0x8000
    &&& u16str::encode_utf16(r.normalized_form).len() < 0x8000
    &&& u16str::encode_utf16(r.reading_form).len() < 0x8000
    &&& r.a_unit_split.len() < 0x100
    &&& r.b_unit_split.len() < 0x100
    &&& r.word_structure.len() < 0x100
    &&& r.synonym_group_ids.len() < 0x100
    &&& r.dictionary_form.len() == 0
}

/// The bytes of field `k`.
spec fn field_bytes(r: InfoModel, k: int) -> Seq<u8> {
    if k == 0 {
        u16str::string_bytes(r.surface)
    } else if k == 1 {
        u16str::length_bytes(r.head_word_length as nat)
    } else if k == 2 {
        seq![(r.pos_id % 0x100) as u8, (r.pos_id / 0x100) as u8]
    } else if k == 3 {
        u16str::string_bytes(r.normalized_form)
    } else if k == 4 {
        int_bytes(r.dictionary_form_word_id)
    } else if k == 5 {
        u16str::string_bytes(r.reading_form)
    } else if k == 6 {
        super::array_bytes(raws(r.a_unit_split))
    } else if k == 7 {
        super::array_bytes(raws(r.b_unit_split))
    } else if k == 8 {
        super::array_bytes(raws(r.word_structure))
    } else {
        super::array_bytes(r.synonym_group_ids)
    }
}

/// The bytes of the fields from `k` on up to field `n`.
spec fn bytes_between(r: InfoModel, k: int, n: int) -> Seq<u8>
    decreases n - k,
{
    if k >= n {
        Seq::empty()
    } else {
        field_bytes(r, k) + bytes_between(r, k + 1, n)
    }
}

/// A record with its first `k` fields alone.
spec fn first_fields(r: InfoModel, k: int) -> InfoModel {
    let blank = InfoModel::blank();
    InfoModel {
        surface: if k > 0 { r.surface } else { blank.surface },
        head_word_length: if k > 1 { r.head_word_length } else { 0 },
        pos_id: if k > 2 { r.pos_id } else { 0 },
        normalized_form: if k > 3 { r.normalized_form } else { blank.normalized_form },
        dictionary_form_word_id: if k > 4 { r.dictionary_form_word_id } else { 0 },
        dictionary_form: blank.dictionary_form,
        reading_form: if k > 5 { r.reading_form } else { blank.reading_form },
        a_unit_split: if k > 6 { r.a_unit_split } else { blank.a_unit_split },
        b_unit_split: if k > 7 { r.b_unit_split } else { blank.b_unit_split },
        word_structure: if k > 8 { r.word_structure } else { blank.word_structure },
        synonym_group_ids: if k > 9 { r.synonym_group_ids } else { blank.synonym_group_ids },
    }
}

/// Identifiers are those with their raw numbers.
proof fn lemma_raws(ids: Seq<WordId>)
    ensures
        super::word_ids(raws(ids)) == ids,
{
    assert(super::word_ids(raws(ids)) =~= ids);
}

/// A field that was written is read back into the record.
proof fn lemma_field_reads_back(r: InfoModel, k: int, rest: Seq<u8>)
    requires
        can_be_written(r),
        0 <= k < FIELD_COUNT,
    ensures
        one_field(k, field_bytes(r, k) + rest, true, first_fields(r, k)) == Some(
            Ok::<(nat, InfoModel), ReadError>((field_bytes(r, k).len(), first_fields(r, k + 1))),
        ),
{
    let s = field_bytes(r, k) + rest;
    if k == 0 {
        u16str::law_string_reads_back(r.surface, rest);
    } else if k == 1 {
        u16str::law_length_reads_back(r.head_word_length, rest);
    } else if k == 2 {
        assert(s[0] == field_bytes(r, k)[0] && s[1] == field_bytes(r, k)[1]);
    } else if k == 3 {
        u16str::law_string_reads_back(r.normalized_form, rest);
    } else if k == 4 {
        let v = if r.dictionary_form_word_id < 0 {
            (r.dictionary_form_word_id + 0x1_0000_0000) as u32
        } else {
            r.dictionary_form_word_id as u32
        };
        bytes::lemma_u32_round_trip(v, Seq::empty(), rest);
        assert(Seq::<u8>::empty() + bytes::u32_bytes(v) + rest =~= s);
    } else if k == 5 {
        u16str::law_string_reads_back(r.reading_form, rest);
    } else if k == 6 {
        super::law_array_reads_back(raws(r.a_unit_split), rest);
        lemma_raws(r.a_unit_split);
        bytes::lemma_u32s_bytes_len(raws(r.a_unit_split));
    } else if k == 7 {
        super::law_array_reads_back(raws(r.b_unit_split), rest);
        lemma_raws(r.b_unit_split);
        bytes::lemma_u32s_bytes_len(raws(r.b_unit_split));
    } else if k == 8 {
        super::law_array_reads_back(raws(r.word_structure), rest);
        lemma_raws(r.word_structure);
        bytes::lemma_u32s_bytes_len(raws(r.word_structure));
    } else {
        super::law_array_reads_back(r.synonym_group_ids, rest);
        bytes::lemma_u32s_bytes_len(r.synonym_group_ids);
    }
}

/// Fields that were written are read back.
#[verifier::rlimit(30)]
proof fn lemma_fields_read_back(r: InfoModel, k: int, n: int, subset: InfoSubset, rest: Seq<u8>)
    requires
        can_be_written(r),
        0 <= k <= n <= FIELD_COUNT,
        forall|j: int| 0 <= j < FIELD_COUNT ==> #[trigger] subset.has(j) == (j < n),
    ensures
        fields_from(k, bytes_between(r, k, n) + rest, subset, first_fields(r, k)) == Some(
            Ok::<(nat, InfoModel), ReadError>(
                (bytes_between(r, k, n).len(), first_fields(r, n)),
            ),
        ),
    decreases n - k,
{
    if k < n {
        let own = field_bytes(r, k);
        let others = bytes_between(r, k + 1, n) + rest;
        let s = bytes_between(r, k, n) + rest;
        assert(s =~= own + others);
        assert(subset.has(k));
        assert(subset.has_from(k));
        lemma_field_reads_back(r, k, others);
        assert(s.skip(own.len() as int) =~= others);
        lemma_fields_read_back(r, k + 1, n, subset, rest);
    } else {
        assert(!subset.has_from(n)) by {
            lemma_no_more(subset, n, n);
        }
    }
}

/// No field from `n` on is asked for where none is.
proof fn lemma_no_more(subset: InfoSubset, n: int, k: int)
    requires
        0 <= n <= k,
        forall|j: int| 0 <= j < FIELD_COUNT ==> #[trigger] subset.has(j) == (j < n),
    ensures
        !subset.has_from(k),
    decreases FIELD_COUNT - k,
{
    if k < FIELD_COUNT {
        assert(!subset.has(k));
        lemma_no_more(subset, n, k + 1);
    }
}

/// A record that was written is read back with every field as it was, whatever follows, and with
/// no more bytes than were written. Where the synonym groups are neither written nor asked for,
/// the other fields are read back.
pub proof fn law_record_reads_back(r: InfoModel, rest: Seq<u8>)
    requires
        can_be_written(r),
    ensures
        record(
            record_bytes(r) + rest,
            (InfoSubset {
                surface: true,
                head_word_length: true,
                pos_id: true,
                normalized_form: true,
                dic_form_word_id: true,
                reading_form: true,
                split_a: true,
                split_b: true,
                word_structure: true,
                synonym_group_id: true,
            }),
        ) == Some(Ok::<(nat, InfoModel), ReadError>((record_bytes(r).len(), r))),
        record(
            main_bytes(r) + rest,
            (InfoSubset {
                surface: true,
                head_word_length: true,
                pos_id: true,
                normalized_form: true,
                dic_form_word_id: true,
                reading_form: true,
                split_a: true,
                split_b: true,
                word_structure: true,
                synonym_group_id: false,
            }),
        ) == Some(
            Ok::<(nat, InfoModel), ReadError>(
                (main_bytes(r).len(), (InfoModel { synonym_group_ids: Seq::empty(), ..r })),
            ),
        ),
{
    let all = InfoSubset::uniform(true);
    let main = InfoSubset { synonym_group_id: false, ..all };
    lemma_between(r);
    assert(first_fields(r, 0) == InfoModel::blank());
    assert(r.dictionary_form =~= InfoModel::blank().dictionary_form);
    lemma_fields_read_back(r, 0, 10, all, rest);
    assert(first_fields(r, 10) == r);
    lemma_fields_read_back(r, 0, 9, main, rest);
    assert(first_fields(r, 9) == (InfoModel { synonym_group_ids: Seq::empty(), ..r }));
}

/// The surface of a record that was written is read back alone, whatever follows the record, with
/// the synonym groups or without them.
#[verifier::rlimit(30)]
pub proof fn law_surface_reads_back(r: InfoModel, rest: Seq<u8>)
    requires
        can_be_written(r),
    ensures
        record(record_bytes(r) + rest, InfoSubset::just_surface()) matches Some(Ok((n, read))) && n
            <= record_bytes(r).len() && read == (InfoModel {
            surface: r.surface,
            ..InfoModel::blank()
        }),
        record(main_bytes(r) + rest, InfoSubset::just_surface()) matches Some(Ok((n, read))) && n
            <= main_bytes(r).len() && read == (InfoModel {
            surface: r.surface,
            ..InfoModel::blank()
        }),
{
    let text = u16str::string_bytes(r.surface);
    let inner = inner_bytes(r);
    let more = super::array_bytes(r.synonym_group_ids);
    assert(main_bytes(r) == text + inner) by {
        reveal(main_bytes);
    }
    assert(record_bytes(r) == text + inner + more) by {
        reveal(main_bytes);
        reveal(record_bytes);
    }
    lemma_surface_alone(r, inner + rest);
    lemma_surface_alone(r, inner + (more + rest));
    lemma_regroup(text, inner, rest);
    lemma_regroup(text + inner, more, rest);
    lemma_regroup(text, inner, more + rest);
}

/// Concatenation is associative.
proof fn lemma_regroup(x: Seq<u8>, y: Seq<u8>, z: Seq<u8>)
    ensures
        x + y + z == x + (y + z),
        x.len() <= (x + y).len() <= (x + y + z).len(),
{
    assert(x + y + z =~= x + (y + z));
}

/// A surface that was written is read back alone.
proof fn lemma_surface_alone(r: InfoModel, rest: Seq<u8>)
    requires
        can_be_written(r),
    ensures
        record(u16str::string_bytes(r.surface) + rest, InfoSubset::just_surface()) == Some(
            Ok::<(nat, InfoModel), ReadError>(
                (
                    u16str::string_bytes(r.surface).len(),
                    (InfoModel { surface: r.surface, ..InfoModel::blank() }),
                ),
            ),
        ),
{
    lemma_fields_read_back(r, 0, 1, InfoSubset::just_surface(), rest);
    assert(bytes_between(r, 1, 1) =~= Seq::<u8>::empty());
    assert(bytes_between(r, 0, 1) =~= u16str::string_bytes(r.surface));
    assert(first_fields(r, 0) == InfoModel::blank());
    assert(first_fields(r, 1) == (InfoModel { surface: r.surface, ..InfoModel::blank() }));
}

/// The bytes of a record are those of its fields.
proof fn lemma_between(r: InfoModel)
    ensures
        bytes_between(r, 0, 9) == main_bytes(r),
        bytes_between(r, 0, 10) == record_bytes(r),
{
    reveal(inner_bytes);
    reveal(main_bytes);
    reveal(record_bytes);
    lemma_last_between(r, 0);
    assert(bytes_between(r, 9, 9) =~= Seq::<u8>::empty());
    assert(bytes_between(r, 8, 9) =~= field_bytes(r, 8));
    assert(bytes_between(r, 7, 9) == field_bytes(r, 7) + field_bytes(r, 8));
    assert(bytes_between(r, 6, 9) == field_bytes(r, 6) + bytes_between(r, 7, 9));
    assert(bytes_between(r, 5, 9) == field_bytes(r, 5) + bytes_between(r, 6, 9));
    assert(bytes_between(r, 4, 9) == field_bytes(r, 4) + bytes_between(r, 5, 9));
    assert(bytes_between(r, 3, 9) == field_bytes(r, 3) + bytes_between(r, 4, 9));
    assert(bytes_between(r, 2, 9) == field_bytes(r, 2) + bytes_between(r, 3, 9));
    assert(bytes_between(r, 1, 9) == field_bytes(r, 1) + bytes_between(r, 2, 9));
    assert(bytes_between(r, 0, 9) == field_bytes(r, 0) + bytes_between(r, 1, 9));
}

/// The last field stands behind the others.
proof fn lemma_last_between(r: InfoModel, k: int)
    requires
        0 <= k <= 9,
    ensures
        bytes_between(r, k, 10) == bytes_between(r, k, 9) + field_bytes(r, 9),
    decreases 9 - k,
{
    if k < 9 {
        lemma_last_between(r, k + 1);
    } else {
        assert(bytes_between(r, 10, 10) =~= Seq::<u8>::empty());
    }
    assert(bytes_between(r, k, 10) =~= bytes_between(r, k, 9) + field_bytes(r, 9));
}

/// A record with those of the fields of `full` from `k` on that are asked for.
spec fn chosen_from(k: int, subset: InfoSubset, before: InfoModel, full: InfoModel) -> InfoModel {
    InfoModel {
        surface: if k <= 0 && subset.surface { full.surface } else { before.surface },
        head_word_length: if k <= 1 && subset.head_word_length {
            full.head_word_length
        } else {
            before.head_word_length
        },
        pos_id: if k <= 2 && subset.pos_id { full.pos_id } else { before.pos_id },
        normalized_form: if k <= 3 && subset.normalized_form {
            full.normalized_form
        } else {
            before.normalized_form
        },
        dictionary_form_word_id: if k <= 4 && subset.dic_form_word_id {
            full.dictionary_form_word_id
        } else {
            before.dictionary_form_word_id
        },
        dictionary_form: before.dictionary_form,
        reading_form: if k <= 5 && subset.reading_form {
            full.reading_form
        } else {
            before.reading_form
        },
        a_unit_split: if k <= 6 && subset.split_a { full.a_unit_split } else { before.a_unit_split },
        b_unit_split: if k <= 7 && subset.split_b { full.b_unit_split } else { before.b_unit_split },
        word_structure: if k <= 8 && subset.word_structure {
            full.word_structure
        } else {
            before.word_structure
        },
        synonym_group_ids: if k <= 9 && subset.synonym_group_id {
            full.synonym_group_ids
        } else {
            before.synonym_group_ids
        },
    }
}

/// Reading on leaves the fields before as they are.
proof fn lemma_fields_kept(k: int, s: Seq<u8>, subset: InfoSubset, info: InfoModel)
    requires
        0 <= k,
        fields_from(k, s, subset, info) matches Some(Ok((n, full))),
    ensures
        chosen_from(
            k,
            InfoSubset::uniform(true),
            info,
            fields_from(k, s, subset, info).unwrap().unwrap().1,
        ) == fields_from(k, s, subset, info).unwrap().unwrap().1,
    decreases FIELD_COUNT - k,
{
    if k < FIELD_COUNT && subset.has_from(k) {
        let (n, next) = one_field(k, s, subset.has(k), info).unwrap().unwrap();
        lemma_fields_kept(k + 1, s.skip(n as int), subset, next);
    }
}

/// Fields that are asked for have the same values whatever else is asked for.
#[verifier::rlimit(30)]
proof fn lemma_fields_chosen(
    k: int,
    s: Seq<u8>,
    subset: InfoSubset,
    info: InfoModel,
    other: InfoModel,
)
    requires
        0 <= k <= FIELD_COUNT,
        fields_from(k, s, InfoSubset::uniform(true), info) matches Some(Ok((n, full))),
    ensures
        fields_from(k, s, subset, other) matches Some(Ok((m, part))) && m <= fields_from(
            k,
            s,
            InfoSubset::uniform(true),
            info,
        ).unwrap().unwrap().0 && part == chosen_from(
            k,
            subset,
            other,
            fields_from(k, s, InfoSubset::uniform(true), info).unwrap().unwrap().1,
        ),
    decreases FIELD_COUNT - k,
{
    let all = InfoSubset::uniform(true);
    if k < FIELD_COUNT {
        assert(all.has(k) && all.has_from(k));
        let (n, next) = one_field(k, s, true, info).unwrap().unwrap();
        u16str::law_skip_matches_read(s);
        super::law_skip_matches_read(s);
        if subset.has_from(k) {
            let (m, kept) = one_field(k, s, subset.has(k), other).unwrap().unwrap();
            assert(m == n);
            lemma_fields_chosen(k + 1, s.skip(n as int), subset, next, kept);
            lemma_fields_kept(k + 1, s.skip(n as int), all, next);
        } else {
            lemma_none_chosen(k, subset);
        }
    }
}

/// Where no field from `k` on is asked for, none of them is.
proof fn lemma_none_chosen(k: int, subset: InfoSubset)
    requires
        0 <= k,
        !subset.has_from(k),
    ensures
        forall|j: int| k <= j < FIELD_COUNT ==> !#[trigger] subset.has(j),
        k <= 0 ==> !subset.surface,
        k <= 1 ==> !subset.head_word_length,
        k <= 2 ==> !subset.pos_id,
        k <= 3 ==> !subset.normalized_form,
        k <= 4 ==> !subset.dic_form_word_id,
        k <= 5 ==> !subset.reading_form,
        k <= 6 ==> !subset.split_a,
        k <= 7 ==> !subset.split_b,
        k <= 8 ==> !subset.word_structure,
        k <= 9 ==> !subset.synonym_group_id,
    decreases FIELD_COUNT - k,
{
    if k < FIELD_COUNT {
        lemma_none_chosen(k + 1, subset);
    }
}

/// Asking for some fields of a record that can be read gives the values that asking for all of
/// them gives, and leaves the others blank.
pub proof fn law_subset_gives_the_same_fields(s: Seq<u8>, subset: InfoSubset, full: InfoModel, n: nat)
    requires
        record(s, InfoSubset::uniform(true)) == Some(Ok::<(nat, InfoModel), ReadError>((n, full))),
    ensures
        record(s, subset) matches Some(Ok((m, part))) && m <= n && {
            &&& part.surface == if subset.surface { full.surface } else { Seq::empty() }
            &&& part.head_word_length == if subset.head_word_length { full.head_word_length } else { 0 }
            &&& part.pos_id == if subset.pos_id { full.pos_id } else { 0 }
            &&& part.normalized_form == if subset.normalized_form {
                full.normalized_form
            } else {
                Seq::empty()
            }
            &&& part.dictionary_form_word_id == if subset.dic_form_word_id {
                full.dictionary_form_word_id
            } else {
                0
            }
            &&& part.dictionary_form.len() == 0
            &&& part.reading_form == if subset.reading_form {
                full.reading_form
            } else {
                Seq::empty()
            }
            &&& part.a_unit_split == if subset.split_a { full.a_unit_split } else { Seq::empty() }
            &&& part.b_unit_split == if subset.split_b { full.b_unit_split } else { Seq::empty() }
            &&& part.word_structure == if subset.word_structure {
                full.word_structure
            } else {
                Seq::empty()
            }
            &&& part.synonym_group_ids == if subset.synonym_group_id {
                full.synonym_group_ids
            } else {
                Seq::empty()
            }
        },
{
    lemma_fields_chosen(0, s, subset, InfoModel::blank(), InfoModel::blank());
}

/// Reads field `k` into `info`, or passes over it. Returns the bytes that are left, or nothing
/// where an array is to be passed over and is cut off.
fn parse_field<'a>(k: usize, input: &'a [u8], wanted: bool, info: &mut WordInfoData) -> (res:
    Option<Result<&'a [u8], ReadError>>)
    requires
        k < FIELD_COUNT,
    ensures
        match one_field(k as int, input@, wanted, old(info).model()) {
            Some(Ok((n, next))) => res matches Some(Ok(rest)) && rest@ == input@.skip(n as int)
                && final(info).model() == next && n <= input.len(),
            Some(Err(e)) => res matches Some(Err(got)) && got == e,
            None => res is None,
        },
{
    proof {
        lemma_field_len(k as int, input@, wanted, info.model());
    }
    if k == 0 || k == 3 || k == 5 {
        let read = if wanted {
            u16str::utf16_string_parser(input)
        } else {
            u16str::skip_u16_string(input)
        };
        match read {
            Ok((rest, text)) => {
                if wanted {
                    if k == 0 {
                        info.surface = text;
                    } else if k == 3 {
                        info.normalized_form = text;
                    } else {
                        info.reading_form = text;
                    }
                }
                Some(Ok(rest))
            },
            Err(e) => Some(Err(e)),
        }
    } else if k == 1 {
        match u16str::string_length_parser(input) {
            Ok((rest, length)) => {
                if wanted {
                    info.head_word_length = length;
                }
                Some(Ok(rest))
            },
            Err(e) => Some(Err(e)),
        }
    } else if k == 2 {
        if input.len() < 2 {
            return Some(Err(ReadError::Eof));
        }
        if wanted {
            info.pos_id = bytes::read_u16(input, 0);
        }
        Some(Ok(slice_subrange(input, 2, input.len())))
    } else if k == 4 {
        if input.len() < 4 {
            return Some(Err(ReadError::Eof));
        }
        if wanted {
            info.dictionary_form_word_id = bytes::read_i32(input, 0);
        }
        Some(Ok(slice_subrange(input, 4, input.len())))
    } else {
        if !wanted && input.len() > 0 && input.len() - 1 < 4 * input[0] as usize {
            return None;
        }
        if k == 9 {
            let read = if wanted {
                super::u32_array_parser(input)
            } else {
                super::skip_u32_array(input)
            };
            match read {
                Ok((rest, numbers)) => {
                    if wanted {
                        info.synonym_group_ids = numbers;
                    }
                    Some(Ok(rest))
                },
                Err(e) => Some(Err(e)),
            }
        } else {
            let read = if wanted {
                super::u32_wid_array_parser(input)
            } else {
                super::skip_wid_array(input)
            };
            match read {
                Ok((rest, ids)) => {
                    if wanted {
                        if k == 6 {
                            info.a_unit_split = ids;
                        } else if k == 7 {
                            info.b_unit_split = ids;
                        } else {
                            info.word_structure = ids;
                        }
                    }
                    Some(Ok(rest))
                },
                Err(e) => Some(Err(e)),
            }
        }
    }
}

/// Reads the fields of a record that are asked for.
pub struct WordInfoParser {
    pub fields: InfoSubset,
}

impl WordInfoParser {
    /// A reader of the given fields.
    pub fn subset(fields: InfoSubset) -> (parser: WordInfoParser)
        ensures
            parser.fields == fields,
    {
        WordInfoParser { fields }
    }

    /// Reads the record that `data` begins with. Returns nothing where an array that is not
    /// asked for is cut off.
    pub fn checked_parse(self, data: &[u8]) -> (res: Option<SudachiResult<WordInfoData>>)
        ensures
            match record(data@, self.fields) {
                Some(Ok((n, info))) => res matches Some(Ok(read)) && read.model() == info,
                Some(Err(e)) => res matches Some(Err(got)) && got == SudachiError::ParseError(e),
                None => res is None,
            },
    {
        let mut info: WordInfoData = WordInfoData::default();
        let mut rest = data;
        let ghost mut used: nat = 0;
        let mut k: usize = 0;
        while k < FIELD_COUNT && self.fields.contains_from(k)
            invariant
                k <= FIELD_COUNT,
                record(data@, self.fields) == further(
                    used,
                    fields_from(k as int, rest@, self.fields, info.model()),
                ),
            decreases FIELD_COUNT - k,
        {
            let wanted: bool = self.fields.contains(k);
            let ghost before = rest@;
            let ghost info_before = info.model();
            match parse_field(k, rest, wanted, &mut info) {
                Some(Ok(next)) => {
                    rest = next;
                },
                Some(Err(e)) => {
                    return Some(Err(SudachiError::ParseError(e)));
                },
                None => {
                    return None;
                },
            }
            proof {
                let n = one_field(k as int, before, wanted, info_before).unwrap().unwrap().0;
                used = used + n;
            }
            k = k + 1;
        }
        Some(Ok(info))
    }

    /// Reads the record that `data` begins with.
    pub fn parse(self, data: &[u8]) -> (res: SudachiResult<WordInfoData>)
        requires
            record(data@, self.fields) is Some,
        ensures
            match record(data@, self.fields).unwrap() {
                Ok((n, info)) => res matches Ok(read) && read.model() == info,
                Err(e) => res matches Err(got) && got == SudachiError::ParseError(e),
            },
    {
        match self.checked_parse(data) {
            Some(res) => res,
            None => Err(SudachiError::ParseError(ReadError::Eof)),
        }
    }
}

} // verus!
