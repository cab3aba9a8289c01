//! Categories of characters by ranges of code points.
//!
//! A definition has one range to a line, as in
//!
//! ```text
//! 0x0030..0x0039 NUMERIC      # digits
//! 0x3007 SYMBOL KANJINUMERIC
//! ```
//!
//! Lines that do not begin with `0x` are passed over.

use vstd::prelude::*;
use vstd::slice::{slice_subrange, slice_to_vec};

use crate::dic::category_type;
use crate::dic::category_type::CategoryType;
use crate::error;
use crate::error::{SudachiError, SudachiResult};

verus! {

/// A range of code points and the categories of its characters.
#[derive(Debug, Clone, Copy, PartialEq, Eq, Structural)]
pub struct CategoryRange {
    /// First code point
    pub begin: u32,
    /// Code point behind the last one
    pub end: u32,
    pub categories: CategoryType,
}

/// The categories that the first `n` ranges give to a code point.
pub open spec fn ranged_categories(ranges: Seq<CategoryRange>, code: u32, n: nat) -> CategoryType
    decreases n,
{
    if n == 0 {
        CategoryType { bits: 0 }
    } else {
        let before = ranged_categories(ranges, code, (n - 1) as nat);
        if ranges[n - 1].begin <= code < ranges[n - 1].end {
            before.joined(ranges[n - 1].categories)
        } else {
            before
        }
    }
}

/// The categories of a code point: those of all ranges that it lies in.
pub open spec fn categories_of(ranges: Seq<CategoryRange>, code: u32) -> CategoryType {
    let found = ranged_categories(ranges, code, ranges.len());
    if found.bits == 0 {
        CategoryType { bits: category_type::DEFAULT }
    } else {
        found
    }
}

/// The first ranges give a category to a code point where one of them that it lies in has it.
proof fn lemma_ranged_bit(ranges: Seq<CategoryRange>, code: u32, n: nat, k: u32)
    requires
        n <= ranges.len(),
        k < 32,
    ensures
        (ranged_categories(ranges, code, n).bits >> k) & 1 == 1 <==> exists|i: int|
            0 <= i < n && (#[trigger] ranges[i]).begin <= code < ranges[i].end && (
            ranges[i].categories.bits >> k) & 1 == 1,
    decreases n,
{
    if n == 0 {
        assert((0u32 >> k) & 1 == 0) by (bit_vector);
    } else {
        lemma_ranged_bit(ranges, code, (n - 1) as nat, k);
        let a = ranged_categories(ranges, code, (n - 1) as nat).bits;
        let b = ranges[n - 1].categories.bits;
        assert(((a | b) >> k) & 1 == 1 <==> (a >> k) & 1 == 1 || (b >> k) & 1 == 1) by (bit_vector);
    }
}

/// A code point has a category where a range that it lies in has it, the first and the last code
/// point of the range included. It has the default one alone where no such range has any.
pub proof fn law_categories_are_those_of_the_ranges(
    ranges: Seq<CategoryRange>,
    code: u32,
    k: u32,
)
    requires
        k < 32,
    ensures
        ({
            let bits = categories_of(ranges, code).bits;
            if exists|i: int|
                0 <= i < ranges.len() && (#[trigger] ranges[i]).begin <= code < ranges[i].end
                    && ranges[i].categories.bits != 0 {
                (bits >> k) & 1 == 1 <==> exists|i: int|
                    0 <= i < ranges.len() && (#[trigger] ranges[i]).begin <= code < ranges[i].end
                        && (ranges[i].categories.bits >> k) & 1 == 1
            } else {
                bits == 1
            }
        }),
{
    let n = ranges.len();
    let found = ranged_categories(ranges, code, n).bits;
    lemma_ranged_bit(ranges, code, n, k);
    lemma_some_range(ranges, code, n);
}

/// The first ranges give some category to a code point where one of them that it lies in has one.
proof fn lemma_some_range(ranges: Seq<CategoryRange>, code: u32, n: nat)
    requires
        n <= ranges.len(),
    ensures
        ranged_categories(ranges, code, n).bits != 0 <==> exists|i: int|
            0 <= i < n && (#[trigger] ranges[i]).begin <= code < ranges[i].end
                && ranges[i].categories.bits != 0,
    decreases n,
{
    if n > 0 {
        lemma_some_range(ranges, code, (n - 1) as nat);
        let a = ranged_categories(ranges, code, (n - 1) as nat).bits;
        let b = ranges[n - 1].categories.bits;
        assert((a | b) != 0 <==> a != 0 || b != 0) by (bit_vector);
    }
}

/// Whether a byte separates fields.
pub open spec fn is_space(b: u8) -> bool {
    b == 0x20 || 0x09 <= b <= 0x0d
}

/// The bytes behind leading spaces.
pub open spec fn trimmed(s: Seq<u8>) -> Seq<u8>
    decreases s.len(),
{
    if s.len() > 0 && is_space(s[0]) {
        trimmed(s.drop_first())
    } else {
        s
    }
}

/// Number of bytes before the first space.
pub open spec fn field_len(s: Seq<u8>) -> nat
    decreases s.len(),
{
    if s.len() == 0 || is_space(s[0]) {
        0
    } else {
        1 + field_len(s.drop_first())
    }
}

/// The fields of a line, which spaces separate.
pub open spec fn fields_of(s: Seq<u8>) -> Seq<Seq<u8>>
    decreases s.len(),
    via fields_of_decreases
{
    let t = trimmed(s);
    if t.len() == 0 {
        Seq::empty()
    } else {
        let n = field_len(t);
        seq![t.take(n as int)] + fields_of(t.skip(n as int))
    }
}

#[via_fn]
proof fn fields_of_decreases(s: Seq<u8>) {
    lemma_trimmed(s);
    lemma_field_len(trimmed(s));
}

/// Trimming leaves the end of the line.
proof fn lemma_trimmed(s: Seq<u8>)
    ensures
        trimmed(s).len() <= s.len(),
        trimmed(s) == s.skip(s.len() - trimmed(s).len()),
        trimmed(s).len() > 0 ==> !is_space(trimmed(s)[0]),
    decreases s.len(),
{
    if s.len() > 0 && is_space(s[0]) {
        lemma_trimmed(s.drop_first());
        let n = trimmed(s).len();
        assert(s.drop_first().skip(s.len() - 1 - n) =~= s.skip(s.len() - n));
    } else {
        assert(s.skip(0) =~= s);
    }
}

/// A field lies within the line.
proof fn lemma_field_len(s: Seq<u8>)
    ensures
        field_len(s) <= s.len(),
        s.len() > 0 && !is_space(s[0]) ==> field_len(s) > 0,
    decreases s.len(),
{
    if s.len() > 0 && !is_space(s[0]) {
        lemma_field_len(s.drop_first());
    }
}

/// The value of a hexadecimal digit.
pub open spec fn hex_digit(b: u8) -> Option<nat> {
    if 0x30 <= b <= 0x39 {
        Some((b - 0x30) as nat)
    } else if 0x41 <= b <= 0x46 {
        Some((b - 0x41 + 10) as nat)
    } else if 0x61 <= b <= 0x66 {
        Some((b - 0x61 + 10) as nat)
    } else {
        None
    }
}

/// The number that hexadecimal digits stand for, the number 0 for none.
pub open spec fn hex_digits(s: Seq<u8>) -> Option<nat>
    decreases s.len(),
{
    if s.len() == 0 {
        Some(0)
    } else {
        match (hex_digits(s.drop_last()), hex_digit(s.last())) {
            (Some(high), Some(low)) => Some(0x10 * high + low),
            _ => None,
        }
    }
}

/// Whether a field begins with `0x`.
pub open spec fn has_hex_prefix(s: Seq<u8>) -> bool {
    s.len() >= 2 && s[0] == 0x30 && s[1] == 0x78
}

/// The code point that is written with hexadecimal digits behind `0x`.
pub open spec fn code_point(s: Seq<u8>) -> Option<u32> {
    let digits = if has_hex_prefix(s) {
        s.skip(2)
    } else {
        s
    };
    match hex_digits(digits) {
        Some(n) => if digits.len() > 0 && n < u32::MAX {
            Some(n as u32)
        } else {
            None
        },
        None => None,
    }
}

/// The place of the first two dots, counted from `i` on; the length where there are none.
pub open spec fn dots_from(s: Seq<u8>, i: int) -> int
    decreases s.len() - i,
{
    if i + 1 >= s.len() {
        s.len() as int
    } else if s[i] == 0x2e && s[i + 1] == 0x2e {
        i
    } else {
        dots_from(s, i + 1)
    }
}

/// The first code point of a range and the one behind its last, as `begin..last` or as one code
/// point.
pub open spec fn code_range(s: Seq<u8>) -> Option<(u32, u32)> {
    let dots = dots_from(s, 0);
    let bounds = if dots < s.len() {
        (code_point(s.take(dots)), code_point(s.skip(dots + 2)))
    } else {
        (code_point(s), code_point(s))
    };
    match bounds {
        (Some(begin), Some(last)) => if begin <= last {
            Some((begin, (last + 1) as u32))
        } else {
            None
        },
        _ => None,
    }
}

/// The bytes of a field as characters.
pub open spec fn as_chars(s: Seq<u8>) -> Seq<char> {
    s.map_values(|b: u8| b as char)
}

/// The categories that the first `n` fields name, up to a comment.
pub open spec fn named_categories(fields: Seq<Seq<u8>>, n: nat) -> Option<CategoryType>
    decreases n,
{
    if n == 0 {
        Some(CategoryType { bits: 0 })
    } else {
        match named_categories(fields, (n - 1) as nat) {
            None => None,
            Some(before) => match category_type::named_from(as_chars(fields[n - 1]), 0) {
                Some(bits) => Some(before.joined(CategoryType { bits })),
                None => None,
            },
        }
    }
}

/// Number of fields before a comment.
pub open spec fn comment_from(fields: Seq<Seq<u8>>, i: int) -> int
    decreases fields.len() - i,
{
    if i >= fields.len() || (fields[i].len() > 0 && fields[i][0] == 0x23) {
        i
    } else {
        comment_from(fields, i + 1)
    }
}

/// What a line comes to: a range, nothing, or an error.
pub open spec fn line_range(line: Seq<u8>) -> Result<Option<CategoryRange>, ()> {
    let fields = fields_of(line);
    if fields.len() == 0 || !has_hex_prefix(fields[0]) {
        Ok(None)
    } else if fields.len() < 2 {
        Err(())
    } else {
        let names = fields.subrange(1, comment_from(fields, 1));
        match (code_range(fields[0]), named_categories(names, names.len())) {
            (Some((begin, end)), Some(categories)) => Ok(
                Some(CategoryRange { begin, end, categories }),
            ),
            _ => Err(()),
        }
    }
}

/// The place of the first line end from `p` on.
pub open spec fn line_end(data: Seq<u8>, p: int) -> int
    decreases data.len() - p,
{
    if p >= data.len() || data[p] == 0x0a {
        p
    } else {
        line_end(data, p + 1)
    }
}

/// A line ends within the text.
proof fn lemma_line_end(data: Seq<u8>, p: int)
    requires
        0 <= p <= data.len(),
    ensures
        p <= line_end(data, p) <= data.len(),
    decreases data.len() - p,
{
    if p < data.len() && data[p] != 0x0a {
        lemma_line_end(data, p + 1);
    }
}

/// The ranges that the lines from `p` on define, behind those of the lines before; or the number
/// of the line that is in error.
pub open spec fn definition_from(
    data: Seq<u8>,
    p: int,
    line: nat,
    before: Seq<CategoryRange>,
) -> Result<Seq<CategoryRange>, nat>
    decreases data.len() - p + 1,
    via definition_from_decreases
{
    if p < 0 || p >= data.len() {
        Ok(before)
    } else {
        let end = line_end(data, p);
        match line_range(data.subrange(p, end)) {
            Err(_) => Err(line),
            Ok(None) => definition_from(data, end + 1, line + 1, before),
            Ok(Some(range)) => definition_from(data, end + 1, line + 1, before.push(range)),
        }
    }
}

#[via_fn]
proof fn definition_from_decreases(
    data: Seq<u8>,
    p: int,
    line: nat,
    before: Seq<CategoryRange>,
) {
    if 0 <= p < data.len() {
        lemma_line_end(data, p);
    }
}

/// A hexadecimal digit.
pub open spec fn hex_byte(d: nat) -> u8 {
    if d < 10 {
        (0x30 + d) as u8
    } else {
        (0x61 + d - 10) as u8
    }
}

/// The hexadecimal digits of a number.
pub open spec fn hex_text(n: nat) -> Seq<u8>
    decreases n,
{
    if n < 0x10 {
        seq![hex_byte(n)]
    } else {
        hex_text(n / 0x10).push(hex_byte(n % 0x10))
    }
}

/// A code point as text: its hexadecimal digits behind `0x`.
pub open spec fn point_text(n: u32) -> Seq<u8> {
    seq![0x30u8, 0x78u8] + hex_text(n as nat)
}

/// A range of code points as text, two dots between its first and its last one.
pub open spec fn range_text(begin: u32, last: u32) -> Seq<u8> {
    point_text(begin) + seq![0x2eu8, 0x2eu8] + point_text(last)
}

/// Bytes without spaces and dots.
spec fn is_plain(s: Seq<u8>) -> bool {
    forall|i: int| 0 <= i < s.len() ==> #[trigger] s[i] != 0x2e && !is_space(s[i])
}

/// The hexadecimal digits of a number make up the number.
proof fn lemma_hex_text(n: nat)
    ensures
        hex_text(n).len() > 0,
        hex_digits(hex_text(n)) == Some(n),
        is_plain(hex_text(n)),
    decreases n,
{
    let text = hex_text(n);
    if n < 0x10 {
        assert(text.drop_last() =~= Seq::<u8>::empty());
        assert(hex_digits(text.drop_last()) == Some(0nat));
        assert(text.last() == hex_byte(n));
    } else {
        lemma_hex_text(n / 0x10);
        let before = hex_text(n / 0x10);
        assert(text.drop_last() =~= before);
        assert(text.last() == hex_byte(n % 0x10));
        assert forall|i: int| 0 <= i < text.len() implies #[trigger] text[i] != 0x2e && !is_space(
            text[i],
        ) by {
            if i < before.len() {
                assert(text[i] == before[i]);
            }
        }
    }
}

/// A code point is read out of its text.
proof fn lemma_point_text(n: u32)
    requires
        n < u32::MAX,
    ensures
        code_point(point_text(n)) == Some(n),
        is_plain(point_text(n)),
        has_hex_prefix(point_text(n)),
        point_text(n).len() > 2,
{
    let s = point_text(n);
    let digits = hex_text(n as nat);
    lemma_hex_text(n as nat);
    assert(s.skip(2) =~= digits);
    assert forall|i: int| 0 <= i < s.len() implies #[trigger] s[i] != 0x2e && !is_space(s[i]) by {
        if i >= 2 {
            assert(s[i] == digits[i - 2]);
        }
    }
}

/// There are no dots in a text without them, and otherwise the first ones are where they stand.
proof fn lemma_dots(s: Seq<u8>, i: int, e: int)
    requires
        0 <= i <= e <= s.len(),
        forall|k: int| i <= k < e ==> #[trigger] s[k] != 0x2e,
        e == s.len() || (e + 1 < s.len() && s[e] == 0x2e && s[e + 1] == 0x2e),
    ensures
        dots_from(s, i) == e,
    decreases e - i,
{
    if i < e {
        assert(s[i] != 0x2e);
        if i + 1 < s.len() {
            lemma_dots(s, i + 1, e);
        } else {
            assert(e == s.len());
        }
    }
}

/// A range reaches from the first code point of its text up to the last one, and one code point is
/// a range of its own.
pub proof fn law_range_is_read_out_of_its_text(begin: u32, last: u32)
    requires
        begin < u32::MAX,
        last < u32::MAX,
    ensures
        begin <= last ==> code_range(range_text(begin, last)) == Some((begin, (last + 1) as u32)),
        begin > last ==> code_range(range_text(begin, last)) is None,
        code_range(point_text(begin)) == Some((begin, (begin + 1) as u32)),
{
    let a = point_text(begin);
    let b = point_text(last);
    let s = range_text(begin, last);
    let n = a.len() as int;
    lemma_point_text(begin);
    lemma_point_text(last);
    assert forall|k: int| 0 <= k < n implies #[trigger] s[k] != 0x2e by {
        assert(s[k] == a[k]);
    }
    lemma_dots(s, 0, n);
    assert(s.take(n) =~= a);
    assert(s.skip(n + 2) =~= b);
    lemma_dots(a, 0, n);
}

/// A field ends before the space behind it.
proof fn lemma_field_before_space(a: Seq<u8>, rest: Seq<u8>)
    requires
        forall|i: int| 0 <= i < a.len() ==> !is_space(#[trigger] a[i]),
        rest.len() == 0 || is_space(rest[0]),
    ensures
        field_len(a + rest) == a.len(),
    decreases a.len(),
{
    let s = a + rest;
    if a.len() == 0 {
        assert(s =~= rest);
    } else {
        let b = a.drop_first();
        assert(s[0] == a[0]);
        assert(s.drop_first() =~= b + rest);
        assert forall|i: int| 0 <= i < b.len() implies !is_space(#[trigger] b[i]) by {
            assert(b[i] == a[i + 1]);
        }
        lemma_field_before_space(b, rest);
    }
}

/// The fields of a line are what stands between its spaces: a field, and what a space leaves
/// behind it. Spaces before a field do not count.
pub proof fn law_spaces_separate_fields(a: Seq<u8>, space: u8, rest: Seq<u8>)
    requires
        a.len() > 0,
        forall|i: int| 0 <= i < a.len() ==> !is_space(#[trigger] a[i]),
        is_space(space),
    ensures
        fields_of(a) == seq![a],
        fields_of(seq![space] + rest) == fields_of(rest),
        fields_of(a + (seq![space] + rest)) == seq![a] + fields_of(rest),
{
    let behind = seq![space] + rest;
    let s = a + behind;
    assert(behind.drop_first() =~= rest);
    assert(trimmed(behind) == trimmed(rest));
    assert(a[0] == s[0]);
    lemma_field_before_space(a, behind);
    assert(s.take(a.len() as int) =~= a);
    assert(s.skip(a.len() as int) =~= behind);
    lemma_field_before_space(a, Seq::empty());
    assert(a + Seq::<u8>::empty() =~= a);
    assert(a.take(a.len() as int) =~= a);
    assert(a.skip(a.len() as int) =~= Seq::<u8>::empty());
    assert(trimmed(Seq::<u8>::empty()).len() == 0);
    assert(fields_of(Seq::<u8>::empty()) =~= Seq::<Seq<u8>>::empty());
    assert(fields_of(a) =~= seq![a]);
}

/// A line of a range, a space and the name of a category gives the range with that category, from
/// its first code point up to its last one; a comment behind it does not count.
#[verifier::rlimit(30)]
pub proof fn law_line_gives_its_range(
    begin: u32,
    last: u32,
    name: Seq<u8>,
    bits: u32,
    comment: Seq<u8>,
)
    requires
        begin <= last < u32::MAX,
        name.len() > 0,
        forall|i: int| 0 <= i < name.len() ==> !is_space(#[trigger] name[i]),
        name[0] != 0x23,
        category_type::named_from(as_chars(name), 0) == Some(bits),
        comment.len() > 0,
        comment[0] == 0x23,
    ensures
        ({
            let range = CategoryRange {
                begin,
                end: (last + 1) as u32,
                categories: CategoryType { bits },
            };
            let line = range_text(begin, last) + (seq![0x20u8] + name);
            let commented = range_text(begin, last) + (seq![0x20u8] + (name + (seq![0x20u8]
                + comment)));
            &&& line_range(line) == Ok::<Option<CategoryRange>, ()>(Some(range))
            &&& line_range(commented) == Ok::<Option<CategoryRange>, ()>(Some(range))
        }),
{
    let text = range_text(begin, last);
    let line = text + (seq![0x20u8] + name);
    let commented = text + (seq![0x20u8] + (name + (seq![0x20u8] + comment)));
    lemma_point_text(begin);
    lemma_point_text(last);
    law_range_is_read_out_of_its_text(begin, last);
    assert forall|i: int| 0 <= i < text.len() implies !is_space(#[trigger] text[i]) by {
        let a = point_text(begin);
        let b = point_text(last);
        if i < a.len() {
            assert(text[i] == a[i]);
        } else if i >= a.len() + 2 {
            assert(text[i] == b[i - a.len() - 2]);
        }
    }
    assert(text[0] == point_text(begin)[0] && text[1] == point_text(begin)[1]);
    law_spaces_separate_fields(text, 0x20, name);
    law_spaces_separate_fields(name, 0x20, comment);
    law_spaces_separate_fields(text, 0x20, name + (seq![0x20u8] + comment));
    let one = fields_of(line);
    let two = fields_of(commented);
    let more = fields_of(comment);
    assert(one =~= seq![text, name]);
    assert(two =~= seq![text, name] + more);
    assert(more.len() > 0 && more[0].len() > 0 && more[0][0] == 0x23) by {
        let n = field_len(comment);
        lemma_field_len(comment);
        assert(trimmed(comment) == comment);
        assert(more[0] == comment.take(n as int));
    }
    assert(comment_from(one, 2) == 2);
    assert(comment_from(one, 1) == 2);
    assert(two[1] == name && two[2] == more[0]);
    assert(comment_from(two, 2) == 2);
    assert(comment_from(two, 1) == 2);
    assert(one.subrange(1, 2) =~= seq![name]);
    assert(two.subrange(1, 2) =~= seq![name]);
    assert(named_categories(seq![name], 0) == Some(CategoryType { bits: 0 }));
    assert(0u32 | bits == bits) by (bit_vector);
    assert(named_categories(seq![name], 1) == Some(CategoryType { bits }));
}

/// A line ends where it does behind others.
proof fn lemma_line_end_behind(a: Seq<u8>, b: Seq<u8>, p: int)
    requires
        0 <= p <= b.len(),
    ensures
        line_end(a + b, a.len() + p) == a.len() + line_end(b, p),
    decreases b.len() - p,
{
    if p < b.len() {
        assert((a + b)[a.len() + p] == b[p]);
        if b[p] != 0x0a {
            lemma_line_end_behind(a, b, p + 1);
        }
    }
}

/// What the lines behind others define is what they define alone.
proof fn lemma_definition_behind(
    a: Seq<u8>,
    b: Seq<u8>,
    p: int,
    line: nat,
    before: Seq<CategoryRange>,
)
    requires
        0 <= p,
    ensures
        definition_from(a + b, a.len() + p, line, before) == definition_from(b, p, line, before),
    decreases b.len() - p + 1,
{
    if p < b.len() {
        let text = a + b;
        let end = line_end(b, p);
        lemma_line_end(b, p);
        lemma_line_end_behind(a, b, p);
        assert(text.subrange(a.len() + p, a.len() + end) =~= b.subrange(p, end));
        match line_range(b.subrange(p, end)) {
            Err(_) => {},
            Ok(None) => {
                lemma_definition_behind(a, b, end + 1, line + 1, before);
            },
            Ok(Some(range)) => {
                lemma_definition_behind(a, b, end + 1, line + 1, before.push(range));
            },
        }
    }
}

/// A line ends at the first line break.
proof fn lemma_line_end_at(s: Seq<u8>, p: int, e: int)
    requires
        0 <= p <= e < s.len(),
        s[e] == 0x0a,
        forall|i: int| p <= i < e ==> #[trigger] s[i] != 0x0a,
    ensures
        line_end(s, p) == e,
    decreases e - p,
{
    if p < e {
        assert(s[p] != 0x0a);
        lemma_line_end_at(s, p + 1, e);
    }
}

/// A definition is read line by line: the range of its first line, if it gives one, comes before
/// those of the other lines, and a wrong line is an error with its number, counted from zero.
pub proof fn law_lines_define_ranges_in_order(
    line: Seq<u8>,
    rest: Seq<u8>,
    number: nat,
    before: Seq<CategoryRange>,
)
    requires
        forall|i: int| 0 <= i < line.len() ==> #[trigger] line[i] != 0x0a,
    ensures
        definition_from(line + seq![0x0au8] + rest, 0, number, before) == match line_range(line) {
            Err(_) => Err(number),
            Ok(None) => definition_from(rest, 0, number + 1, before),
            Ok(Some(range)) => definition_from(rest, 0, number + 1, before.push(range)),
        },
{
    let first = line + seq![0x0au8];
    let text = first + rest;
    let e = line.len() as int;
    assert forall|i: int| 0 <= i < e implies #[trigger] text[i] != 0x0a by {
        assert(text[i] == line[i]);
    }
    assert(text[e] == 0x0a);
    lemma_line_end_at(text, 0, e);
    assert(text.subrange(0, e) =~= line);
    lemma_definition_behind(first, rest, 0, number + 1, before);
    if let Ok(Some(range)) = line_range(line) {
        lemma_definition_behind(first, rest, 0, number + 1, before.push(range));
    }
}

/// The fields of a line, which spaces separate.
fn split_fields(line: &[u8]) -> (fields: Vec<Vec<u8>>)
    ensures
        fields@.map_values(|f: Vec<u8>| f@) == fields_of(line@),
{
    let ghost view = |f: Vec<u8>| f@;
    let mut fields: Vec<Vec<u8>> = Vec::new();
    let mut p: usize = 0;
    assert(line@.skip(0) =~= line@);
    assert(fields@.map_values(view) + fields_of(line@.skip(0)) =~= fields_of(line@));
    while p < line.len()
        invariant
            p <= line.len(),
            view == (|f: Vec<u8>| f@),
            fields@.map_values(view) + fields_of(line@.skip(p as int)) == fields_of(line@),
        decreases line.len() - p,
    {
        let ghost rest = line@.skip(p as int);
        if line[p] == 0x20 || (line[p] >= 0x09 && line[p] <= 0x0d) {
            proof {
                assert(rest[0] == line@[p as int]);
                assert(rest.drop_first() =~= line@.skip(p + 1));
                assert(trimmed(rest) == trimmed(line@.skip(p + 1)));
                assert(fields_of(rest) == fields_of(line@.skip(p + 1)));
            }
            p = p + 1;
        } else {
            let mut q: usize = p;
            assert(rest.skip(0) =~= rest);
            while q < line.len() && !(line[q] == 0x20 || (line[q] >= 0x09 && line[q] <= 0x0d))
                invariant
                    p <= q <= line.len(),
                    rest == line@.skip(p as int),
                    field_len(rest) == (q - p) + field_len(rest.skip(q - p)),
                decreases line.len() - q,
            {
                proof {
                    let tail = rest.skip(q - p);
                    assert(tail[0] == line@[q as int]);
                    assert(tail.drop_first() =~= rest.skip(q - p + 1));
                }
                q = q + 1;
            }
            proof {
                let tail = rest.skip(q - p);
                if q < line.len() {
                    assert(tail[0] == line@[q as int]);
                }
                assert(rest[0] == line@[p as int]);
                assert(field_len(rest) == q - p);
                assert(trimmed(rest) == rest);
                lemma_field_len(rest);
            }
            let field: Vec<u8> = slice_to_vec(slice_subrange(line, p, q));
            let ghost before = fields@;
            fields.push(field);
            proof {
                assert(field@ =~= rest.take(q - p));
                assert(rest.skip(q - p) =~= line@.skip(q as int));
                assert(fields@.map_values(view) =~= before.map_values(view).push(field@));
                assert(before.map_values(view) + (seq![field@] + fields_of(line@.skip(q as int)))
                    =~= fields@.map_values(view) + fields_of(line@.skip(q as int)));
            }
            p = q;
        }
    }
    proof {
        assert(fields_of(line@.skip(p as int)) =~= Seq::empty());
        assert(fields@.map_values(view) + Seq::<Seq<u8>>::empty() =~= fields@.map_values(view));
    }
    fields
}

/// The code point that is written with hexadecimal digits behind `0x`.
fn parse_code_point(s: &[u8]) -> (code: Option<u32>)
    ensures
        code == code_point(s@),
{
    let digits = if s.len() >= 2 && s[0] == 0x30 && s[1] == 0x78 {
        slice_subrange(s, 2, s.len())
    } else {
        s
    };
    if digits.len() == 0 {
        return None;
    }
    let mut n: u64 = 0;
    let mut i: usize = 0;
    assert(digits@.take(0) =~= Seq::empty());
    while i < digits.len()
        invariant
            i <= digits.len(),
            n < u32::MAX,
            digits.len() > 0,
            digits@ == (if has_hex_prefix(s@) {
                s@.skip(2)
            } else {
                s@
            }),
            hex_digits(digits@.take(i as int)) == Some(n as nat),
        decreases digits.len() - i,
    {
        let b: u8 = digits[i];
        let low: u64 = if b >= 0x30 && b <= 0x39 {
            (b - 0x30) as u64
        } else if b >= 0x41 && b <= 0x46 {
            (b - 0x41 + 10) as u64
        } else if b >= 0x61 && b <= 0x66 {
            (b - 0x61 + 10) as u64
        } else {
            proof {
                lemma_hex_prefix(digits@, (i + 1) as int);
                assert(digits@.take(i + 1).last() == b);
            }
            return None;
        };
        proof {
            assert(digits@.take(i + 1).drop_last() =~= digits@.take(i as int));
            assert(digits@.take(i + 1).last() == b);
        }
        n = 0x10 * n + low;
        i = i + 1;
        if n >= u32::MAX as u64 {
            proof {
                lemma_hex_prefix(digits@, i as int);
            }
            return None;
        }
    }
    assert(digits@.take(i as int) =~= digits@);
    Some(n as u32)
}

/// More digits make no smaller number, and none where the first ones make none.
proof fn lemma_hex_prefix(s: Seq<u8>, i: int)
    requires
        0 <= i <= s.len(),
    ensures
        hex_digits(s) matches Some(n) ==> hex_digits(s.take(i)) matches Some(m) && m <= n,
    decreases s.len(),
{
    if i < s.len() {
        lemma_hex_prefix(s.drop_last(), i);
        assert(s.drop_last().take(i) =~= s.take(i));
    } else {
        assert(s.take(i) =~= s);
    }
}

/// The first code point of a range and the one behind its last.
fn parse_code_range(s: &[u8]) -> (range: Option<(u32, u32)>)
    ensures
        range == code_range(s@),
{
    let mut i: usize = 0;
    while i < s.len() && s.len() - i >= 2 && !(s[i] == 0x2e && s[i + 1] == 0x2e)
        invariant
            i <= s.len(),
            dots_from(s@, 0) == dots_from(s@, i as int),
        decreases s.len() - i,
    {
        i = i + 1;
    }
    let (begin, last) = if s.len() - i >= 2 {
        assert(dots_from(s@, 0) == i);
        assert(s@.take(i as int) =~= s@.subrange(0, i as int));
        assert(s@.skip(i + 2) =~= s@.subrange(i + 2, s@.len() as int));
        (
            parse_code_point(slice_subrange(s, 0, i)),
            parse_code_point(slice_subrange(s, i + 2, s.len())),
        )
    } else {
        assert(dots_from(s@, 0) == s@.len());
        (parse_code_point(s), parse_code_point(s))
    };
    match (begin, last) {
        (Some(begin), Some(last)) => if begin <= last {
            Some((begin, last + 1))
        } else {
            None
        },
        _ => None,
    }
}

/// The bytes of a field as characters.
fn field_text(field: &Vec<u8>) -> (text: String)
    ensures
        text@ == as_chars(field@),
{
    let mut text: String = String::new();
    let mut i: usize = 0;
    while i < field.len()
        invariant
            i <= field@.len(),
            text@ =~= as_chars(field@.take(i as int)),
        decreases field@.len() - i,
    {
        let b: u8 = field[i];
        if let Some(c) = char::from_u32(b as u32) {
            text.push(c);
        }
        i = i + 1;
    }
    assert(field@.take(i as int) =~= field@);
    text
}

/// What a line comes to: a range, nothing, or an error.
fn parse_line(line: &[u8]) -> (res: Result<Option<CategoryRange>, ()>)
    ensures
        res == line_range(line@),
{
    let fields: Vec<Vec<u8>> = split_fields(line);
    let ghost model = fields_of(line@);
    assert(model.len() == fields@.len());
    assert(forall|i: int| 0 <= i < fields@.len() ==> #[trigger] model[i] == fields@[i]@);
    if fields.len() == 0 {
        return Ok(None);
    }
    let first: &Vec<u8> = &fields[0];
    assert(model[0] == first@);
    if !(first.len() >= 2 && first[0] == 0x30 && first[1] == 0x78) {
        return Ok(None);
    }
    if fields.len() < 2 {
        return Err(());
    }
    let range: Option<(u32, u32)> = parse_code_range(first.as_slice());
    let ghost stop = comment_from(model, 1);
    let ghost names = model.subrange(1, stop);
    let mut categories: CategoryType = CategoryType::from_bits(0);
    let mut i: usize = 1;
    let mut named: bool = true;
    while i < fields.len() && !(fields[i].len() > 0 && fields[i][0] == 0x23)
        invariant
            1 <= i <= fields@.len(),
            model.len() == fields@.len(),
            forall|k: int| 0 <= k < fields@.len() ==> #[trigger] model[k] == fields@[k]@,
            stop == comment_from(model, 1),
            stop == comment_from(model, i as int),
            named ==> named_categories(model.skip(1), (i - 1) as nat) == Some(categories),
            !named ==> named_categories(model.skip(1), (i - 1) as nat) is None,
        decreases fields@.len() - i,
    {
        let text: String = field_text(&fields[i]);
        assert(model[i as int] == fields@[i as int]@);
        assert(model.skip(1)[i - 1] == model[i as int]);
        match CategoryType::from_name(&text) {
            Some(category) => {
                categories = categories.union(category);
            },
            None => {
                named = false;
            },
        }
        i = i + 1;
    }
    proof {
        if i < fields@.len() {
            assert(model[i as int] == fields@[i as int]@);
        }
        assert(stop == i);
        lemma_named_local(model.skip(1), names, (i - 1) as nat);
    }
    match range {
        Some((begin, end)) => if named {
            Ok(Some(CategoryRange { begin, end, categories }))
        } else {
            Err(())
        },
        None => Err(()),
    }
}

/// The categories that fields name depend on those fields alone.
proof fn lemma_named_local(a: Seq<Seq<u8>>, b: Seq<Seq<u8>>, n: nat)
    requires
        n <= a.len(),
        n <= b.len(),
        forall|i: int| 0 <= i < n ==> a[i] == b[i],
    ensures
        named_categories(a, n) == named_categories(b, n),
    decreases n,
{
    if n > 0 {
        lemma_named_local(a, b, (n - 1) as nat);
    }
}

/// Categories of characters by ranges of code points.
#[derive(Debug)]
pub struct CharacterCategory {
    ranges: Vec<CategoryRange>,
}

impl CharacterCategory {
    /// The ranges.
    pub closed spec fn ranges(self) -> Seq<CategoryRange> {
        self.ranges@
    }

    /// Reads the ranges of a definition.
    pub fn from_bytes(data: &[u8]) -> (res: SudachiResult<CharacterCategory>)
        ensures
            match definition_from(data@, 0, 0, Seq::empty()) {
                Ok(ranges) => res matches Ok(category) && category.ranges() == ranges,
                Err(line) => res matches Err(e) && e.model()
                    == error::ErrorModel::InvalidCharacterCategory(line as usize),
            },
    {
        let ghost total = definition_from(data@, 0, 0, Seq::empty());
        let mut ranges: Vec<CategoryRange> = Vec::new();
        let mut p: usize = 0;
        let mut line: usize = 0;
        while p < data.len()
            invariant
                p <= data.len(),
                line <= p,
                total == definition_from(data@, 0, 0, Seq::empty()),
                total == definition_from(data@, p as int, line as nat, ranges@),
            decreases data.len() - p,
        {
            let mut end: usize = p;
            while end < data.len() && data[end] != 0x0a
                invariant
                    p <= end <= data.len(),
                    line_end(data@, p as int) == line_end(data@, end as int),
                decreases data.len() - end,
            {
                end = end + 1;
            }
            match parse_line(slice_subrange(data, p, end)) {
                Err(_) => {
                    return Err(SudachiError::InvalidCharacterCategory(line));
                },
                Ok(None) => {},
                Ok(Some(range)) => {
                    ranges.push(range);
                },
            }
            if end == data.len() {
                assert(definition_from(data@, end + 1, (line + 1) as nat, ranges@) == Ok::<
                    Seq<CategoryRange>,
                    nat,
                >(ranges@));
                return Ok(CharacterCategory { ranges });
            }
            p = end + 1;
            line = line + 1;
        }
        Ok(CharacterCategory { ranges })
    }

    /// The categories of a character: those of all ranges that it lies in.
    pub fn get_category_types(&self, c: char) -> (categories: CategoryType)
        ensures
            categories == categories_of(self.ranges(), c as u32),
    {
        let code: u32 = c as u32;
        let mut found: CategoryType = CategoryType::from_bits(0);
        let mut i: usize = 0;
        while i < self.ranges.len()
            invariant
                i <= self.ranges@.len(),
                found == ranged_categories(self.ranges@, code, i as nat),
            decreases self.ranges@.len() - i,
        {
            let range: CategoryRange = self.ranges[i];
            if range.begin <= code && code < range.end {
                found = found.union(range.categories);
            }
            i = i + 1;
        }
        if found.is_empty() {
            CategoryType::from_bits(category_type::DEFAULT)
        } else {
            found
        }
    }
}

impl Default for CharacterCategory {
    fn default() -> (category: CharacterCategory)
        ensures
            category.ranges() == Seq::<CategoryRange>::empty(),
    {
        CharacterCategory { ranges: Vec::new() }
    }
}

} // verus!
