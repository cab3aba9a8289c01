//! The table that leads from the ranks of keys to the places of their words.

use vstd::prelude::*;

use crate::analysis::input;
use crate::dic::repack::surfaces::SurfaceTable;
use crate::util::text;

verus! {

/// What is wrong with a list of ranks.
#[derive(Debug)]
pub enum RankError {
    /// A line without a tab
    UnexpectedLine(String),
    /// A line that does not begin with a number, or with one beyond all ranks
    InvalidRank(String),
    /// A surface that is not in the table
    UnknownSurface(String),
}

/// What a [`RankError`] says.
pub enum RankErrorModel {
    UnexpectedLine(Seq<char>),
    InvalidRank(Seq<char>),
    UnknownSurface(Seq<char>),
}

impl RankError {
    /// The content of the error.
    pub open spec fn model(self) -> RankErrorModel {
        match self {
            RankError::UnexpectedLine(line) => RankErrorModel::UnexpectedLine(line@),
            RankError::InvalidRank(text) => RankErrorModel::InvalidRank(text@),
            RankError::UnknownSurface(surface) => RankErrorModel::UnknownSurface(surface@),
        }
    }
}

/// The first place of `c` from `p` on, or the end of the text.
pub open spec fn first_from(text: Seq<char>, c: char, p: int) -> int
    decreases text.len() - p,
{
    if p >= text.len() || text[p] == c {
        p
    } else {
        first_from(text, c, p + 1)
    }
}

/// The line of a text that begins at `p` and ends before the line break at `e`, or at the end of
/// the text. A carriage return before the line break belongs to the break.
pub open spec fn line_at(text: Seq<char>, p: int, e: int) -> Seq<char> {
    if e < text.len() && p < e && text[e - 1] == '\r' {
        text.subrange(p, e - 1)
    } else {
        text.subrange(p, e)
    }
}

/// The value of a decimal digit.
pub open spec fn digit_value(c: char) -> Option<nat> {
    if '0' <= c <= '9' {
        Some((c as int - '0' as int) as nat)
    } else {
        None
    }
}

/// The number that the first `n` of some decimal digits make up.
pub open spec fn digits_value(digits: Seq<char>, n: nat) -> Option<nat>
    decreases n,
{
    if n == 0 {
        Some(0)
    } else {
        match (digits_value(digits, (n - 1) as nat), digit_value(digits[n - 1])) {
            (Some(before), Some(last)) => Some(10 * before + last),
            _ => None,
        }
    }
}

/// The rank that a text stands for: decimal digits, with a plus sign before them or none. The
/// number of ranks is a 32-bit integer.
pub open spec fn rank_in(text: Seq<char>) -> Option<nat> {
    let digits = if text.len() > 0 && text[0] == '+' {
        text.drop_first()
    } else {
        text
    };
    match digits_value(digits, digits.len()) {
        Some(rank) => if digits.len() > 0 && rank < u32::MAX {
            Some(rank)
        } else {
            None
        },
        None => None,
    }
}

/// The table with `place` at `rank`, filled up with zeros where it is too short.
pub open spec fn with_rank(table: Seq<u32>, rank: nat, place: u32) -> Seq<u32> {
    Seq::new(
        if rank < table.len() {
            table.len()
        } else {
            rank + 1
        },
        |i: int|
            if i == rank {
                place
            } else if i < table.len() {
                table[i]
            } else {
                0
            },
    )
}

/// What a line `rank<tab>surface` does to a table.
pub open spec fn after_line(
    line: Seq<char>,
    surfaces: Map<Seq<char>, u32>,
    table: Seq<u32>,
) -> Result<Seq<u32>, RankErrorModel> {
    let tab = first_from(line, '\t', 0);
    let surface = line.subrange(tab + 1, line.len() as int);
    if tab >= line.len() {
        Err(RankErrorModel::UnexpectedLine(line))
    } else {
        match rank_in(line.take(tab)) {
            None => Err(RankErrorModel::InvalidRank(line.take(tab))),
            Some(rank) => if surfaces.dom().contains(surface) {
                Ok(with_rank(table, rank, surfaces[surface]))
            } else {
                Err(RankErrorModel::UnknownSurface(surface))
            },
        }
    }
}

/// What the lines of a text from `p` on do to a table.
pub open spec fn after_lines(
    text: Seq<char>,
    p: int,
    surfaces: Map<Seq<char>, u32>,
    table: Seq<u32>,
) -> Result<Seq<u32>, RankErrorModel>
    decreases text.len() - p,
{
    if p < 0 || p >= text.len() {
        Ok(table)
    } else {
        let e = first_from(text, '\n', p);
        match after_line(line_at(text, p, e), surfaces, table) {
            Err(error) => Err(error),
            Ok(next) => if e < p || e >= text.len() {
                Ok(next)
            } else {
                after_lines(text, e + 1, surfaces, next)
            },
        }
    }
}

/// The surface that a line gives for a rank, if it does.
pub open spec fn surface_for(line: Seq<char>, rank: nat) -> Option<Seq<char>> {
    let tab = first_from(line, '\t', 0);
    if tab < line.len() && rank_in(line.take(tab)) == Some(rank) {
        Some(line.subrange(tab + 1, line.len() as int))
    } else {
        None
    }
}

/// The surface that the last one of the lines from `p` on gives for a rank, if one does.
pub open spec fn last_surface(text: Seq<char>, p: int, rank: nat) -> Option<Seq<char>>
    decreases text.len() - p,
{
    if p < 0 || p >= text.len() {
        None
    } else {
        let e = first_from(text, '\n', p);
        let later = if e < p || e >= text.len() {
            None
        } else {
            last_surface(text, e + 1, rank)
        };
        if later is Some {
            later
        } else {
            surface_for(line_at(text, p, e), rank)
        }
    }
}

/// The table of ranks holds for each rank the place of the surface that the list gives for it last,
/// and zero for ranks that the list leaves out.
pub proof fn law_ranks_lead_to_places(
    text: Seq<char>,
    p: int,
    surfaces: Map<Seq<char>, u32>,
    table: Seq<u32>,
    rank: nat,
)
    requires
        after_lines(text, p, surfaces, table) is Ok,
    ensures
        ({
            let after = after_lines(text, p, surfaces, table)->Ok_0;
            &&& table.len() <= after.len()
            &&& match last_surface(text, p, rank) {
                Some(surface) => {
                    &&& rank < after.len()
                    &&& surfaces.dom().contains(surface)
                    &&& after[rank as int] == surfaces[surface]
                },
                None => rank < after.len() ==> after[rank as int] == if rank < table.len() {
                    table[rank as int]
                } else {
                    0
                },
            }
        }),
    decreases text.len() - p,
{
    if 0 <= p < text.len() {
        let e = first_from(text, '\n', p);
        let line = line_at(text, p, e);
        let next = after_line(line, surfaces, table)->Ok_0;
        if e >= p && e < text.len() {
            law_ranks_lead_to_places(text, e + 1, surfaces, next, rank);
        }
    }
}

/// Characters behind the first digits do not change what these make up.
proof fn lemma_digits_local(a: Seq<char>, b: Seq<char>, n: nat)
    requires
        n <= a.len(),
        n <= b.len(),
        forall|i: int| 0 <= i < n ==> #[trigger] a[i] == b[i],
    ensures
        digits_value(a, n) == digits_value(b, n),
    decreases n,
{
    if n > 0 {
        lemma_digits_local(a, b, (n - 1) as nat);
        assert(a[n - 1] == b[n - 1]);
    }
}

/// The decimal digits of a number make up the number, and are neither tabs nor line breaks.
proof fn lemma_decimal(n: nat)
    ensures
        text::decimal(n).len() > 0,
        forall|i: int|
            0 <= i < text::decimal(n).len() ==> '0' <= #[trigger] text::decimal(n)[i] <= '9',
        digits_value(text::decimal(n), text::decimal(n).len()) == Some(n),
    decreases n,
{
    let digits = text::decimal(n);
    if n < 10 {
        assert(digits[0] == (0x30 + n) as char);
        assert(digits_value(digits, 0) == Some(0nat));
    } else {
        let before = text::decimal(n / 10);
        lemma_decimal(n / 10);
        assert(digits == before.push(text::digit(n % 10)));
        lemma_digits_local(before, digits, before.len());
        assert forall|i: int| 0 <= i < digits.len() implies '0' <= #[trigger] digits[i] <= '9' by {
            if i < before.len() {
                assert(digits[i] == before[i]);
            }
        }
    }
}

/// The first place of a character is where it stands behind others.
proof fn lemma_first_from(text: Seq<char>, c: char, p: int, e: int)
    requires
        0 <= p <= e < text.len(),
        text[e] == c,
        forall|i: int| p <= i < e ==> #[trigger] text[i] != c,
    ensures
        first_from(text, c, p) == e,
    decreases e - p,
{
    if p < e {
        assert(text[p] != c);
        lemma_first_from(text, c, p + 1, e);
    }
}

/// A line of a number in decimal digits, a tab and a surface puts the place of the surface at the
/// number, with zeros before it where the table was shorter, and leaves all other ranks as they
/// are.
pub proof fn law_line_sets_one_rank(
    rank: u32,
    surface: Seq<char>,
    surfaces: Map<Seq<char>, u32>,
    table: Seq<u32>,
)
    requires
        rank < u32::MAX,
        surfaces.dom().contains(surface),
    ensures
        after_line(
            text::decimal(rank as nat) + seq!['\t'] + surface,
            surfaces,
            table,
        ) matches Ok(after) && {
            &&& after.len() == if rank < table.len() { table.len() as int } else { rank + 1 }
            &&& after[rank as int] == surfaces[surface]
            &&& forall|i: int|
                0 <= i < after.len() && i != rank ==> #[trigger] after[i] == if i < table.len() {
                    table[i]
                } else {
                    0
                }
        },
{
    let digits = text::decimal(rank as nat);
    let line = digits + seq!['\t'] + surface;
    lemma_decimal(rank as nat);
    assert forall|i: int| 0 <= i < digits.len() implies #[trigger] line[i] != '\t' by {
        assert(line[i] == digits[i]);
    }
    lemma_first_from(line, '\t', 0, digits.len() as int);
    assert(line.take(digits.len() as int) =~= digits);
    assert(line.subrange(digits.len() as int + 1, line.len() as int) =~= surface);
}

/// What the lines behind others do is what they do alone.
proof fn lemma_lines_behind(
    a: Seq<char>,
    b: Seq<char>,
    p: int,
    surfaces: Map<Seq<char>, u32>,
    table: Seq<u32>,
)
    requires
        0 <= p,
    ensures
        after_lines(a + b, a.len() + p, surfaces, table) == after_lines(b, p, surfaces, table),
    decreases b.len() - p,
{
    if p < b.len() {
        lemma_first_behind(a, b, '\n', p);
        let text = a + b;
        let e = first_from(b, '\n', p);
        let q = a.len() + e;
        assert(line_at(text, a.len() + p, q) =~= line_at(b, p, e)) by {
            if e < b.len() && p < e {
                assert(text[q - 1] == b[e - 1]);
            }
        }
        if let Ok(next) = after_line(line_at(b, p, e), surfaces, table) {
            if e < b.len() {
                lemma_lines_behind(a, b, e + 1, surfaces, next);
            }
        }
    }
}

/// The first place of a character behind others is its first place.
proof fn lemma_first_behind(a: Seq<char>, b: Seq<char>, c: char, p: int)
    requires
        0 <= p <= b.len(),
    ensures
        first_from(a + b, c, a.len() + p) == a.len() + first_from(b, c, p),
        p <= first_from(b, c, p) <= b.len(),
    decreases b.len() - p,
{
    if p < b.len() {
        assert((a + b)[a.len() + p] == b[p]);
        if b[p] != c {
            lemma_first_behind(a, b, c, p + 1);
        }
    }
}

/// A list is read line by line: its first line, which ends with a line break, with a carriage return
/// before it or without one, is followed by what the other lines do; a wrong line is the error of
/// the list.
pub proof fn law_lines_are_read_one_after_another(
    line: Seq<char>,
    carriage_return: bool,
    rest: Seq<char>,
    surfaces: Map<Seq<char>, u32>,
    table: Seq<u32>,
)
    requires
        forall|i: int| 0 <= i < line.len() ==> #[trigger] line[i] != '\n',
        line.len() > 0 ==> line.last() != '\r',
    ensures
        ({
            let end = if carriage_return {
                seq!['\r', '\n']
            } else {
                seq!['\n']
            };
            after_lines(line + end + rest, 0, surfaces, table) == match after_line(
                line,
                surfaces,
                table,
            ) {
                Ok(next) => after_lines(rest, 0, surfaces, next),
                Err(e) => Err(e),
            }
        }),
{
    let end = if carriage_return {
        seq!['\r', '\n']
    } else {
        seq!['\n']
    };
    let first = line + end;
    let text = first + rest;
    let e = first.len() - 1;
    assert forall|i: int| 0 <= i < e implies #[trigger] text[i] != '\n' by {
        if i < line.len() {
            assert(text[i] == line[i]);
        }
    }
    assert(text[e] == '\n');
    lemma_first_from(text, '\n', 0, e);
    assert(line_at(text, 0, e) =~= line) by {
        if !carriage_return && line.len() > 0 {
            assert(text[e - 1] == line.last());
        }
    }
    if let Ok(next) = after_line(line, surfaces, table) {
        lemma_lines_behind(first, rest, 0, surfaces, next);
    }
}

/// The first place of `c` from `p` on, or the end of the text.
fn find_from(text: &Vec<char>, c: char, p: usize) -> (place: usize)
    requires
        p <= text@.len(),
    ensures
        place == first_from(text@, c, p as int),
        p <= place <= text@.len(),
{
    let mut i: usize = p;
    while i < text.len() && text[i] != c
        invariant
            p <= i <= text@.len(),
            first_from(text@, c, i as int) == first_from(text@, c, p as int),
        decreases text@.len() - i,
    {
        i = i + 1;
    }
    i
}

/// The characters of a text from `p` up to `e`, as a text.
fn text_of(text: &Vec<char>, p: usize, e: usize) -> (part: String)
    requires
        p <= e <= text@.len(),
    ensures
        part@ == text@.subrange(p as int, e as int),
{
    let mut part: String = String::new();
    let mut i: usize = p;
    assert(text@.subrange(p as int, p as int) =~= Seq::<char>::empty());
    while i < e
        invariant
            p <= i <= e <= text@.len(),
            part@ == text@.subrange(p as int, i as int),
        decreases e - i,
    {
        part.push(text[i]);
        i = i + 1;
        assert(part@ =~= text@.subrange(p as int, i as int));
    }
    part
}

/// The value of more digits is there only where that of fewer is, and is no smaller.
proof fn lemma_digits_prefix(digits: Seq<char>, n: nat, more: nat)
    requires
        n <= more <= digits.len(),
    ensures
        digits_value(digits, more) matches Some(value) ==> digits_value(digits, n) matches Some(
            fewer,
        ) && fewer <= value,
    decreases more,
{
    if n < more {
        lemma_digits_prefix(digits, n, (more - 1) as nat);
    }
}

/// The rank that the characters from `p` up to `e` stand for, if they stand for one.
fn parse_rank(text: &Vec<char>, p: usize, e: usize) -> (rank: Option<u32>)
    requires
        p <= e <= text@.len(),
    ensures
        match rank_in(text@.subrange(p as int, e as int)) {
            Some(r) => rank matches Some(got) && got == r,
            None => rank is None,
        },
        rank matches Some(got) ==> got < u32::MAX,
{
    let ghost whole = text@.subrange(p as int, e as int);
    let mut start: usize = p;
    if p < e && text[p] == '+' {
        start = p + 1;
    }
    let ghost digits = text@.subrange(start as int, e as int);
    proof {
        if start == p {
            assert(digits =~= whole);
        } else {
            assert(digits =~= whole.drop_first());
        }
    }
    if start == e {
        return None;
    }
    let mut value: u64 = 0;
    let mut i: usize = start;
    while i < e
        invariant
            start <= i <= e <= text@.len(),
            digits == text@.subrange(start as int, e as int),
            digits_value(digits, (i - start) as nat) == Some(value as nat),
            value < u32::MAX,
            digits.len() > 0,
            whole == text@.subrange(p as int, e as int),
            digits == if whole.len() > 0 && whole[0] == '+' {
                whole.drop_first()
            } else {
                whole
            },
        decreases e - i,
    {
        let c: char = text[i];
        proof {
            assert(digits[i - start] == c);
            lemma_digits_prefix(digits, (i + 1 - start) as nat, digits.len());
        }
        if c < '0' || c > '9' {
            return None;
        }
        value = 10 * value + (c as u64 - '0' as u64);
        if value >= u32::MAX as u64 {
            return None;
        }
        i = i + 1;
    }
    Some(value as u32)
}

/// Puts `place` at `rank`, and zeros before it where the table is too short.
fn set_rank(table: &mut Vec<u32>, rank: u32, place: u32)
    requires
        rank < u32::MAX,
    ensures
        final(table)@ == with_rank(old(table)@, rank as nat, place),
{
    let rank: usize = rank as usize;
    let ghost before = table@;
    if rank >= table.len() {
        table.resize(rank + 1, 0);
        assert forall|i: int| 0 <= i < table@.len() implies table@[i] == (if i < before.len() {
            before[i]
        } else {
            0
        }) by {
            if i < before.len() {
                assert(table@.subrange(0, before.len() as int)[i] == before[i]);
            } else {
                assert(cloned::<u32>(0, table@[i]));
            }
        }
    }
    table.set(rank, place);
    assert(table@ =~= with_rank(before, rank as nat, place));
}

/// The table that leads from the ranks of keys to the places of their words, from a list of lines
/// `rank<tab>surface`.
pub fn rank_table(list: &str, surfaces: &SurfaceTable) -> (res: Result<Vec<u32>, RankError>)
    requires
        surfaces.wf(),
    ensures
        match after_lines(list@, 0, surfaces@, Seq::empty()) {
            Ok(table) => res matches Ok(got) && got@ == table,
            Err(e) => res matches Err(got) && got.model() == e,
        },
{
    let text: Vec<char> = input::chars_of(list);
    let mut table: Vec<u32> = Vec::new();
    let mut p: usize = 0;
    let n: usize = text.len();
    while p < n
        invariant
            p <= n == text@.len(),
            text@ == list@,
            surfaces.wf(),
            after_lines(text@, p as int, surfaces@, table@) == after_lines(
                list@,
                0,
                surfaces@,
                Seq::empty(),
            ),
        decreases n - p,
    {
        let e: usize = find_from(&text, '\n', p);
        let end: usize = if e < n && p < e && text[e - 1] == '\r' {
            e - 1
        } else {
            e
        };
        let ghost line = line_at(text@, p as int, e as int);
        assert(line == text@.subrange(p as int, end as int));
        let tab: usize = find_tab(&text, p, end);
        assert(line.take(tab - p) =~= text@.subrange(p as int, tab as int));
        if tab == end {
            return Err(RankError::UnexpectedLine(text_of(&text, p, end)));
        }
        let rank: u32 = match parse_rank(&text, p, tab) {
            Some(rank) => rank,
            None => {
                return Err(RankError::InvalidRank(text_of(&text, p, tab)));
            },
        };
        let surface: String = text_of(&text, tab + 1, end);
        assert(surface@ =~= line.subrange(tab - p + 1, line.len() as int));
        match surfaces.get(surface.as_str()) {
            Some(place) => {
                set_rank(&mut table, rank, place);
            },
            None => {
                return Err(RankError::UnknownSurface(surface));
            },
        }
        if e == n {
            p = n;
        } else {
            p = e + 1;
        }
    }
    Ok(table)
}

/// The first tab of a line, or its end.
fn find_tab(text: &Vec<char>, p: usize, end: usize) -> (tab: usize)
    requires
        p <= end <= text@.len(),
    ensures
        p <= tab <= end,
        tab - p == first_from(text@.subrange(p as int, end as int), '\t', 0),
{
    let ghost line = text@.subrange(p as int, end as int);
    let mut i: usize = p;
    while i < end && text[i] != '\t'
        invariant
            p <= i <= end <= text@.len(),
            line == text@.subrange(p as int, end as int),
            first_from(line, '\t', i - p) == first_from(line, '\t', 0),
        decreases end - i,
    {
        assert(line[i - p] == text@[i as int]);
        i = i + 1;
    }
    proof {
        if i < end {
            assert(line[i - p] == text@[i as int]);
        }
    }
    i
}

} // verus!
