//! Grammars: the parts of speech and the connection costs of a dictionary.

use vstd::prelude::*;
use vstd::slice::slice_subrange;

use crate::bytes;
use crate::dic::character_category::{CategoryRange, CharacterCategory};
use crate::dic::connect::bitpacked;
use crate::dic::connect::bitpacked::{costs_of, BITPACKED_MAGIC};
use crate::dic::connect::either::Connections;
use crate::dic::connect::flat::ConnectionMatrix;
use crate::dic::read::u16str;
use crate::error;
use crate::error::{ReadError, SudachiError, SudachiResult};

verus! {

/// Number of texts that make up a part of speech.
pub const POS_DEPTH: usize = 6;

/// The `n` strings that `s` begins with and the number of their bytes.
pub open spec fn texts_in(s: Seq<u8>, n: nat) -> Result<(nat, Seq<Seq<char>>), ReadError>
    decreases n,
{
    if n == 0 {
        Ok((0, Seq::empty()))
    } else {
        match texts_in(s, (n - 1) as nat) {
            Err(e) => Err(e),
            Ok((used, texts)) => match u16str::utf16_string(s.skip(used as int)) {
                Err(e) => Err(e),
                Ok((m, text)) => Ok((used + m, texts.push(text))),
            },
        }
    }
}

/// The first ones of more strings can be read where those can, and lie within the input.
proof fn lemma_texts_prefix(s: Seq<u8>, n: nat, more: nat)
    requires
        n <= more,
    ensures
        texts_in(s, more) is Ok ==> texts_in(s, n) is Ok,
        texts_in(s, n) matches Ok((used, texts)) ==> used <= s.len() && texts.len() == n,
    decreases more,
{
    if n < more {
        lemma_texts_prefix(s, n, (more - 1) as nat);
    } else if n > 0 {
        lemma_texts_prefix(s, (n - 1) as nat, (n - 1) as nat);
    }
}

/// Texts in groups of [`POS_DEPTH`].
pub open spec fn grouped(texts: Seq<Seq<char>>, n: nat) -> Seq<Seq<Seq<char>>> {
    Seq::new(n, |i: int| texts.subrange(POS_DEPTH * i, POS_DEPTH * i + POS_DEPTH))
}

/// The texts of a part of speech.
pub open spec fn pos_view(pos: Seq<String>) -> Seq<Seq<char>> {
    pos.map_values(|text: String| text@)
}

/// The texts of parts of speech.
pub open spec fn pos_list_view(list: Seq<Vec<String>>) -> Seq<Seq<Seq<char>>> {
    list.map_values(|pos: Vec<String>| pos_view(pos@))
}

/// The first place of a part of speech in a list from `k` on.
pub open spec fn pos_from(list: Seq<Seq<Seq<char>>>, pos: Seq<Seq<char>>, k: int) -> Option<nat>
    decreases list.len() - k,
{
    if k < 0 || k >= list.len() {
        None
    } else if list[k] == pos {
        Some(k as nat)
    } else {
        pos_from(list, pos, k + 1)
    }
}

/// What a [`Grammar`] holds.
#[verifier::ext_equal]
pub struct GrammarModel {
    pub pos_list: Seq<Seq<Seq<char>>>,
    pub columns: nat,
    pub rows: nat,
    pub costs: Seq<i16>,
    pub storage_size: nat,
    pub ranges: Seq<CategoryRange>,
}

impl GrammarModel {
    /// Every column and row has a cost.
    pub open spec fn wf(self) -> bool {
        &&& self.costs.len() == self.columns * self.rows
        &&& self.costs.len() <= usize::MAX
    }

    /// The cost of placing a word with the identifier `left` on its right side before one with
    /// the identifier `right` on its left side, if there is one.
    pub open spec fn cost(self, left: u16, right: u16) -> Option<i16> {
        if left < self.columns && right < self.rows {
            Some(self.costs[right * self.columns + left])
        } else {
            None
        }
    }
}

/// The connection matrix that stands at `p`: in uncompressed form with its numbers of columns and
/// rows before it, or packed behind a mark. Gives the numbers of columns and rows, the costs and
/// the number of bytes.
pub open spec fn matrix_section(buf: Seq<u8>, p: int) -> Option<
    Result<(nat, nat, Seq<i16>, nat), error::ErrorModel>,
> {
    let broken = error::ErrorModel::InvalidDictionaryGrammar;
    let left = bytes::i16_at(buf, p) as int;
    let right = bytes::i16_at(buf, p + 2) as int;
    let cells = left * right;
    if p + 4 > buf.len() {
        Some(Err(broken))
    } else if bytes::u32_at(buf, p) == BITPACKED_MAGIC {
        match bitpacked::bitpacked_section(buf, p + 4) {
            Some(Ok((m, used))) => Some(
                Ok((m.num_left, m.num_right, costs_of(m), (4 + used) as nat)),
            ),
            Some(Err(e)) => Some(Err(e)),
            None => None,
        }
    } else if left < 0 || right < 0 || p + 4 + 2 * cells > usize::MAX {
        None
    } else if p + 4 + cells > buf.len() {
        Some(Err(error::with_context(broken, "connection matrix"@)))
    } else if p + 4 + 2 * cells > buf.len() {
        None
    } else {
        Some(
            Ok(
                (
                    left as nat,
                    right as nat,
                    bytes::i16s_at(buf, p + 4, cells as nat),
                    (4 + 2 * cells) as nat,
                ),
            ),
        )
    }
}

/// The grammar that stands at `offset`: the parts of speech with their number before them, and the
/// connection matrix.
pub open spec fn grammar_section(buf: Seq<u8>, offset: nat) -> Option<
    Result<GrammarModel, error::ErrorModel>,
> {
    let broken = error::ErrorModel::InvalidDictionaryGrammar;
    let count = bytes::u16_at(buf, offset as int) as nat;
    if offset + 2 > buf.len() {
        Some(Err(broken))
    } else {
        match texts_in(buf.skip(offset as int + 2), POS_DEPTH as nat * count) {
            Err(_) => Some(Err(broken)),
            Ok((used, texts)) => {
                let p = offset as int + 2 + used;
                match matrix_section(buf, p) {
                    None => None,
                    Some(Err(e)) => Some(Err(e)),
                    Some(Ok((columns, rows, costs, used))) => Some(
                        Ok(
                            GrammarModel {
                                pos_list: grouped(texts, count),
                                columns,
                                rows,
                                costs,
                                storage_size: (p - offset + used) as nat,
                                ranges: Seq::empty(),
                            },
                        ),
                    ),
                }
            },
        }
    }
}

/// A grammar ends within the input.
pub proof fn lemma_storage_size(buf: Seq<u8>, offset: nat)
    ensures
        grammar_section(buf, offset) matches Some(Ok(grammar)) ==> offset + grammar.storage_size
            <= buf.len(),
{
    let count = bytes::u16_at(buf, offset as int) as nat;
    if let Ok((used, texts)) = texts_in(buf.skip(offset as int + 2), POS_DEPTH as nat * count) {
        lemma_texts_prefix(
            buf.skip(offset as int + 2),
            POS_DEPTH as nat * count,
            POS_DEPTH as nat * count,
        );
        bitpacked::lemma_section_within(buf, offset as int + 2 + used + 4);
    }
}

/// Texts are determined by their own bytes.
proof fn lemma_texts_local(s: Seq<u8>, t: Seq<u8>, n: nat, end: nat)
    requires
        texts_in(s, n) matches Ok((used, texts)) && used <= end,
        end <= s.len(),
        end <= t.len(),
        t.take(end as int) == s.take(end as int),
    ensures
        texts_in(t, n) == texts_in(s, n),
    decreases n,
{
    if n > 0 {
        let (before, texts) = texts_in(s, (n - 1) as nat).unwrap();
        lemma_texts_prefix(s, (n - 1) as nat, n);
        lemma_texts_local(s, t, (n - 1) as nat, end);
        let a = s.skip(before as int);
        let b = t.skip(before as int);
        let (m, text) = u16str::utf16_string(a).unwrap();
        assert(before + m <= end);
        assert forall|i: int| 0 <= i < m implies b[i] == a[i] by {
            let j = before + i;
            assert(s.take(end as int)[j] == s[j]);
            assert(t.take(end as int)[j] == t[j]);
            assert(a[i] == s[j]);
            assert(b[i] == t[j]);
        }
        assert(b.take(m as int) =~= a.take(m as int));
        u16str::lemma_string_local(a, b);
    }
}

/// A grammar is determined by its own bytes: it reads the same where these stand alone.
pub proof fn law_grammar_is_local(buf: Seq<u8>, offset: nat)
    requires
        grammar_section(buf, offset) matches Some(Ok(_)),
    ensures
        grammar_section(buf, offset) matches Some(Ok(grammar)) && grammar_section(
            buf.subrange(offset as int, (offset + grammar.storage_size) as int),
            0,
        ) == Some(Ok::<GrammarModel, error::ErrorModel>(grammar)),
{
    let grammar = grammar_section(buf, offset)->0->Ok_0;
    let own = buf.subrange(offset as int, (offset + grammar.storage_size) as int);
    let count = bytes::u16_at(buf, offset as int) as nat;
    let n = POS_DEPTH as nat * count;
    let a = buf.skip(offset as int + 2);
    let b = own.skip(2);
    let (used, texts) = texts_in(a, n).unwrap();
    let p = offset as int + 2 + used;
    lemma_storage_size(buf, offset);
    lemma_texts_prefix(a, n, n);
    assert forall|i: int| 0 <= i < own.len() implies #[trigger] own[i] == buf[i + offset] by {}
    assert(own[0] == buf[offset as int] && own[1] == buf[offset as int + 1]);
    assert(bytes::u16_at(own, 0) == count);
    assert forall|i: int| 0 <= i < used implies a[i] == b[i] by {
        assert(own[i + 2] == buf[i + 2 + offset]);
    }
    assert(a.take(used as int) =~= b.take(used as int));
    lemma_texts_local(a, b, n, used);
    lemma_matrix_local(buf, p, own, offset as int);
}

/// A connection matrix is determined by its own bytes: it reads the same where these stand `d`
/// bytes earlier.
proof fn lemma_matrix_local(buf: Seq<u8>, p: int, own: Seq<u8>, d: int)
    requires
        0 <= d <= p,
        matrix_section(buf, p) matches Some(Ok((columns, rows, costs, used))) && p + used - d
            == own.len(),
        forall|i: int| 0 <= i < own.len() ==> #[trigger] own[i] == buf[i + d],
    ensures
        matrix_section(own, p - d) == matrix_section(buf, p),
{
    let q = p - d;
    let (columns, rows, costs, used) = matrix_section(buf, p)->0->Ok_0;
    if bytes::u32_at(buf, p) == BITPACKED_MAGIC {
        bitpacked::lemma_section_within(buf, p + 4);
        assert(own[q] == buf[p] && own[q + 1] == buf[p + 1] && own[q + 2] == buf[p + 2] && own[q
            + 3] == buf[p + 3]);
        bitpacked::lemma_bitpacked_local(buf, p + 4, own, d);
    } else {
        let left = bytes::i16_at(buf, p) as int;
        let right = bytes::i16_at(buf, p + 2) as int;
        assert(left * right >= 0) by (nonlinear_arith)
            requires
                left >= 0,
                right >= 0,
        ;
        assert(own[q] == buf[p] && own[q + 1] == buf[p + 1] && own[q + 2] == buf[p + 2] && own[q
            + 3] == buf[p + 3]);
        let cells = (left * right) as nat;
        let got = bytes::i16s_at(own, q + 4, cells);
        assert forall|i: int| 0 <= i < cells implies #[trigger] got[i] == costs[i] by {
            let at = q + 4 + 2 * i;
            assert(own[at] == buf[at + d]);
            assert(own[at + 1] == buf[at + 1 + d]);
        }
        assert(got =~= costs);
    }
}

/// The bytes of texts, one behind the other.
pub open spec fn texts_bytes(texts: Seq<Seq<char>>) -> Seq<u8>
    decreases texts.len(),
{
    if texts.len() == 0 {
        Seq::empty()
    } else {
        texts_bytes(texts.drop_last()) + u16str::string_bytes(texts.last())
    }
}

/// Texts that were written are read back.
proof fn lemma_texts_read_back(texts: Seq<Seq<char>>, rest: Seq<u8>)
    requires
        forall|i: int|
            0 <= i < texts.len() ==> u16str::encode_utf16(#[trigger] texts[i]).len() < 0x8000,
    ensures
        texts_in(texts_bytes(texts) + rest, texts.len()) == Ok::<
            (nat, Seq<Seq<char>>),
            ReadError,
        >((texts_bytes(texts).len(), texts)),
    decreases texts.len(),
{
    let s = texts_bytes(texts) + rest;
    if texts.len() == 0 {
        assert(texts =~= Seq::empty());
    } else {
        let before = texts.drop_last();
        let last = texts.last();
        assert forall|i: int| 0 <= i < before.len() implies u16str::encode_utf16(
            #[trigger] before[i],
        ).len() < 0x8000 by {
            assert(before[i] == texts[i]);
        }
        assert(u16str::encode_utf16(texts[texts.len() - 1]).len() < 0x8000);
        lemma_texts_read_back(before, u16str::string_bytes(last) + rest);
        assert(s =~= texts_bytes(before) + (u16str::string_bytes(last) + rest));
        assert(s.skip(texts_bytes(before).len() as int) =~= u16str::string_bytes(last) + rest);
        u16str::law_string_reads_back(last, rest);
        assert(before.push(last) =~= texts);
    }
}

/// A grammar is read out of its bytes: the number of parts of speech, six texts for each of them,
/// the numbers of columns and rows of the connection matrix, and its cells, row after row, each a
/// signed 16-bit integer with the lower byte first.
#[verifier::rlimit(40)]
pub proof fn law_grammar_is_read_out_of_its_bytes(
    before: Seq<u8>,
    count: u16,
    texts: Seq<Seq<char>>,
    columns: u16,
    rows: u16,
    cells: Seq<u8>,
    rest: Seq<u8>,
)
    requires
        texts.len() == 6 * count,
        forall|i: int|
            0 <= i < texts.len() ==> u16str::encode_utf16(#[trigger] texts[i]).len() < 0x8000,
        columns < 0x8000,
        rows < 0x8000,
        columns + 0x1_0000 * rows != 0x4D43_4250,
        cells.len() == 2 * (columns * rows),
        before.len() + texts_bytes(texts).len() + cells.len() + rest.len() + 6 <= usize::MAX,
    ensures
        grammar_section(
            before + seq![(count % 0x100) as u8, (count / 0x100) as u8] + texts_bytes(texts) + seq![
                (columns % 0x100) as u8,
                (columns / 0x100) as u8,
                (rows % 0x100) as u8,
                (rows / 0x100) as u8,
            ] + cells + rest,
            before.len(),
        ) matches Some(Ok(g)) && {
            &&& g.pos_list.len() == count
            &&& forall|i: int, j: int|
                0 <= i < count && 0 <= j < 6 ==> (#[trigger] g.pos_list[i][j]) == texts[6 * i + j]
            &&& forall|i: int| 0 <= i < count ==> (#[trigger] g.pos_list[i]).len() == 6
            &&& g.columns == columns
            &&& g.rows == rows
            &&& g.costs.len() == columns * rows
            &&& forall|k: int|
                0 <= k < columns * rows ==> #[trigger] g.costs[k] == cells[2 * k] + 0x100 * (
                if cells[2 * k + 1] < 0x80 {
                    cells[2 * k + 1] as int
                } else {
                    cells[2 * k + 1] - 0x100
                })
            &&& g.storage_size == 6 + texts_bytes(texts).len() + cells.len()
        },
{
    let head = seq![(count % 0x100) as u8, (count / 0x100) as u8];
    let sizes = seq![
        (columns % 0x100) as u8,
        (columns / 0x100) as u8,
        (rows % 0x100) as u8,
        (rows / 0x100) as u8,
    ];
    let written = texts_bytes(texts);
    let buf = before + head + written + sizes + cells + rest;
    let o = before.len() as int;
    assert(buf[o] == head[0] && buf[o + 1] == head[1]);
    assert(bytes::u16_at(buf, o) == count);
    assert(buf.skip(o + 2) =~= written + (sizes + cells + rest));
    lemma_texts_read_back(texts, sizes + cells + rest);
    let p = o + 2 + written.len();
    assert(buf[p] == sizes[0] && buf[p + 1] == sizes[1] && buf[p + 2] == sizes[2] && buf[p + 3]
        == sizes[3]);
    assert(bytes::u16_at(buf, p) == columns);
    assert(bytes::u16_at(buf, p + 2) == rows);
    assert(bytes::u32_at(buf, p) == columns + 0x1_0000 * rows);
    assert(columns * rows >= 0) by (nonlinear_arith);
    let costs = bytes::i16s_at(buf, p + 4, (columns * rows) as nat);
    assert forall|k: int| 0 <= k < columns * rows implies #[trigger] costs[k] == cells[2 * k]
        + 0x100 * (if cells[2 * k + 1] < 0x80 {
        cells[2 * k + 1] as int
    } else {
        cells[2 * k + 1] - 0x100
    }) by {
        let at = p + 4 + 2 * k;
        assert(buf[at] == cells[2 * k]);
        assert(buf[at + 1] == cells[2 * k + 1]);
        bytes::law_integers_are_sums_of_their_bytes(buf, at);
    }
}

/// Grammar of a dictionary.
pub struct Grammar<'a> {
    pub pos_list: Vec<Vec<String>>,
    /// Number of bytes of the grammar
    pub storage_size: usize,
    /// Categories of characters
    pub character_category: CharacterCategory,
    /// Connection costs
    pub connect: Connections<'a>,
}

/// Reads `n` strings. Returns them and the bytes that are left.
fn read_texts(input: &[u8], n: usize) -> (res: Option<(&[u8], Vec<String>)>)
    ensures
        match texts_in(input@, n as nat) {
            Ok((used, texts)) => res matches Some((rest, got)) && rest@ == input@.skip(
                used as int,
            ) && pos_view(got@) == texts,
            Err(_) => res is None,
        },
{
    let mut texts: Vec<String> = Vec::new();
    let mut rest = input;
    let ghost mut used: nat = 0;
    let mut i: usize = 0;
    assert(input@.skip(0) =~= input@);
    assert(pos_view(texts@) =~= Seq::empty());
    while i < n
        invariant
            i <= n,
            used <= input@.len(),
            rest@ == input@.skip(used as int),
            texts_in(input@, i as nat) == Ok::<(nat, Seq<Seq<char>>), ReadError>(
                (used, pos_view(texts@)),
            ),
        decreases n - i,
    {
        proof {
            lemma_texts_prefix(input@, (i + 1) as nat, n as nat);
        }
        let ghost before = pos_view(texts@);
        match u16str::utf16_string_parser(rest) {
            Err(_) => {
                return None;
            },
            Ok((next, text)) => {
                proof {
                    lemma_texts_prefix(input@, (i + 1) as nat, (i + 1) as nat);
                    let m = u16str::utf16_string(rest@).unwrap().0;
                    assert(rest@.skip(m as int) =~= input@.skip((used + m) as int));
                    used = used + m;
                }
                texts.push(text);
                assert(pos_view(texts@) =~= before.push(text@));
                rest = next;
            },
        }
        i = i + 1;
    }
    Some((rest, texts))
}

/// Takes the next part of speech from the front of a list of texts that is kept in reverse.
fn take_pos(reversed: &mut Vec<String>) -> (pos: Vec<String>)
    requires
        old(reversed)@.len() >= POS_DEPTH,
    ensures
        final(reversed)@ == old(reversed)@.take(old(reversed)@.len() - POS_DEPTH),
        pos@ == old(reversed)@.skip(old(reversed)@.len() - POS_DEPTH).reverse(),
{
    let mut pos: Vec<String> = Vec::new();
    let ghost all = reversed@;
    let mut k: usize = 0;
    while k < POS_DEPTH
        invariant
            k <= POS_DEPTH,
            all.len() >= POS_DEPTH,
            reversed@ == all.take(all.len() - k),
            pos@.len() == k,
            forall|i: int| 0 <= i < k ==> #[trigger] pos@[i] == all[all.len() - 1 - i],
        decreases POS_DEPTH - k,
    {
        match reversed.pop() {
            Some(text) => {
                pos.push(text);
            },
            None => {},
        }
        k = k + 1;
        assert(reversed@ =~= all.take(all.len() - k));
    }
    assert(pos@ =~= all.skip(all.len() - POS_DEPTH).reverse());
    pos
}

/// The texts in reverse order.
fn reversed_texts(texts: Vec<String>) -> (reversed: Vec<String>)
    ensures
        reversed@ == texts@.reverse(),
{
    let mut texts: Vec<String> = texts;
    let mut reversed: Vec<String> = Vec::new();
    let ghost all = texts@;
    while texts.len() > 0
        invariant
            texts@.len() + reversed@.len() == all.len(),
            texts@ == all.take(texts@.len() as int),
            forall|i: int|
                0 <= i < reversed@.len() ==> #[trigger] reversed@[i] == all[all.len() - 1 - i],
        decreases texts@.len(),
    {
        let ghost n = texts@.len();
        match texts.pop() {
            Some(text) => {
                reversed.push(text);
            },
            None => {},
        }
        assert(texts@ =~= all.take(n - 1));
    }
    assert(reversed@ =~= all.reverse());
    reversed
}

/// The texts of parts of speech in groups.
fn group_texts(texts: Vec<String>, count: usize) -> (list: Vec<Vec<String>>)
    requires
        texts@.len() == POS_DEPTH * count,
    ensures
        pos_list_view(list@) == grouped(pos_view(texts@), count as nat),
{
    let ghost all = texts@;
    let mut reversed: Vec<String> = reversed_texts(texts);
    let mut list: Vec<Vec<String>> = Vec::new();
    let mut i: usize = 0;
    while i < count
        invariant
            i <= count,
            all.len() == POS_DEPTH * count,
            reversed@ == all.reverse().take(POS_DEPTH * (count - i)),
            list@.len() == i,
            forall|k: int|
                0 <= k < i ==> #[trigger] list@[k]@ == all.subrange(
                    POS_DEPTH * k,
                    POS_DEPTH * k + POS_DEPTH,
                ),
        decreases count - i,
    {
        let pos: Vec<String> = take_pos(&mut reversed);
        assert(pos@ =~= all.subrange(POS_DEPTH * i, POS_DEPTH * i + POS_DEPTH));
        assert(reversed@ =~= all.reverse().take(POS_DEPTH * (count - (i + 1))));
        list.push(pos);
        i = i + 1;
    }
    proof {
        let groups = grouped(pos_view(all), count as nat);
        assert forall|k: int| 0 <= k < count implies #[trigger] pos_list_view(list@)[k]
            == groups[k] by {
            assert(list@[k]@ == all.subrange(POS_DEPTH * k, POS_DEPTH * k + POS_DEPTH));
            assert(pos_view(list@[k]@) =~= groups[k]);
        }
        assert(pos_list_view(list@) =~= groups);
    }
    list
}

/// Reads the connection matrix that stands at `p`. Returns it and the number of its bytes, and
/// nothing where it is cut off, or its numbers of columns and rows are no sizes.
fn read_matrix<'a>(buf: &'a [u8], p: usize) -> (res: Option<
    SudachiResult<(Connections<'a>, usize)>,
>)
    requires
        p <= buf.len(),
    ensures
        match matrix_section(buf@, p as int) {
            Some(Ok((columns, rows, costs, used))) => {
                &&& res matches Some(Ok((connect, size)))
                &&& connect.columns() == columns
                &&& connect.rows() == rows
                &&& connect.costs() == costs
                &&& size == used
                &&& p + size <= buf.len()
                &&& costs.len() == columns * rows
                &&& costs.len() <= usize::MAX
            },
            Some(Err(e)) => res matches Some(Err(got)) && got.model() == e,
            None => res is None,
        },
{
    if buf.len() - p < 4 {
        return Some(Err(SudachiError::InvalidDictionaryGrammar));
    }
    if bytes::read_u32(buf, p) == BITPACKED_MAGIC {
        return match bitpacked::ConnectionMatrix::checked_bitpacked(buf, p + 4) {
            Some(Ok((matrix, used))) => {
                proof {
                    let m = matrix.model();
                    assert(m.num_left * m.num_right <= 0xffff * 0xffff) by (nonlinear_arith)
                        requires
                            0 <= m.num_left <= 0xffff,
                            0 <= m.num_right <= 0xffff,
                    ;
                }
                Some(Ok((Connections::packed(matrix), 4 + used)))
            },
            Some(Err(e)) => Some(Err(e)),
            None => None,
        };
    }
    let left: i16 = bytes::read_i16(buf, p);
    let right: i16 = bytes::read_i16(buf, p + 2);
    if left < 0 || right < 0 {
        return None;
    }
    proof {
        assert(0 <= left * right <= 0x8000 * 0x8000) by (nonlinear_arith)
            requires
                0 <= left < 0x8000,
                0 <= right < 0x8000,
        ;
    }
    let num_left: usize = left as usize;
    let num_right: usize = right as usize;
    let cells: usize = num_left * num_right;
    if cells > (usize::MAX - p - 4) / 2 {
        return None;
    }
    if p + 4 + cells <= buf.len() && p + 4 + 2 * cells > buf.len() {
        return None;
    }
    match ConnectionMatrix::from_offset_size(buf, p + 4, num_left, num_right) {
        Ok(matrix) => Some(Ok((Connections::flat(matrix), 4 + 2 * cells))),
        Err(e) => Some(Err(e)),
    }
}

impl<'a> Grammar<'a> {
    /// What the grammar holds.
    pub open spec fn model(self) -> GrammarModel {
        GrammarModel {
            pos_list: pos_list_view(self.pos_list@),
            columns: self.connect.columns(),
            rows: self.connect.rows(),
            costs: self.connect.costs(),
            storage_size: self.storage_size as nat,
            ranges: self.character_category.ranges(),
        }
    }

    /// Reads the grammar that stands at `offset`. Returns nothing where the connection matrix is
    /// cut off, or its numbers of columns and rows are no sizes.
    pub fn checked_parse(buf: &'a [u8], offset: usize) -> (res: Option<SudachiResult<Grammar<'a>>>)
        ensures
            match grammar_section(buf@, offset as nat) {
                Some(Ok(grammar)) => res matches Some(Ok(got)) && got.model() == grammar
                    && got.model().wf(),
                Some(Err(e)) => res matches Some(Err(got)) && got.model() == e,
                None => res is None,
            },
    {
        if offset > buf.len() || buf.len() - offset < 2 {
            return Some(Err(SudachiError::InvalidDictionaryGrammar));
        }
        let count: usize = bytes::read_u16(buf, offset) as usize;
        let input = slice_subrange(buf, offset + 2, buf.len());
        assert(input@ =~= buf@.skip(offset as int + 2));
        let (rest, texts) = match read_texts(input, POS_DEPTH * count) {
            Some((rest, texts)) => (rest, texts),
            None => {
                return Some(Err(SudachiError::InvalidDictionaryGrammar));
            },
        };
        proof {
            lemma_texts_prefix(input@, (POS_DEPTH * count) as nat, (POS_DEPTH * count) as nat);
        }
        let p: usize = buf.len() - rest.len();
        match read_matrix(buf, p) {
            None => None,
            Some(Err(e)) => Some(Err(e)),
            Some(Ok((connect, used))) => Some(
                Ok(
                    Grammar {
                        pos_list: group_texts(texts, count),
                        storage_size: p - offset + used,
                        character_category: CharacterCategory::default(),
                        connect,
                    },
                ),
            ),
        }
    }

    /// Reads the grammar that stands at `offset`.
    pub fn parse(buf: &'a [u8], offset: usize) -> (res: SudachiResult<Grammar<'a>>)
        requires
            grammar_section(buf@, offset as nat) is Some,
        ensures
            match grammar_section(buf@, offset as nat).unwrap() {
                Ok(grammar) => res matches Ok(got) && got.model() == grammar && got.model().wf(),
                Err(e) => res matches Err(got) && got.model() == e,
            },
    {
        match Grammar::checked_parse(buf, offset) {
            Some(res) => res,
            None => Err(SudachiError::InvalidDictionaryGrammar),
        }
    }

    /// The same grammar, independent of the bytes that it was read from.
    pub fn into_owned<'b>(self) -> (grammar: Grammar<'b>)
        ensures
            grammar.model() == self.model(),
    {
        Grammar {
            pos_list: self.pos_list,
            storage_size: self.storage_size,
            character_category: self.character_category,
            connect: self.connect.into_owned(),
        }
    }

    /// Replaces the categories of characters.
    pub fn set_character_category(&mut self, category: CharacterCategory)
        ensures
            final(self).model() == (GrammarModel {
                ranges: category.ranges(),
                ..old(self).model()
            }),
            final(self).pos_list == old(self).pos_list,
            final(self).storage_size == old(self).storage_size,
            final(self).character_category == category,
    {
        self.character_category = category;
    }

    /// The connection matrix.
    pub fn conn_matrix(&self) -> (matrix: &Connections<'a>)
        ensures
            matrix.columns() == self.model().columns,
            matrix.rows() == self.model().rows,
            matrix.costs() == self.model().costs,
    {
        &self.connect
    }

    /// The cost of placing a word with the identifier `left` on its right side before one with
    /// the identifier `right` on its left side, if there is one.
    pub fn connect_cost(&self, left: u16, right: u16) -> (cost: Option<i16>)
        requires
            self.model().wf(),
        ensures
            cost == self.model().cost(left, right),
    {
        if (left as usize) < self.connect.num_left() && (right as usize) < self.connect.num_right()
        {
            Some(self.connect.cost(left, right))
        } else {
            None
        }
    }

    /// Appends the parts of speech of another grammar.
    pub fn merge(&mut self, other: Grammar<'a>)
        ensures
            final(self).model() == (GrammarModel {
                pos_list: old(self).model().pos_list + other.model().pos_list,
                ..old(self).model()
            }),
            final(self).character_category == old(self).character_category,
    {
        let mut others: Vec<Vec<String>> = other.pos_list;
        let ghost added = others@;
        self.pos_list.append(&mut others);
        assert(pos_list_view(self.pos_list@) =~= pos_list_view(old(self).pos_list@)
            + pos_list_view(added));
    }

    /// The number of a part of speech, if the grammar has it.
    pub fn get_part_of_speech_id(&self, pos: &Vec<String>) -> (id: Option<u16>)
        ensures
            match pos_from(self.model().pos_list, pos_view(pos@), 0) {
                Some(k) => id == (if k <= 0xffff {
                    Some(k as u16)
                } else {
                    None
                }),
                None => id is None,
            },
    {
        let ghost list = self.model().pos_list;
        let mut k: usize = 0;
        while k < self.pos_list.len()
            invariant
                k <= self.pos_list@.len(),
                list == pos_list_view(self.pos_list@),
                pos_from(list, pos_view(pos@), 0) == pos_from(list, pos_view(pos@), k as int),
            decreases self.pos_list@.len() - k,
        {
            assert(list[k as int] == pos_view(self.pos_list@[k as int]@));
            if same_pos(&self.pos_list[k], pos) {
                return if k <= 0xffff {
                    Some(k as u16)
                } else {
                    None
                };
            }
            k = k + 1;
        }
        None
    }
}

/// Whether two parts of speech have the same texts.
fn same_pos(a: &Vec<String>, b: &Vec<String>) -> (same: bool)
    ensures
        same == (pos_view(a@) == pos_view(b@)),
{
    if a.len() != b.len() {
        assert(pos_view(a@).len() != pos_view(b@).len());
        return false;
    }
    let mut i: usize = 0;
    while i < a.len()
        invariant
            i <= a@.len() == b@.len(),
            forall|j: int| 0 <= j < i ==> #[trigger] pos_view(a@)[j] == pos_view(b@)[j],
        decreases a@.len() - i,
    {
        if a[i] != b[i] {
            assert(pos_view(a@)[i as int] != pos_view(b@)[i as int]);
            return false;
        }
        i = i + 1;
    }
    assert(pos_view(a@) =~= pos_view(b@));
    true
}

/// The cost of a connection is the cell in the row of the identifier on the left side of the word
/// behind, and in the column of that on the right side of the word before, whether that is
/// negative or not. There is none beyond the matrix.
pub proof fn law_cost_is_a_cell(g: GrammarModel, left: u16, right: u16)
    ensures
        left < g.columns && right < g.rows ==> g.cost(left, right) == Some(
            g.costs[right * g.columns + left],
        ),
        left >= g.columns || right >= g.rows ==> g.cost(left, right) is None,
{
}

} // verus!
