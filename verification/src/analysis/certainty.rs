//! Analyses whose outcome is certain.
//!
//! What an analysis comes to depends on the dictionary, the text and the mode alone. The one
//! exception are compressed dictionaries with chunks that the encoder did not make, or that hold
//! more than two chunk sizes: the decoder need not accept these, and may accept them all the
//! same.

use vstd::prelude::*;
use vstd::utf8;

use crate::analysis::candidates::Node;
use crate::analysis::input;
use crate::analysis::input::{TextModel, MAX_LENGTH};
use crate::analysis::mode::Mode;
use crate::analysis::morpheme;
use crate::analysis::morpheme::MorphemeModel;
use crate::analysis::tokenizer;
use crate::analysis::tokenizer::MorphemeList;
use crate::dic::lexicon::word_infos;
use crate::dic::lexicon::word_infos::{ChunkedModel, InfoModel, WordInfo};
use crate::dic::lexicon::InfosModel;
use crate::dic::subset::InfoSubset;
use crate::dic::word_id::{WordId, OOV_DICTIONARY};
use crate::dic::zstandard;
use crate::dic::LoadedModel;
use crate::error::{ReadError, SudachiError, SudachiResult};

verus! {

/// Whether a chunk can be decompressed is certain: it has no content, or the encoder made it and
/// it holds no more than two chunk sizes.
pub open spec fn chunk_is_settled(m: ChunkedModel, c: int) -> bool {
    m.chunk(c) matches Some(content) ==> zstandard::is_made(m.zdict, m.frame(c)) && content.len()
        <= 2 * m.chunk_size
}

/// Whether a record can be read is certain.
pub open spec fn records_are_certain(infos: InfosModel) -> bool {
    infos matches InfosModel::Chunked(m) ==> forall|c: int|
        m.has_chunk(c) ==> #[trigger] chunk_is_settled(m, c)
}

/// The chunks of the records, if they are compressed, can be decompressed, all of them.
pub open spec fn records_are_sound(infos: InfosModel) -> bool {
    infos matches InfosModel::Chunked(m) ==> forall|c: int|
        m.has_chunk(c) ==> #[trigger] chunk_is_settled(m, c) && m.chunk(c) is Some
}

/// Whether the record of a word can be read is certain for every word of a dictionary.
pub open spec fn is_certain(m: LoadedModel) -> bool {
    forall|i: int|
        0 <= i < m.lexicon_set.lexicons.len() ==> records_are_certain(
            (#[trigger] m.lexicon_set.lexicons[i]).infos,
        )
}

/// The word records of a dictionary are not compressed, or can be decompressed.
pub open spec fn is_sound(m: LoadedModel) -> bool {
    forall|i: int|
        0 <= i < m.lexicon_set.lexicons.len() ==> records_are_sound(
            (#[trigger] m.lexicon_set.lexicons[i]).infos,
        )
}

/// Asking for the bytes from a place on gives the same every time, whatever was asked for before:
/// where the chunk has a content and it is certain that it can be decompressed, what the chunk
/// holds behind the place, and otherwise an error.
pub proof fn law_record_bytes_are_the_same_every_time(
    m: ChunkedModel,
    abs_offset: nat,
    a: Option<SudachiResult<Vec<u8>>>,
    b: Option<SudachiResult<Vec<u8>>>,
)
    requires
        chunk_is_settled(m, abs_offset as int / m.chunk_size as int),
        m.bytes_outcome(abs_offset, a),
        m.bytes_outcome(abs_offset, b),
    ensures
        match (a, b) {
            (Some(Ok(x)), Some(Ok(y))) => x@ == y@,
            (Some(Err(_)), Some(Err(_))) => true,
            (None, None) => true,
            _ => false,
        },
        ({
            let c = abs_offset as int / m.chunk_size as int;
            let place = abs_offset as int % m.chunk_size as int;
            m.chunk_size > 0 && 2 * m.chunk_size <= isize::MAX && m.has_chunk(c) ==> match m.chunk(
                c,
            ) {
                Some(whole) => place <= whole.len() ==> (a matches Some(Ok(x)) && x@ == whole.skip(
                    place,
                )),
                None => a matches Some(Err(e)) && m.chunk_fails(c, e.model()),
            }
        }),
{
    reveal(ChunkedModel::chunk_fails);
}

/// A record that can be read is read.
pub proof fn lemma_record_is_read(
    infos: InfosModel,
    word_id: u32,
    subset: InfoSubset,
    e: SudachiError,
)
    requires
        records_are_certain(infos),
        infos.info(word_id, subset) matches Some(Ok(_)),
    ensures
        infos.answers(word_id, subset),
        !infos.may_fail_with(word_id, subset, e),
{
    if let InfosModel::Chunked(m) = infos {
        reveal(ChunkedModel::record);
        reveal(ChunkedModel::readable);
        reveal(ChunkedModel::chunk_fails);
        let own = subset.available(m.has_synonym_group_ids);
        let info = m.record(word_id, own)->0->Ok_0;
        let c = m.chunk_of(word_id);
        assert(m.has_chunk(c) && m.chunk(c) is Some);
        assert(chunk_is_settled(m, c));
        assert forall|reason: Seq<char>| !#[trigger] m.chunk_fails_for(c, e.model(), reason) by {}
        if let Some(form) = word_infos::form_word(info, word_id) {
            let d = m.chunk_of(form);
            assert(m.has_chunk(d) && m.chunk(d) is Some);
            assert(chunk_is_settled(m, d));
            assert forall|reason: Seq<char>| !#[trigger] m.chunk_fails_for(
                d,
                e.model(),
                reason,
            ) by {}
        }
    }
}

/// Where the records can be decompressed, asking for one fails only with the error of that record.
proof fn lemma_one_error(infos: InfosModel, word_id: u32, subset: InfoSubset, e: SudachiError)
    requires
        records_are_sound(infos),
        infos.may_fail_with(word_id, subset, e),
    ensures
        e matches SudachiError::ParseError(pe) && infos.info(word_id, subset) == Some(
            Err::<InfoModel, ReadError>(pe),
        ),
        infos.answers(word_id, subset),
{
    if let InfosModel::Chunked(m) = infos {
        reveal(ChunkedModel::record);
        reveal(ChunkedModel::readable);
        reveal(ChunkedModel::chunk_fails);
        assert forall|c: int, reason: Seq<char>| m.has_chunk(c) implies !#[trigger] m.chunk_fails_for(
            c,
            e.model(),
            reason,
        ) by {
            assert(chunk_is_settled(m, c));
        }
    }
}

/// Asking for the record of a word gives the same every time, whatever was asked for before: the same
/// record, or an error; where the records can be decompressed, the same one.
pub proof fn law_records_are_the_same_every_time(
    infos: InfosModel,
    word_id: u32,
    subset: InfoSubset,
    a: SudachiResult<WordInfo>,
    b: SudachiResult<WordInfo>,
)
    requires
        records_are_certain(infos),
        infos.outcome(word_id, subset, a),
        infos.outcome(word_id, subset, b),
    ensures
        match (a, b) {
            (Ok(x), Ok(y)) => x.model() == y.model(),
            (Err(e), Err(f)) => records_are_sound(infos) ==> e.model() == f.model(),
            _ => false,
        },
{
    match (a, b) {
        (Ok(_), Err(e)) => lemma_record_is_read(infos, word_id, subset, e),
        (Err(e), Ok(_)) => lemma_record_is_read(infos, word_id, subset, e),
        (Err(e), Err(f)) => {
            if records_are_sound(infos) {
                lemma_one_error(infos, word_id, subset, e);
                lemma_one_error(infos, word_id, subset, f);
            }
        },
        _ => {},
    }
}

/// Where the dictionary has a record for a word, asking for it does not fail.
proof fn lemma_record_excludes_failure(
    m: LoadedModel,
    surface: Seq<char>,
    width: nat,
    id: WordId,
    info: InfoModel,
    e: SudachiError,
)
    requires
        is_certain(m),
        id.dic_of() != OOV_DICTIONARY,
        morpheme::is_record(m, surface, width, id, info),
    ensures
        !morpheme::record_fails(m, id, e),
{
    reveal(morpheme::is_record);
    let infos = m.lexicon_set.lexicons[id.dic_of() as int].infos;
    lemma_record_is_read(infos, id.word_of(), InfoSubset::uniform(true), e);
}

/// The record that asking for a word gives is the record of the word.
proof fn lemma_same_record(
    m: LoadedModel,
    surface: Seq<char>,
    width: nat,
    id: WordId,
    info: InfoModel,
    read: WordInfo,
)
    requires
        id.dic_of() != OOV_DICTIONARY,
        morpheme::is_record(m, surface, width, id, info),
        m.lexicon_set.outcome(id, InfoSubset::uniform(true), Some(Ok(read))),
    ensures
        read.model() == info,
{
    reveal(morpheme::is_record);
}

/// A word at a place in a text is one thing only.
proof fn lemma_one_morpheme(
    m: LoadedModel,
    t: TextModel,
    begin: nat,
    end: nat,
    id: WordId,
    a: MorphemeModel,
    b: MorphemeModel,
)
    requires
        morpheme::is_morpheme(m, t, begin, end, id, a),
        morpheme::is_morpheme(m, t, begin, end, id, b),
    ensures
        a == b,
{
    reveal(morpheme::is_record);
}

/// The character that begins at a byte is found there.
proof fn lemma_char_is_found(chars: Seq<char>, i: nat, j: nat)
    requires
        i <= j <= chars.len(),
    ensures
        input::char_from(chars, input::byte_offset(chars, j), i) == Some(j),
    decreases j - i,
{
    input::lemma_byte_offset_grows(chars, i, j);
    if i < j {
        lemma_char_is_found(chars, i + 1, j);
    }
}

/// Units of the same words at the same place are the same, as far as both go.
proof fn lemma_same_units(
    m: LoadedModel,
    t: TextModel,
    begin: nat,
    end: nat,
    ids: Seq<WordId>,
    a: Seq<MorphemeModel>,
    b: Seq<MorphemeModel>,
    n: nat,
)
    requires
        morpheme::are_first_units(m, t, begin, end, ids, a),
        morpheme::are_first_units(m, t, begin, end, ids, b),
        n <= a.len(),
        n <= b.len(),
    ensures
        a.take(n as int) == b.take(n as int),
    decreases n,
{
    if n > 0 {
        let k = n - 1;
        lemma_same_units(m, t, begin, end, ids, a, b, k as nat);
        let x = a[k];
        let y = b[k];
        assert(morpheme::is_unit(m, t, end, ids, k, x));
        assert(morpheme::is_unit(m, t, end, ids, k, y));
        if k > 0 {
            assert(a.take(k)[k - 1] == b.take(k)[k - 1]);
            assert(x.begin == a[k - 1].end && y.begin == b[k - 1].end);
        }
        assert(x.info == y.info) by {
            reveal(morpheme::is_record);
        }
        if x.end < y.end {
            input::lemma_byte_offset_grows(t.chars, x.end, y.end);
        } else if y.end < x.end {
            input::lemma_byte_offset_grows(t.chars, y.end, x.end);
        }
        lemma_one_morpheme(m, t, x.begin, x.end, ids[k], x, y);
        assert(a.take(n as int) =~= a.take(k).push(x));
        assert(b.take(n as int) =~= b.take(k).push(y));
    } else {
        assert(a.take(0) =~= b.take(0));
    }
}

/// Where a unit can be made, making it does not fail.
proof fn lemma_unit_excludes_failure(
    m: LoadedModel,
    t: TextModel,
    end: nat,
    ids: Seq<WordId>,
    k: int,
    unit: MorphemeModel,
    e: SudachiError,
)
    requires
        is_certain(m),
        morpheme::is_unit(m, t, end, ids, k, unit),
    ensures
        !morpheme::unit_fails(m, t, unit.begin, end, ids[k], k + 1 == ids.len(), e),
{
    let last = k + 1 == ids.len();
    let width = (unit.end_b - unit.begin_b) as nat;
    lemma_record_excludes_failure(m, unit.surface, width, ids[k], unit.info, e);
    lemma_char_is_found(t.chars, unit.begin, unit.end);
    assert forall|info: WordInfo| !#[trigger] morpheme::info_unfit(
        m,
        t,
        unit.begin,
        end,
        ids[k],
        last,
        info,
    ) by {
        if m.lexicon_set.outcome(ids[k], InfoSubset::uniform(true), Some(Ok(info))) {
            lemma_same_record(m, unit.surface, width, ids[k], unit.info, info);
        }
    }
}

/// Where units of more words can be made, making them does not fail earlier.
proof fn lemma_units_exclude_failure(
    m: LoadedModel,
    t: TextModel,
    begin: nat,
    end: nat,
    ids: Seq<WordId>,
    a: Seq<MorphemeModel>,
    b: Seq<MorphemeModel>,
    e: SudachiError,
)
    requires
        is_certain(m),
        morpheme::are_first_units(m, t, begin, end, ids, a),
        b.len() < a.len(),
    ensures
        !morpheme::fails_behind(m, t, begin, end, ids, b, e),
{
    if morpheme::are_first_units(m, t, begin, end, ids, b) {
        let k = b.len() as int;
        lemma_same_units(m, t, begin, end, ids, a, b, b.len());
        assert(morpheme::is_unit(m, t, end, ids, k, a[k]));
        if k > 0 {
            assert(a.take(k)[k - 1] == b.take(k)[k - 1]);
            assert(a[k].begin == a[k - 1].end);
        }
        lemma_unit_excludes_failure(m, t, end, ids, k, a[k], e);
    }
}

/// What a word of a way is split into is one thing only.
proof fn lemma_one_split(
    m: LoadedModel,
    t: TextModel,
    node: Node,
    mode: Mode,
    a: Seq<MorphemeModel>,
    b: Seq<MorphemeModel>,
)
    requires
        tokenizer::node_splits(m, t, node, mode, a),
        tokenizer::node_splits(m, t, node, mode, b),
    ensures
        a == b,
{
    let (begin, end, id) = (node.begin as nat, node.end as nat, node.word_id);
    let x = choose|x: MorphemeModel| #[trigger]
        morpheme::splits_into(m, t, begin, end, id, mode, x, a);
    let y = choose|y: MorphemeModel| #[trigger]
        morpheme::splits_into(m, t, begin, end, id, mode, y, b);
    lemma_one_morpheme(m, t, begin, end, id, x, y);
    let ids = morpheme::split_of(x.info, mode);
    if ids.len() > 1 {
        lemma_same_units(m, t, begin, end, ids, a, b, ids.len());
        assert(a.take(ids.len() as int) =~= a);
        assert(b.take(ids.len() as int) =~= b);
    }
}

/// Where a word of a way can be split, splitting it does not fail.
proof fn lemma_split_excludes_failure(
    m: LoadedModel,
    t: TextModel,
    node: Node,
    mode: Mode,
    units: Seq<MorphemeModel>,
    e: SudachiError,
)
    requires
        is_certain(m),
        tokenizer::node_splits(m, t, node, mode, units),
    ensures
        !tokenizer::node_fails(m, t, node, mode, e),
{
    let (begin, end, id) = (node.begin as nat, node.end as nat, node.word_id);
    let whole = choose|x: MorphemeModel| #[trigger]
        morpheme::splits_into(m, t, begin, end, id, mode, x, units);
    let width = (whole.end_b - whole.begin_b) as nat;
    if id.dic_of() != OOV_DICTIONARY {
        lemma_record_excludes_failure(m, whole.surface, width, id, whole.info, e);
    }
    assert forall|info: InfoModel| !#[trigger] morpheme::pos_unknown(
        m,
        t,
        begin,
        end,
        id,
        info,
    ) by {
        reveal(morpheme::is_record);
    }
    assert forall|x: MorphemeModel| #[trigger]
        morpheme::is_morpheme(m, t, begin, end, id, x) && morpheme::split_of(x.info, mode).len()
            > 1 implies !morpheme::split_fails(
        m,
        t,
        begin,
        end,
        morpheme::split_of(x.info, mode),
        e,
    ) by {
        lemma_one_morpheme(m, t, begin, end, id, x, whole);
        let ids = morpheme::split_of(x.info, mode);
        assert forall|b: Seq<MorphemeModel>| !#[trigger] morpheme::fails_behind(
            m,
            t,
            begin,
            end,
            ids,
            b,
            e,
        ) by {
            if b.len() < ids.len() {
                lemma_units_exclude_failure(m, t, begin, end, ids, units, b, e);
            }
        }
    }
}

/// Where asking for the record of a word fails, it fails with one error only.
proof fn lemma_one_record_failure(m: LoadedModel, id: WordId, e: SudachiError, f: SudachiError)
    requires
        is_sound(m),
        morpheme::record_fails(m, id, e),
        morpheme::record_fails(m, id, f),
    ensures
        e.model() == f.model(),
{
    lemma_record_failure(m, id, e);
    lemma_record_failure(m, id, f);
}

/// Asking for the record of a word fails where there is none to ask for, or with the error of the
/// record.
proof fn lemma_record_failure(m: LoadedModel, id: WordId, e: SudachiError)
    requires
        is_sound(m),
        morpheme::record_fails(m, id, e),
    ensures
        ({
            let infos = m.lexicon_set.lexicons[id.dic_of() as int].infos;
            let subset = InfoSubset::uniform(true);
            if id.dic_of() < m.lexicon_set.lexicons.len() && infos.answers(id.word_of(), subset) {
                e matches SudachiError::ParseError(pe) && infos.info(id.word_of(), subset) == Some(
                    Err::<InfoModel, ReadError>(pe),
                )
            } else {
                e.model() == morpheme::broken()
            }
        }),
{
    let subset = InfoSubset::uniform(true);
    if m.lexicon_set.outcome(id, subset, Some(Err(e))) {
        let infos = m.lexicon_set.lexicons[id.dic_of() as int].infos;
        lemma_one_error(infos, id.word_of(), subset, e);
    }
}

/// Where making a unit fails, it fails with one error only.
proof fn lemma_one_unit_failure(
    m: LoadedModel,
    t: TextModel,
    at: nat,
    end: nat,
    id: WordId,
    last: bool,
    e: SudachiError,
    f: SudachiError,
)
    requires
        is_sound(m),
        morpheme::unit_fails(m, t, at, end, id, last, e),
        morpheme::unit_fails(m, t, at, end, id, last, f),
    ensures
        e.model() == f.model(),
{
    if morpheme::record_fails(m, id, e) && morpheme::record_fails(m, id, f) {
        lemma_one_record_failure(m, id, e, f);
    } else {
        let info = choose|info: WordInfo| #[trigger]
            morpheme::info_unfit(m, t, at, end, id, last, info);
        let infos = m.lexicon_set.lexicons[id.dic_of() as int].infos;
        lemma_record_is_read(infos, id.word_of(), InfoSubset::uniform(true), e);
        lemma_record_is_read(infos, id.word_of(), InfoSubset::uniform(true), f);
    }
}

/// Where splitting a word of a way fails, it fails with one error only.
proof fn lemma_one_word_failure(
    m: LoadedModel,
    t: TextModel,
    node: Node,
    mode: Mode,
    e: SudachiError,
    f: SudachiError,
)
    requires
        is_sound(m),
        tokenizer::node_fails(m, t, node, mode, e),
        tokenizer::node_fails(m, t, node, mode, f),
    ensures
        e.model() == f.model(),
{
    let (begin, end, id) = (node.begin as nat, node.end as nat, node.word_id);
    reveal(morpheme::is_record);
    if exists|x: MorphemeModel| #[trigger] morpheme::is_morpheme(m, t, begin, end, id, x) {
        let x = choose|x: MorphemeModel| #[trigger]
            morpheme::is_morpheme(m, t, begin, end, id, x);
        let width = (x.end_b - x.begin_b) as nat;
        if id.dic_of() != OOV_DICTIONARY {
            lemma_record_excludes_failure(m, x.surface, width, id, x.info, e);
            lemma_record_excludes_failure(m, x.surface, width, id, x.info, f);
        }
        let ids = morpheme::split_of(x.info, mode);
        assert forall|y: MorphemeModel| #[trigger]
            morpheme::is_morpheme(m, t, begin, end, id, y) implies y == x by {
            lemma_one_morpheme(m, t, begin, end, id, y, x);
        }
        assert(morpheme::split_fails(m, t, begin, end, ids, e));
        assert(morpheme::split_fails(m, t, begin, end, ids, f));
        let a = choose|a: Seq<MorphemeModel>| #[trigger]
            morpheme::fails_behind(m, t, begin, end, ids, a, e);
        let b = choose|b: Seq<MorphemeModel>| #[trigger]
            morpheme::fails_behind(m, t, begin, end, ids, b, f);
        if a.len() < b.len() {
            lemma_units_exclude_failure(m, t, begin, end, ids, b, a, e);
        } else if b.len() < a.len() {
            lemma_units_exclude_failure(m, t, begin, end, ids, a, b, f);
        }
        lemma_same_units(m, t, begin, end, ids, a, b, a.len());
        assert(a.take(a.len() as int) =~= a);
        assert(b.take(a.len() as int) =~= b);
        lemma_one_unit_failure(
            m,
            t,
            morpheme::units_end(begin, a),
            end,
            ids[a.len() as int],
            a.len() + 1 == ids.len(),
            e,
            f,
        );
    } else if id.dic_of() != OOV_DICTIONARY && morpheme::record_fails(m, id, e)
        && morpheme::record_fails(m, id, f) {
        lemma_one_record_failure(m, id, e, f);
    } else if id.dic_of() != OOV_DICTIONARY {
        let infos = m.lexicon_set.lexicons[id.dic_of() as int].infos;
        lemma_record_is_read(infos, id.word_of(), InfoSubset::uniform(true), e);
        lemma_record_is_read(infos, id.word_of(), InfoSubset::uniform(true), f);
    }
}

/// What the first words of a way are split into is one thing only.
proof fn lemma_same_groups(
    m: LoadedModel,
    t: TextModel,
    way: Seq<Node>,
    mode: Mode,
    a: Seq<Seq<MorphemeModel>>,
    b: Seq<Seq<MorphemeModel>>,
)
    requires
        tokenizer::are_groups(m, t, way, mode, a),
        tokenizer::are_groups(m, t, way, mode, b),
    ensures
        a == b,
{
    assert forall|k: int| 0 <= k < a.len() implies #[trigger] a[k] == b[k] by {
        assert(tokenizer::node_splits(m, t, way[k], mode, a[k]));
        assert(tokenizer::node_splits(m, t, way[k], mode, b[k]));
        lemma_one_split(m, t, way[k], mode, a[k], b[k]);
    }
    assert(a =~= b);
}

/// Where the words of a way can be split, splitting them does not fail.
pub proof fn lemma_groups_exclude_failure(
    m: LoadedModel,
    t: TextModel,
    way: Seq<Node>,
    mode: Mode,
    a: Seq<Seq<MorphemeModel>>,
    b: Seq<Seq<MorphemeModel>>,
    e: SudachiError,
)
    requires
        is_certain(m),
        tokenizer::are_first_groups(m, t, way, mode, a),
        b.len() < a.len(),
    ensures
        !tokenizer::way_fails(m, t, way, mode, b, e),
{
    let k = b.len() as int;
    assert(tokenizer::node_splits(m, t, way[k], mode, a[k]));
    lemma_split_excludes_failure(m, t, way[k], mode, a[k], e);
}

/// Two analyses of a text with the same dictionary and mode have the same words, at the same cost.
pub proof fn law_analyses_of_a_text_agree(
    a: MorphemeList,
    b: MorphemeList,
    m: LoadedModel,
    mode: Mode,
)
    requires
        a.is_analysis(m, mode),
        b.is_analysis(m, mode),
        a.text() == b.text(),
    ensures
        a.way() == b.way(),
        a.words() == b.words(),
        a.cost() == b.cost(),
{
    lemma_same_groups(m, a.text(), a.way(), mode, a.groups(), b.groups());
}

/// Both calls gave the same words, or both failed; where the records of the dictionary can be
/// decompressed, with the same error.
pub open spec fn agree(
    m: LoadedModel,
    a: SudachiResult<MorphemeList>,
    b: SudachiResult<MorphemeList>,
) -> bool {
    match (a, b) {
        (Ok(x), Ok(y)) => x.words() == y.words() && x.cost() == y.cost(),
        (Err(e), Err(f)) => is_sound(m) ==> e.model() == f.model(),
        _ => false,
    }
}

/// An analysis does not fail where the text can be analysed.
pub proof fn lemma_analysis_excludes_failure(
    m: LoadedModel,
    t: TextModel,
    mode: Mode,
    way: Seq<Node>,
    groups: Seq<Seq<MorphemeModel>>,
    e: SudachiError,
)
    requires
        is_certain(m),
        utf8::encode_utf8(t.chars).len() <= MAX_LENGTH,
        tokenizer::way_outcome(m, t, Ok(way)),
        tokenizer::are_groups(m, t, way, mode, groups),
    ensures
        !tokenizer::tokenize_outcome(m, t, mode, Err(e)),
{
    assert forall|other: Seq<Node>, b: Seq<Seq<MorphemeModel>>|
        tokenizer::way_outcome(m, t, Ok(other)) implies !#[trigger] tokenizer::way_fails(
        m,
        t,
        other,
        mode,
        b,
        e,
    ) by {
        if b.len() < groups.len() {
            lemma_groups_exclude_failure(m, t, way, mode, groups, b, e);
        }
    }
}

/// Equal calls give equal results: the same words, or both times an error; where the records of the
/// dictionary can be decompressed, the same one.
pub proof fn law_equal_calls_agree(
    m: LoadedModel,
    t: TextModel,
    mode: Mode,
    a: SudachiResult<MorphemeList>,
    b: SudachiResult<MorphemeList>,
)
    requires
        is_certain(m),
        tokenizer::tokenize_outcome(m, t, mode, a),
        tokenizer::tokenize_outcome(m, t, mode, b),
    ensures
        agree(m, a, b),
{
    match (a, b) {
        (Ok(x), Ok(y)) => {
            law_analyses_of_a_text_agree(x, y, m, mode);
        },
        (Ok(x), Err(e)) => {
            lemma_analysis_excludes_failure(m, t, mode, x.way(), x.groups(), e);
        },
        (Err(e), Ok(y)) => {
            lemma_analysis_excludes_failure(m, t, mode, y.way(), y.groups(), e);
        },
        (Err(e), Err(f)) => {
            if is_sound(m) && utf8::encode_utf8(t.chars).len() <= MAX_LENGTH
                && !tokenizer::way_outcome(m, t, Err(e.model())) && !tokenizer::way_outcome(
                m,
                t,
                Err(f.model()),
            ) {
                let (way, p) = choose|way: Seq<Node>, p: Seq<Seq<MorphemeModel>>|
                    tokenizer::way_outcome(m, t, Ok(way)) && #[trigger] tokenizer::way_fails(
                        m,
                        t,
                        way,
                        mode,
                        p,
                        e,
                    );
                let (other, q) = choose|way: Seq<Node>, q: Seq<Seq<MorphemeModel>>|
                    tokenizer::way_outcome(m, t, Ok(way)) && #[trigger] tokenizer::way_fails(
                        m,
                        t,
                        way,
                        mode,
                        q,
                        f,
                    );
                assert(way == other);
                if p.len() < q.len() {
                    lemma_groups_exclude_failure(m, t, way, mode, q, p, e);
                } else if q.len() < p.len() {
                    lemma_groups_exclude_failure(m, t, way, mode, p, q, f);
                }
                lemma_one_word_failure(m, t, way[p.len() as int], mode, e, f);
            }
        },
    }
}

} // verus!
