//! Dictionaries that are named by handles.

use std::collections::HashMap;

use vstd::prelude::*;

use crate::analysis::certainty;
use crate::analysis::input::TextModel;
use crate::analysis::mode;
use crate::analysis::mode::Mode;
use crate::analysis::morpheme::{Morpheme, MorphemeModel};
use crate::analysis::tokenizer;
use crate::analysis::tokenizer::MorphemeList;
use crate::dic::character_category;
use crate::dic::character_category::CharacterCategory;
use crate::dic::xdic;
use crate::dic::{LoadedDictionary, LoadedModel};
use crate::error::{SudachiError, SudachiResult};
use crate::frontend::tokenizer::{analysed, LoadError};
use crate::plugin::oov::OovSettings;

verus! {

broadcast use vstd::std_specs::hash::group_hash_axioms;

/// Why a text could not be analysed.
#[derive(Debug)]
pub enum TokenizeError {
    /// No dictionary has the handle.
    InvalidHandle,
    /// The analysis failed.
    Analysis(SudachiError),
}

/// The surface, the reading and the first text of the part of speech of a word.
pub open spec fn is_row(row: (String, String, String), word: MorphemeModel) -> bool {
    &&& row.0@ == word.surface
    &&& row.1@ == word.info.text(word.info.reading_form)
    &&& row.2@ == if word.pos.len() > 0 {
        word.pos[0]
    } else {
        Seq::empty()
    }
}

/// A row for each word.
pub open spec fn are_rows(rows: Seq<(String, String, String)>, words: Seq<MorphemeModel>) -> bool {
    &&& rows.len() == words.len()
    &&& forall|k: int| 0 <= k < rows.len() ==> is_row(#[trigger] rows[k], words[k])
}

/// The row for a word.
fn row_of(word: &Morpheme) -> (row: (String, String, String))
    ensures
        is_row(row, word.model()),
{
    let pos: &Vec<String> = word.part_of_speech();
    let first: String = if pos.len() > 0 {
        pos[0].clone()
    } else {
        String::new()
    };
    (word.surface().to_owned(), word.reading_form().to_owned(), first)
}

/// The rows for the words of an analysis.
pub fn rows_of(list: &MorphemeList) -> (rows: Vec<(String, String, String)>)
    ensures
        are_rows(rows@, list.words()),
{
    let mut rows: Vec<(String, String, String)> = Vec::new();
    let n: usize = list.len();
    let mut i: usize = 0;
    while i < n
        invariant
            i <= n == list.words().len(),
            rows@.len() == i,
            forall|k: int| 0 <= k < i ==> is_row(#[trigger] rows@[k], list.words()[k]),
        decreases n - i,
    {
        rows.push(row_of(list.get(i)));
        i = i + 1;
    }
    rows
}

/// The rows stand for the words of an analysis of a text.
pub open spec fn are_rows_of(
    m: LoadedModel,
    text: Seq<char>,
    mode: Mode,
    rows: Seq<(String, String, String)>,
) -> bool {
    exists|list: MorphemeList| #[trigger]
        analysed(m, text, mode, Ok(list)) && are_rows(rows, list.words())
}

/// What analysing a text with the dictionary that has a handle may come to.
pub open spec fn rows_outcome(
    dicts: Map<u32, LoadedDictionary>,
    handle: u32,
    text: Seq<char>,
    mode: u8,
    res: Result<Vec<(String, String, String)>, TokenizeError>,
) -> bool {
    let m = dicts[handle].model();
    match res {
        Err(TokenizeError::InvalidHandle) => !dicts.dom().contains(handle),
        Ok(rows) => dicts.dom().contains(handle) && are_rows_of(
            m,
            text,
            mode::mode_numbered(mode),
            rows@,
        ),
        Err(TokenizeError::Analysis(e)) => dicts.dom().contains(handle) && analysed(
            m,
            text,
            mode::mode_numbered(mode),
            Err(e),
        ),
    }
}

/// Both rows have the same texts.
pub open spec fn same_row(a: (String, String, String), b: (String, String, String)) -> bool {
    a.0@ == b.0@ && a.1@ == b.1@ && a.2@ == b.2@
}

/// With a handle that was given up, no text can be analysed. With any other one, a text gives what
/// it gave before: the same rows, or both times an error; where the records of the dictionary
/// can be decompressed, the same one.
pub proof fn law_freeing_concerns_one_handle(
    dicts: Map<u32, LoadedDictionary>,
    freed: u32,
    handle: u32,
    text: Seq<char>,
    mode: u8,
    before: Result<Vec<(String, String, String)>, TokenizeError>,
    after: Result<Vec<(String, String, String)>, TokenizeError>,
)
    requires
        dicts.dom().contains(handle) ==> certainty::is_certain(dicts[handle].model()),
        rows_outcome(dicts, handle, text, mode, before),
        rows_outcome(dicts.remove(freed), handle, text, mode, after),
    ensures
        handle == freed ==> after matches Err(TokenizeError::InvalidHandle),
        handle != freed ==> match (before, after) {
            (Ok(p), Ok(q)) => {
                &&& p@.len() == q@.len()
                &&& forall|k: int|
                    0 <= k < p@.len() ==> same_row(#[trigger] p@[k], #[trigger] q@[k])
            },
            (Err(TokenizeError::InvalidHandle), Err(TokenizeError::InvalidHandle)) => true,
            (Err(TokenizeError::Analysis(e)), Err(TokenizeError::Analysis(f))) => {
                certainty::is_sound(dicts[handle].model()) ==> e.model() == f.model()
            },
            _ => false,
        },
{
    if handle != freed && dicts.dom().contains(handle) {
        let m = dicts[handle].model();
        let t = TextModel { chars: text, ranges: m.grammar.ranges };
        let mode = mode::mode_numbered(mode);
        let x = analysis_behind(m, text, mode, before);
        let y = analysis_behind(m, text, mode, after);
        certainty::law_equal_calls_agree(m, t, mode, x, y);
        if let (Ok(p), Ok(q)) = (before, after) {
            assert forall|k: int| 0 <= k < p@.len() implies same_row(
                #[trigger] p@[k],
                #[trigger] q@[k],
            ) by {
                assert(is_row(p@[k], x->Ok_0.words()[k]));
                assert(is_row(q@[k], y->Ok_0.words()[k]));
            }
        }
    }
}

/// With a handle that was never given out, no text can be analysed.
pub proof fn law_handles_never_given_out_are_invalid(
    registry: Registry,
    handles: Handles,
    handle: u32,
    text: Seq<char>,
    mode: u8,
    res: Result<Vec<(String, String, String)>, TokenizeError>,
)
    requires
        registry.takes_from(handles),
        !handles.gave(handle),
        rows_outcome(registry@, handle, text, mode, res),
    ensures
        res matches Err(TokenizeError::InvalidHandle),
{
}

/// A row has the surface of its word, the reading of the word or, where the record leaves that
/// empty, the surface in the record, and the first text of the part of speech.
pub proof fn law_row_has_the_texts_of_its_word(
    rows: Seq<(String, String, String)>,
    words: Seq<MorphemeModel>,
    k: int,
)
    requires
        are_rows(rows, words),
        0 <= k < words.len(),
    ensures
        rows.len() == words.len(),
        rows[k].0@ == words[k].surface,
        words[k].info.reading_form.len() > 0 ==> rows[k].1@ == words[k].info.reading_form,
        words[k].info.reading_form.len() == 0 ==> rows[k].1@ == words[k].info.surface,
        words[k].pos.len() > 0 ==> rows[k].2@ == words[k].pos[0],
        words[k].pos.len() == 0 ==> rows[k].2@.len() == 0,
{
    assert(is_row(rows[k], words[k]));
}

/// The rows of a text stand for the words of an analysis of that text with the dictionary that has
/// the handle: in short units for the number zero, in middle units for one, and in the longest
/// ones for every other number.
pub proof fn law_rows_stand_for_an_analysis(
    dicts: Map<u32, LoadedDictionary>,
    handle: u32,
    text: Seq<char>,
    mode: u8,
    rows: Vec<(String, String, String)>,
) -> (list: MorphemeList)
    requires
        rows_outcome(dicts, handle, text, mode, Ok(rows)),
    ensures
        dicts.dom().contains(handle),
        list.text().chars == text,
        list.text().ranges == dicts[handle].model().grammar.ranges,
        mode == 0 ==> list.is_analysis(dicts[handle].model(), Mode::A),
        mode == 1 ==> list.is_analysis(dicts[handle].model(), Mode::B),
        mode >= 2 ==> list.is_analysis(dicts[handle].model(), Mode::C),
        are_rows(rows@, list.words()),
{
    let m = dicts[handle].model();
    let numbered = mode::mode_numbered(mode);
    choose|list: MorphemeList| #[trigger]
        analysed(m, text, numbered, Ok(list)) && are_rows(rows@, list.words())
}

/// An analysis that rows or an error may stem from.
spec fn analysis_behind(
    m: LoadedModel,
    text: Seq<char>,
    mode: Mode,
    res: Result<Vec<(String, String, String)>, TokenizeError>,
) -> SudachiResult<MorphemeList> {
    match res {
        Ok(rows) => Ok(
            choose|list: MorphemeList| #[trigger]
                analysed(m, text, mode, Ok(list)) && are_rows(rows@, list.words()),
        ),
        Err(TokenizeError::Analysis(e)) => Err(e),
        Err(TokenizeError::InvalidHandle) => Err(SudachiError::InvalidDictionaryGrammar),
    }
}

/// Numbers from two on mean the longest units.
pub proof fn law_numbers_from_two_mean_longest_units(
    dicts: Map<u32, LoadedDictionary>,
    handle: u32,
    text: Seq<char>,
    mode: u8,
    res: Result<Vec<(String, String, String)>, TokenizeError>,
)
    requires
        mode >= 2,
    ensures
        rows_outcome(dicts, handle, text, mode, res) == rows_outcome(dicts, handle, text, 2, res),
{
}

/// The handle that is given out after a handle: handles begin anew behind the last one.
pub open spec fn following(handle: u32) -> u32 {
    if handle == u32::MAX {
        0
    } else {
        (handle + 1) as u32
    }
}

/// The handles that have yet to be given out. Several registries may take theirs from here.
pub struct Handles {
    next: u32,
    given: Ghost<nat>,
}

impl Handles {
    /// The handle that is given out next.
    pub closed spec fn next_handle(self) -> u32 {
        self.next
    }

    /// Number of handles that were given out so far.
    pub closed spec fn given(self) -> nat {
        self.given@
    }

    /// Handles are given out in turn, beginning with one.
    pub closed spec fn wf(self) -> bool {
        self.given@ < u32::MAX ==> self.next == self.given@ + 1
    }

    /// Whether a handle may have been given out.
    pub open spec fn gave(self, handle: u32) -> bool {
        self.given() < u32::MAX ==> 1 <= handle <= self.given()
    }

    /// All handles.
    pub fn new() -> (handles: Handles)
        ensures
            handles.wf(),
            handles.next_handle() == 1,
            handles.given() == 0,
    {
        Handles { next: 1, given: Ghost(0) }
    }

    /// Gives out a handle. Handles are not given out twice before all have been given out.
    pub fn take(&mut self) -> (handle: u32)
        requires
            old(self).wf(),
        ensures
            final(self).wf(),
            handle == old(self).next_handle(),
            final(self).next_handle() == following(handle),
            final(self).given() == old(self).given() + 1,
            old(self).given() < u32::MAX ==> handle == old(self).given() + 1,
    {
        let handle: u32 = self.next;
        self.next = if handle == u32::MAX {
            0
        } else {
            handle + 1
        };
        self.given = Ghost(self.given@ + 1);
        handle
    }
}

/// Dictionaries that are named by handles.
pub struct Registry<'a> {
    dicts: HashMap<u32, LoadedDictionary<'a>>,
}

impl<'a> Registry<'a> {
    /// The dictionaries by their handles.
    pub closed spec fn view(self) -> Map<u32, LoadedDictionary<'a>> {
        self.dicts@
    }

    /// The dictionaries are complete.
    pub closed spec fn wf(self) -> bool {
        forall|handle: u32| #[trigger]
            self.dicts@.dom().contains(handle) ==> self.dicts@[handle].wf()
    }

    /// The handles of the dictionaries were given out by `handles`.
    pub open spec fn takes_from(self, handles: Handles) -> bool {
        forall|handle: u32| #[trigger] self@.dom().contains(handle) ==> handles.gave(handle)
    }

    /// No dictionaries.
    pub fn new() -> (registry: Registry<'a>)
        ensures
            registry.wf(),
            registry@ == Map::<u32, LoadedDictionary<'a>>::empty(),
    {
        Registry { dicts: HashMap::new() }
    }

    /// Gives a handle to a dictionary, which is no handle of another one unless all handles have
    /// been given out.
    pub fn insert(&mut self, handles: &mut Handles, dict: LoadedDictionary<'a>) -> (handle: u32)
        requires
            old(self).wf(),
            old(handles).wf(),
            old(self).takes_from(*old(handles)),
            dict.wf(),
        ensures
            final(self).wf(),
            final(handles).wf(),
            final(self).takes_from(*final(handles)),
            handle == old(handles).next_handle(),
            final(self)@ == old(self)@.insert(handle, dict),
            final(handles).next_handle() == following(handle),
            final(handles).given() == old(handles).given() + 1,
            old(handles).given() < u32::MAX ==> !old(self)@.dom().contains(handle),
    {
        let ghost before = self@;
        let handle: u32 = handles.take();
        self.dicts.insert(handle, dict);
        assert forall|other: u32| #[trigger] self@.dom().contains(other) implies handles.gave(
            other,
        ) by {
            if other != handle {
                assert(before.dom().contains(other));
            }
        }
        handle
    }

    /// Loads a compressed dictionary, with the categories of characters that a definition gives,
    /// and gives it a handle.
    pub fn load_dictionary(
        &mut self,
        handles: &mut Handles,
        xdic_bytes: &'a [u8],
        char_def: &[u8],
        settings: OovSettings,
        chunk_size: usize,
    ) -> (res: Result<u32, LoadError>)
        requires
            old(self).wf(),
            old(handles).wf(),
            old(self).takes_from(*old(handles)),
        ensures
            final(self).wf(),
            final(handles).wf(),
            final(self).takes_from(*final(handles)),
            res is Err ==> final(self)@ == old(self)@ && *final(handles) == *old(handles),
            old(handles).given() < u32::MAX && res is Ok ==> !old(self)@.dom().contains(res->Ok_0),
            match character_category::definition_from(char_def@, 0, 0, Seq::empty()) {
                Err(line) => res matches Err(LoadError::Rejected(e)) && e.model()
                    == crate::frontend::tokenizer::definition_error(line),
                Ok(ranges) => match res {
                    Ok(handle) => {
                        &&& handle == old(handles).next_handle()
                        &&& final(self)@.dom().contains(handle)
                        &&& final(self)@ == old(self)@.insert(handle, final(self)@[handle])
                        &&& final(handles).given() == old(handles).given() + 1
                        &&& final(handles).next_handle() == following(handle)
                        &&& xdic::loads_as(
                            xdic_bytes@,
                            ranges,
                            settings,
                            chunk_size as nat,
                            final(self)@[handle].model(),
                        )
                    },
                    Err(LoadError::Rejected(e)) => xdic::load_fails(
                        xdic_bytes@,
                        ranges,
                        settings,
                        chunk_size as nat,
                        e.model(),
                    ),
                    Err(LoadError::CutOff) => !xdic::loadable(
                        xdic_bytes@,
                        settings,
                        chunk_size as nat,
                    ),
                },
            },
    {
        let char_cat: CharacterCategory = match CharacterCategory::from_bytes(char_def) {
            Ok(char_cat) => char_cat,
            Err(e) => {
                return Err(LoadError::Rejected(e));
            },
        };
        match LoadedDictionary::checked_from_xdic(xdic_bytes, char_cat, settings, chunk_size) {
            Some(Ok(dict)) => Ok(self.insert(handles, dict)),
            Some(Err(e)) => Err(LoadError::Rejected(e)),
            None => Err(LoadError::CutOff),
        }
    }

    /// Analyses a text with the dictionary that has the handle, in the units of the mode with the
    /// given number.
    pub fn tokenize(&self, handle: u32, text: &str, mode: u8) -> (res: Result<
        Vec<(String, String, String)>,
        TokenizeError,
    >)
        requires
            self.wf(),
        ensures
            rows_outcome(self@, handle, text@, mode, res),
    {
        let mode: Mode = Mode::from_number(mode);
        let dict: &LoadedDictionary<'a> = match self.dicts.get(&handle) {
            Some(dict) => dict,
            None => {
                return Err(TokenizeError::InvalidHandle);
            },
        };
        assert(dict == self@[handle] && self@.dom().contains(handle));
        match tokenizer::tokenize(dict, text, mode) {
            Ok(list) => {
                assert(analysed(dict.model(), text@, mode, Ok(list)));
                Ok(rows_of(&list))
            },
            Err(e) => Err(TokenizeError::Analysis(e)),
        }
    }

    /// Gives up the dictionary that has the handle, if one has it.
    pub fn free_dictionary(&mut self, handle: u32)
        requires
            old(self).wf(),
        ensures
            final(self).wf(),
            final(self)@ == old(self)@.remove(handle),
    {
        let ghost before = self.dicts@;
        let _freed = self.dicts.remove(&handle);
        assert(self.dicts@ =~= before.remove(handle));
    }
}

} // verus!
