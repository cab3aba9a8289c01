//! Texts to be analysed.

use vstd::prelude::*;
use vstd::utf8;

use crate::dic::category_type;
use crate::dic::category_type::CategoryType;
use crate::dic::character_category;
use crate::dic::character_category::{CategoryRange, CharacterCategory};
use crate::error;
use crate::error::{SudachiError, SudachiResult};

verus! {

/// Number of bytes that a text may have.
pub const MAX_LENGTH: usize = 49149;

/// Number of bytes of a character.
pub open spec fn char_width(c: char) -> nat {
    let code = c as u32;
    if code < 0x80 {
        1
    } else if code < 0x800 {
        2
    } else if code < 0x1_0000 {
        3
    } else {
        4
    }
}

/// Where character `i` begins among the bytes of a text.
pub open spec fn byte_offset(chars: Seq<char>, i: nat) -> nat
    decreases i,
{
    if i == 0 {
        0
    } else {
        byte_offset(chars, (i - 1) as nat) + char_width(chars[i - 1])
    }
}

/// The first character from `i` on that begins at or behind byte `b`, if it begins there.
pub open spec fn char_from(chars: Seq<char>, b: nat, i: nat) -> Option<nat>
    decreases chars.len() - i,
{
    if byte_offset(chars, i) == b {
        Some(i)
    } else if byte_offset(chars, i) > b || i >= chars.len() {
        None
    } else {
        char_from(chars, b, i + 1)
    }
}

/// A text with the categories of its characters.
pub struct TextModel {
    pub chars: Seq<char>,
    pub ranges: Seq<CategoryRange>,
}

/// A set of categories with the given bits.
pub open spec fn category_bits(bits: u32) -> CategoryType {
    CategoryType { bits }
}

impl TextModel {
    /// The categories of character `i`.
    pub open spec fn category(self, i: int) -> CategoryType {
        character_category::categories_of(self.ranges, self.chars[i] as u32)
    }

    /// The categories that all characters from `i` to `j` have.
    pub open spec fn common(self, i: int, j: int) -> CategoryType
        decreases j - i,
    {
        if j <= i {
            self.category(i)
        } else {
            self.common(i, j - 1).common(self.category(j))
        }
    }

    /// The end of the run that begins at character `i`, known to reach up to `j`: the characters
    /// of a run share a category.
    pub open spec fn run_from(self, i: int, j: int) -> int
        decreases self.chars.len() - j,
    {
        if j >= self.chars.len() || self.common(i, j).bits == 0 {
            j
        } else {
            self.run_from(i, j + 1)
        }
    }

    /// The end of the run that character `i` lies in, where `start` begins a run.
    pub open spec fn run_end_from(self, start: int, i: int) -> int
        decreases self.chars.len() - start,
        via Self::run_end_decreases
    {
        let end = self.run_from(start, start + 1);
        if start < 0 || start >= self.chars.len() || i < end {
            end
        } else {
            self.run_end_from(end, i)
        }
    }

    #[via_fn]
    proof fn run_end_decreases(self, start: int, i: int) {
        if 0 <= start < self.chars.len() {
            self.lemma_run_from(start, start + 1);
        }
    }

    /// A run goes on to where it is known to reach at least, and ends within the text.
    pub proof fn lemma_run_from(self, i: int, j: int)
        requires
            j <= self.chars.len(),
        ensures
            j <= self.run_from(i, j) <= self.chars.len(),
        decreases self.chars.len() - j,
    {
        if j < self.chars.len() && self.common(i, j).bits != 0 {
            self.lemma_run_from(i, j + 1);
        }
    }

    /// The end of the run that character `i` lies in. The text is cut into runs from its
    /// beginning.
    pub open spec fn run_end(self, i: int) -> int {
        self.run_end_from(0, i)
    }

    /// A character lies before the end of its run, which lies within the text.
    pub proof fn lemma_run_end(self, i: int)
        requires
            0 <= i < self.chars.len(),
        ensures
            i < self.run_end(i) <= self.chars.len(),
    {
        self.lemma_run_end_from(0, i);
    }

    /// A character lies before the end of its run, which lies within the text.
    proof fn lemma_run_end_from(self, start: int, i: int)
        requires
            0 <= start <= i < self.chars.len(),
        ensures
            i < self.run_end_from(start, i) <= self.chars.len(),
        decreases self.chars.len() - start,
    {
        self.lemma_run_from(start, start + 1);
        let end = self.run_from(start, start + 1);
        if end <= i {
            self.lemma_run_end_from(end, i);
        }
    }

    /// Whether character `i` lets no word begin at the next one.
    pub open spec fn blocks_next(self, i: int) -> bool
        decreases i + 1,
    {
        i >= 0 && !self.blocks_next(i - 1) && self.category(i).meets(
            category_bits(category_type::NOOOVBOW2),
        )
    }

    /// Whether a word may begin at character `i`.
    pub open spec fn can_begin(self, i: int) -> bool {
        let own = self.category(i);
        &&& !self.blocks_next(i - 1)
        &&& !own.meets(category_bits(category_type::NOOOVBOW2))
        &&& !own.meets(category_bits(category_type::NOOOVBOW))
        &&& own.meets(category_bits(category_type::NON_STARTING)) && i > 0 ==> !own.meets(
            self.category(i - 1),
        )
    }
}

/// Offsets grow from character to character.
pub proof fn lemma_byte_offset_grows(chars: Seq<char>, i: nat, j: nat)
    requires
        i <= j,
    ensures
        byte_offset(chars, i) + (j - i) <= byte_offset(chars, j),
    decreases j,
{
    if i < j {
        lemma_byte_offset_grows(chars, i, (j - 1) as nat);
    }
}

/// The character that begins at a byte begins there.
pub proof fn lemma_char_from(chars: Seq<char>, b: nat, i: nat)
    requires
        i <= chars.len(),
    ensures
        char_from(chars, b, i) matches Some(j) ==> byte_offset(chars, j) == b && i <= j
            <= chars.len(),
    decreases chars.len() - i,
{
    if byte_offset(chars, i) < b && i < chars.len() {
        lemma_char_from(chars, b, i + 1);
    }
}

/// The offset behind the last character is the number of bytes of the text.
pub proof fn lemma_byte_offset_is_length(chars: Seq<char>)
    ensures
        utf8::encode_utf8(chars).len() == byte_offset(chars, chars.len()),
    decreases chars.len(),
{
    if chars.len() > 0 {
        lemma_byte_offset_is_length(chars.drop_first());
        lemma_byte_offset_shift(chars, chars.len());
        utf8::char_is_scalar(chars[0]);
    }
}

/// Characters behind a place do not change where it lies among the bytes.
proof fn lemma_byte_offset_local(chars: Seq<char>, n: nat, i: nat)
    requires
        i <= n <= chars.len(),
    ensures
        byte_offset(chars.take(n as int), i) == byte_offset(chars, i),
    decreases i,
{
    if i > 0 {
        lemma_byte_offset_local(chars, n, (i - 1) as nat);
    }
}

/// A character begins behind as many bytes as the UTF-8 form of the characters before it has.
pub proof fn law_character_begins_behind_the_bytes_before(chars: Seq<char>, i: nat)
    requires
        i <= chars.len(),
    ensures
        byte_offset(chars, i) == utf8::encode_utf8(chars.take(i as int)).len(),
{
    lemma_byte_offset_local(chars, i, i);
    lemma_byte_offset_is_length(chars.take(i as int));
}

/// The offset of a character is the width of the first one and the offset behind it.
proof fn lemma_byte_offset_shift(chars: Seq<char>, i: nat)
    requires
        1 <= i <= chars.len(),
    ensures
        byte_offset(chars, i) == char_width(chars[0]) + byte_offset(
            chars.drop_first(),
            (i - 1) as nat,
        ),
    decreases i,
{
    if i > 1 {
        lemma_byte_offset_shift(chars, (i - 1) as nat);
        assert(chars.drop_first()[i - 2] == chars[i - 1]);
    } else {
        assert(byte_offset(chars, 0) == 0);
    }
}

/// A text with what the analysis needs to know of its characters.
pub struct InputText {
    text: String,
    chars: Vec<char>,
    offsets: Vec<usize>,
    categories: Vec<CategoryType>,
    run_ends: Vec<usize>,
    begins: Vec<bool>,
    ranges: Ghost<Seq<CategoryRange>>,
}

/// The characters of a text.
pub fn chars_of(text: &str) -> (chars: Vec<char>)
    ensures
        chars@ == text@,
{
    let mut chars: Vec<char> = Vec::new();
    for c in it: text.chars()
        invariant
            it.seq() == text@,
            chars@ == it.seq().take(it.index()),
    {
        chars.push(c);
    }
    chars
}

/// Number of bytes of a character.
fn width_of(c: char) -> (n: usize)
    ensures
        n == char_width(c),
        1 <= n <= 4,
{
    let code: u32 = c as u32;
    if code < 0x80 {
        1
    } else if code < 0x800 {
        2
    } else if code < 0x1_0000 {
        3
    } else {
        4
    }
}

impl InputText {
    /// The text and the ranges of categories.
    pub closed spec fn model(self) -> TextModel {
        TextModel { chars: self.chars@, ranges: self.ranges@ }
    }

    /// The characters of the text.
    pub open spec fn chars(self) -> Seq<char> {
        self.model().chars
    }

    /// What is known of the characters is right.
    pub closed spec fn wf(self) -> bool {
        let m = self.model();
        let n = self.chars@.len();
        &&& self.text@ == self.chars@
        &&& self.offsets@.len() == n + 1
        &&& self.categories@.len() == n
        &&& self.run_ends@.len() == n
        &&& self.begins@.len() == n
        &&& utf8::encode_utf8(self.chars@).len() <= MAX_LENGTH
        &&& forall|i: int|
            0 <= i <= n ==> #[trigger] self.offsets@[i] == byte_offset(self.chars@, i as nat)
        &&& forall|i: int| 0 <= i < n ==> #[trigger] self.categories@[i] == m.category(i)
        &&& forall|i: int| 0 <= i < n ==> #[trigger] self.run_ends@[i] == m.run_end(i)
        &&& forall|i: int| 0 <= i < n ==> #[trigger] self.begins@[i] == m.can_begin(i)
    }

    /// The text has no more characters than bytes, and not too many of these.
    pub proof fn lemma_length(self)
        requires
            self.wf(),
        ensures
            self.chars().len() <= byte_offset(self.chars(), self.chars().len()) <= MAX_LENGTH,
            utf8::encode_utf8(self.chars()).len() == byte_offset(
                self.chars(),
                self.chars().len(),
            ),
    {
        lemma_byte_offset_is_length(self.chars@);
        lemma_byte_offset_grows(self.chars@, 0, self.chars@.len());
    }

    /// Prepares a text. Fails where it is too long.
    pub fn new(text: &str, categories: &CharacterCategory) -> (res: SudachiResult<InputText>)
        ensures
            if utf8::encode_utf8(text@).len() > MAX_LENGTH {
                res matches Err(e) && e.model() == error::ErrorModel::InputTooLong(
                    utf8::encode_utf8(text@).len() as usize,
                    MAX_LENGTH,
                )
            } else {
                res matches Ok(input) && input.wf() && input.model() == (TextModel {
                    chars: text@,
                    ranges: categories.ranges(),
                })
            },
    {
        let bytes = text.as_bytes();
        if bytes.len() > MAX_LENGTH {
            return Err(SudachiError::InputTooLong(bytes.len(), MAX_LENGTH));
        }
        let chars: Vec<char> = chars_of(text);
        proof {
            lemma_byte_offset_is_length(chars@);
            lemma_byte_offset_grows(chars@, 0, chars@.len());
        }
        let offsets: Vec<usize> = offsets_of(&chars);
        let types: Vec<CategoryType> = categories_of(&chars, categories);
        let ghost m = TextModel { chars: chars@, ranges: categories.ranges() };
        let run_ends: Vec<usize> = run_ends_of(&types, Ghost(m));
        let begins: Vec<bool> = begins_of(&types, Ghost(m));
        Ok(
            InputText {
                text: text.to_owned(),
                chars,
                offsets,
                categories: types,
                run_ends,
                begins,
                ranges: Ghost(categories.ranges()),
            },
        )
    }

    /// Number of characters.
    pub fn len(&self) -> (n: usize)
        ensures
            n == self.chars().len(),
    {
        self.chars.len()
    }

    /// The bytes of the text.
    pub fn as_bytes(&self) -> (bytes: &[u8])
        requires
            self.wf(),
        ensures
            bytes@ == utf8::encode_utf8(self.chars()),
    {
        self.text.as_str().as_bytes()
    }

    /// Where character `i` begins among the bytes of the text.
    pub fn offset(&self, i: usize) -> (offset: usize)
        requires
            self.wf(),
            i <= self.chars().len(),
        ensures
            offset == byte_offset(self.chars(), i as nat),
    {
        self.offsets[i]
    }

    /// The character from `i` on that begins at byte `b`, if one does.
    pub fn char_at(&self, b: usize, i: usize) -> (at:
        Option<usize>)
        requires
            self.wf(),
            i <= self.chars().len(),
        ensures
            match char_from(self.chars(), b as nat, i as nat) {
                Some(j) => at matches Some(got) && got == j && i <= got <= self.chars().len(),
                None => at is None,
            },
    {
        let mut j: usize = i;
        while j < self.chars.len() && self.offsets[j] < b
            invariant
                i <= j <= self.chars@.len(),
                self.wf(),
                char_from(self.chars@, b as nat, i as nat) == char_from(
                    self.chars@,
                    b as nat,
                    j as nat,
                ),
            decreases self.chars@.len() - j,
        {
            j = j + 1;
        }
        if self.offsets[j] == b {
            Some(j)
        } else {
            None
        }
    }

    /// The categories of character `i`.
    pub fn category(&self, i: usize) -> (category:
        CategoryType)
        requires
            self.wf(),
            i < self.chars().len(),
        ensures
            category == self.model().category(i as int),
    {
        self.categories[i]
    }

    /// The end of the run that character `i` lies in.
    pub fn run_end(&self, i: usize) -> (end: usize)
        requires
            self.wf(),
            i < self.chars().len(),
        ensures
            end == self.model().run_end(i as int),
    {
        self.run_ends[i]
    }

    /// Whether a word may begin at character `i`.
    pub fn can_begin(&self, i: usize) -> (can: bool)
        requires
            self.wf(),
            i < self.chars().len(),
        ensures
            can == self.model().can_begin(i as int),
    {
        self.begins[i]
    }

    /// The characters from `begin` up to `end` as a text.
    pub fn slice(&self, begin: usize, end: usize) -> (text: String)
        requires
            begin <= end <= self.chars().len(),
        ensures
            text@ == self.chars().subrange(begin as int, end as int),
    {
        let mut text: String = String::new();
        let mut i: usize = begin;
        while i < end
            invariant
                begin <= i <= end <= self.chars@.len(),
                text@ =~= self.chars@.subrange(begin as int, i as int),
            decreases end - i,
        {
            text.push(self.chars[i]);
            i = i + 1;
        }
        text
    }
}

/// Where each character begins, and where the last one ends.
fn offsets_of(chars: &Vec<char>) -> (offsets: Vec<usize>)
    requires
        byte_offset(chars@, chars@.len()) <= MAX_LENGTH,
    ensures
        offsets@.len() == chars@.len() + 1,
        forall|i: int|
            0 <= i <= chars@.len() ==> #[trigger] offsets@[i] == byte_offset(chars@, i as nat),
{
    let mut offsets: Vec<usize> = Vec::new();
    offsets.push(0);
    let mut at: usize = 0;
    let mut i: usize = 0;
    while i < chars.len()
        invariant
            i <= chars@.len(),
            at == byte_offset(chars@, i as nat),
            byte_offset(chars@, chars@.len()) <= MAX_LENGTH,
            offsets@.len() == i + 1,
            forall|k: int| 0 <= k <= i ==> #[trigger] offsets@[k] == byte_offset(chars@, k as nat),
        decreases chars@.len() - i,
    {
        proof {
            lemma_byte_offset_grows(chars@, (i + 1) as nat, chars@.len());
        }
        at = at + width_of(chars[i]);
        offsets.push(at);
        i = i + 1;
    }
    offsets
}

/// The categories of each character.
fn categories_of(chars: &Vec<char>, categories: &CharacterCategory) -> (types: Vec<CategoryType>)
    ensures
        types@.len() == chars@.len(),
        forall|i: int|
            0 <= i < chars@.len() ==> #[trigger] types@[i] == character_category::categories_of(
                categories.ranges(),
                chars@[i] as u32,
            ),
{
    let mut types: Vec<CategoryType> = Vec::new();
    let mut i: usize = 0;
    while i < chars.len()
        invariant
            i <= chars@.len(),
            types@.len() == i,
            forall|k: int|
                0 <= k < i ==> #[trigger] types@[k] == character_category::categories_of(
                    categories.ranges(),
                    chars@[k] as u32,
                ),
        decreases chars@.len() - i,
    {
        types.push(categories.get_category_types(chars[i]));
        i = i + 1;
    }
    types
}

/// For each character the end of the run that it lies in.
fn run_ends_of(types: &Vec<CategoryType>, Ghost(m): Ghost<TextModel>) -> (ends: Vec<usize>)
    requires
        types@.len() == m.chars.len(),
        forall|i: int| 0 <= i < types@.len() ==> #[trigger] types@[i] == m.category(i),
    ensures
        ends@.len() == types@.len(),
        forall|i: int| 0 <= i < types@.len() ==> #[trigger] ends@[i] == m.run_end(i),
{
    let n: usize = types.len();
    let mut ends: Vec<usize> = Vec::new();
    let mut start: usize = 0;
    while start < n
        invariant
            start <= n == types@.len(),
            types@.len() == m.chars.len(),
            forall|i: int| 0 <= i < types@.len() ==> #[trigger] types@[i] == m.category(i),
            ends@.len() == start,
            forall|i: int| 0 <= i < start ==> #[trigger] ends@[i] == m.run_end(i),
            forall|i: int|
                start <= i < n ==> #[trigger] m.run_end(i) == m.run_end_from(start as int, i),
        decreases n - start,
    {
        let mut common: CategoryType = types[start];
        let mut end: usize = start + 1;
        while end < n && common.intersects(types[end])
            invariant
                start < end <= n == types@.len(),
                types@.len() == m.chars.len(),
                forall|i: int| 0 <= i < types@.len() ==> #[trigger] types@[i] == m.category(i),
                common == m.common(start as int, end - 1),
                m.run_from(start as int, start + 1) == m.run_from(start as int, end as int),
            decreases n - end,
        {
            common = common.intersection(types[end]);
            end = end + 1;
        }
        proof {
            assert(m.run_from(start as int, start + 1) == end);
        }
        let mut k: usize = start;
        while k < end
            invariant
                start <= k <= end <= n == types@.len(),
                n == m.chars.len(),
                start < n,
                ends@.len() == k,
                m.run_from(start as int, start + 1) == end,
                forall|i: int| 0 <= i < k ==> #[trigger] ends@[i] == m.run_end(i),
                forall|i: int|
                    start <= i < n ==> #[trigger] m.run_end(i) == m.run_end_from(start as int, i),
            decreases end - k,
        {
            assert(m.run_end(k as int) == m.run_end_from(start as int, k as int));
            ends.push(end);
            k = k + 1;
        }
        proof {
            assert forall|i: int| end <= i < n implies #[trigger] m.run_end(i) == m.run_end_from(
                end as int,
                i,
            ) by {
                assert(m.run_end(i) == m.run_end_from(start as int, i));
            }
        }
        start = end;
    }
    ends
}

/// For each character whether a word may begin at it.
fn begins_of(types: &Vec<CategoryType>, Ghost(m): Ghost<TextModel>) -> (begins: Vec<bool>)
    requires
        types@.len() == m.chars.len(),
        forall|i: int| 0 <= i < types@.len() ==> #[trigger] types@[i] == m.category(i),
    ensures
        begins@.len() == types@.len(),
        forall|i: int| 0 <= i < types@.len() ==> #[trigger] begins@[i] == m.can_begin(i),
{
    let mut begins: Vec<bool> = Vec::new();
    let mut blocked: bool = false;
    let mut i: usize = 0;
    while i < types.len()
        invariant
            i <= types@.len(),
            types@.len() == m.chars.len(),
            forall|k: int| 0 <= k < types@.len() ==> #[trigger] types@[k] == m.category(k),
            begins@.len() == i,
            blocked == m.blocks_next(i - 1),
            forall|k: int| 0 <= k < i ==> #[trigger] begins@[k] == m.can_begin(k),
        decreases types@.len() - i,
    {
        let own: CategoryType = types[i];
        assert(own == m.category(i as int));
        let blocks: bool = own.intersects(CategoryType::from_bits(category_type::NOOOVBOW2));
        let silent: bool = own.intersects(CategoryType::from_bits(category_type::NOOOVBOW));
        let letter: bool = own.intersects(CategoryType::from_bits(category_type::NON_STARTING));
        let can: bool = if blocked || blocks || silent {
            false
        } else if letter && i > 0 {
            assert(types@[i - 1] == m.category(i - 1));
            !own.intersects(types[i - 1])
        } else {
            true
        };
        begins.push(can);
        blocked = !blocked && blocks;
        i = i + 1;
    }
    begins
}

/// Characters share a category where each of them has it.
proof fn lemma_common_bit(t: TextModel, i: int, j: int, k: u32)
    requires
        i <= j,
        k < 32,
    ensures
        (t.common(i, j).bits >> k) & 1 == 1 <==> forall|p: int|
            i <= p <= j ==> ((#[trigger] t.category(p)).bits >> k) & 1 == 1,
    decreases j - i,
{
    if i < j {
        lemma_common_bit(t, i, j - 1, k);
        let a = t.common(i, j - 1).bits;
        let b = t.category(j).bits;
        assert(((a & b) >> k) & 1 == 1 <==> (a >> k) & 1 == 1 && (b >> k) & 1 == 1) by (bit_vector);
    }
}

/// All characters from `i` to `j` have category `k`.
pub open spec fn all_have(t: TextModel, i: int, j: int, k: u32) -> bool {
    k < 32 && forall|p: int| i <= p <= j ==> ((#[trigger] t.category(p)).bits >> k) & 1 == 1
}

/// Characters share some category where there is one that each of them has.
proof fn lemma_common_some(t: TextModel, i: int, j: int)
    requires
        i <= j,
    ensures
        t.common(i, j).bits != 0 <==> exists|k: u32| #[trigger] all_have(t, i, j, k),
{
    let bits = t.common(i, j).bits;
    if bits != 0 {
        assert(exists|k: u32| k < 32 && (bits >> k) & 1 == 1) by {
            lemma_some_bit(bits, 32);
        }
        let k = choose|k: u32| k < 32 && (bits >> k) & 1 == 1;
        lemma_common_bit(t, i, j, k);
        assert(all_have(t, i, j, k));
    }
    if exists|k: u32| #[trigger] all_have(t, i, j, k) {
        let k = choose|k: u32| #[trigger] all_have(t, i, j, k);
        lemma_common_bit(t, i, j, k);
        assert((0u32 >> k) & 1 == 0) by (bit_vector);
    }
}

/// Some bit of a number that is not zero is set.
proof fn lemma_some_bit(bits: u32, n: u32)
    requires
        bits != 0,
        n <= 32,
        n < 32 ==> bits < (1u32 << n),
    ensures
        exists|k: u32| k < 32 && (bits >> k) & 1 == 1,
    decreases n,
{
    if n == 0 {
        assert(bits < (1u32 << 0u32) ==> bits == 0) by (bit_vector);
    } else {
        let k = (n - 1) as u32;
        if (bits >> k) & 1 != 1 {
            assert(bits < (1u32 << k)) by (bit_vector)
                requires
                    (bits >> k) & 1 != 1,
                    n <= 32,
                    k == n - 1,
                    n < 32 ==> bits < (1u32 << n),
            ;
            lemma_some_bit(bits, k);
        }
    }
}

/// A run goes on as long as its characters share a category.
proof fn lemma_run_from_shares(t: TextModel, i: int, j: int)
    requires
        0 <= i < j <= t.chars.len(),
    ensures
        ({
            let end = t.run_from(i, j);
            &&& j <= end <= t.chars.len()
            &&& end > j ==> t.common(i, end - 1).bits != 0
            &&& end < t.chars.len() ==> t.common(i, end).bits == 0
        }),
    decreases t.chars.len() - j,
{
    if j < t.chars.len() && t.common(i, j).bits != 0 {
        lemma_run_from_shares(t, i, j + 1);
    }
}

/// `start` is where a text is cut: its beginning, or the end of a run.
pub open spec fn is_cut(t: TextModel, start: int) -> bool {
    start == 0 || exists|j: int| 0 <= j < start && #[trigger] t.run_end(j) == start
}

/// The run of a character begins at a cut before it.
proof fn lemma_run_of(t: TextModel, from: int, i: int) -> (start: int)
    requires
        0 <= from <= i < t.chars.len(),
        is_cut(t, from),
        t.run_end(i) == t.run_end_from(from, i),
        forall|p: int|
            from <= p < t.chars.len() ==> #[trigger] t.run_end(p) == t.run_end_from(from, p),
    ensures
        from <= start <= i,
        is_cut(t, start),
        t.run_end(i) == t.run_from(start, start + 1),
    decreases t.chars.len() - from,
{
    t.lemma_run_from(from, from + 1);
    let end = t.run_from(from, from + 1);
    if i < end {
        from
    } else {
        assert(t.run_end(from) == end);
        assert(is_cut(t, end));
        assert forall|p: int| end <= p < t.chars.len() implies #[trigger] t.run_end(p)
            == t.run_end_from(end, p) by {
            assert(t.run_end(p) == t.run_end_from(from, p));
        }
        lemma_run_of(t, end, i)
    }
}

/// A text is cut into runs from its beginning on. The run that a character lies in begins where
/// the text is cut; its characters share a category, and with the character behind it they share
/// none.
pub proof fn law_characters_of_a_run_share_a_category(t: TextModel, i: int) -> (start: int)
    requires
        0 <= i < t.chars.len(),
    ensures
        0 <= start <= i < t.run_end(i) <= t.chars.len(),
        is_cut(t, start),
        start + 1 < t.run_end(i) ==> exists|k: u32| #[trigger]
            all_have(t, start, t.run_end(i) - 1, k),
        t.run_end(i) < t.chars.len() ==> !exists|k: u32| #[trigger]
            all_have(t, start, t.run_end(i), k),
{
    let start = lemma_run_of(t, 0, i);
    let end = t.run_end(i);
    t.lemma_run_end(i);
    lemma_run_from_shares(t, start, start + 1);
    lemma_common_some(t, start, end - 1);
    lemma_common_some(t, start, end);
    start
}

/// Whether a word may begin at a character, by the bits of the categories: not behind a character
/// that lets none begin next, nor at characters marked so themselves, nor within Latin, Greek or
/// Cyrillic characters that go on from the one before. A character that lets none begin next
/// counts only where the one before did not do so.
pub proof fn law_where_words_may_begin(t: TextModel, i: int)
    requires
        0 <= i < t.chars.len(),
    ensures
        t.blocks_next(i) <==> t.category(i).bits & 0x1_0000 != 0 && (i == 0 || !t.blocks_next(
            i - 1,
        )),
        t.can_begin(i) <==> {
            &&& i == 0 || !t.blocks_next(i - 1)
            &&& t.category(i).bits & 0x1_0000 == 0
            &&& t.category(i).bits & 0x8000 == 0
            &&& i == 0 || t.category(i).bits & 0x620 == 0 || t.category(i).bits & t.category(
                i - 1,
            ).bits == 0
        },
{
}

} // verus!
