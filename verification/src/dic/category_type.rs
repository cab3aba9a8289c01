//! Categories of characters.

use vstd::prelude::*;

verus! {

/// A set of character categories, one bit for each.
#[derive(Debug, Clone, Copy, PartialEq, Eq, Structural)]
pub struct CategoryType {
    pub bits: u32,
}

/// The category of characters that are in no other
pub const DEFAULT: u32 = 0x1;

/// White space
pub const SPACE: u32 = 0x2;

/// Chinese characters
pub const KANJI: u32 = 0x4;

/// Symbols
pub const SYMBOL: u32 = 0x8;

/// Digits
pub const NUMERIC: u32 = 0x10;

/// Latin letters
pub const ALPHA: u32 = 0x20;

/// Hiragana
pub const HIRAGANA: u32 = 0x40;

/// Katakana
pub const KATAKANA: u32 = 0x80;

/// Chinese numerals
pub const KANJINUMERIC: u32 = 0x100;

/// Greek letters
pub const GREEK: u32 = 0x200;

/// Cyrillic letters
pub const CYRILLIC: u32 = 0x400;

/// Defined by the user
pub const USER1: u32 = 0x800;

/// Defined by the user
pub const USER2: u32 = 0x1000;

/// Defined by the user
pub const USER3: u32 = 0x2000;

/// Defined by the user
pub const USER4: u32 = 0x4000;

/// Characters at which no out-of-vocabulary word begins
pub const NOOOVBOW: u32 = 0x8000;

/// Characters at which no word begins, nor at the character behind
pub const NOOOVBOW2: u32 = 0x1_0000;

/// Number of categories.
pub const CATEGORY_COUNT: usize = 17;

/// Categories of characters with which words begin only behind a character of another category
pub const NON_STARTING: u32 = 0x620;

impl CategoryType {
    /// The set of the categories with the given bits.
    pub fn from_bits(bits: u32) -> (set: CategoryType)
        ensures
            set == (CategoryType { bits }),
    {
        CategoryType { bits }
    }

    /// The categories that are in both sets.
    pub open spec fn common(self, other: CategoryType) -> CategoryType {
        CategoryType { bits: self.bits & other.bits }
    }

    /// Whether some category is in both sets.
    pub open spec fn meets(self, other: CategoryType) -> bool {
        self.common(other).bits != 0
    }

    /// The categories that are in one of the sets.
    pub open spec fn joined(self, other: CategoryType) -> CategoryType {
        CategoryType { bits: self.bits | other.bits }
    }

    /// The categories that are in both sets.
    pub fn intersection(self, other: CategoryType) -> (set: CategoryType)
        ensures
            set == self.common(other),
    {
        CategoryType { bits: self.bits & other.bits }
    }

    /// Whether some category is in both sets.
    pub fn intersects(self, other: CategoryType) -> (met: bool)
        ensures
            met == self.meets(other),
    {
        self.bits & other.bits != 0
    }

    /// The categories that are in one of the sets.
    pub fn union(self, other: CategoryType) -> (set: CategoryType)
        ensures
            set == self.joined(other),
    {
        CategoryType { bits: self.bits | other.bits }
    }

    /// Whether the set has no category.
    pub fn is_empty(self) -> (empty: bool)
        ensures
            empty == (self.bits == 0),
    {
        self.bits == 0
    }
}

/// The name of the category of a bit number.
pub open spec fn category_name(k: int) -> Seq<char> {
    if k == 0 {
        "DEFAULT"@
    } else if k == 1 {
        "SPACE"@
    } else if k == 2 {
        "KANJI"@
    } else if k == 3 {
        "SYMBOL"@
    } else if k == 4 {
        "NUMERIC"@
    } else if k == 5 {
        "ALPHA"@
    } else if k == 6 {
        "HIRAGANA"@
    } else if k == 7 {
        "KATAKANA"@
    } else if k == 8 {
        "KANJINUMERIC"@
    } else if k == 9 {
        "GREEK"@
    } else if k == 10 {
        "CYRILLIC"@
    } else if k == 11 {
        "USER1"@
    } else if k == 12 {
        "USER2"@
    } else if k == 13 {
        "USER3"@
    } else if k == 14 {
        "USER4"@
    } else if k == 15 {
        "NOOOVBOW"@
    } else {
        "NOOOVBOW2"@
    }
}

/// The bit of the category with the given name among the categories from `k` on.
pub open spec fn named_from(name: Seq<char>, k: int) -> Option<u32>
    decreases CATEGORY_COUNT - k,
{
    if k >= CATEGORY_COUNT {
        None
    } else if name == category_name(k) {
        Some(1u32 << (k as u32))
    } else {
        named_from(name, k + 1)
    }
}

/// The name of the category of a bit number.
fn name_of(k: usize) -> (name: &'static str)
    ensures
        name@ == category_name(k as int),
{
    match k {
        0 => "DEFAULT",
        1 => "SPACE",
        2 => "KANJI",
        3 => "SYMBOL",
        4 => "NUMERIC",
        5 => "ALPHA",
        6 => "HIRAGANA",
        7 => "KATAKANA",
        8 => "KANJINUMERIC",
        9 => "GREEK",
        10 => "CYRILLIC",
        11 => "USER1",
        12 => "USER2",
        13 => "USER3",
        14 => "USER4",
        15 => "NOOOVBOW",
        _ => "NOOOVBOW2",
    }
}

impl CategoryType {
    /// The category with the given name, if there is one.
    pub fn from_name(name: &String) -> (set: Option<CategoryType>)
        ensures
            match named_from(name@, 0) {
                Some(bits) => set == Some(CategoryType { bits }),
                None => set is None,
            },
    {
        let mut k: usize = 0;
        while k < CATEGORY_COUNT
            invariant
                k <= CATEGORY_COUNT,
                named_from(name@, 0) == named_from(name@, k as int),
            decreases CATEGORY_COUNT - k,
        {
            let candidate: String = name_of(k).to_owned();
            if *name == candidate {
                return Some(CategoryType { bits: 1u32 << (k as u32) });
            }
            k = k + 1;
        }
        None
    }
}

/// Each category has its name and its bit.
pub proof fn law_names_of_categories()
    ensures
        named_from("DEFAULT"@, 0) == Some(0x1u32),
        named_from("SPACE"@, 0) == Some(0x2u32),
        named_from("KANJI"@, 0) == Some(0x4u32),
        named_from("SYMBOL"@, 0) == Some(0x8u32),
        named_from("NUMERIC"@, 0) == Some(0x10u32),
        named_from("ALPHA"@, 0) == Some(0x20u32),
        named_from("HIRAGANA"@, 0) == Some(0x40u32),
        named_from("KATAKANA"@, 0) == Some(0x80u32),
        named_from("KANJINUMERIC"@, 0) == Some(0x100u32),
        named_from("GREEK"@, 0) == Some(0x200u32),
        named_from("CYRILLIC"@, 0) == Some(0x400u32),
        named_from("USER1"@, 0) == Some(0x800u32),
        named_from("USER2"@, 0) == Some(0x1000u32),
        named_from("USER3"@, 0) == Some(0x2000u32),
        named_from("USER4"@, 0) == Some(0x4000u32),
        named_from("NOOOVBOW"@, 0) == Some(0x8000u32),
        named_from("NOOOVBOW2"@, 0) == Some(0x1_0000u32),
{
    reveal_strlit("DEFAULT");
    reveal_strlit("SPACE");
    reveal_strlit("KANJI");
    reveal_strlit("SYMBOL");
    reveal_strlit("NUMERIC");
    reveal_strlit("ALPHA");
    reveal_strlit("HIRAGANA");
    reveal_strlit("KATAKANA");
    reveal_strlit("KANJINUMERIC");
    reveal_strlit("GREEK");
    reveal_strlit("CYRILLIC");
    reveal_strlit("USER1");
    reveal_strlit("USER2");
    reveal_strlit("USER3");
    reveal_strlit("USER4");
    reveal_strlit("NOOOVBOW");
    reveal_strlit("NOOOVBOW2");
    reveal_with_fuel(named_from, 18);
    assert(1u32 << 0u32 == 0x1 && 1u32 << 1u32 == 0x2 && 1u32 << 2u32 == 0x4 && 1u32 << 3u32 == 0x8
        && 1u32 << 4u32 == 0x10 && 1u32 << 5u32 == 0x20 && 1u32 << 6u32 == 0x40 && 1u32 << 7u32
        == 0x80 && 1u32 << 8u32 == 0x100 && 1u32 << 9u32 == 0x200 && 1u32 << 10u32 == 0x400 && 1u32
        << 11u32 == 0x800 && 1u32 << 12u32 == 0x1000 && 1u32 << 13u32 == 0x2000 && 1u32 << 14u32
        == 0x4000 && 1u32 << 15u32 == 0x8000 && 1u32 << 16u32 == 0x1_0000) by (bit_vector);
    assert("DEFAULT"@[0] == 'D' && "SPACE"@[1] == 'P' && "SYMBOL"@[1] == 'Y' && "KANJI"@[1] == 'A');
    assert("NUMERIC"@[0] == 'N' && "ALPHA"@[0] == 'A' && "HIRAGANA"@[0] == 'H');
    assert("KATAKANA"@[0] == 'K' && "GREEK"@[0] == 'G' && "CYRILLIC"@[0] == 'C');
    assert("SPACE"@[0] == 'S' && "KANJI"@[0] == 'K' && "NOOOVBOW"@[0] == 'N');
    assert("USER1"@[4] == '1' && "USER2"@[4] == '2' && "USER3"@[4] == '3' && "USER4"@[4] == '4');
    assert("USER1"@[0] == 'U' && "USER2"@[0] == 'U' && "USER3"@[0] == 'U' && "USER4"@[0] == 'U');
    assert("KATAKANA"@.len() == 8 && "KANJI"@.len() == 5 && "KANJINUMERIC"@.len() == 12);
    assert("KATAKANA"@[0] == 'K' && "KANJINUMERIC"@[0] == 'K' && "KATAKANA"@[2] == 'T');
    assert("KANJINUMERIC"@[2] == 'N' && "KANJI"@[2] == 'N');
    assert("NOOOVBOW"@.len() == 8 && "NOOOVBOW2"@.len() == 9 && "NUMERIC"@.len() == 7);
    assert("NOOOVBOW"@[1] == 'O' && "NOOOVBOW2"@[0] == 'N' && "NOOOVBOW2"@[1] == 'O');
    assert("NUMERIC"@[1] == 'U');
}

} // verus!
