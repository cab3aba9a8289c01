//! Choice of the fields of a word record.

use vstd::prelude::*;

verus! {

/// Number of fields of a word record.
pub const FIELD_COUNT: usize = 10;

/// The fields of a word record that are asked for, in the order in which the record holds them.
#[derive(Debug, Clone, Copy, PartialEq, Eq, Structural)]
pub struct InfoSubset {
    pub surface: bool,
    pub head_word_length: bool,
    pub pos_id: bool,
    pub normalized_form: bool,
    pub dic_form_word_id: bool,
    pub reading_form: bool,
    pub split_a: bool,
    pub split_b: bool,
    pub word_structure: bool,
    pub synonym_group_id: bool,
}

impl InfoSubset {
    /// No field, or all of them.
    pub open spec fn uniform(wanted: bool) -> InfoSubset {
        InfoSubset {
            surface: wanted,
            head_word_length: wanted,
            pos_id: wanted,
            normalized_form: wanted,
            dic_form_word_id: wanted,
            reading_form: wanted,
            split_a: wanted,
            split_b: wanted,
            word_structure: wanted,
            synonym_group_id: wanted,
        }
    }

    /// The surface alone.
    pub open spec fn just_surface() -> InfoSubset {
        InfoSubset { surface: true, ..InfoSubset::uniform(false) }
    }

    /// Whether field `k` is asked for.
    pub open spec fn has(self, k: int) -> bool {
        if k == 0 {
            self.surface
        } else if k == 1 {
            self.head_word_length
        } else if k == 2 {
            self.pos_id
        } else if k == 3 {
            self.normalized_form
        } else if k == 4 {
            self.dic_form_word_id
        } else if k == 5 {
            self.reading_form
        } else if k == 6 {
            self.split_a
        } else if k == 7 {
            self.split_b
        } else if k == 8 {
            self.word_structure
        } else {
            k == 9 && self.synonym_group_id
        }
    }

    /// Whether field `k` or a later one is asked for.
    pub open spec fn has_from(self, k: int) -> bool
        decreases FIELD_COUNT - k,
    {
        k < FIELD_COUNT && (self.has(k) || self.has_from(k + 1))
    }

    /// The same fields but for the synonym groups, where these are not available.
    pub open spec fn available(self, has_synonym_group_ids: bool) -> InfoSubset {
        InfoSubset {
            synonym_group_id: self.synonym_group_id && has_synonym_group_ids,
            ..self
        }
    }

    /// No field.
    pub fn empty() -> (subset: InfoSubset)
        ensures
            subset == InfoSubset::uniform(false),
    {
        InfoSubset {
            surface: false,
            head_word_length: false,
            pos_id: false,
            normalized_form: false,
            dic_form_word_id: false,
            reading_form: false,
            split_a: false,
            split_b: false,
            word_structure: false,
            synonym_group_id: false,
        }
    }

    /// Every field.
    pub fn all() -> (subset: InfoSubset)
        ensures
            subset == InfoSubset::uniform(true),
    {
        InfoSubset {
            surface: true,
            head_word_length: true,
            pos_id: true,
            normalized_form: true,
            dic_form_word_id: true,
            reading_form: true,
            split_a: true,
            split_b: true,
            word_structure: true,
            synonym_group_id: true,
        }
    }

    /// The surface alone.
    pub fn surface() -> (subset: InfoSubset)
        ensures
            subset == InfoSubset::just_surface(),
    {
        let mut subset: InfoSubset = InfoSubset::empty();
        subset.surface = true;
        subset
    }

    /// The same fields but for the synonym groups, where these are not available.
    pub fn without_unavailable(self, has_synonym_group_ids: bool) -> (subset: InfoSubset)
        ensures
            subset == self.available(has_synonym_group_ids),
    {
        let mut subset: InfoSubset = self;
        if !has_synonym_group_ids {
            subset.synonym_group_id = false;
        }
        subset
    }

    /// Whether field `k` is asked for.
    pub fn contains(&self, k: usize) -> (wanted: bool)
        ensures
            wanted == self.has(k as int),
    {
        match k {
            0 => self.surface,
            1 => self.head_word_length,
            2 => self.pos_id,
            3 => self.normalized_form,
            4 => self.dic_form_word_id,
            5 => self.reading_form,
            6 => self.split_a,
            7 => self.split_b,
            8 => self.word_structure,
            9 => self.synonym_group_id,
            _ => false,
        }
    }

    /// Whether field `k` or a later one is asked for.
    pub fn contains_from(&self, k: usize) -> (wanted: bool)
        ensures
            wanted == self.has_from(k as int),
        decreases FIELD_COUNT - k,
    {
        k < FIELD_COUNT && (self.contains(k) || self.contains_from(k + 1))
    }
}

} // verus!
