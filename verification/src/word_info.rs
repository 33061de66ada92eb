//! Word information records and the field-selection mask the lexicon
//! takes.

use vstd::prelude::*;
use crate::word_id::WordId;

verus! {

/// Which fields of a `WordInfo` a lexicon lookup must populate.
/// Unselected fields come back empty or zero.
#[derive(Clone, Copy, Debug, PartialEq, Eq, Structural)]
pub struct InfoSubset {
    pub surface: bool,
    pub head_word_length: bool,
    pub pos_id: bool,
    pub normalized_form: bool,
    pub dictionary_form_word_id: bool,
    pub dictionary_form: bool,
    pub reading_form: bool,
    pub a_unit_split: bool,
    pub b_unit_split: bool,
    pub word_structure: bool,
    pub synonym_group_ids: bool,
}

impl InfoSubset {
    /// Select no field.
    pub fn empty() -> (r: InfoSubset)
        ensures
            r == Self::spec_empty(),
    {
        InfoSubset {
            surface: false,
            head_word_length: false,
            pos_id: false,
            normalized_form: false,
            dictionary_form_word_id: false,
            dictionary_form: false,
            reading_form: false,
            a_unit_split: false,
            b_unit_split: false,
            word_structure: false,
            synonym_group_ids: false,
        }
    }

    pub open spec fn spec_empty() -> InfoSubset {
        InfoSubset {
            surface: false,
            head_word_length: false,
            pos_id: false,
            normalized_form: false,
            dictionary_form_word_id: false,
            dictionary_form: false,
            reading_form: false,
            a_unit_split: false,
            b_unit_split: false,
            word_structure: false,
            synonym_group_ids: false,
        }
    }

    /// Select every field.
    pub fn all() -> (r: InfoSubset)
        ensures
            r == Self::spec_all(),
    {
        InfoSubset {
            surface: true,
            head_word_length: true,
            pos_id: true,
            normalized_form: true,
            dictionary_form_word_id: true,
            dictionary_form: true,
            reading_form: true,
            a_unit_split: true,
            b_unit_split: true,
            word_structure: true,
            synonym_group_ids: true,
        }
    }

    pub open spec fn spec_all() -> InfoSubset {
        InfoSubset {
            surface: true,
            head_word_length: true,
            pos_id: true,
            normalized_form: true,
            dictionary_form_word_id: true,
            dictionary_form: true,
            reading_form: true,
            a_unit_split: true,
            b_unit_split: true,
            word_structure: true,
            synonym_group_ids: true,
        }
    }

    /// The union of two selections.
    pub fn union(self, other: InfoSubset) -> (r: InfoSubset)
        ensures
            r == self.spec_union(other),
    {
        InfoSubset {
            surface: self.surface || other.surface,
            head_word_length: self.head_word_length || other.head_word_length,
            pos_id: self.pos_id || other.pos_id,
            normalized_form: self.normalized_form || other.normalized_form,
            dictionary_form_word_id: self.dictionary_form_word_id
                || other.dictionary_form_word_id,
            dictionary_form: self.dictionary_form || other.dictionary_form,
            reading_form: self.reading_form || other.reading_form,
            a_unit_split: self.a_unit_split || other.a_unit_split,
            b_unit_split: self.b_unit_split || other.b_unit_split,
            word_structure: self.word_structure || other.word_structure,
            synonym_group_ids: self.synonym_group_ids || other.synonym_group_ids,
        }
    }

    pub open spec fn spec_union(self, other: InfoSubset) -> InfoSubset {
        InfoSubset {
            surface: self.surface || other.surface,
            head_word_length: self.head_word_length || other.head_word_length,
            pos_id: self.pos_id || other.pos_id,
            normalized_form: self.normalized_form || other.normalized_form,
            dictionary_form_word_id: self.dictionary_form_word_id
                || other.dictionary_form_word_id,
            dictionary_form: self.dictionary_form || other.dictionary_form,
            reading_form: self.reading_form || other.reading_form,
            a_unit_split: self.a_unit_split || other.a_unit_split,
            b_unit_split: self.b_unit_split || other.b_unit_split,
            word_structure: self.word_structure || other.word_structure,
            synonym_group_ids: self.synonym_group_ids || other.synonym_group_ids,
        }
    }

    /// Close a selection under implied fields. No field of this record
    /// implies another, so the selection comes back unchanged.
    pub fn normalize(self) -> (r: InfoSubset)
        ensures
            r == self,
    {
        self
    }

    /// Selection of the surface field alone.
    pub fn surface_only() -> (r: InfoSubset)
        ensures
            r == (InfoSubset { surface: true, ..Self::spec_empty() }),
    {
        let mut s = Self::empty();
        s.surface = true;
        s
    }

    /// Selection of the reading-form field alone.
    pub fn reading_form_only() -> (r: InfoSubset)
        ensures
            r == (InfoSubset { reading_form: true, ..Self::spec_empty() }),
    {
        let mut s = Self::empty();
        s.reading_form = true;
        s
    }

    /// Selection of the part-of-speech id alone.
    pub fn pos_id_only() -> (r: InfoSubset)
        ensures
            r == (InfoSubset { pos_id: true, ..Self::spec_empty() }),
    {
        let mut s = Self::empty();
        s.pos_id = true;
        s
    }
}

/// The information a lexicon holds about one word. Fields not selected by
/// the `InfoSubset` of a lookup come back empty or zero.
#[derive(Clone, Debug)]
pub struct WordInfo {
    pub surface: String,
    pub head_word_length: u16,
    pub pos_id: u16,
    pub normalized_form: String,
    pub dictionary_form_word_id: i32,
    pub dictionary_form: String,
    pub reading_form: String,
    pub a_unit_split: Vec<WordId>,
    pub b_unit_split: Vec<WordId>,
    pub word_structure: Vec<WordId>,
    pub synonym_group_ids: Vec<u32>,
}

impl WordInfo {
    /// Field-wise equality of the views of two records.
    pub open spec fn spec_matches(self, other: WordInfo) -> bool {
        &&& self.surface@ == other.surface@
        &&& self.head_word_length == other.head_word_length
        &&& self.pos_id == other.pos_id
        &&& self.normalized_form@ == other.normalized_form@
        &&& self.dictionary_form_word_id == other.dictionary_form_word_id
        &&& self.dictionary_form@ == other.dictionary_form@
        &&& self.reading_form@ == other.reading_form@
        &&& self.a_unit_split@ == other.a_unit_split@
        &&& self.b_unit_split@ == other.b_unit_split@
        &&& self.word_structure@ == other.word_structure@
        &&& self.synonym_group_ids@ == other.synonym_group_ids@
    }

    /// A record with every field empty or zero.
    pub fn empty() -> (r: WordInfo)
        ensures
            r.surface@ == Seq::<char>::empty(),
            r.head_word_length == 0,
            r.pos_id == 0,
            r.normalized_form@ == Seq::<char>::empty(),
            r.dictionary_form_word_id == -1,
            r.dictionary_form@ == Seq::<char>::empty(),
            r.reading_form@ == Seq::<char>::empty(),
            r.a_unit_split@ == Seq::<WordId>::empty(),
            r.b_unit_split@ == Seq::<WordId>::empty(),
            r.word_structure@ == Seq::<WordId>::empty(),
            r.synonym_group_ids@ == Seq::<u32>::empty(),
    {
        WordInfo {
            surface: String::new(),
            head_word_length: 0,
            pos_id: 0,
            normalized_form: String::new(),
            dictionary_form_word_id: -1,
            dictionary_form: String::new(),
            reading_form: String::new(),
            a_unit_split: Vec::new(),
            b_unit_split: Vec::new(),
            word_structure: Vec::new(),
            synonym_group_ids: Vec::new(),
        }
    }
}

/// Relies on String's FromIterator: collecting characters yields the
/// string of exactly those characters.
#[verifier::external_body]
pub fn string_from_chars(chars: &Vec<char>) -> (r: String)
    ensures
        r@ == chars@,
{
    chars.iter().collect()
}

/// Copy a vector of plain values element by element.
pub fn copy_vec<T: Copy>(v: &Vec<T>) -> (r: Vec<T>)
    ensures
        r@ == v@,
{
    let mut out: Vec<T> = Vec::new();
    let n = v.len();
    let mut i: usize = 0;
    while i < n
        invariant
            n == v@.len(),
            i <= n,
            out@ == v@.take(i as int),
        decreases n - i,
    {
        out.push(v[i]);
        proof {
            assert(v@.take(i as int).push(v@[i as int]) =~= v@.take(i + 1));
        }
        i = i + 1;
    }
    proof {
        assert(v@.take(n as int) =~= v@);
    }
    out
}

} // verus!
