//! The lexicon: read-only word information, looked up by word id. One
//! table per dictionary id, indexed by the word-index part of the id.

use vstd::prelude::*;
use crate::error::AnalysisError;
use crate::word_id::WordId;
use crate::word_info::copy_vec;
use crate::word_info::InfoSubset;
use crate::word_info::WordInfo;

verus! {

/// A set of dictionaries of word information. Dictionary `d` of a word id
/// names `tables[d]`; the word-index part names the entry in it.
pub struct Lexicon {
    tables: Vec<Vec<WordInfo>>,
}

impl Lexicon {
    pub closed spec fn spec_tables(self) -> Seq<Seq<WordInfo>> {
        self.tables@.map_values(|t: Vec<WordInfo>| t@)
    }

    /// Whether a word id names an entry.
    pub open spec fn spec_has(self, word_id: WordId) -> bool {
        &&& (word_id.spec_dic() as int) < self.spec_tables().len()
        &&& (word_id.spec_word() as int) < self.spec_tables()[word_id.spec_dic() as int].len()
    }

    /// The entry a word id names.
    pub open spec fn spec_entry(self, word_id: WordId) -> WordInfo {
        self.spec_tables()[word_id.spec_dic() as int][word_id.spec_word() as int]
    }

    pub fn new(tables: Vec<Vec<WordInfo>>) -> (r: Lexicon)
        ensures
            r.spec_tables().len() == tables@.len(),
            forall|d: int|
                0 <= d < tables@.len() ==> #[trigger] r.spec_tables()[d] == tables@[d]@,
    {
        Lexicon { tables }
    }

    /// Look up the word information an id names, populating exactly the
    /// selected fields; the rest come back empty or zero. Fails with
    /// `LexiconLookupFailure` iff the id names no entry.
    pub fn get_word_info_subset(&self, word_id: WordId, subset: InfoSubset) -> (r: Result<
        WordInfo,
        AnalysisError,
    >)
        ensures
            r is Ok <==> self.spec_has(word_id),
            match r {
                Ok(wi) => {
                    let e = self.spec_entry(word_id);
                    &&& wi.surface@ == if subset.surface {
                        e.surface@
                    } else {
                        Seq::<char>::empty()
                    }
                    &&& wi.head_word_length == if subset.head_word_length {
                        e.head_word_length
                    } else {
                        0
                    }
                    &&& wi.pos_id == if subset.pos_id {
                        e.pos_id
                    } else {
                        0
                    }
                    &&& wi.normalized_form@ == if subset.normalized_form {
                        e.normalized_form@
                    } else {
                        Seq::<char>::empty()
                    }
                    &&& wi.dictionary_form_word_id == if subset.dictionary_form_word_id {
                        e.dictionary_form_word_id
                    } else {
                        -1i32
                    }
                    &&& wi.dictionary_form@ == if subset.dictionary_form {
                        e.dictionary_form@
                    } else {
                        Seq::<char>::empty()
                    }
                    &&& wi.reading_form@ == if subset.reading_form {
                        e.reading_form@
                    } else {
                        Seq::<char>::empty()
                    }
                    &&& wi.a_unit_split@ == if subset.a_unit_split {
                        e.a_unit_split@
                    } else {
                        Seq::<WordId>::empty()
                    }
                    &&& wi.b_unit_split@ == if subset.b_unit_split {
                        e.b_unit_split@
                    } else {
                        Seq::<WordId>::empty()
                    }
                    &&& wi.word_structure@ == if subset.word_structure {
                        e.word_structure@
                    } else {
                        Seq::<WordId>::empty()
                    }
                    &&& wi.synonym_group_ids@ == if subset.synonym_group_ids {
                        e.synonym_group_ids@
                    } else {
                        Seq::<u32>::empty()
                    }
                },
                Err(e) => e == AnalysisError::LexiconLookupFailure,
            },
    {
        let dic = word_id.dic() as usize;
        let word = word_id.word() as usize;
        if dic >= self.tables.len() {
            return Err(AnalysisError::LexiconLookupFailure);
        }
        if word >= self.tables[dic].len() {
            return Err(AnalysisError::LexiconLookupFailure);
        }
        let entry = &self.tables[dic][word];
        proof {
            assert(self.spec_tables()[dic as int] == self.tables@[dic as int]@);
        }
        let mut wi = WordInfo::empty();
        if subset.surface {
            wi.surface = entry.surface.clone();
        }
        if subset.head_word_length {
            wi.head_word_length = entry.head_word_length;
        }
        if subset.pos_id {
            wi.pos_id = entry.pos_id;
        }
        if subset.normalized_form {
            wi.normalized_form = entry.normalized_form.clone();
        }
        if subset.dictionary_form_word_id {
            wi.dictionary_form_word_id = entry.dictionary_form_word_id;
        }
        if subset.dictionary_form {
            wi.dictionary_form = entry.dictionary_form.clone();
        }
        if subset.reading_form {
            wi.reading_form = entry.reading_form.clone();
        }
        if subset.a_unit_split {
            wi.a_unit_split = copy_vec(&entry.a_unit_split);
        }
        if subset.b_unit_split {
            wi.b_unit_split = copy_vec(&entry.b_unit_split);
        }
        if subset.word_structure {
            wi.word_structure = copy_vec(&entry.word_structure);
        }
        if subset.synonym_group_ids {
            wi.synonym_group_ids = copy_vec(&entry.synonym_group_ids);
        }
        Ok(wi)
    }
}

} // verus!
