//! Word-id encodings at the boundary to external consumers: the native
//! packed 32-bit layout (4-bit dictionary id, 28-bit word index), the
//! legacy packed form `lex_id * 100_000_000 + relative`, and the resolved
//! record that carries a word's information together with every derived id.

use vstd::prelude::*;
use crate::word_id::WordId;
use crate::word_id::OOV_DIC_ID;
use crate::word_id::WORD_ID_SPAN;
use crate::word_info::WordInfo;

verus! {

/// Words per lexicon in the legacy packed form.
pub const LEGACY_LEX_STRIDE: i32 = 100_000_000;

/// The legacy packed id: `lex_id * 100_000_000 + relative` for a positive
/// lexicon id, the relative id alone otherwise.
pub open spec fn spec_pack_legacy(lex_id: i32, relative: i32) -> int {
    if lex_id <= 0 {
        relative as int
    } else {
        lex_id * LEGACY_LEX_STRIDE + relative
    }
}

pub fn pack_legacy_word_id(lex_id: i32, relative_word_id: i32) -> (r: i32)
    requires
        i32::MIN <= spec_pack_legacy(lex_id, relative_word_id) <= i32::MAX,
    ensures
        r == spec_pack_legacy(lex_id, relative_word_id),
{
    if lex_id <= 0 {
        relative_word_id
    } else {
        (lex_id as i64 * LEGACY_LEX_STRIDE as i64 + relative_word_id as i64) as i32
    }
}

/// The lexicon id of an unpacked native word id: the high 4 bits, with the
/// reserved out-of-vocabulary marker mapped to -1.
pub open spec fn spec_unpack_native_lex(raw: u32) -> int {
    if raw / WORD_ID_SPAN == OOV_DIC_ID {
        -1
    } else {
        (raw / WORD_ID_SPAN) as int
    }
}

/// The word index of an unpacked native word id: the low 28 bits.
pub open spec fn spec_unpack_native_word(raw: u32) -> int {
    (raw % WORD_ID_SPAN) as int
}

pub fn unpack_native_word_id(raw_word_id: u32) -> (r: (i32, i32))
    ensures
        r.0 == spec_unpack_native_lex(raw_word_id),
        r.1 == spec_unpack_native_word(raw_word_id),
{
    let lex_id = (raw_word_id / WORD_ID_SPAN) as i32;
    let word_id = (raw_word_id % WORD_ID_SPAN) as i32;
    if lex_id == OOV_DIC_ID as i32 {
        (-1, word_id)
    } else {
        (lex_id, word_id)
    }
}

/// The four derived forms of a dictionary-form word id, in order: lexicon
/// id, legacy packed id, packed id, relative id. A value of -1 decodes to
/// four -1s. A native-packed value (top four bits a positive lexicon id)
/// is unpacked natively; a value at or above the legacy stride is read as
/// legacy-packed; anything else is taken as relative to `default_lex_id`.
pub open spec fn spec_decode_dic_form(raw: i32, default_lex_id: i32) -> (int, int, int, int) {
    if raw == -1 {
        (-1int, -1int, -1int, -1int)
    } else {
        let native_lex = spec_unpack_native_lex(raw as u32);
        let native_word = spec_unpack_native_word(raw as u32);
        if raw as u32 >= WORD_ID_SPAN && native_lex > 0 {
            (native_lex, spec_pack_legacy(native_lex as i32, native_word as i32), raw as int, native_word)
        } else if raw >= LEGACY_LEX_STRIDE {
            ((raw / LEGACY_LEX_STRIDE) as int, raw as int, raw as int, (raw % LEGACY_LEX_STRIDE) as int)
        } else {
            (default_lex_id as int, spec_pack_legacy(default_lex_id, raw), raw as int, raw as int)
        }
    }
}

/// Decode a raw dictionary-form word id against the lexicon the word came
/// from. Accepts both the native and the legacy packed forms; other
/// values are read as ids local to `default_lex_id`.
pub fn decode_dictionary_form_word_id(raw_dictionary_form_word_id: i32, default_lex_id: i32) -> (r:
    (i32, i32, i32, i32))
    requires
        0 <= default_lex_id < 15 || default_lex_id == -1,
    ensures
        ({
            let d = spec_decode_dic_form(raw_dictionary_form_word_id, default_lex_id);
            r.0 == d.0 && r.1 == d.1 && r.2 == d.2 && r.3 == d.3
        }),
{
    if raw_dictionary_form_word_id == -1 {
        return (-1, -1, -1, -1);
    }

    let raw = raw_dictionary_form_word_id as u32;
    let (native_lex_id, native_word_id) = unpack_native_word_id(raw);

    if raw >= WORD_ID_SPAN && native_lex_id > 0 {
        let relative = native_word_id;
        proof {
            assert(native_lex_id < 15);
            assert(0 <= relative < WORD_ID_SPAN);
            assert(native_lex_id * LEGACY_LEX_STRIDE + relative <= 14 * LEGACY_LEX_STRIDE
                + 0x1000_0000);
        }
        let legacy = pack_legacy_word_id(native_lex_id, relative);
        let packed = raw_dictionary_form_word_id;
        (native_lex_id, legacy, packed, relative)
    } else if raw_dictionary_form_word_id >= LEGACY_LEX_STRIDE {
        let legacy_lex_id = raw_dictionary_form_word_id / LEGACY_LEX_STRIDE;
        let relative = raw_dictionary_form_word_id % LEGACY_LEX_STRIDE;
        if legacy_lex_id > 0 {
            return (
                legacy_lex_id,
                raw_dictionary_form_word_id,
                raw_dictionary_form_word_id,
                relative,
            );
        }
        // Defensive fall-through kept for malformed values; a value at or
        // above the stride always has a positive quotient, so it cannot
        // run.
        proof {
            assert(raw_dictionary_form_word_id / LEGACY_LEX_STRIDE >= 1) by (nonlinear_arith)
                requires
                    raw_dictionary_form_word_id >= LEGACY_LEX_STRIDE,
                    LEGACY_LEX_STRIDE == 100_000_000,
            ;
        }
        let relative = raw_dictionary_form_word_id;
        let legacy = pack_legacy_word_id(default_lex_id, relative);
        (default_lex_id, legacy, raw_dictionary_form_word_id, relative)
    } else {
        // Non-packed dictionary-form ids are relative to the current
        // lexicon.
        let relative = raw_dictionary_form_word_id;
        proof {
            if default_lex_id > 0 {
                assert(default_lex_id * LEGACY_LEX_STRIDE <= 14 * LEGACY_LEX_STRIDE)
                    by (nonlinear_arith)
                    requires
                        0 < default_lex_id < 15,
                        LEGACY_LEX_STRIDE == 100_000_000,
                ;
            }
        }
        let legacy = pack_legacy_word_id(default_lex_id, relative);
        (default_lex_id, legacy, raw_dictionary_form_word_id, relative)
    }
}

/// A word's information together with every derived id, as external
/// consumers read it: the record a language binding exposes.
#[derive(Clone, Debug)]
pub struct ResolvedWordInfo {
    pub word_id: i32,
    pub word_id_packed: u32,
    pub word_id_relative: i32,
    pub lex_id: i32,
    pub dictionary_id: i32,
    pub surface: String,
    pub head_word_length: u16,
    pub pos_id: u16,
    pub normalized_form: String,
    pub dictionary_form_word_id: i32,
    pub dictionary_form_word_id_packed: i32,
    pub dictionary_form_word_id_relative: i32,
    pub dictionary_form_lex_id: i32,
    pub dictionary_form: String,
    pub reading_form: String,
    pub a_unit_split: Vec<u32>,
    pub b_unit_split: Vec<u32>,
    pub word_structure: Vec<u32>,
    pub synonym_group_ids: Vec<u32>,
}

/// The first string if it is non-empty, else the second.
pub fn copy_if_empty(v1: String, v2: &String) -> (r: String)
    ensures
        r@ == if v1@.len() == 0 {
            v2@
        } else {
            v1@
        },
{
    if v1.as_str().is_empty() {
        v2.clone()
    } else {
        v1
    }
}

/// The raw values of a list of word ids.
fn raw_ids(v: &Vec<WordId>) -> (r: Vec<u32>)
    ensures
        r@.len() == v@.len(),
        forall|i: int| 0 <= i < v@.len() ==> #[trigger] r@[i] == v@[i].spec_raw(),
{
    let mut out: Vec<u32> = Vec::new();
    let n = v.len();
    let mut i: usize = 0;
    while i < n
        invariant
            n == v@.len(),
            i <= n,
            out@.len() == i,
            forall|k: int| 0 <= k < i ==> #[trigger] out@[k] == v@[k].spec_raw(),
        decreases n - i,
    {
        out.push(v[i].as_raw());
        i = i + 1;
    }
    out
}

impl ResolvedWordInfo {
    /// Resolve a word's information against its word id: derive the
    /// legacy, packed and relative ids of the word and of its dictionary
    /// form, and fall back to the surface for empty text fields.
    pub fn from_word_info(word_info: WordInfo, word_id: WordId) -> (r: ResolvedWordInfo)
        ensures
            r.word_id_packed == word_id.spec_raw(),
            r.lex_id == if word_id.spec_is_oov() {
                -1int
            } else {
                word_id.spec_dic() as int
            },
            r.dictionary_id == r.lex_id,
            r.word_id_relative == if word_id.spec_is_oov() {
                -1int
            } else {
                word_id.spec_word() as int
            },
            r.word_id == if word_id.spec_is_oov() {
                -1int
            } else {
                spec_pack_legacy(word_id.spec_dic() as i32, word_id.spec_word() as i32)
            },
            ({
                let d = spec_decode_dic_form(word_info.dictionary_form_word_id, r.lex_id);
                &&& r.dictionary_form_lex_id == d.0
                &&& r.dictionary_form_word_id == d.1
                &&& r.dictionary_form_word_id_packed == d.2
                &&& r.dictionary_form_word_id_relative == d.3
            }),
            r.surface@ == word_info.surface@,
            r.head_word_length == word_info.head_word_length,
            r.pos_id == word_info.pos_id,
            r.normalized_form@ == if word_info.normalized_form@.len() == 0 {
                word_info.surface@
            } else {
                word_info.normalized_form@
            },
            r.dictionary_form@ == if word_info.dictionary_form@.len() == 0 {
                word_info.surface@
            } else {
                word_info.dictionary_form@
            },
            r.reading_form@ == if word_info.reading_form@.len() == 0 {
                word_info.surface@
            } else {
                word_info.reading_form@
            },
            r.a_unit_split@.len() == word_info.a_unit_split@.len(),
            r.b_unit_split@.len() == word_info.b_unit_split@.len(),
            r.word_structure@.len() == word_info.word_structure@.len(),
            forall|i: int|
                0 <= i < word_info.a_unit_split@.len() ==> #[trigger] r.a_unit_split@[i]
                    == word_info.a_unit_split@[i].spec_raw(),
            forall|i: int|
                0 <= i < word_info.b_unit_split@.len() ==> #[trigger] r.b_unit_split@[i]
                    == word_info.b_unit_split@[i].spec_raw(),
            forall|i: int|
                0 <= i < word_info.word_structure@.len() ==> #[trigger] r.word_structure@[i]
                    == word_info.word_structure@[i].spec_raw(),
            r.synonym_group_ids@ == word_info.synonym_group_ids@,
    {
        let (lex_id, legacy_word_id, packed_word_id, relative_word_id) = if word_id.is_oov() {
            (-1, -1, word_id.as_raw(), -1)
        } else {
            let lex_id = word_id.dic() as i32;
            let relative_word_id = word_id.word() as i32;
            proof {
                assert(lex_id * LEGACY_LEX_STRIDE <= 15 * LEGACY_LEX_STRIDE) by (nonlinear_arith)
                    requires
                        0 <= lex_id <= 15,
                        LEGACY_LEX_STRIDE == 100_000_000,
                ;
            }
            let legacy_word_id = pack_legacy_word_id(lex_id, relative_word_id);
            (lex_id, legacy_word_id, word_id.as_raw(), relative_word_id)
        };
        let (
            dictionary_form_lex_id,
            dictionary_form_word_id,
            dictionary_form_word_id_packed,
            dictionary_form_word_id_relative,
        ) = decode_dictionary_form_word_id(word_info.dictionary_form_word_id, lex_id);

        ResolvedWordInfo {
            word_id: legacy_word_id,
            word_id_packed: packed_word_id,
            word_id_relative: relative_word_id,
            lex_id,
            dictionary_id: lex_id,
            head_word_length: word_info.head_word_length,
            pos_id: word_info.pos_id,
            normalized_form: copy_if_empty(word_info.normalized_form, &word_info.surface),
            dictionary_form_word_id,
            dictionary_form_word_id_packed,
            dictionary_form_word_id_relative,
            dictionary_form_lex_id,
            dictionary_form: copy_if_empty(word_info.dictionary_form, &word_info.surface),
            reading_form: copy_if_empty(word_info.reading_form, &word_info.surface),
            surface: word_info.surface,
            a_unit_split: raw_ids(&word_info.a_unit_split),
            b_unit_split: raw_ids(&word_info.b_unit_split),
            word_structure: raw_ids(&word_info.word_structure),
            synonym_group_ids: word_info.synonym_group_ids,
        }
    }
}

} // verus!
