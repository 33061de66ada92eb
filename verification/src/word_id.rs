//! Word identifiers: a packed 32-bit value with a 4-bit dictionary id and a
//! 28-bit word index, plus the reserved sentinels used by the lattice.

use vstd::prelude::*;

verus! {

/// Number of word indices per dictionary: the low 28 bits of a raw id.
pub const WORD_ID_SPAN: u32 = 0x1000_0000;

/// Dictionary field reserved for out-of-vocabulary words.
pub const OOV_DIC_ID: u32 = 0xf;

/// Raw value of the end-of-sentence sentinel.
pub const EOS_RAW: u32 = 0xffff_fffe;

/// Raw value of the invalid-word sentinel.
pub const INVALID_RAW: u32 = 0xffff_ffff;

/// Dictionary part of a raw 32-bit word id (its high 4 bits).
pub open spec fn spec_dic_of(raw: u32) -> u32 {
    raw / WORD_ID_SPAN
}

/// Word-index part of a raw 32-bit word id (its low 28 bits).
pub open spec fn spec_word_of(raw: u32) -> u32 {
    raw % WORD_ID_SPAN
}

/// Packed word identifier: dictionary id in the high 4 bits, word index in
/// the low 28 bits. The value with dictionary id 0xf marks an
/// out-of-vocabulary word, whose low bits carry its part-of-speech id.
#[derive(Clone, Copy, Debug, PartialEq, Eq, Structural)]
pub struct WordId {
    pub raw: u32,
}

impl WordId {
    pub open spec fn spec_raw(self) -> u32 {
        self.raw
    }

    /// The end-of-sentence sentinel, as a spec value.
    pub open spec fn spec_eos_word() -> WordId {
        WordId { raw: EOS_RAW }
    }

    pub fn from_raw(raw: u32) -> (r: WordId)
        ensures
            r.spec_raw() == raw,
    {
        WordId { raw }
    }

    pub fn new(dic: u8, word: u32) -> (r: WordId)
        requires
            dic < 16,
            word < WORD_ID_SPAN,
        ensures
            r.spec_raw() == dic * WORD_ID_SPAN + word,
            r.spec_dic() == dic,
            r.spec_word() == word,
    {
        let raw = dic as u32 * WORD_ID_SPAN + word;
        proof {
            assert(spec_dic_of(raw) == dic && spec_word_of(raw) == word) by (nonlinear_arith)
                requires
                    raw == dic * WORD_ID_SPAN + word,
                    dic < 16,
                    0 <= word < WORD_ID_SPAN,
                    WORD_ID_SPAN == 0x1000_0000,
            ;
        }
        WordId { raw }
    }

    /// The end-of-sentence sentinel.
    pub fn eos() -> (r: WordId)
        ensures
            r == Self::spec_eos_word(),
            r.spec_raw() == EOS_RAW,
    {
        WordId { raw: EOS_RAW }
    }

    /// The invalid-word sentinel.
    pub fn invalid() -> (r: WordId)
        ensures
            r.spec_raw() == INVALID_RAW,
    {
        WordId { raw: INVALID_RAW }
    }

    pub open spec fn spec_dic(self) -> u32 {
        spec_dic_of(self.spec_raw())
    }

    pub open spec fn spec_word(self) -> u32 {
        spec_word_of(self.spec_raw())
    }

    pub open spec fn spec_is_oov(self) -> bool {
        self.spec_dic() == OOV_DIC_ID
    }

    /// Whether this id is one of the BOS/EOS sentinels.
    pub open spec fn spec_is_special(self) -> bool {
        self.spec_raw() >= EOS_RAW
    }

    pub fn as_raw(&self) -> (r: u32)
        ensures
            r == self.spec_raw(),
    {
        self.raw
    }

    /// Dictionary id: the high 4 bits.
    pub fn dic(&self) -> (r: u32)
        ensures
            r == self.spec_dic(),
            r < 16,
    {
        self.raw / WORD_ID_SPAN
    }

    /// Word index within its dictionary: the low 28 bits.
    pub fn word(&self) -> (r: u32)
        ensures
            r == self.spec_word(),
            r < WORD_ID_SPAN,
    {
        self.raw % WORD_ID_SPAN
    }

    /// An out-of-vocabulary id carries the reserved dictionary marker.
    pub fn is_oov(&self) -> (r: bool)
        ensures
            r == self.spec_is_oov(),
    {
        self.dic() == OOV_DIC_ID
    }

    pub fn is_special(&self) -> (r: bool)
        ensures
            r == self.spec_is_special(),
    {
        self.raw >= EOS_RAW
    }
}

} // verus!
