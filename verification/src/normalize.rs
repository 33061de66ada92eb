//! Reading normalization: NFKC, then full Unicode lowercasing, then a
//! hiragana-to-katakana shift, producing the scalar sequence that reading
//! matching compares. Target readings and per-token variants run through
//! the same pipeline, so prefix comparison of the results is exact.

use vstd::prelude::*;
use unicode_normalization::UnicodeNormalization;

verus! {

/// Unicode Normalization Form KC of a character sequence.
pub uninterp spec fn nfkc_of(s: Seq<char>) -> Seq<char>;

/// Relies on unicode_normalization's `nfkc`: the NFKC normalization of
/// the text, a function of its characters alone; empty text stays empty.
#[verifier::external_body]
fn nfkc(text: &str) -> (r: String)
    ensures
        r@ == nfkc_of(text@),
        text@.len() == 0 ==> r@.len() == 0,
{
    text.nfkc().collect()
}

/// The full Unicode lowercase mapping of one character.
pub uninterp spec fn lower_chars_of(c: char) -> Seq<char>;

/// Relies on char::to_lowercase: the lowercase mapping of the character,
/// one or more characters, a function of the character alone.
#[verifier::external_body]
fn to_lower_chars(c: char) -> (r: Vec<char>)
    ensures
        r@ == lower_chars_of(c),
        r@.len() >= 1,
{
    c.to_lowercase().collect()
}

/// Full lowercasing of a character sequence: each character mapped through
/// its lowercase expansion, in order.
pub open spec fn spec_lower_seq(s: Seq<char>) -> Seq<char>
    decreases s.len(),
{
    if s.len() == 0 {
        Seq::empty()
    } else {
        lower_chars_of(s[0]) + spec_lower_seq(s.skip(1))
    }
}

/// The hiragana-to-katakana shift on one scalar: codepoints in
/// `[U+3041, U+3096]` and `[U+309D, U+309F]` move up by 0x60; everything
/// else is unchanged.
pub open spec fn spec_kata_code(code: u32) -> u32 {
    if (0x3041 <= code && code <= 0x3096) || (0x309d <= code && code <= 0x309f) {
        (code + 0x60) as u32
    } else {
        code
    }
}

/// The scalar values of a character sequence after the katakana shift.
pub open spec fn spec_kata_map(s: Seq<char>) -> Seq<u32> {
    s.map_values(|c: char| spec_kata_code(c as u32))
}

/// The whole pipeline: NFKC, then lowercase, then the katakana shift.
pub open spec fn spec_normalize(s: Seq<char>) -> Seq<u32> {
    spec_kata_map(spec_lower_seq(nfkc_of(s)))
}

/// Lowercasing a sequence extended by one character appends that
/// character's lowercase expansion.
proof fn lemma_lower_seq_push(s: Seq<char>, c: char)
    ensures
        spec_lower_seq(s.push(c)) == spec_lower_seq(s) + lower_chars_of(c),
    decreases s.len(),
{
    if s.len() == 0 {
        assert(s.push(c).skip(1) =~= Seq::<char>::empty());
        assert(s.push(c)[0] == c);
        assert(spec_lower_seq(s.push(c)) == lower_chars_of(c) + spec_lower_seq(
            Seq::<char>::empty(),
        ));
        assert(spec_lower_seq(Seq::<char>::empty()) == Seq::<char>::empty());
        assert(spec_lower_seq(s) == Seq::<char>::empty());
        assert(spec_lower_seq(s.push(c)) =~= spec_lower_seq(s) + lower_chars_of(c));
    } else {
        assert(s.push(c).skip(1) =~= s.skip(1).push(c));
        lemma_lower_seq_push(s.skip(1), c);
        assert(spec_lower_seq(s.push(c)) =~= spec_lower_seq(s) + lower_chars_of(c));
    }
}

/// Apply the hiragana-to-katakana shift to one scalar value.
pub fn hira_to_kata(code: u32) -> (r: u32)
    ensures
        r == spec_kata_code(code),
{
    if (0x3041 <= code && code <= 0x3096) || (0x309d <= code && code <= 0x309f) {
        code + 0x60
    } else {
        code
    }
}

/// Normalize a text for reading matching: NFKC, full lowercase, then the
/// hiragana-to-katakana shift, as a sequence of scalar values.
pub fn normalize_for_matching(text: &str) -> (r: Vec<u32>)
    ensures
        r@ == spec_normalize(text@),
        text@.len() == 0 ==> r@.len() == 0,
{
    let folded = nfkc(text);
    let folded_str = folded.as_str();
    let n = folded_str.unicode_len();
    let mut out: Vec<u32> = Vec::new();
    let mut i: usize = 0;
    while i < n
        invariant
            n == folded_str@.len(),
            folded_str@ == nfkc_of(text@),
            i <= n,
            out@ == spec_kata_map(spec_lower_seq(folded_str@.take(i as int))),
        decreases n - i,
    {
        let c = folded_str.get_char(i);
        let lowered = to_lower_chars(c);
        let m = lowered.len();
        let mut j: usize = 0;
        while j < m
            invariant
                m == lowered@.len(),
                lowered@ == lower_chars_of(folded_str@[i as int]),
                j <= m,
                i < n,
                n == folded_str@.len(),
                out@ == spec_kata_map(
                    spec_lower_seq(folded_str@.take(i as int)) + lowered@.take(j as int),
                ),
            decreases m - j,
        {
            out.push(hira_to_kata(lowered[j] as u32));
            proof {
                let prefix = spec_lower_seq(folded_str@.take(i as int));
                assert((prefix + lowered@.take(j as int)).push(lowered@[j as int]) =~= prefix
                    + lowered@.take(j + 1));
                assert(spec_kata_map((prefix + lowered@.take(j as int)).push(lowered@[j as int]))
                    =~= spec_kata_map(prefix + lowered@.take(j as int)).push(
                    spec_kata_code(lowered@[j as int] as u32),
                ));
            }
            j = j + 1;
        }
        proof {
            assert(lowered@.take(m as int) =~= lowered@);
            assert(folded_str@.take(i as int).push(folded_str@[i as int]) =~= folded_str@.take(
                i + 1,
            ));
            lemma_lower_seq_push(folded_str@.take(i as int), folded_str@[i as int]);
        }
        i = i + 1;
    }
    proof {
        assert(folded_str@.take(n as int) =~= folded_str@);
        if text@.len() == 0 {
            assert(folded_str@.len() == 0);
            assert(spec_lower_seq(folded_str@).len() == 0);
        }
    }
    out
}

} // verus!
