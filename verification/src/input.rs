//! The input buffer: the current (analysis) text and the original text it
//! came from, both as codepoints, with a boundary map from current
//! positions to original positions.

use vstd::prelude::*;

verus! {

/// Read-only input of one analysis. `curr` is the text the lattice spans;
/// `orig` is the text before any upstream normalization. `orig_starts[i]`
/// is the original position that current boundary `i` maps to; it has one
/// entry per current boundary, ends at the original length, and never
/// decreases.
pub struct InputBuffer {
    curr: Vec<char>,
    orig: Vec<char>,
    orig_starts: Vec<usize>,
}

impl InputBuffer {
    pub closed spec fn spec_curr(self) -> Seq<char> {
        self.curr@
    }

    pub closed spec fn spec_orig(self) -> Seq<char> {
        self.orig@
    }

    pub closed spec fn spec_orig_starts(self) -> Seq<usize> {
        self.orig_starts@
    }

    pub open spec fn wf(self) -> bool {
        &&& self.spec_orig_starts().len() == self.spec_curr().len() + 1
        &&& self.spec_orig_starts()[0] == 0
        &&& self.spec_orig_starts()[self.spec_curr().len() as int] == self.spec_orig().len()
        &&& forall|i: int, j: int|
            0 <= i <= j <= self.spec_curr().len() ==> #[trigger] self.spec_orig_starts()[i]
                <= #[trigger] self.spec_orig_starts()[j]
    }

    /// An input whose current and original texts are the same.
    pub fn from_text(curr: Vec<char>) -> (r: InputBuffer)
        requires
            curr@.len() < usize::MAX,
        ensures
            r.wf(),
            r.spec_curr() == curr@,
            r.spec_orig() == curr@,
    {
        let n = curr.len();
        let mut orig_starts: Vec<usize> = Vec::new();
        let mut i: usize = 0;
        while i <= n
            invariant
                n < usize::MAX,
                i <= n + 1,
                n == curr@.len(),
                orig_starts@.len() == i,
                forall|k: int| 0 <= k < i ==> #[trigger] orig_starts@[k] == k,
            decreases n + 1 - i,
        {
            orig_starts.push(i);
            i = i + 1;
        }
        let orig = crate::word_info::copy_vec(&curr);
        InputBuffer { curr, orig, orig_starts }
    }

    /// An input with distinct current and original texts and an explicit
    /// boundary map.
    pub fn from_parts(curr: Vec<char>, orig: Vec<char>, orig_starts: Vec<usize>) -> (r: Result<
        InputBuffer,
        (),
    >)
        ensures
            match r {
                Ok(b) => {
                    &&& b.wf()
                    &&& b.spec_curr() == curr@
                    &&& b.spec_orig() == orig@
                    &&& b.spec_orig_starts() == orig_starts@
                },
                Err(e) => true,
            },
    {
        let n = curr.len();
        if n == usize::MAX {
            return Err(());
        }
        if orig_starts.len() != n + 1 {
            return Err(());
        }
        if orig_starts[0] != 0 || orig_starts[n] != orig.len() {
            return Err(());
        }
        let mut i: usize = 0;
        while i < n
            invariant
                i <= n,
                n + 1 == orig_starts@.len(),
                forall|k: int, l: int|
                    0 <= k <= l <= i ==> #[trigger] orig_starts@[k] <= #[trigger] orig_starts@[l],
            decreases n - i,
        {
            if orig_starts[i] > orig_starts[i + 1] {
                return Err(());
            }
            i = i + 1;
        }
        Ok(InputBuffer { curr, orig, orig_starts })
    }

    /// Number of codepoints of the current text.
    pub fn char_len(&self) -> (r: usize)
        ensures
            r == self.spec_curr().len(),
    {
        self.curr.len()
    }

    /// The current text over a codepoint range.
    pub fn curr_slice_c(&self, begin: usize, end: usize) -> (r: Vec<char>)
        requires
            begin <= end <= self.spec_curr().len(),
        ensures
            r@ == self.spec_curr().subrange(begin as int, end as int),
    {
        let mut out: Vec<char> = Vec::new();
        let mut i: usize = begin;
        while i < end
            invariant
                begin <= i <= end <= self.curr@.len(),
                out@ == self.curr@.subrange(begin as int, i as int),
            decreases end - i,
        {
            out.push(self.curr[i]);
            proof {
                assert(self.curr@.subrange(begin as int, i as int).push(self.curr@[i as int])
                    =~= self.curr@.subrange(begin as int, i + 1));
            }
            i = i + 1;
        }
        out
    }

    /// The original text behind a codepoint range of the current text.
    pub fn orig_slice_c(&self, begin: usize, end: usize) -> (r: Vec<char>)
        requires
            self.wf(),
            begin <= end <= self.spec_curr().len(),
        ensures
            r@ == self.spec_orig().subrange(
                self.spec_orig_starts()[begin as int] as int,
                self.spec_orig_starts()[end as int] as int,
            ),
    {
        let ob = self.orig_starts[begin];
        let oe = self.orig_starts[end];
        proof {
            assert(self.spec_orig_starts()[begin as int] <= self.spec_orig_starts()[end as int]);
            assert(self.spec_orig_starts()[end as int] <= self.spec_orig_starts()[self.spec_curr().len() as int]);
        }
        let mut out: Vec<char> = Vec::new();
        let mut i: usize = ob;
        while i < oe
            invariant
                ob <= i <= oe <= self.orig@.len(),
                out@ == self.orig@.subrange(ob as int, i as int),
            decreases oe - i,
        {
            out.push(self.orig[i]);
            proof {
                assert(self.orig@.subrange(ob as int, i as int).push(self.orig@[i as int])
                    =~= self.orig@.subrange(ob as int, i + 1));
            }
            i = i + 1;
        }
        out
    }
}

} // verus!
