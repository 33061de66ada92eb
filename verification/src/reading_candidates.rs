//! Reading-candidate enumeration: given a constructed lattice and a
//! target reading, enumerate up to K segmentations whose concatenated
//! per-token readings, normalized, equal the normalized target, ordered
//! by ascending path cost.
//!
//! The search walks states `(boundary, previous right id, reading
//! offset)` from BOS to the last boundary. A memoized reverse search
//! bounds the cost still to come and prunes the depth-first enumeration.

use vstd::prelude::*;
use std::collections::HashMap;
use crate::connect::ConnectionMatrix;
use crate::error::AnalysisError;
use crate::input::InputBuffer;
use crate::lattice::Lattice;
use crate::lexicon::Lexicon;
use crate::node::Node;
use crate::normalize::normalize_for_matching;
use crate::normalize::spec_normalize;
use crate::word_id::WordId;
use crate::word_info::copy_vec;
use crate::word_info::InfoSubset;
use crate::word_info::WordInfo;

verus! {

broadcast use vstd::std_specs::hash::group_hash_axioms;

/// One token of a returned reading-candidate path.
#[derive(Clone, Debug)]
pub struct ReadingCandidateToken {
    pub word_id: WordId,
    pub surface: String,
    pub reading_form: String,
    pub begin: usize,
    pub end: usize,
}

/// One returned segmentation: its total path cost, BOS and EOS
/// transitions included, and its tokens in order.
#[derive(Clone, Debug)]
pub struct ReadingCandidatePath {
    pub total_cost: i32,
    pub tokens: Vec<ReadingCandidateToken>,
}

/// Names one candidate of the lattice: its end boundary and its position
/// among the candidates ending there.
#[derive(Clone, Copy, Debug, PartialEq, Eq, Structural)]
pub struct NodeRef {
    pub end: usize,
    pub index: usize,
}

/// A state of the search: the boundary reached, the right id of the last
/// token, and how much of the normalized reading is consumed.
#[derive(Clone, Copy, Debug, PartialEq, Eq, Structural)]
pub struct SearchState {
    pub boundary: usize,
    pub prev_right_id: u16,
    pub reading_offset: usize,
}

/// A candidate enriched for matching: its node, its resolved word
/// information, and the normalized match variants (reading first, then
/// surface, deduplicated, empty ones dropped).
#[derive(Debug)]
pub struct NodeMeta {
    pub node: Node,
    pub word_info: WordInfo,
    pub match_variants: Vec<Vec<u32>>,
}

impl NodeMeta {
    /// The reading to output for this token: the reading form, or the
    /// surface when the reading form is empty.
    pub fn reading_for_output(&self) -> (r: &String)
        ensures
            r@ == if self.word_info.reading_form@.len() == 0 {
                self.word_info.surface@
            } else {
                self.word_info.reading_form@
            },
    {
        if self.word_info.reading_form.as_str().is_empty() {
            &self.word_info.surface
        } else {
            &self.word_info.reading_form
        }
    }

    /// The output token of this candidate.
    pub fn as_candidate_token(&self) -> (t: ReadingCandidateToken)
        ensures
            t.word_id == self.node.spec_word_id(),
            t.surface@ == self.word_info.surface@,
            t.reading_form@ == if self.word_info.reading_form@.len() == 0 {
                self.word_info.surface@
            } else {
                self.word_info.reading_form@
            },
            t.begin == self.node.spec_begin(),
            t.end == self.node.spec_end(),
    {
        ReadingCandidateToken {
            word_id: self.node.word_id(),
            surface: self.word_info.surface.clone(),
            reading_form: self.reading_for_output().clone(),
            begin: self.node.begin(),
            end: self.node.end(),
        }
    }
}

/// Whether two vectors of scalars hold the same values.
fn vecs_equal(a: &Vec<u32>, b: &Vec<u32>) -> (r: bool)
    ensures
        r <==> a@ == b@,
{
    if a.len() != b.len() {
        proof {
            assert(a@.len() != b@.len());
        }
        return false;
    }
    let n = a.len();
    let mut i: usize = 0;
    while i < n
        invariant
            n == a@.len() && n == b@.len(),
            i <= n,
            forall|k: int| 0 <= k < i ==> a@[k] == b@[k],
        decreases n - i,
    {
        if a[i] != b[i] {
            return false;
        }
        i = i + 1;
    }
    proof {
        assert(a@ =~= b@);
    }
    true
}

/// The normalized match variants of a word: the reading form first, then
/// the surface; empty results dropped; a surface equal to the reading
/// kept once.
pub open spec fn spec_variants(wi: WordInfo) -> Seq<Seq<u32>> {
    let r = spec_normalize(wi.reading_form@);
    let s = spec_normalize(wi.surface@);
    if wi.reading_form@.len() == 0 {
        if s.len() == 0 {
            Seq::empty()
        } else {
            seq![s]
        }
    } else {
        if r.len() == 0 {
            if s.len() == 0 {
                Seq::empty()
            } else {
                seq![s]
            }
        } else if s.len() == 0 || s == r {
            seq![r]
        } else {
            seq![r, s]
        }
    }
}

/// Compute the normalized match variants of a word.
pub fn build_match_variants(word_info: &WordInfo) -> (v: Vec<Vec<u32>>)
    ensures
        v@.map_values(|x: Vec<u32>| x@) == spec_variants(*word_info),
{
    let mut variants: Vec<Vec<u32>> = Vec::new();
    if word_info.reading_form.as_str().is_empty() {
        let s = normalize_for_matching(word_info.surface.as_str());
        if s.len() > 0 {
            variants.push(s);
        }
    } else {
        let r = normalize_for_matching(word_info.reading_form.as_str());
        let s = normalize_for_matching(word_info.surface.as_str());
        if r.len() == 0 {
            if s.len() > 0 {
                variants.push(s);
            }
        } else {
            let dup = s.len() == 0 || vecs_equal(&s, &r);
            variants.push(r);
            if !dup {
                variants.push(s);
            }
        }
    }
    proof {
        assert(variants@.map_values(|x: Vec<u32>| x@) =~= spec_variants(*word_info));
    }
    variants
}

/// How the word information of one lattice candidate is resolved: an
/// out-of-vocabulary node synthesizes a record from the input slice and
/// carries its part-of-speech id in the word-index bits; anything else is
/// the lexicon entry masked to the selected fields.
pub open spec fn spec_word_info_built(
    wi: WordInfo,
    node: Node,
    input: InputBuffer,
    lexicon: Lexicon,
    subset: InfoSubset,
) -> bool {
    if node.spec_word_id().spec_is_oov() {
        &&& wi.surface@ == input.spec_curr().subrange(
            node.spec_begin() as int,
            node.spec_end() as int,
        )
        &&& wi.pos_id == node.spec_word_id().spec_word() as u16
        &&& wi.head_word_length == 0
        &&& wi.normalized_form@ == Seq::<char>::empty()
        &&& wi.dictionary_form_word_id == -1
        &&& wi.dictionary_form@ == Seq::<char>::empty()
        &&& wi.reading_form@ == Seq::<char>::empty()
        &&& wi.a_unit_split@ == Seq::<WordId>::empty()
        &&& wi.b_unit_split@ == Seq::<WordId>::empty()
        &&& wi.word_structure@ == Seq::<WordId>::empty()
        &&& wi.synonym_group_ids@ == Seq::<u32>::empty()
    } else {
        let e = lexicon.spec_entry(node.spec_word_id());
        &&& lexicon.spec_has(node.spec_word_id())
        &&& wi.surface@ == if subset.surface {
            e.surface@
        } else {
            Seq::<char>::empty()
        }
        &&& wi.head_word_length == if subset.head_word_length {
            e.head_word_length
        } else {
            0
        }
        &&& wi.pos_id == if subset.pos_id {
            e.pos_id
        } else {
            0
        }
        &&& wi.normalized_form@ == if subset.normalized_form {
            e.normalized_form@
        } else {
            Seq::<char>::empty()
        }
        &&& wi.dictionary_form_word_id == if subset.dictionary_form_word_id {
            e.dictionary_form_word_id
        } else {
            -1i32
        }
        &&& wi.dictionary_form@ == if subset.dictionary_form {
            e.dictionary_form@
        } else {
            Seq::<char>::empty()
        }
        &&& wi.reading_form@ == if subset.reading_form {
            e.reading_form@
        } else {
            Seq::<char>::empty()
        }
        &&& wi.a_unit_split@ == if subset.a_unit_split {
            e.a_unit_split@
        } else {
            Seq::<WordId>::empty()
        }
        &&& wi.b_unit_split@ == if subset.b_unit_split {
            e.b_unit_split@
        } else {
            Seq::<WordId>::empty()
        }
        &&& wi.word_structure@ == if subset.word_structure {
            e.word_structure@
        } else {
            Seq::<WordId>::empty()
        }
        &&& wi.synonym_group_ids@ == if subset.synonym_group_ids {
            e.synonym_group_ids@
        } else {
            Seq::<u32>::empty()
        }
    }
}

/// Resolve the word information of one candidate: synthesized from the
/// input for an out-of-vocabulary node, looked up in the lexicon
/// otherwise. Fails iff a lexicon lookup was needed and found nothing.
pub fn make_word_info(
    node: &Node,
    input: &InputBuffer,
    lexicon: &Lexicon,
    subset: InfoSubset,
) -> (r: Result<WordInfo, AnalysisError>)
    requires
        node.spec_begin() <= node.spec_end() <= input.spec_curr().len(),
    ensures
        r is Ok <==> (node.spec_word_id().spec_is_oov() || lexicon.spec_has(node.spec_word_id())),
        match r {
            Ok(wi) => spec_word_info_built(wi, *node, *input, *lexicon, subset),
            Err(e) => e == AnalysisError::LexiconLookupFailure,
        },
{
    if node.word_id().is_oov() {
        let chars = input.curr_slice_c(node.begin(), node.end());
        let mut wi = WordInfo::empty();
        wi.pos_id = node.word_id().word() as u16;
        wi.surface = crate::word_info::string_from_chars(&chars);
        Ok(wi)
    } else {
        lexicon.get_word_info_subset(node.word_id(), subset)
    }
}

/// The read-only tables the search runs over: the normalized target
/// reading, the last boundary, the candidates grouped by begin boundary,
/// and the enriched candidate records grouped by end boundary.
pub struct SearchTables {
    pub reading: Vec<u32>,
    pub end_boundary: usize,
    pub nodes_by_begin: Vec<Vec<NodeRef>>,
    pub metas_by_end: Vec<Vec<NodeMeta>>,
}

impl SearchTables {
    pub open spec fn spec_eb(self) -> int {
        self.end_boundary as int
    }

    pub open spec fn spec_refs(self, b: int) -> Seq<NodeRef> {
        self.nodes_by_begin@[b]@
    }

    pub open spec fn spec_metas(self, e: int) -> Seq<NodeMeta> {
        self.metas_by_end@[e]@
    }

    pub open spec fn spec_reading(self) -> Seq<u32> {
        self.reading@
    }

    /// Structural well-formedness: rows for every boundary; every listed
    /// candidate reference names a record whose node begins at the listing
    /// boundary and ends after it; variants are never empty; the reading
    /// is non-empty and short enough to index, and costs over any path fit
    /// 32-bit arithmetic.
    pub open spec fn wf(self) -> bool {
        &&& self.nodes_by_begin@.len() == self.spec_eb() + 1
        &&& self.metas_by_end@.len() == self.spec_eb() + 1
        &&& 1 <= self.spec_reading().len() < 0x1_0000_0000
        &&& self.spec_eb() < 0x10000
        &&& (self.spec_eb() + 1) * 65536 <= i32::MAX
        &&& forall|b: int, j: int|
            0 <= b <= self.spec_eb() && 0 <= j < self.spec_refs(b).len() ==> {
                let r = #[trigger] self.spec_refs(b)[j];
                &&& (r.end as int) <= self.spec_eb()
                &&& (r.index as int) < self.spec_metas(r.end as int).len()
                &&& self.spec_metas(r.end as int)[r.index as int].node.spec_begin() == b
            }
        &&& forall|e: int, i: int|
            0 <= e <= self.spec_eb() && 0 <= i < self.spec_metas(e).len() ==> {
                let m = #[trigger] self.spec_metas(e)[i];
                &&& m.node.spec_end() == e
                &&& m.node.spec_begin() < e
                &&& forall|v: int|
                    0 <= v < m.match_variants@.len() ==> #[trigger] m.match_variants@[v]@.len()
                        >= 1
            }
    }

    /// The start state: BOS context, nothing consumed.
    pub open spec fn spec_start() -> SearchState {
        SearchState { boundary: 0, prev_right_id: 0, reading_offset: 0 }
    }

    /// An accepting state: the last boundary, the whole reading consumed.
    pub open spec fn spec_accept(self, s: SearchState) -> bool {
        s.boundary == self.end_boundary && s.reading_offset == self.spec_reading().len()
    }

    /// Whether taking candidate `j` of the state's boundary with variant
    /// `vi` is admissible: the reference and variant exist, the node moves
    /// the boundary forward, and the variant is the next piece of the
    /// reading.
    pub open spec fn spec_step_ok(self, s: SearchState, j: int, vi: int) -> bool {
        &&& 0 <= (s.boundary as int) <= self.spec_eb()
        &&& (s.boundary as int) < self.nodes_by_begin@.len()
        &&& 0 <= j < self.spec_refs(s.boundary as int).len()
        &&& {
            let r = self.spec_refs(s.boundary as int)[j];
            &&& (r.end as int) < self.metas_by_end@.len()
            &&& (r.index as int) < self.spec_metas(r.end as int).len()
            &&& {
                let m = self.spec_metas(r.end as int)[r.index as int];
                &&& 0 <= vi < m.match_variants@.len()
                &&& m.match_variants@[vi]@.len() >= 1
                &&& (s.boundary as int) < m.node.spec_end() <= self.spec_eb()
                &&& s.reading_offset + m.match_variants@[vi]@.len() <= self.spec_reading().len()
                &&& self.spec_reading().subrange(
                    s.reading_offset as int,
                    s.reading_offset + m.match_variants@[vi]@.len(),
                ) == m.match_variants@[vi]@
            }
        }
    }

    /// The record an admissible step names.
    pub open spec fn spec_step_meta(self, s: SearchState, j: int) -> NodeMeta {
        let r = self.spec_refs(s.boundary as int)[j];
        self.spec_metas(r.end as int)[r.index as int]
    }

    /// The state after an admissible step.
    pub open spec fn spec_next(self, s: SearchState, j: int, vi: int) -> SearchState {
        let m = self.spec_step_meta(s, j);
        SearchState {
            boundary: m.node.spec_end() as usize,
            prev_right_id: m.node.spec_right_id(),
            reading_offset: (s.reading_offset + m.match_variants@[vi]@.len()) as usize,
        }
    }

    /// The cost of an admissible step: the connection into the node plus
    /// the node's own cost.
    pub open spec fn spec_step_cost(self, conn: ConnectionMatrix, s: SearchState, j: int) -> int {
        let m = self.spec_step_meta(s, j);
        conn.spec_cost(s.prev_right_id, m.node.spec_left_id()) + m.node.spec_cost()
    }

    /// Whether acceptance is reachable from `s`.
    pub open spec fn spec_can_complete(self, s: SearchState) -> bool
        decreases self.spec_eb() - s.boundary,
    {
        if (s.boundary as int) == self.spec_eb() {
            s.reading_offset == self.spec_reading().len()
        } else if (s.boundary as int) < self.spec_eb() {
            exists|j: int, vi: int|
                self.spec_step_ok(s, j, vi) && self.spec_can_complete(self.spec_next(s, j, vi))
        } else {
            false
        }
    }

    /// Whether a sequence of steps is admissible from `s`.
    pub open spec fn spec_steps_ok(self, s: SearchState, steps: Seq<(int, int)>) -> bool
        decreases steps.len(),
    {
        if steps.len() == 0 {
            true
        } else {
            self.spec_step_ok(s, steps[0].0, steps[0].1) && self.spec_steps_ok(
                self.spec_next(s, steps[0].0, steps[0].1),
                steps.skip(1),
            )
        }
    }

    /// The state a sequence of steps ends in.
    pub open spec fn spec_steps_end(self, s: SearchState, steps: Seq<(int, int)>) -> SearchState
        decreases steps.len(),
    {
        if steps.len() == 0 {
            s
        } else {
            self.spec_steps_end(self.spec_next(s, steps[0].0, steps[0].1), steps.skip(1))
        }
    }

    /// The summed step cost of a sequence of steps.
    pub open spec fn spec_steps_cost(
        self,
        conn: ConnectionMatrix,
        s: SearchState,
        steps: Seq<(int, int)>,
    ) -> int
        decreases steps.len(),
    {
        if steps.len() == 0 {
            0
        } else {
            self.spec_step_cost(conn, s, steps[0].0) + self.spec_steps_cost(
                conn,
                self.spec_next(s, steps[0].0, steps[0].1),
                steps.skip(1),
            )
        }
    }

    /// The state after the first `i` steps of a chain from the start
    /// state.
    pub open spec fn spec_chain_state(self, steps: Seq<(int, int)>, i: int) -> SearchState {
        self.spec_steps_end(Self::spec_start(), steps.take(i))
    }

    /// The candidate the `i`-th step of a chain names.
    pub open spec fn spec_chain_ref(self, steps: Seq<(int, int)>, i: int) -> NodeRef {
        self.spec_refs(self.spec_chain_state(steps, i).boundary as int)[steps[i].0]
    }

    /// A step appended to a chain extends its end, cost and admissibility
    /// in the expected way.
    proof fn lemma_steps_push(
        self,
        conn: ConnectionMatrix,
        s: SearchState,
        steps: Seq<(int, int)>,
        j: int,
        vi: int,
    )
        requires
            self.spec_steps_ok(s, steps),
            self.spec_step_ok(self.spec_steps_end(s, steps), j, vi),
        ensures
            self.spec_steps_ok(s, steps.push((j, vi))),
            self.spec_steps_end(s, steps.push((j, vi))) == self.spec_next(
                self.spec_steps_end(s, steps),
                j,
                vi,
            ),
            self.spec_steps_cost(conn, s, steps.push((j, vi))) == self.spec_steps_cost(
                conn,
                s,
                steps,
            ) + self.spec_step_cost(conn, self.spec_steps_end(s, steps), j),
        decreases steps.len(),
    {
        if steps.len() == 0 {
            let next = self.spec_next(s, j, vi);
            assert(steps.push((j, vi)).skip(1) =~= Seq::<(int, int)>::empty());
            assert(steps.push((j, vi))[0] == (j, vi));
            assert(self.spec_steps_ok(next, Seq::<(int, int)>::empty()));
            assert(self.spec_steps_end(next, Seq::<(int, int)>::empty()) == next);
            assert(self.spec_steps_cost(conn, next, Seq::<(int, int)>::empty()) == 0);
            assert(self.spec_steps_end(s, steps) == s);
            assert(self.spec_steps_cost(conn, s, steps) == 0);
        } else {
            assert(steps.push((j, vi)).skip(1) =~= steps.skip(1).push((j, vi)));
            assert(steps.push((j, vi))[0] == steps[0]);
            self.lemma_steps_push(
                conn,
                self.spec_next(s, steps[0].0, steps[0].1),
                steps.skip(1),
                j,
                vi,
            );
        }
    }

    /// Whether an output token is the token of the named candidate.
    pub open spec fn spec_token_matches(self, r: NodeRef, tok: ReadingCandidateToken) -> bool {
        let m = self.spec_metas(r.end as int)[r.index as int];
        &&& tok.word_id == m.node.spec_word_id()
        &&& tok.surface@ == m.word_info.surface@
        &&& tok.reading_form@ == if m.word_info.reading_form@.len() == 0 {
            m.word_info.surface@
        } else {
            m.word_info.reading_form@
        }
        &&& tok.begin == m.node.spec_begin()
        &&& tok.end == m.node.spec_end()
    }

    /// An output path realised by a concrete chain of steps: the chain is
    /// admissible from the start state, ends in acceptance, has at least
    /// `min_tokens` steps, costs what the path says (final transition to
    /// the zero EOS id included), and yields the path's tokens in order.
    pub open spec fn spec_path_from_steps(
        self,
        conn: ConnectionMatrix,
        p: ReadingCandidatePath,
        steps: Seq<(int, int)>,
        min_tokens: int,
    ) -> bool {
        &&& self.spec_steps_ok(Self::spec_start(), steps)
        &&& self.spec_accept(self.spec_steps_end(Self::spec_start(), steps))
        &&& steps.len() >= min_tokens
        &&& p.total_cost == self.spec_steps_cost(conn, Self::spec_start(), steps)
            + conn.spec_cost(self.spec_steps_end(Self::spec_start(), steps).prev_right_id, 0)
        &&& p.tokens@.len() == steps.len()
        &&& forall|i: int|
            0 <= i < steps.len() ==> self.spec_token_matches(
                self.spec_chain_ref(steps, i),
                #[trigger] p.tokens@[i],
            )
    }

    /// An output path is valid when some chain of steps realises it.
    pub open spec fn spec_valid_path(
        self,
        conn: ConnectionMatrix,
        p: ReadingCandidatePath,
        min_tokens: int,
    ) -> bool {
        exists|steps: Seq<(int, int)>| self.spec_path_from_steps(conn, p, steps, min_tokens)
    }

    /// Index view of a chain: each step is admissible at the state the
    /// previous steps reach, and the next prefix state follows from it.
    proof fn lemma_chain_index(self, s0: SearchState, steps: Seq<(int, int)>, i: int)
        requires
            self.spec_steps_ok(s0, steps),
            0 <= i < steps.len(),
        ensures
            self.spec_step_ok(self.spec_steps_end(s0, steps.take(i)), steps[i].0, steps[i].1),
            self.spec_steps_end(s0, steps.take(i + 1)) == self.spec_next(
                self.spec_steps_end(s0, steps.take(i)),
                steps[i].0,
                steps[i].1,
            ),
        decreases i,
    {
        if i == 0 {
            let next = self.spec_next(s0, steps[0].0, steps[0].1);
            assert(steps.take(0) =~= Seq::<(int, int)>::empty());
            assert(steps.take(1)[0] == steps[0]);
            assert(steps.take(1).skip(1) =~= Seq::<(int, int)>::empty());
            assert(self.spec_steps_end(s0, steps.take(0)) == s0);
            assert(self.spec_steps_end(next, Seq::<(int, int)>::empty()) == next);
        } else {
            let s1 = self.spec_next(s0, steps[0].0, steps[0].1);
            self.lemma_chain_index(s1, steps.skip(1), i - 1);
            assert(steps.skip(1).take(i - 1) =~= steps.take(i).skip(1));
            assert(steps.skip(1).take(i) =~= steps.take(i + 1).skip(1));
            assert(steps.take(i)[0] == steps[0]);
            assert(steps.take(i + 1)[0] == steps[0]);
            assert(steps.skip(1)[i - 1] == steps[i]);
        }
    }
}

/// The cache key of a search state: the boundary in the low 16 bits, the
/// previous right id above it, the reading offset above both.
pub open spec fn spec_state_key(s: SearchState) -> int {
    s.boundary + s.prev_right_id * 0x10000 + s.reading_offset * 0x1_0000_0000
}

/// A state the search can reach: its boundary and offset stay inside the
/// tables.
pub open spec fn spec_bounded_state(t: SearchTables, s: SearchState) -> bool {
    &&& (s.boundary as int) <= t.spec_eb()
    &&& (s.reading_offset as int) <= t.spec_reading().len()
}

/// Two reachable states with the same cache key are the same state.
proof fn lemma_key_injective(t: SearchTables, a: SearchState, b: SearchState)
    requires
        t.wf(),
        spec_bounded_state(t, a),
        spec_bounded_state(t, b),
        spec_state_key(a) == spec_state_key(b),
    ensures
        a == b,
{
    assert(a.boundary < 0x10000 && b.boundary < 0x10000);
    assert(a.reading_offset < 0x1_0000_0000 && b.reading_offset < 0x1_0000_0000);
    assert(a.boundary == b.boundary && a.prev_right_id == b.prev_right_id
        && a.reading_offset == b.reading_offset) by (nonlinear_arith)
        requires
            a.boundary < 0x10000,
            b.boundary < 0x10000,
            a.prev_right_id < 0x10000,
            b.prev_right_id < 0x10000,
            a.reading_offset < 0x1_0000_0000,
            b.reading_offset < 0x1_0000_0000,
            a.boundary + a.prev_right_id * 0x10000 + a.reading_offset * 0x1_0000_0000
                == b.boundary + b.prev_right_id * 0x10000 + b.reading_offset * 0x1_0000_0000,
    ;
}

/// The cache key of a reachable state.
fn state_key(t: &SearchTables, s: SearchState) -> (k: u64)
    requires
        t.wf(),
        spec_bounded_state(*t, s),
    ensures
        k == spec_state_key(s),
{
    s.boundary as u64 + (s.prev_right_id as u64) * 0x10000 + (s.reading_offset as u64)
        * 0x1_0000_0000
}

/// Whether some result in the list costs at most `x`.
pub open spec fn spec_some_result_le(results: Seq<ReadingCandidatePath>, x: int) -> bool {
    exists|i: int| 0 <= i < results.len() && #[trigger] results[i].total_cost <= x
}

/// Whether some result in the list costs exactly `x`.
pub open spec fn spec_some_result_eq(results: Seq<ReadingCandidatePath>, x: int) -> bool {
    exists|i: int| 0 <= i < results.len() && #[trigger] results[i].total_cost == x
}

/// Whether every result in the list costs at most `x`.
pub open spec fn spec_all_results_le(results: Seq<ReadingCandidatePath>, x: int) -> bool {
    forall|i: int| 0 <= i < results.len() ==> (#[trigger] results[i]).total_cost <= x
}

/// Whether every result in the list costs strictly less than `x`.
pub open spec fn spec_all_results_lt(results: Seq<ReadingCandidatePath>, x: int) -> bool {
    forall|i: int| 0 <= i < results.len() ==> (#[trigger] results[i]).total_cost < x
}

/// A cost is secured by a result list when some result attains it
/// exactly, or the list is full and every retained result is at most as
/// costly: the branch-and-bound guarantee for one candidate cost.
pub open spec fn spec_cost_secured(
    results: Seq<ReadingCandidatePath>,
    max_results: int,
    x: int,
) -> bool {
    spec_some_result_eq(results, x) || (results.len() == max_results && spec_all_results_le(
        results,
        x,
    ))
}

/// The recording policy: below capacity the candidate is appended; at
/// capacity, the last entry of maximal cost is replaced iff the candidate
/// is strictly cheaper, and nothing changes otherwise.
pub open spec fn spec_record_step(
    old_results: Seq<ReadingCandidatePath>,
    new_results: Seq<ReadingCandidatePath>,
    max_results: int,
    cand: ReadingCandidatePath,
) -> bool {
    if old_results.len() < max_results {
        new_results == old_results.push(cand)
    } else {
        exists|w: int|
            #![trigger old_results[w]]
            {
                &&& 0 <= w < old_results.len()
                &&& forall|k: int|
                    0 <= k < old_results.len() ==> (#[trigger] old_results[k]).total_cost
                        <= old_results[w].total_cost
                &&& forall|k: int|
                    w < k < old_results.len() ==> (#[trigger] old_results[k]).total_cost
                        < old_results[w].total_cost
                &&& new_results == (if cand.total_cost < old_results[w].total_cost {
                    old_results.update(w, cand)
                } else {
                    old_results
                })
            }
    }
}

/// A recording step below capacity — append the candidate — secures the
/// candidate's cost and keeps every cost already secured.
proof fn lemma_record_push_secures(
    old_results: Seq<ReadingCandidatePath>,
    new_results: Seq<ReadingCandidatePath>,
    max_results: int,
    cand: ReadingCandidatePath,
)
    requires
        old_results.len() < max_results,
        new_results == old_results.push(cand),
    ensures
        spec_cost_secured(new_results, max_results, cand.total_cost as int),
        forall|x: int|
            spec_cost_secured(old_results, max_results, x) ==> #[trigger] spec_cost_secured(
                new_results,
                max_results,
                x,
            ),
{
    assert(new_results[old_results.len() as int] == cand);
    assert(spec_some_result_eq(new_results, cand.total_cost as int));
    assert forall|x: int| spec_cost_secured(old_results, max_results, x)
        implies #[trigger] spec_cost_secured(new_results, max_results, x) by {
        if spec_some_result_eq(old_results, x) {
            let i0 = choose|i: int|
                0 <= i < old_results.len() && #[trigger] old_results[i].total_cost == x;
            assert(new_results[i0].total_cost == x);
            assert(spec_some_result_eq(new_results, x));
        }
    }
}

/// A recording step at capacity — replace the last maximal entry iff the
/// candidate is cheaper — secures the candidate's cost and keeps every
/// cost already secured.
proof fn lemma_record_full_secures(
    old_results: Seq<ReadingCandidatePath>,
    new_results: Seq<ReadingCandidatePath>,
    max_results: int,
    cand: ReadingCandidatePath,
    w: int,
)
    requires
        old_results.len() == max_results,
        max_results >= 1,
        0 <= w < old_results.len(),
        forall|k: int|
            0 <= k < old_results.len() ==> (#[trigger] old_results[k]).total_cost
                <= old_results[w].total_cost,
        new_results == (if cand.total_cost < old_results[w].total_cost {
            old_results.update(w, cand)
        } else {
            old_results
        }),
    ensures
        spec_cost_secured(new_results, max_results, cand.total_cost as int),
        forall|x: int|
            spec_cost_secured(old_results, max_results, x) ==> #[trigger] spec_cost_secured(
                new_results,
                max_results,
                x,
            ),
{
    if cand.total_cost < old_results[w].total_cost {
        assert(new_results[w] == cand);
        assert(spec_some_result_eq(new_results, cand.total_cost as int));
        assert forall|x: int| spec_cost_secured(old_results, max_results, x)
            implies #[trigger] spec_cost_secured(new_results, max_results, x) by {
            if spec_some_result_eq(old_results, x) {
                let i0 = choose|i: int|
                    0 <= i < old_results.len() && #[trigger] old_results[i].total_cost == x;
                if i0 != w {
                    assert(new_results[i0].total_cost == x);
                    assert(spec_some_result_eq(new_results, x));
                } else {
                    assert(old_results[w].total_cost == x);
                    assert forall|k: int|
                        0 <= k < new_results.len() implies (
                    #[trigger] new_results[k]).total_cost <= x by {
                        if k != w {
                            assert(new_results[k] == old_results[k]);
                        }
                    }
                    assert(spec_all_results_le(new_results, x));
                }
            } else {
                assert(spec_all_results_le(old_results, x));
                assert forall|k: int|
                    0 <= k < new_results.len() implies (#[trigger] new_results[k]).total_cost
                    <= x by {
                    if k == w {
                        assert(cand.total_cost < old_results[w].total_cost <= x);
                    } else {
                        assert(new_results[k] == old_results[k]);
                    }
                }
            }
        }
    } else {
        assert(new_results == old_results);
        assert forall|k: int| 0 <= k < new_results.len() implies (
        #[trigger] new_results[k]).total_cost <= cand.total_cost by {
            assert(old_results[k].total_cost <= old_results[w].total_cost);
        }
        assert(spec_all_results_le(new_results, cand.total_cost as int));
    }
}

/// The branch-and-bound searcher: the tables, the result bounds, the
/// current depth-first path, the retained results, and the memoized
/// minimum cost-to-go per state.
pub struct Searcher {
    pub tables: SearchTables,
    pub max_results: usize,
    pub min_tokens: usize,
    pub path: Vec<NodeRef>,
    pub results: Vec<ReadingCandidatePath>,
    pub min_cost_cache: HashMap<u64, Option<i32>>,
}

/// Every cached entry tells the truth about reachability of acceptance
/// from its state, and its cost stays within the per-step bound times the
/// boundaries left.
pub open spec fn spec_cache_ok_for(
    t: SearchTables,
    conn: ConnectionMatrix,
    cache: Map<u64, Option<i32>>,
) -> bool {
    forall|s: SearchState|
        spec_bounded_state(t, s) && #[trigger] cache.contains_key(spec_state_key(s) as u64)
            ==> {
            &&& (cache[spec_state_key(s) as u64] is Some <==> t.spec_can_complete(s))
            &&& match cache[spec_state_key(s) as u64] {
                Some(v) => {
                    &&& -((t.spec_eb() - s.boundary + 1) * 65536) <= v <= (t.spec_eb()
                        - s.boundary + 1) * 65536
                    &&& forall|c: Seq<(int, int)>|
                        t.spec_completion(s, c) ==> v <= #[trigger] t.spec_completion_cost(
                            conn,
                            s,
                            c,
                        )
                    &&& exists|c: Seq<(int, int)>|
                        #![trigger t.spec_completion_cost(conn, s, c)]
                        t.spec_completion(s, c) && v == t.spec_completion_cost(conn, s, c)
                },
                None => true,
            }
        }
}

impl Searcher {
    pub open spec fn swf(self) -> bool {
        &&& self.tables.wf()
        &&& self.max_results >= 1
        &&& self.min_tokens >= 1
        &&& self.results@.len() <= self.max_results
    }

    /// The memo cache tells the truth about every state it holds.
    pub open spec fn spec_cache_ok(self, conn: ConnectionMatrix) -> bool {
        spec_cache_ok_for(self.tables, conn, self.min_cost_cache@)
    }

    /// Every retained result is a valid path of at least `min_tokens`
    /// tokens.
    pub open spec fn spec_results_ok(self, conn: ConnectionMatrix) -> bool {
        forall|i: int|
            0 <= i < self.results@.len() ==> self.tables.spec_valid_path(
                conn,
                #[trigger] self.results@[i],
                self.min_tokens as int,
            )
    }

    pub fn new(
        tables: SearchTables,
        max_results: usize,
        min_tokens: usize,
    ) -> (r: Searcher)
        requires
            tables.wf(),
            max_results >= 1,
            min_tokens >= 1,
        ensures
            r.swf(),
            forall|conn: ConnectionMatrix| #[trigger] r.spec_cache_ok(conn),
            r.tables == tables,
            r.max_results == max_results,
            r.min_tokens == min_tokens,
            r.path@.len() == 0,
            r.results@.len() == 0,
    {
        Searcher {
            tables,
            max_results,
            min_tokens,
            path: Vec::new(),
            results: Vec::new(),
            min_cost_cache: HashMap::new(),
        }
    }

    /// The cost of the worst retained result — the maximum over the
    /// list, attained by one of its entries — defined only once the
    /// result list is full.
    pub fn worst_kept_cost(&self) -> (r: Option<i32>)
        requires
            self.max_results >= 1,
        ensures
            r is None <==> self.results@.len() < self.max_results,
            match r {
                Some(w) => {
                    &&& forall|i: int|
                        0 <= i < self.results@.len() ==> #[trigger] self.results@[i].total_cost
                            <= w
                    &&& exists|i: int|
                        0 <= i < self.results@.len() && #[trigger] self.results@[i].total_cost
                            == w
                },
                None => true,
            },
    {
        if self.results.len() < self.max_results {
            None
        } else {
            let n = self.results.len();
            let mut worst = self.results[0].total_cost;
            let mut i: usize = 1;
            while i < n
                invariant
                    1 <= i <= n,
                    n == self.results@.len(),
                    n >= 1,
                    forall|k: int| 0 <= k < i ==> #[trigger] self.results@[k].total_cost <= worst,
                    exists|k: int|
                        0 <= k < i && #[trigger] self.results@[k].total_cost == worst,
                decreases n - i,
            {
                if self.results[i].total_cost > worst {
                    worst = self.results[i].total_cost;
                    proof {
                        assert(self.results@[i as int].total_cost == worst);
                    }
                }
                i = i + 1;
            }
            Some(worst)
        }
    }

    /// Record the path the search currently stands on, with its total
    /// cost: append while fewer than the maximum number of results are
    /// held, else replace the worst retained result if this one is
    /// cheaper.
    fn record_result(
        &mut self,
        total_cost: i32,
        conn: &ConnectionMatrix,
        Ghost(steps): Ghost<Seq<(int, int)>>,
    )
        requires
            old(self).swf(),
            old(self).spec_results_ok(*conn),
            old(self).tables.spec_steps_ok(SearchTables::spec_start(), steps),
            old(self).tables.spec_accept(
                old(self).tables.spec_steps_end(SearchTables::spec_start(), steps),
            ),
            steps.len() >= old(self).min_tokens,
            old(self).path@.len() == steps.len(),
            forall|i: int|
                0 <= i < steps.len() ==> #[trigger] old(self).path@[i] == old(
                    self,
                ).tables.spec_chain_ref(steps, i),
            total_cost == old(self).tables.spec_steps_cost(
                *conn,
                SearchTables::spec_start(),
                steps,
            ) + conn.spec_cost(
                old(self).tables.spec_steps_end(SearchTables::spec_start(), steps).prev_right_id,
                0,
            ),
        ensures
            final(self).swf(),
            final(self).spec_results_ok(*conn),
            final(self).tables == old(self).tables,
            final(self).max_results == old(self).max_results,
            final(self).min_tokens == old(self).min_tokens,
            final(self).path == old(self).path,
            final(self).min_cost_cache == old(self).min_cost_cache,
            final(self).results@.len() == if old(self).results@.len() < old(self).max_results {
                old(self).results@.len() + 1
            } else {
                old(self).results@.len() + 0
            },
            final(self).results@.len() >= 1,
            spec_some_result_le(final(self).results@, total_cost as int),
            forall|x: int|
                spec_some_result_le(old(self).results@, x) ==> #[trigger] spec_some_result_le(
                    final(self).results@,
                    x,
                ),
            exists|cand: ReadingCandidatePath|
                {
                    &&& cand.total_cost == total_cost
                    &&& old(self).tables.spec_path_from_steps(
                        *conn,
                        cand,
                        steps,
                        old(self).min_tokens as int,
                    )
                    &&& #[trigger] spec_record_step(
                        old(self).results@,
                        final(self).results@,
                        old(self).max_results as int,
                        cand,
                    )
                },
            spec_cost_secured(
                final(self).results@,
                old(self).max_results as int,
                total_cost as int,
            ),
            forall|x: int|
                spec_cost_secured(old(self).results@, old(self).max_results as int, x)
                    ==> #[trigger] spec_cost_secured(
                    final(self).results@,
                    old(self).max_results as int,
                    x,
                ),
    {
        let ghost start = SearchTables::spec_start();
        let n = self.path.len();
        let mut tokens: Vec<ReadingCandidateToken> = Vec::with_capacity(n);
        let mut i: usize = 0;
        while i < n
            invariant
                self == old(self),
                n == self.path@.len(),
                n == steps.len(),
                i <= n,
                self.swf(),
                self.tables.spec_steps_ok(SearchTables::spec_start(), steps),
                forall|k: int|
                    0 <= k < steps.len() ==> #[trigger] self.path@[k] == self.tables.spec_chain_ref(
                        steps,
                        k,
                    ),
                tokens@.len() == i,
                forall|k: int|
                    0 <= k < i ==> self.tables.spec_token_matches(
                        self.tables.spec_chain_ref(steps, k),
                        #[trigger] tokens@[k],
                    ),
            decreases n - i,
        {
            proof {
                self.tables.lemma_chain_index(SearchTables::spec_start(), steps, i as int);
            }
            let node_ref = self.path[i];
            let meta = &self.tables.metas_by_end[node_ref.end][node_ref.index];
            tokens.push(meta.as_candidate_token());
            i = i + 1;
        }
        let candidate = ReadingCandidatePath { total_cost, tokens };
        proof {
            assert(self.tables.spec_path_from_steps(
                *conn,
                candidate,
                steps,
                self.min_tokens as int,
            ));
        }
        if self.results.len() < self.max_results {
            let ghost cand_snapshot = candidate;
            self.results.push(candidate);
            proof {
                let ghost nl = self.results@.len() as int;
                assert(self.results@[nl - 1].total_cost <= total_cost);
                assert(spec_some_result_le(self.results@, total_cost as int));
                assert forall|x: int| spec_some_result_le(old(self).results@, x)
                    implies #[trigger] spec_some_result_le(self.results@, x) by {
                    let i0 = choose|i: int|
                        0 <= i < old(self).results@.len() && #[trigger] old(
                            self,
                        ).results@[i].total_cost <= x;
                    assert(self.results@[i0].total_cost <= x);
                }
                assert(spec_record_step(
                    old(self).results@,
                    self.results@,
                    self.max_results as int,
                    cand_snapshot,
                ));
                lemma_record_push_secures(
                    old(self).results@,
                    self.results@,
                    self.max_results as int,
                    cand_snapshot,
                );
            }
            return ;
        }
        let m = self.results.len();
        let mut worst_idx: usize = 0;
        let mut worst = self.results[0].total_cost;
        let mut j: usize = 1;
        while j < m
            invariant
                1 <= j <= m,
                m == self.results@.len(),
                m >= 1,
                worst_idx < j,
                worst == self.results@[worst_idx as int].total_cost,
                forall|k: int| 0 <= k < j ==> #[trigger] self.results@[k].total_cost <= worst,
                forall|k: int|
                    worst_idx < k < j ==> #[trigger] self.results@[k].total_cost < worst,
            decreases m - j,
        {
            if self.results[j].total_cost >= worst {
                worst = self.results[j].total_cost;
                worst_idx = j;
            }
            j = j + 1;
        }
        if total_cost < worst {
            let ghost pre = self.results@;
            let ghost cand_snapshot = candidate;
            self.results.set(worst_idx, candidate);
            proof {
                assert(self.results@[worst_idx as int].total_cost <= total_cost);
                assert(spec_some_result_le(self.results@, total_cost as int));
                assert forall|x: int| spec_some_result_le(pre, x)
                    implies #[trigger] spec_some_result_le(self.results@, x) by {
                    let i0 = choose|i: int|
                        0 <= i < pre.len() && #[trigger] pre[i].total_cost <= x;
                    if i0 == worst_idx as int {
                        assert(self.results@[i0].total_cost <= pre[i0].total_cost);
                    } else {
                        assert(self.results@[i0].total_cost <= x);
                    }
                }
                assert(self.results@ =~= pre.update(worst_idx as int, cand_snapshot));
                assert(pre[worst_idx as int] == old(self).results@[worst_idx as int]);
                assert(spec_record_step(
                    old(self).results@,
                    self.results@,
                    self.max_results as int,
                    cand_snapshot,
                ));
                lemma_record_full_secures(
                    old(self).results@,
                    self.results@,
                    self.max_results as int,
                    cand_snapshot,
                    worst_idx as int,
                );
            }
        } else {
            let ghost cand_snapshot = candidate;
            proof {
                assert(self.results@[worst_idx as int].total_cost <= total_cost);
                assert(spec_some_result_le(self.results@, total_cost as int));
                assert(spec_record_step(
                    old(self).results@,
                    self.results@,
                    self.max_results as int,
                    cand_snapshot,
                ));
                lemma_record_full_secures(
                    old(self).results@,
                    self.results@,
                    self.max_results as int,
                    cand_snapshot,
                    worst_idx as int,
                );
            }
        }
    }
}

impl SearchTables {
    /// Whether some admissible step taken before the scan position
    /// `(j_lim, vi_lim)` leads to a state from which acceptance is
    /// reachable.
    pub open spec fn spec_has_completion_before(
        self,
        s: SearchState,
        j_lim: int,
        vi_lim: int,
    ) -> bool {
        exists|j: int, vi: int|
            ((0 <= j < j_lim) || (j == j_lim && 0 <= vi < vi_lim)) && self.spec_step_ok(s, j, vi)
                && self.spec_can_complete(self.spec_next(s, j, vi))
    }
}

/// Whether the variant `v` is the next piece of the reading at `off`.
fn prefix_matches(reading: &Vec<u32>, off: usize, v: &Vec<u32>) -> (r: bool)
    requires
        off + v@.len() <= reading@.len(),
    ensures
        r <==> reading@.subrange(off as int, off + v@.len()) == v@,
{
    let n = v.len();
    let rl = reading.len();
    let mut i: usize = 0;
    while i < n
        invariant
            n == v@.len(),
            rl == reading@.len(),
            off + n <= rl,
            i <= n,
            forall|k: int| 0 <= k < i ==> reading@[off + k] == v@[k],
        decreases n - i,
    {
        if reading[off + i] != v[i] {
            proof {
                assert(reading@.subrange(off as int, off + v@.len())[i as int] != v@[i as int]);
            }
            return false;
        }
        i = i + 1;
    }
    proof {
        assert(reading@.subrange(off as int, off + v@.len()) =~= v@);
    }
    true
}

/// Caching one correct answer keeps the whole cache truthful.
proof fn lemma_cache_insert(
    t: SearchTables,
    conn: ConnectionMatrix,
    pre: Map<u64, Option<i32>>,
    state: SearchState,
    result: Option<i32>,
)
    requires
        t.wf(),
        spec_cache_ok_for(t, conn, pre),
        spec_bounded_state(t, state),
        result is Some <==> t.spec_can_complete(state),
        match result {
            Some(v) => {
                &&& -((t.spec_eb() - state.boundary + 1) * 65536) <= v <= (t.spec_eb()
                    - state.boundary + 1) * 65536
                &&& forall|c: Seq<(int, int)>|
                    t.spec_completion(state, c) ==> v <= #[trigger] t.spec_completion_cost(
                        conn,
                        state,
                        c,
                    )
                &&& exists|c: Seq<(int, int)>|
                    #![trigger t.spec_completion_cost(conn, state, c)]
                    t.spec_completion(state, c) && v == t.spec_completion_cost(conn, state, c)
            },
            None => true,
        },
    ensures
        spec_cache_ok_for(t, conn, pre.insert(spec_state_key(state) as u64, result)),
{
    let key = spec_state_key(state) as u64;
    let post = pre.insert(key, result);
    assert forall|s2: SearchState|
        spec_bounded_state(t, s2) && #[trigger] post.contains_key(spec_state_key(s2) as u64)
            implies {
        &&& (post[spec_state_key(s2) as u64] is Some <==> t.spec_can_complete(s2))
        &&& match post[spec_state_key(s2) as u64] {
            Some(v) => {
                &&& -((t.spec_eb() - s2.boundary + 1) * 65536) <= v <= (t.spec_eb()
                    - s2.boundary + 1) * 65536
                &&& forall|c: Seq<(int, int)>|
                    t.spec_completion(s2, c) ==> v <= #[trigger] t.spec_completion_cost(
                        conn,
                        s2,
                        c,
                    )
                &&& exists|c: Seq<(int, int)>|
                    #![trigger t.spec_completion_cost(conn, s2, c)]
                    t.spec_completion(s2, c) && v == t.spec_completion_cost(conn, s2, c)
            },
            None => true,
        }
    } by {
        if spec_state_key(s2) as u64 == key {
            lemma_key_injective(t, s2, state);
        } else {
            assert(post[spec_state_key(s2) as u64] == pre[spec_state_key(s2) as u64]);
            assert(pre.contains_key(spec_state_key(s2) as u64));
        }
    }
}

/// The minimum additional cost to reach acceptance from `state`, or
/// nothing when acceptance is unreachable, memoized per state in `cache`.
/// The answer's presence is exact; its value stays within the per-step
/// cost bound times the boundaries left.
#[verifier::rlimit(100)]
fn min_additional_cost(
    t: &SearchTables,
    cache: &mut HashMap<u64, Option<i32>>,
    state: SearchState,
    conn: &ConnectionMatrix,
) -> (r: Option<i32>)
    requires
        t.wf(),
        spec_cache_ok_for(*t, *conn, old(cache)@),
        spec_bounded_state(*t, state),
        conn.wf(),
    ensures
        spec_cache_ok_for(*t, *conn, final(cache)@),
        r is Some <==> t.spec_can_complete(state),
        match r {
            Some(v) => {
                &&& -((t.spec_eb() - state.boundary + 1) * 65536) <= v <= (t.spec_eb()
                    - state.boundary + 1) * 65536
                &&& forall|c: Seq<(int, int)>|
                    t.spec_completion(state, c) ==> v <= #[trigger] t.spec_completion_cost(
                        *conn,
                        state,
                        c,
                    )
                &&& exists|c: Seq<(int, int)>|
                    #![trigger t.spec_completion_cost(*conn, state, c)]
                    t.spec_completion(state, c) && v == t.spec_completion_cost(*conn, state, c)
            },
            None => true,
        },
    decreases t.spec_eb() - state.boundary,
{
    let key = state_key(t, state);
    match cache.get(&key) {
        Some(cached) => {
            let r = *cached;
            proof {
                assert(cache@.contains_key(key));
                assert(key == spec_state_key(state) as u64);
                assert(cache@[spec_state_key(state) as u64] == r);
            }
            return r;
        },
        None => {},
    }
    let result: Option<i32>;
    if state.boundary == t.end_boundary {
        if state.reading_offset == t.reading.len() {
            result = Some(conn.cost(state.prev_right_id, 0) as i32);
        } else {
            result = None;
        }
        proof {
            assert(result is Some <==> t.spec_can_complete(state));
            if result is Some {
                assert forall|c: Seq<(int, int)>| t.spec_completion(state, c)
                    implies result.unwrap() <= #[trigger] t.spec_completion_cost(
                    *conn,
                    state,
                    c,
                ) by {
                    t.lemma_accept_completion_empty(state, c);
                    assert(t.spec_steps_end(state, c) == state);
                    assert(t.spec_steps_cost(*conn, state, c) == 0);
                }
                let empty_c = Seq::<(int, int)>::empty();
                assert(t.spec_steps_end(state, empty_c) == state);
                assert(t.spec_completion(state, empty_c));
                assert(t.spec_steps_cost(*conn, state, empty_c) == 0);
                assert(result.unwrap() == t.spec_completion_cost(*conn, state, empty_c));
            }
        }
    } else {
        let node_refs = copy_vec(&t.nodes_by_begin[state.boundary]);
        let mut best: Option<i32> = None;
        let n = node_refs.len();
        let mut jj: usize = 0;
        while jj < n
            invariant
                t.wf(),
                spec_cache_ok_for(*t, *conn, cache@),
                conn.wf(),
                spec_bounded_state(*t, state),
                (state.boundary as int) < t.spec_eb(),
                node_refs@ == t.spec_refs(state.boundary as int),
                n == node_refs@.len(),
                jj <= n,
                best is Some <==> t.spec_has_completion_before(state, jj as int, 0),
                match best {
                    Some(v) => {
                        &&& -((t.spec_eb() - state.boundary + 1) * 65536) <= v <= (t.spec_eb()
                            - state.boundary + 1) * 65536
                        &&& forall|c: Seq<(int, int)>|
                            (t.spec_completion(state, c) && c.len() > 0 && 0 <= c[0].0
                                < jj as int) ==> v <= #[trigger] t.spec_completion_cost(
                                *conn,
                                state,
                                c,
                            )
                        &&& exists|c: Seq<(int, int)>|
                            #![trigger t.spec_completion_cost(*conn, state, c)]
                            t.spec_completion(state, c) && v == t.spec_completion_cost(
                                *conn,
                                state,
                                c,
                            )
                    },
                    None => true,
                },
            decreases n - jj,
        {
            let r = node_refs[jj];
            proof {
                assert(t.spec_refs(state.boundary as int)[jj as int] == r);
            }
            let nv = t.metas_by_end[r.end][r.index].match_variants.len();
            let left_id = t.metas_by_end[r.end][r.index].node.left_id();
            let node_cost = t.metas_by_end[r.end][r.index].node.cost();
            let node_end = t.metas_by_end[r.end][r.index].node.end();
            let node_right = t.metas_by_end[r.end][r.index].node.right_id();
            let step_cost = conn.cost(state.prev_right_id, left_id) as i32 + node_cost as i32;
            let mut vi: usize = 0;
            while vi < nv
                invariant
                    t.wf(),
                    spec_cache_ok_for(*t, *conn, cache@),
                    conn.wf(),
                    spec_bounded_state(*t, state),
                    (state.boundary as int) < t.spec_eb(),
                    node_refs@ == t.spec_refs(state.boundary as int),
                    n == node_refs@.len(),
                    jj < n,
                    r == t.spec_refs(state.boundary as int)[jj as int],
                    (r.end as int) < t.metas_by_end@.len(),
                    (r.index as int) < t.spec_metas(r.end as int).len(),
                    nv == t.spec_metas(r.end as int)[r.index as int].match_variants@.len(),
                    left_id == t.spec_metas(r.end as int)[r.index as int].node.spec_left_id(),
                    node_cost == t.spec_metas(r.end as int)[r.index as int].node.spec_cost(),
                    node_end == t.spec_metas(r.end as int)[r.index as int].node.spec_end(),
                    node_right == t.spec_metas(r.end as int)[r.index as int].node.spec_right_id(),
                    (state.boundary as int) < node_end <= t.spec_eb(),
                    step_cost == conn.spec_cost(state.prev_right_id, left_id) + node_cost,
                    -65536 <= step_cost <= 65536,
                    vi <= nv,
                    best is Some <==> t.spec_has_completion_before(state, jj as int, vi as int),
                    match best {
                        Some(v) => {
                            &&& -((t.spec_eb() - state.boundary + 1) * 65536) <= v <= (
                            t.spec_eb() - state.boundary + 1) * 65536
                            &&& forall|c: Seq<(int, int)>|
                                (t.spec_completion(state, c) && c.len() > 0 && ((0 <= c[0].0
                                    < jj as int) || (c[0].0 == jj as int && 0 <= c[0].1
                                    < vi as int))) ==> v <= #[trigger] t.spec_completion_cost(
                                    *conn,
                                    state,
                                    c,
                                )
                            &&& exists|c: Seq<(int, int)>|
                                #![trigger t.spec_completion_cost(*conn, state, c)]
                                t.spec_completion(state, c) && v == t.spec_completion_cost(
                                    *conn,
                                    state,
                                    c,
                                )
                        },
                        None => true,
                    },
                decreases nv - vi,
            {
                let admissible = {
                    let v = &t.metas_by_end[r.end][r.index].match_variants[vi];
                    if v.len() == 0 {
                        false
                    } else if v.len() > t.reading.len() - state.reading_offset {
                        false
                    } else {
                        prefix_matches(&t.reading, state.reading_offset, v)
                    }
                };
                if admissible {
                    let vlen = t.metas_by_end[r.end][r.index].match_variants[vi].len();
                    let next_state = SearchState {
                        boundary: node_end,
                        prev_right_id: node_right,
                        reading_offset: state.reading_offset + vlen,
                    };
                    proof {
                        assert(t.spec_step_ok(state, jj as int, vi as int));
                        assert(next_state == t.spec_next(state, jj as int, vi as int));
                        assert(spec_bounded_state(*t, next_state));
                    }
                    let rem_opt = min_additional_cost(t, cache, next_state, conn);
                    proof {
                        assert(rem_opt is Some <==> t.spec_can_complete(next_state));
                    }
                    match rem_opt {
                        Some(rem) => {
                            proof {
                                assert((t.spec_eb() - next_state.boundary + 1) <= (t.spec_eb()
                                    - state.boundary));
                            }
                            let ghost old_best = best;
                            let candidate = step_cost + rem;
                            let new_best = match best {
                                None => candidate,
                                Some(cur) => if candidate < cur {
                                    candidate
                                } else {
                                    cur
                                },
                            };
                            best = Some(new_best);
                            proof {
                                assert(t.spec_step_ok(state, jj as int, vi as int)
                                    && t.spec_can_complete(
                                    t.spec_next(state, jj as int, vi as int),
                                ));
                                assert(t.spec_has_completion_before(state, jj as int, vi + 1));
                                let c1 = choose|c: Seq<(int, int)>|
                                    #![trigger t.spec_completion_cost(*conn, next_state, c)]
                                    t.spec_completion(next_state, c) && rem
                                        == t.spec_completion_cost(*conn, next_state, c);
                                t.lemma_completion_cons(*conn, state, jj as int, vi as int, c1);
                                assert(candidate == t.spec_completion_cost(
                                    *conn,
                                    state,
                                    seq![(jj as int, vi as int)] + c1,
                                ));
                                if new_best == candidate {
                                    assert(t.spec_completion(
                                        state,
                                        seq![(jj as int, vi as int)] + c1,
                                    ));
                                } else {
                                    assert(old_best is Some && new_best == old_best.unwrap());
                                }
                                assert forall|c: Seq<(int, int)>|
                                    (t.spec_completion(state, c) && c.len() > 0 && ((0 <= c[0].0
                                        < jj as int) || (c[0].0 == jj as int && 0 <= c[0].1 < vi
                                        + 1))) implies new_best
                                    <= #[trigger] t.spec_completion_cost(*conn, state, c) by {
                                    t.lemma_completion_first_step(*conn, state, c);
                                    let nx = t.spec_next(state, c[0].0, c[0].1);
                                    if c[0].0 == jj as int && c[0].1 == vi as int {
                                        assert(nx == next_state);
                                        assert(rem <= t.spec_completion_cost(
                                            *conn,
                                            next_state,
                                            c.skip(1),
                                        ));
                                    } else {
                                        t.lemma_completion_can_complete(nx, c.skip(1));
                                        assert(t.spec_has_completion_before(
                                            state,
                                            jj as int,
                                            vi as int,
                                        ));
                                        assert(old_best is Some);
                                        assert(old_best.unwrap() <= t.spec_completion_cost(
                                            *conn,
                                            state,
                                            c,
                                        ));
                                    }
                                }
                            }
                        },
                        None => {
                            proof {
                                assert forall|j2: int, v2: int|
                                    ((0 <= j2 < jj as int) || (j2 == jj as int && 0 <= v2 < vi
                                        + 1)) && t.spec_step_ok(state, j2, v2)
                                        && t.spec_can_complete(
                                        t.spec_next(state, j2, v2),
                                    ) implies t.spec_has_completion_before(
                                    state,
                                    jj as int,
                                    vi as int,
                                ) by {
                                    if j2 == jj as int && v2 == vi as int {
                                        assert(t.spec_next(state, j2, v2) == next_state);
                                        assert(false);
                                    }
                                }
                                if best is Some {
                                    assert forall|c: Seq<(int, int)>|
                                        (t.spec_completion(state, c) && c.len() > 0 && ((0
                                            <= c[0].0 < jj as int) || (c[0].0 == jj as int && 0
                                            <= c[0].1 < vi + 1))) implies best.unwrap()
                                        <= #[trigger] t.spec_completion_cost(*conn, state, c) by {
                                        t.lemma_completion_first_step(*conn, state, c);
                                        let nx = t.spec_next(state, c[0].0, c[0].1);
                                        if c[0].0 == jj as int && c[0].1 == vi as int {
                                            assert(nx == next_state);
                                            t.lemma_completion_can_complete(nx, c.skip(1));
                                            assert(false);
                                        }
                                    }
                                }
                            }
                        },
                    }
                } else {
                    proof {
                        assert(!t.spec_step_ok(state, jj as int, vi as int));
                        assert forall|j2: int, v2: int|
                            ((0 <= j2 < jj as int) || (j2 == jj as int && 0 <= v2 < vi + 1))
                                && t.spec_step_ok(state, j2, v2) && t.spec_can_complete(
                                t.spec_next(state, j2, v2),
                            ) implies t.spec_has_completion_before(
                            state,
                            jj as int,
                            vi as int,
                        ) by {}
                        if best is Some {
                            assert forall|c: Seq<(int, int)>|
                                (t.spec_completion(state, c) && c.len() > 0 && ((0 <= c[0].0
                                    < jj as int) || (c[0].0 == jj as int && 0 <= c[0].1 < vi
                                    + 1))) implies best.unwrap()
                                <= #[trigger] t.spec_completion_cost(*conn, state, c) by {
                                assert(t.spec_step_ok(state, c[0].0, c[0].1));
                            }
                        }
                    }
                }
                vi = vi + 1;
            }
            proof {
                assert forall|j2: int, v2: int|
                    ((0 <= j2 < jj + 1) || (j2 == jj + 1 && 0 <= v2 < 0)) && t.spec_step_ok(
                        state,
                        j2,
                        v2,
                    ) && t.spec_can_complete(t.spec_next(state, j2, v2))
                        implies t.spec_has_completion_before(state, jj as int, nv as int) by {
                    if j2 == jj as int {
                        assert(0 <= v2 < nv);
                    }
                }
                if best is Some {
                    assert forall|c: Seq<(int, int)>|
                        (t.spec_completion(state, c) && c.len() > 0 && 0 <= c[0].0 < jj + 1)
                            implies best.unwrap() <= #[trigger] t.spec_completion_cost(
                            *conn,
                            state,
                            c,
                        ) by {
                        assert(t.spec_step_ok(state, c[0].0, c[0].1));
                        if c[0].0 == jj as int {
                            assert(0 <= c[0].1 < nv);
                        }
                    }
                }
            }
            jj = jj + 1;
        }
        result = best;
        proof {
            if t.spec_can_complete(state) {
                let (j2, v2) = choose|j2: int, v2: int|
                    t.spec_step_ok(state, j2, v2) && t.spec_can_complete(
                        t.spec_next(state, j2, v2),
                    );
                assert(j2 < n);
                assert(t.spec_has_completion_before(state, n as int, 0));
            }
            if t.spec_has_completion_before(state, n as int, 0) {
                let (j2, v2) = choose|j2: int, v2: int|
                    ((0 <= j2 < n as int) || (j2 == n as int && 0 <= v2 < 0)) && t.spec_step_ok(
                        state,
                        j2,
                        v2,
                    ) && t.spec_can_complete(t.spec_next(state, j2, v2));
                assert(t.spec_can_complete(state));
            }
            if result is Some {
                assert forall|c: Seq<(int, int)>| t.spec_completion(state, c)
                    implies result.unwrap() <= #[trigger] t.spec_completion_cost(
                    *conn,
                    state,
                    c,
                ) by {
                    assert(c.len() > 0) by {
                        if c.len() == 0 {
                            assert(t.spec_steps_end(state, c) == state);
                        }
                    }
                    assert(t.spec_step_ok(state, c[0].0, c[0].1));
                    assert(0 <= c[0].0 < n as int);
                }
            }
        }
    }
    let ghost pre = cache@;
    cache.insert(key, result);
    proof {
        lemma_cache_insert(*t, *conn, pre, state, result);
        assert(cache@ == pre.insert(spec_state_key(state) as u64, result));
    }
    result
}

impl Searcher {
    /// The minimum additional cost to reach acceptance from `state`, or
    /// nothing when acceptance is unreachable, memoized per state.
    fn min_additional_cost_from_state(
        &mut self,
        state: SearchState,
        conn: &ConnectionMatrix,
    ) -> (r: Option<i32>)
        requires
            old(self).swf(),
            old(self).spec_cache_ok(*conn),
            spec_bounded_state(old(self).tables, state),
            conn.wf(),
        ensures
            final(self).swf(),
            final(self).spec_cache_ok(*conn),
            final(self).tables == old(self).tables,
            final(self).max_results == old(self).max_results,
            final(self).min_tokens == old(self).min_tokens,
            final(self).path == old(self).path,
            final(self).results == old(self).results,
            r is Some <==> final(self).tables.spec_can_complete(state),
            match r {
                Some(v) => {
                    &&& -((final(self).tables.spec_eb() - state.boundary + 1) * 65536) <= v <= (
                    final(self).tables.spec_eb() - state.boundary + 1) * 65536
                    &&& forall|c: Seq<(int, int)>|
                        final(self).tables.spec_completion(state, c) ==> v
                            <= #[trigger] final(self).tables.spec_completion_cost(
                            *conn,
                            state,
                            c,
                        )
                    &&& exists|c: Seq<(int, int)>|
                        #![trigger final(self).tables.spec_completion_cost(*conn, state, c)]
                        final(self).tables.spec_completion(state, c) && v
                            == final(self).tables.spec_completion_cost(*conn, state, c)
                },
                None => true,
            },
    {
        min_additional_cost(&self.tables, &mut self.min_cost_cache, state, conn)
    }
}
/// One admissible expansion collected during search, with the chain step
/// it stands for.
#[derive(Clone, Copy)]
struct Transition {
    est: i32,
    step: i32,
    nref: NodeRef,
    next: SearchState,
    ghost_step: Ghost<(int, int)>,
}

/// A collected transition is an admissible step from `state` whose target
/// can still reach acceptance; its estimate undercuts the total of every
/// path through it.
spec fn spec_trans_good(
    t: SearchTables,
    conn: ConnectionMatrix,
    state: SearchState,
    base: int,
    tr: Transition,
) -> bool {
    &&& t.spec_step_ok(state, tr.ghost_step@.0, tr.ghost_step@.1)
    &&& tr.next == t.spec_next(state, tr.ghost_step@.0, tr.ghost_step@.1)
    &&& tr.nref == t.spec_refs(state.boundary as int)[tr.ghost_step@.0]
    &&& tr.step == t.spec_step_cost(conn, state, tr.ghost_step@.0)
    &&& t.spec_can_complete(tr.next)
    &&& -65536 <= tr.step <= 65536
    &&& forall|c: Seq<(int, int)>|
        t.spec_completion(tr.next, c) ==> tr.est <= base + tr.step
            + #[trigger] t.spec_completion_cost(conn, tr.next, c)
}

/// Whether some transition in the list carries the chain step `(j, v)`.
spec fn spec_has_transition(ts: Seq<Transition>, j: int, v: int) -> bool {
    exists|k: int| 0 <= k < ts.len() && #[trigger] ts[k].ghost_step@ == (j, v)
}

/// Whether some transition at or after `from` carries the chain step.
spec fn spec_pending_transition(ts: Seq<Transition>, from: int, j: int, v: int) -> bool {
    exists|k: int| from <= k < ts.len() && #[trigger] ts[k].ghost_step@ == (j, v)
}

/// Whether the list holds this very transition.
spec fn spec_contains_tr(ts: Seq<Transition>, tr: Transition) -> bool {
    exists|k: int| 0 <= k < ts.len() && #[trigger] ts[k] == tr
}

impl Searcher {
    /// Depth-first branch-and-bound from `state`, the path so far having
    /// cost `base_cost`: prune states that cannot reach acceptance or
    /// cannot beat the worst retained result, record the path at
    /// acceptance, and otherwise expand the admissible transitions in
    /// order of their estimated total cost. Afterwards every completion
    /// of the current path is matched by some retained result at most as
    /// costly.
    fn dfs(
        &mut self,
        state: SearchState,
        base_cost: i32,
        conn: &ConnectionMatrix,
        Ghost(steps): Ghost<Seq<(int, int)>>,
        Ghost(tsnap): Ghost<SearchTables>,
    )
        requires
            old(self).swf(),
            old(self).spec_cache_ok(*conn),
            old(self).spec_results_ok(*conn),
            conn.wf(),
            old(self).tables == tsnap,
            spec_bounded_state(old(self).tables, state),
            old(self).tables.spec_steps_ok(SearchTables::spec_start(), steps),
            old(self).tables.spec_steps_end(SearchTables::spec_start(), steps) == state,
            base_cost == old(self).tables.spec_steps_cost(
                *conn,
                SearchTables::spec_start(),
                steps,
            ),
            old(self).path@.len() == steps.len(),
            forall|i: int|
                0 <= i < steps.len() ==> #[trigger] old(self).path@[i] == old(
                    self,
                ).tables.spec_chain_ref(steps, i),
            -((state.boundary as int) * 65536) <= base_cost <= (state.boundary as int) * 65536,
        ensures
            final(self).swf(),
            final(self).spec_cache_ok(*conn),
            final(self).spec_results_ok(*conn),
            final(self).tables == old(self).tables,
            final(self).max_results == old(self).max_results,
            final(self).min_tokens == old(self).min_tokens,
            final(self).path@ == old(self).path@,
            final(self).results@.len() >= old(self).results@.len(),
            (old(self).min_tokens == 1 && old(self).tables.spec_can_complete(state))
                ==> final(self).results@.len() >= 1,
            forall|x: int|
                spec_some_result_le(old(self).results@, x) ==> #[trigger] spec_some_result_le(
                    final(self).results@,
                    x,
                ),
            forall|c: Seq<(int, int)>|
                (#[trigger] old(self).tables.spec_completion(state, c) && steps.len() + c.len()
                    >= old(self).min_tokens) ==> spec_some_result_le(
                    final(self).results@,
                    base_cost + old(self).tables.spec_completion_cost(*conn, state, c),
                ),
            forall|c: Seq<(int, int)>|
                (#[trigger] old(self).tables.spec_completion(state, c) && steps.len() + c.len()
                    >= old(self).min_tokens) ==> spec_cost_secured(
                    final(self).results@,
                    old(self).max_results as int,
                    base_cost + old(self).tables.spec_completion_cost(*conn, state, c),
                ),
            forall|x: int|
                spec_cost_secured(old(self).results@, old(self).max_results as int, x)
                    ==> #[trigger] spec_cost_secured(
                    final(self).results@,
                    old(self).max_results as int,
                    x,
                ),
            ({
                let total = base_cost + conn.spec_cost(state.prev_right_id, 0);
                (state.boundary == old(self).tables.end_boundary && state.reading_offset
                    == old(self).tables.spec_reading().len() && steps.len() >= old(
                    self,
                ).min_tokens && !(old(self).results@.len() >= old(self).max_results
                    && spec_all_results_lt(old(self).results@, total))) ==> exists|
                    cand: ReadingCandidatePath,
                |
                    {
                        &&& cand.total_cost == total
                        &&& old(self).tables.spec_path_from_steps(
                            *conn,
                            cand,
                            steps,
                            old(self).min_tokens as int,
                        )
                        &&& #[trigger] spec_record_step(
                            old(self).results@,
                            final(self).results@,
                            old(self).max_results as int,
                            cand,
                        )
                    }
            }),
        decreases tsnap.spec_eb() - state.boundary,
    {
        let ghost t = self.tables;
        let ghost start = SearchTables::spec_start();
        let min_additional = match self.min_additional_cost_from_state(state, conn) {
            Some(m) => m,
            None => {
                proof {
                    assert forall|c: Seq<(int, int)>|
                        (#[trigger] t.spec_completion(state, c) && steps.len() + c.len()
                            >= self.min_tokens) implies spec_some_result_le(
                        self.results@,
                        base_cost + t.spec_completion_cost(*conn, state, c),
                    ) && spec_cost_secured(
                        self.results@,
                        self.max_results as int,
                        base_cost + t.spec_completion_cost(*conn, state, c),
                    ) by {
                        t.lemma_completion_can_complete(state, c);
                    }
                    if state.boundary == t.end_boundary && state.reading_offset
                        == t.spec_reading().len() {
                        assert(t.spec_can_complete(state));
                        assert(false);
                    }
                }
                return ;
            },
        };
        let ghost h_val = min_additional;
        match self.worst_kept_cost() {
            Some(worst_kept) => {
                if base_cost + min_additional > worst_kept {
                    proof {
                        assert(self.results@.len() >= self.max_results >= 1);
                        assert(self.results@.len() == self.max_results);
                        assert forall|c: Seq<(int, int)>|
                            (#[trigger] t.spec_completion(state, c) && steps.len() + c.len()
                                >= self.min_tokens) implies spec_some_result_le(
                            self.results@,
                            base_cost + t.spec_completion_cost(*conn, state, c),
                        ) && spec_cost_secured(
                            self.results@,
                            self.max_results as int,
                            base_cost + t.spec_completion_cost(*conn, state, c),
                        ) by {
                            assert(h_val <= t.spec_completion_cost(*conn, state, c));
                            assert(self.results@[0].total_cost <= worst_kept);
                            assert(spec_all_results_le(
                                self.results@,
                                base_cost + t.spec_completion_cost(*conn, state, c),
                            ));
                        }
                        if state.boundary == t.end_boundary && state.reading_offset
                            == t.spec_reading().len() {
                            let ca = choose|c: Seq<(int, int)>|
                                #![trigger t.spec_completion_cost(*conn, state, c)]
                                t.spec_completion(state, c) && h_val
                                    == t.spec_completion_cost(*conn, state, c);
                            t.lemma_accept_completion_empty(state, ca);
                            assert(t.spec_steps_end(state, ca) == state);
                            assert(t.spec_steps_cost(*conn, state, ca) == 0);
                            assert(h_val == conn.spec_cost(state.prev_right_id, 0));
                            assert forall|k: int|
                                0 <= k < self.results@.len() implies (
                            #[trigger] self.results@[k]).total_cost < base_cost
                                + conn.spec_cost(state.prev_right_id, 0) by {
                                assert(self.results@[k].total_cost <= worst_kept);
                            }
                            assert(spec_all_results_lt(
                                self.results@,
                                base_cost + conn.spec_cost(state.prev_right_id, 0),
                            ));
                        }
                    }
                    return ;
                }
            },
            None => {},
        }

        if state.boundary == self.tables.end_boundary {
            if state.reading_offset != self.tables.reading.len() {
                proof {
                    assert forall|c: Seq<(int, int)>|
                        (#[trigger] t.spec_completion(state, c) && steps.len() + c.len()
                            >= self.min_tokens) implies spec_some_result_le(
                        self.results@,
                        base_cost + t.spec_completion_cost(*conn, state, c),
                    ) && spec_cost_secured(
                        self.results@,
                        self.max_results as int,
                        base_cost + t.spec_completion_cost(*conn, state, c),
                    ) by {
                        t.lemma_accept_completion_empty(state, c);
                        assert(t.spec_steps_end(state, c) == state);
                    }
                }
                return ;
            }
            if self.path.len() < self.min_tokens {
                proof {
                    if self.min_tokens == 1 && t.spec_can_complete(state) {
                        assert(state.reading_offset >= 1);
                        assert(steps.len() >= 1) by {
                            if steps.len() == 0 {
                                assert(state == start);
                            }
                        }
                        assert(false);
                    }
                    assert forall|c: Seq<(int, int)>|
                        (#[trigger] t.spec_completion(state, c) && steps.len() + c.len()
                            >= self.min_tokens) implies spec_some_result_le(
                        self.results@,
                        base_cost + t.spec_completion_cost(*conn, state, c),
                    ) && spec_cost_secured(
                        self.results@,
                        self.max_results as int,
                        base_cost + t.spec_completion_cost(*conn, state, c),
                    ) by {
                        t.lemma_accept_completion_empty(state, c);
                    }
                }
                return ;
            }
            let total_cost = base_cost + conn.cost(state.prev_right_id, 0) as i32;
            self.record_result(total_cost, conn, Ghost(steps));
            proof {
                assert forall|c: Seq<(int, int)>|
                    (#[trigger] t.spec_completion(state, c) && steps.len() + c.len()
                        >= self.min_tokens) implies spec_some_result_le(
                    self.results@,
                    base_cost + t.spec_completion_cost(*conn, state, c),
                ) && spec_cost_secured(
                    self.results@,
                    self.max_results as int,
                    base_cost + t.spec_completion_cost(*conn, state, c),
                ) by {
                    t.lemma_accept_completion_empty(state, c);
                    assert(t.spec_steps_end(state, c) == state);
                    assert(t.spec_steps_cost(*conn, state, c) == 0);
                    assert(spec_some_result_le(self.results@, total_cost as int));
                    assert(spec_cost_secured(
                        self.results@,
                        self.max_results as int,
                        total_cost as int,
                    ));
                }
                assert(total_cost == base_cost + conn.spec_cost(state.prev_right_id, 0));
            }
            return ;
        }

        let node_refs = copy_vec(&self.tables.nodes_by_begin[state.boundary]);
        let mut transitions: Vec<Transition> = Vec::new();
        let n = node_refs.len();
        let mut jj: usize = 0;
        while jj < n
            invariant
                self.swf(),
                self.spec_cache_ok(*conn),
                self.spec_results_ok(*conn),
                self.tables == t,
                self.max_results == old(self).max_results,
                self.min_tokens == old(self).min_tokens,
                self.path@ == old(self).path@,
                self.results == old(self).results,
                conn.wf(),
                spec_bounded_state(t, state),
                (state.boundary as int) < t.spec_eb(),
                node_refs@ == t.spec_refs(state.boundary as int),
                n == node_refs@.len(),
                jj <= n,
                -((state.boundary as int) * 65536) <= base_cost <= (state.boundary as int)
                    * 65536,
                forall|k: int|
                    0 <= k < transitions@.len() ==> spec_trans_good(
                        t,
                        *conn,
                        state,
                        base_cost as int,
                        #[trigger] transitions@[k],
                    ),
                forall|j2: int, v2: int|
                    (0 <= j2 < jj as int && t.spec_step_ok(state, j2, v2)
                        && t.spec_can_complete(#[trigger] t.spec_next(state, j2, v2)))
                        ==> spec_has_transition(transitions@, j2, v2),
            decreases n - jj,
        {
            let r = node_refs[jj];
            proof {
                assert(t.spec_refs(state.boundary as int)[jj as int] == r);
            }
            let nv = self.tables.metas_by_end[r.end][r.index].match_variants.len();
            let left_id = self.tables.metas_by_end[r.end][r.index].node.left_id();
            let node_cost = self.tables.metas_by_end[r.end][r.index].node.cost();
            let node_end = self.tables.metas_by_end[r.end][r.index].node.end();
            let node_right = self.tables.metas_by_end[r.end][r.index].node.right_id();
            let step_cost = conn.cost(state.prev_right_id, left_id) as i32 + node_cost as i32;
            let mut vi: usize = 0;
            while vi < nv
                invariant
                    self.swf(),
                    self.spec_cache_ok(*conn),
                    self.spec_results_ok(*conn),
                    self.tables == t,
                    self.max_results == old(self).max_results,
                    self.min_tokens == old(self).min_tokens,
                    self.path@ == old(self).path@,
                    self.results == old(self).results,
                    conn.wf(),
                    spec_bounded_state(t, state),
                    (state.boundary as int) < t.spec_eb(),
                    node_refs@ == t.spec_refs(state.boundary as int),
                    n == node_refs@.len(),
                    jj < n,
                    r == t.spec_refs(state.boundary as int)[jj as int],
                    (r.end as int) < t.metas_by_end@.len(),
                    (r.index as int) < t.spec_metas(r.end as int).len(),
                    nv == t.spec_metas(r.end as int)[r.index as int].match_variants@.len(),
                    left_id == t.spec_metas(r.end as int)[r.index as int].node.spec_left_id(),
                    node_cost == t.spec_metas(r.end as int)[r.index as int].node.spec_cost(),
                    node_end == t.spec_metas(r.end as int)[r.index as int].node.spec_end(),
                    node_right == t.spec_metas(r.end as int)[r.index as int].node.spec_right_id(),
                    (state.boundary as int) < node_end <= t.spec_eb(),
                    step_cost == conn.spec_cost(state.prev_right_id, left_id) + node_cost,
                    -65536 <= step_cost <= 65536,
                    vi <= nv,
                    -((state.boundary as int) * 65536) <= base_cost <= (state.boundary as int)
                        * 65536,
                    forall|k: int|
                        0 <= k < transitions@.len() ==> spec_trans_good(
                            t,
                            *conn,
                            state,
                            base_cost as int,
                            #[trigger] transitions@[k],
                        ),
                    forall|j2: int, v2: int|
                        (((0 <= j2 < jj as int) || (j2 == jj as int && 0 <= v2 < vi as int))
                            && t.spec_step_ok(state, j2, v2) && t.spec_can_complete(
                            #[trigger] t.spec_next(state, j2, v2),
                        )) ==> spec_has_transition(transitions@, j2, v2),
                decreases nv - vi,
            {
                let admissible = {
                    let v = &self.tables.metas_by_end[r.end][r.index].match_variants[vi];
                    if v.len() == 0 {
                        false
                    } else if v.len() > self.tables.reading.len() - state.reading_offset {
                        false
                    } else {
                        prefix_matches(&self.tables.reading, state.reading_offset, v)
                    }
                };
                let ghost trans0 = transitions@;
                if admissible {
                    let vlen = self.tables.metas_by_end[r.end][r.index].match_variants[vi].len();
                    let next_state = SearchState {
                        boundary: node_end,
                        prev_right_id: node_right,
                        reading_offset: state.reading_offset + vlen,
                    };
                    proof {
                        assert(t.spec_step_ok(state, jj as int, vi as int));
                        assert(next_state == t.spec_next(state, jj as int, vi as int));
                        assert(spec_bounded_state(t, next_state));
                    }
                    let rem_opt = self.min_additional_cost_from_state(next_state, conn);
                    match rem_opt {
                        Some(rem) => {
                            proof {
                                assert((t.spec_eb() - next_state.boundary + 1) <= (t.spec_eb()
                                    - state.boundary));
                            }
                            let est_total = base_cost + step_cost + rem;
                            let tr = Transition {
                                est: est_total,
                                step: step_cost,
                                nref: r,
                                next: next_state,
                                ghost_step: Ghost((jj as int, vi as int)),
                            };
                            transitions.push(tr);
                            proof {
                                assert(spec_trans_good(
                                    t,
                                    *conn,
                                    state,
                                    base_cost as int,
                                    tr,
                                )) by {
                                    assert forall|c: Seq<(int, int)>|
                                        t.spec_completion(next_state, c) implies tr.est
                                        <= base_cost + tr.step
                                        + #[trigger] t.spec_completion_cost(
                                        *conn,
                                        next_state,
                                        c,
                                    ) by {
                                        assert(rem <= t.spec_completion_cost(
                                            *conn,
                                            next_state,
                                            c,
                                        ));
                                    }
                                }
                                assert(transitions@[trans0.len() as int] == tr);
                                assert forall|j2: int, v2: int|
                                    (((0 <= j2 < jj as int) || (j2 == jj as int && 0 <= v2 < vi
                                        + 1)) && t.spec_step_ok(state, j2, v2)
                                        && t.spec_can_complete(
                                        #[trigger] t.spec_next(state, j2, v2),
                                    )) implies spec_has_transition(transitions@, j2, v2) by {
                                    if j2 == jj as int && v2 == vi as int {
                                        assert(transitions@[trans0.len() as int].ghost_step@ == (
                                        j2,
                                        v2,
                                        ));
                                    } else {
                                        let k0 = choose|k: int|
                                            0 <= k < trans0.len() && #[trigger] trans0[k].ghost_step@
                                                == (j2, v2);
                                        assert(transitions@[k0].ghost_step@ == (j2, v2));
                                    }
                                }
                            }
                        },
                        None => {
                            proof {
                                assert forall|j2: int, v2: int|
                                    (((0 <= j2 < jj as int) || (j2 == jj as int && 0 <= v2 < vi
                                        + 1)) && t.spec_step_ok(state, j2, v2)
                                        && t.spec_can_complete(
                                        #[trigger] t.spec_next(state, j2, v2),
                                    )) implies spec_has_transition(transitions@, j2, v2) by {
                                    if j2 == jj as int && v2 == vi as int {
                                        assert(t.spec_next(state, j2, v2) == next_state);
                                        assert(false);
                                    }
                                }
                            }
                        },
                    }
                } else {
                    proof {
                        assert(!t.spec_step_ok(state, jj as int, vi as int));
                        assert forall|j2: int, v2: int|
                            (((0 <= j2 < jj as int) || (j2 == jj as int && 0 <= v2 < vi + 1))
                                && t.spec_step_ok(state, j2, v2) && t.spec_can_complete(
                                #[trigger] t.spec_next(state, j2, v2),
                            )) implies spec_has_transition(transitions@, j2, v2) by {}
                    }
                }
                vi = vi + 1;
            }
            proof {
                assert forall|j2: int, v2: int|
                    (0 <= j2 < jj + 1 && t.spec_step_ok(state, j2, v2) && t.spec_can_complete(
                        #[trigger] t.spec_next(state, j2, v2),
                    )) implies spec_has_transition(transitions@, j2, v2) by {
                    if j2 == jj as int {
                        assert(0 <= v2 < nv);
                    }
                }
            }
            jj = jj + 1;
        }

        // Expand cheapest estimates first: insertion sort by estimated
        // total, stable for equal estimates.
        let mut sorted: Vec<Transition> = Vec::new();
        let total = transitions.len();
        let mut k: usize = 0;
        while k < total
            invariant
                k <= total,
                total == transitions@.len(),
                sorted@.len() == k,
                conn.wf(),
                forall|k2: int|
                    0 <= k2 < transitions@.len() ==> spec_trans_good(
                        t,
                        *conn,
                        state,
                        base_cost as int,
                        #[trigger] transitions@[k2],
                    ),
                forall|k2: int|
                    0 <= k2 < sorted@.len() ==> spec_trans_good(
                        t,
                        *conn,
                        state,
                        base_cost as int,
                        #[trigger] sorted@[k2],
                    ),
                forall|k2: int|
                    0 <= k2 < k ==> spec_contains_tr(sorted@, #[trigger] transitions@[k2]),
            decreases total - k,
        {
            let tr = transitions[k];
            let slen = sorted.len();
            let mut pos: usize = 0;
            while pos < slen && sorted[pos].est <= tr.est
                invariant
                    pos <= slen,
                    slen == sorted@.len(),
                decreases slen - pos,
            {
                pos = pos + 1;
            }
            let ghost sorted0 = sorted@;
            sorted.insert(pos, tr);
            proof {
                assert forall|k2: int|
                    0 <= k2 < sorted@.len() implies spec_trans_good(
                    t,
                    *conn,
                    state,
                    base_cost as int,
                    #[trigger] sorted@[k2],
                ) by {
                    if k2 < pos {
                        assert(sorted@[k2] == sorted0[k2]);
                    } else if k2 == pos {
                        assert(sorted@[k2] == tr);
                    } else {
                        assert(sorted@[k2] == sorted0[k2 - 1]);
                    }
                }
                assert forall|k2: int|
                    0 <= k2 < k + 1 implies spec_contains_tr(
                    sorted@,
                    #[trigger] transitions@[k2],
                ) by {
                    if k2 == k as int {
                        assert(sorted@[pos as int] == tr);
                    } else {
                        let w = choose|w: int|
                            0 <= w < sorted0.len() && #[trigger] sorted0[w] == transitions@[k2];
                        if w < pos {
                            assert(sorted@[w] == transitions@[k2]);
                        } else {
                            assert(sorted@[w + 1] == transitions@[k2]);
                        }
                    }
                }
            }
            k = k + 1;
        }

        let m = sorted.len();
        let ghost results_entry = self.results@;
        proof {
            assert(results_entry == old(self).results@);
            assert forall|c: Seq<(int, int)>|
                (#[trigger] t.spec_completion(state, c) && c.len() > 0 && steps.len() + c.len()
                    >= self.min_tokens) implies (spec_pending_transition(
                sorted@,
                0,
                c[0].0,
                c[0].1,
            )) by {
                t.lemma_completion_first_step(*conn, state, c);
                t.lemma_completion_can_complete(t.spec_next(state, c[0].0, c[0].1), c.skip(1));
                assert(spec_has_transition(transitions@, c[0].0, c[0].1));
                let k0 = choose|k2: int|
                    0 <= k2 < transitions@.len() && #[trigger] transitions@[k2].ghost_step@ == (
                    c[0].0,
                    c[0].1,
                );
                assert(spec_contains_tr(sorted@, transitions@[k0]));
                let w = choose|w: int|
                    0 <= w < sorted@.len() && #[trigger] sorted@[w] == transitions@[k0];
                assert(sorted@[w].ghost_step@ == (c[0].0, c[0].1));
            }
        }
        let mut idx: usize = 0;
        while idx < m
            invariant
                self.swf(),
                self.spec_cache_ok(*conn),
                self.spec_results_ok(*conn),
                self.tables == t,
                self.tables == tsnap,
                self.max_results == old(self).max_results,
                self.min_tokens == old(self).min_tokens,
                self.path@ == old(self).path@,
                self.results@.len() >= results_entry.len(),
                conn.wf(),
                spec_bounded_state(t, state),
                (state.boundary as int) < t.spec_eb(),
                idx <= m,
                m == sorted@.len(),
                -((state.boundary as int) * 65536) <= base_cost <= (state.boundary as int)
                    * 65536,
                t.spec_steps_ok(SearchTables::spec_start(), steps),
                t.spec_steps_end(SearchTables::spec_start(), steps) == state,
                base_cost == t.spec_steps_cost(*conn, SearchTables::spec_start(), steps),
                self.path@.len() == steps.len(),
                forall|i: int|
                    0 <= i < steps.len() ==> #[trigger] self.path@[i] == t.spec_chain_ref(
                        steps,
                        i,
                    ),
                forall|k2: int|
                    0 <= k2 < sorted@.len() ==> spec_trans_good(
                        t,
                        *conn,
                        state,
                        base_cost as int,
                        #[trigger] sorted@[k2],
                    ),
                (self.min_tokens == 1 && t.spec_can_complete(state) && m >= 1) ==> (idx == 0
                    || self.results@.len() >= 1),
                forall|x: int|
                    spec_some_result_le(results_entry, x) ==> #[trigger] spec_some_result_le(
                        self.results@,
                        x,
                    ),
                forall|x: int|
                    spec_cost_secured(results_entry, self.max_results as int, x)
                        ==> #[trigger] spec_cost_secured(
                        self.results@,
                        self.max_results as int,
                        x,
                    ),
                forall|c: Seq<(int, int)>|
                    (#[trigger] t.spec_completion(state, c) && c.len() > 0 && steps.len()
                        + c.len() >= self.min_tokens) ==> (spec_some_result_le(
                        self.results@,
                        base_cost + t.spec_completion_cost(*conn, state, c),
                    ) || spec_pending_transition(sorted@, idx as int, c[0].0, c[0].1)),
                forall|c: Seq<(int, int)>|
                    (#[trigger] t.spec_completion(state, c) && c.len() > 0 && steps.len()
                        + c.len() >= self.min_tokens) ==> (spec_cost_secured(
                        self.results@,
                        self.max_results as int,
                        base_cost + t.spec_completion_cost(*conn, state, c),
                    ) || spec_pending_transition(sorted@, idx as int, c[0].0, c[0].1)),
            decreases m - idx,
        {
            let tr = sorted[idx];
            let ghost results_iter = self.results@;
            let skip = match self.worst_kept_cost() {
                Some(worst_kept) => tr.est > worst_kept,
                None => false,
            };
            if !skip {
                let ghost steps2 = steps.push(tr.ghost_step@);
                proof {
                    let start0 = SearchTables::spec_start();
                    assert(spec_trans_good(
                        t,
                        *conn,
                        state,
                        base_cost as int,
                        sorted@[idx as int],
                    ));
                    t.lemma_steps_push(*conn, start0, steps, tr.ghost_step@.0, tr.ghost_step@.1);
                    assert(t.spec_steps_end(start0, steps2) == tr.next);
                    assert(t.spec_steps_cost(*conn, start0, steps2) == base_cost + tr.step);
                    assert forall|i: int|
                        0 <= i < steps2.len() implies #[trigger] self.path@.push(tr.nref)[i]
                        == t.spec_chain_ref(steps2, i) by {
                        if i < steps.len() {
                            assert(steps2.take(i) =~= steps.take(i));
                            assert(steps2[i] == steps[i]);
                            assert(self.path@.push(tr.nref)[i] == self.path@[i]);
                        } else {
                            assert(i == steps.len());
                            assert(steps2.take(i) =~= steps);
                            assert(steps2[i] == tr.ghost_step@);
                        }
                    }
                }
                self.path.push(tr.nref);
                let next_base = base_cost + tr.step;
                proof {
                    assert(tr.next.boundary >= state.boundary + 1);
                    assert(-((tr.next.boundary as int) * 65536) <= next_base <= (
                    tr.next.boundary as int) * 65536);
                }
                self.dfs(tr.next, next_base, conn, Ghost(steps2), Ghost(tsnap));
                let _ = self.path.pop();
                proof {
                    assert(self.path@ =~= old(self).path@);
                }
            }
            proof {
                assert forall|x: int| spec_cost_secured(results_iter, self.max_results as int, x)
                    implies #[trigger] spec_cost_secured(
                    self.results@,
                    self.max_results as int,
                    x,
                ) by {}
                assert forall|c: Seq<(int, int)>|
                    (#[trigger] t.spec_completion(state, c) && c.len() > 0 && steps.len()
                        + c.len() >= self.min_tokens) implies ((spec_some_result_le(
                    self.results@,
                    base_cost + t.spec_completion_cost(*conn, state, c),
                ) && spec_cost_secured(
                    self.results@,
                    self.max_results as int,
                    base_cost + t.spec_completion_cost(*conn, state, c),
                )) || spec_pending_transition(sorted@, idx + 1, c[0].0, c[0].1)) by {
                    let x = base_cost + t.spec_completion_cost(*conn, state, c);
                    if spec_some_result_le(results_iter, x) && spec_cost_secured(
                        results_iter,
                        self.max_results as int,
                        x,
                    ) {
                        assert(spec_some_result_le(self.results@, x));
                        assert(spec_cost_secured(self.results@, self.max_results as int, x));
                    } else if spec_pending_transition(sorted@, idx + 1, c[0].0, c[0].1) {
                    } else {
                        assert(spec_pending_transition(sorted@, idx as int, c[0].0, c[0].1));
                        let k0 = choose|k2: int|
                            idx as int <= k2 < sorted@.len() && #[trigger] sorted@[k2].ghost_step@
                                == (c[0].0, c[0].1);
                        if k0 != idx as int {
                            assert(spec_pending_transition(sorted@, idx + 1, c[0].0, c[0].1));
                            assert(false);
                        }
                        assert(sorted@[idx as int].ghost_step@ == (c[0].0, c[0].1));
                        t.lemma_completion_first_step(*conn, state, c);
                        assert(tr.next == t.spec_next(state, c[0].0, c[0].1));
                        assert(t.spec_completion(tr.next, c.skip(1)));
                        assert(tr.step == t.spec_step_cost(*conn, state, c[0].0));
                        assert(x == base_cost + tr.step + t.spec_completion_cost(
                            *conn,
                            tr.next,
                            c.skip(1),
                        ));
                        if skip {
                            assert(tr.est <= x);
                            assert(self.results@.len() >= 1);
                            assert(self.results@.len() == self.max_results);
                            assert(self.results@[0].total_cost <= x);
                            assert(spec_some_result_le(self.results@, x));
                            assert forall|k: int|
                                0 <= k < self.results@.len() implies (
                            #[trigger] self.results@[k]).total_cost <= x by {}
                            assert(spec_all_results_le(self.results@, x));
                            assert(spec_cost_secured(
                                self.results@,
                                self.max_results as int,
                                x,
                            ));
                        } else {
                            assert(steps.len() + 1 + c.skip(1).len() >= self.min_tokens);
                            assert(spec_some_result_le(self.results@, (base_cost + tr.step)
                                + t.spec_completion_cost(*conn, tr.next, c.skip(1))));
                            assert(spec_some_result_le(self.results@, x));
                            assert(spec_cost_secured(
                                self.results@,
                                self.max_results as int,
                                (base_cost + tr.step) + t.spec_completion_cost(
                                    *conn,
                                    tr.next,
                                    c.skip(1),
                                ),
                            ));
                            assert(spec_cost_secured(
                                self.results@,
                                self.max_results as int,
                                x,
                            ));
                        }
                    }
                }
            }
            idx = idx + 1;
        }
        proof {
            if self.min_tokens == 1 && t.spec_can_complete(state) {
                let (j2, v2) = choose|j2: int, v2: int|
                    t.spec_step_ok(state, j2, v2) && t.spec_can_complete(
                        t.spec_next(state, j2, v2),
                    );
                assert(spec_has_transition(sorted@, j2, v2)) by {
                    assert(spec_has_transition(transitions@, j2, v2));
                    let k0 = choose|k2: int|
                        0 <= k2 < transitions@.len() && #[trigger] transitions@[k2].ghost_step@
                            == (j2, v2);
                    assert(spec_contains_tr(sorted@, transitions@[k0]));
                    let w = choose|w: int|
                        0 <= w < sorted@.len() && #[trigger] sorted@[w] == transitions@[k0];
                    assert(sorted@[w].ghost_step@ == (j2, v2));
                }
                assert(m >= 1);
            }
            assert forall|c: Seq<(int, int)>|
                (#[trigger] t.spec_completion(state, c) && steps.len() + c.len()
                    >= self.min_tokens) implies spec_some_result_le(
                self.results@,
                base_cost + t.spec_completion_cost(*conn, state, c),
            ) && spec_cost_secured(
                self.results@,
                self.max_results as int,
                base_cost + t.spec_completion_cost(*conn, state, c),
            ) by {
                if c.len() == 0 {
                    assert(t.spec_steps_end(state, c) == state);
                    assert(false);
                } else {
                    assert(!spec_pending_transition(sorted@, m as int, c[0].0, c[0].1));
                }
            }
            assert forall|x: int|
                spec_cost_secured(old(self).results@, self.max_results as int, x)
                    implies #[trigger] spec_cost_secured(
                self.results@,
                self.max_results as int,
                x,
            ) by {
                assert(spec_cost_secured(results_entry, self.max_results as int, x));
            }
        }
    }
}

impl Searcher {
    /// Run the search from the start state, then order the retained
    /// results by ascending total cost and cut the list to the maximum.
    pub fn run(self, conn: &ConnectionMatrix) -> (results: Vec<ReadingCandidatePath>)
        requires
            self.swf(),
            self.spec_cache_ok(*conn),
            self.path@.len() == 0,
            self.results@.len() == 0,
            conn.wf(),
        ensures
            results@.len() <= self.max_results,
            forall|i: int|
                0 <= i < results@.len() ==> self.tables.spec_valid_path(
                    *conn,
                    #[trigger] results@[i],
                    self.min_tokens as int,
                ),
            forall|i: int, j: int|
                0 <= i <= j < results@.len() ==> #[trigger] results@[i].total_cost
                    <= #[trigger] results@[j].total_cost,
            (self.min_tokens == 1 && self.tables.spec_can_complete(SearchTables::spec_start()))
                ==> results@.len() >= 1,
            forall|c: Seq<(int, int)>|
                (#[trigger] self.tables.spec_completion(SearchTables::spec_start(), c)
                    && c.len() >= self.min_tokens) ==> spec_some_result_le(
                    results@,
                    self.tables.spec_completion_cost(*conn, SearchTables::spec_start(), c),
                ),
            forall|c: Seq<(int, int)>|
                (#[trigger] self.tables.spec_completion(SearchTables::spec_start(), c)
                    && c.len() >= self.min_tokens) ==> spec_cost_secured(
                    results@,
                    self.max_results as int,
                    self.tables.spec_completion_cost(*conn, SearchTables::spec_start(), c),
                ),
    {
        let ghost t = self.tables;
        let maxr = self.max_results;
        let mut searcher = self;
        let start_state = SearchState { boundary: 0, prev_right_id: 0, reading_offset: 0 };
        proof {
            assert(searcher.tables.spec_steps_ok(
                SearchTables::spec_start(),
                Seq::<(int, int)>::empty(),
            ));
            assert(searcher.tables.spec_steps_end(
                SearchTables::spec_start(),
                Seq::<(int, int)>::empty(),
            ) == SearchTables::spec_start());
            assert(searcher.tables.spec_steps_cost(
                *conn,
                SearchTables::spec_start(),
                Seq::<(int, int)>::empty(),
            ) == 0);
            assert(start_state == SearchTables::spec_start());
            assert(spec_bounded_state(searcher.tables, start_state));
        }
        searcher.dfs(start_state, 0, conn, Ghost(Seq::<(int, int)>::empty()), Ghost(t));
        let ghost found_results = searcher.results@;
        proof {
            assert forall|c: Seq<(int, int)>|
                (#[trigger] t.spec_completion(SearchTables::spec_start(), c) && c.len()
                    >= self.min_tokens) implies spec_some_result_le(
                found_results,
                t.spec_completion_cost(*conn, SearchTables::spec_start(), c),
            ) && spec_cost_secured(
                found_results,
                self.max_results as int,
                t.spec_completion_cost(*conn, SearchTables::spec_start(), c),
            ) by {
                assert(spec_some_result_le(
                    found_results,
                    0 + t.spec_completion_cost(*conn, SearchTables::spec_start(), c),
                ));
                assert(spec_cost_secured(
                    found_results,
                    self.max_results as int,
                    0 + t.spec_completion_cost(*conn, SearchTables::spec_start(), c),
                ));
            }
        }

        let mut out: Vec<ReadingCandidatePath> = Vec::new();
        let ghost found = searcher.results@.len();
        while searcher.results.len() > 0
            invariant
                searcher.tables == t,
                searcher.min_tokens == self.min_tokens,
                searcher.max_results == self.max_results,
                conn.wf(),
                searcher.spec_results_ok(*conn),
                out@.len() + searcher.results@.len() == found,
                forall|i: int|
                    0 <= i < out@.len() ==> t.spec_valid_path(
                        *conn,
                        #[trigger] out@[i],
                        self.min_tokens as int,
                    ),
                forall|i: int, j: int|
                    0 <= i <= j < out@.len() ==> #[trigger] out@[i].total_cost
                        <= #[trigger] out@[j].total_cost,
                forall|x: int|
                    spec_some_result_le(found_results, x) ==> (#[trigger] spec_some_result_le(
                        searcher.results@,
                        x,
                    ) || spec_some_result_le(out@, x)),
                forall|x: int|
                    spec_some_result_eq(found_results, x) ==> (#[trigger] spec_some_result_eq(
                        searcher.results@,
                        x,
                    ) || spec_some_result_eq(out@, x)),
                forall|x: int|
                    spec_all_results_le(found_results, x) ==> (#[trigger] spec_all_results_le(
                        searcher.results@,
                        x,
                    ) && spec_all_results_le(out@, x)),
            decreases searcher.results@.len(),
        {
            let ghost pre_remove = searcher.results@;
            let p = searcher.results.remove(0);
            proof {
                assert(t.spec_valid_path(*conn, p, self.min_tokens as int));
                assert(forall|i: int|
                    0 <= i < searcher.results@.len() ==> t.spec_valid_path(
                        *conn,
                        #[trigger] searcher.results@[i],
                        self.min_tokens as int,
                    ));
            }
            let olen = out.len();
            let mut pos: usize = 0;
            while pos < olen && out[pos].total_cost <= p.total_cost
                invariant
                    pos <= olen,
                    olen == out@.len(),
                    forall|i: int| 0 <= i < pos ==> #[trigger] out@[i].total_cost <= p.total_cost,
                decreases olen - pos,
            {
                pos = pos + 1;
            }
            proof {
                assert(pos < out@.len() ==> out@[pos as int].total_cost > p.total_cost);
            }
            let ghost res0 = searcher.results@;
            let ghost out0 = out@;
            out.insert(pos, p);
            proof {
                assert forall|i: int, j: int|
                    0 <= i <= j < out@.len() implies #[trigger] out@[i].total_cost
                    <= #[trigger] out@[j].total_cost by {
                    let prev = out@.remove(pos as int);
                    assert(out@ == prev.insert(pos as int, p));
                }
                assert forall|x: int|
                    spec_some_result_le(found_results, x) implies (
                #[trigger] spec_some_result_le(searcher.results@, x) || spec_some_result_le(
                    out@,
                    x,
                )) by {
                    if spec_some_result_le(pre_remove, x) {
                        let i0 = choose|i: int|
                            0 <= i < pre_remove.len() && #[trigger] pre_remove[i].total_cost
                                <= x;
                        if i0 == 0 {
                            assert(out@[pos as int].total_cost <= x);
                        } else {
                            assert(searcher.results@[i0 - 1].total_cost <= x);
                        }
                    } else if spec_some_result_le(out0, x) {
                        let i0 = choose|i: int|
                            0 <= i < out0.len() && #[trigger] out0[i].total_cost <= x;
                        if i0 < pos {
                            assert(out@[i0].total_cost <= x);
                        } else {
                            assert(out@[i0 + 1].total_cost <= x);
                        }
                    }
                }
                assert forall|x: int|
                    spec_some_result_eq(found_results, x) implies (
                #[trigger] spec_some_result_eq(searcher.results@, x) || spec_some_result_eq(
                    out@,
                    x,
                )) by {
                    if spec_some_result_eq(pre_remove, x) {
                        let i0 = choose|i: int|
                            0 <= i < pre_remove.len() && #[trigger] pre_remove[i].total_cost
                                == x;
                        if i0 == 0 {
                            assert(out@[pos as int].total_cost == x);
                        } else {
                            assert(searcher.results@[i0 - 1].total_cost == x);
                        }
                    } else if spec_some_result_eq(out0, x) {
                        let i0 = choose|i: int|
                            0 <= i < out0.len() && #[trigger] out0[i].total_cost == x;
                        if i0 < pos {
                            assert(out@[i0].total_cost == x);
                        } else {
                            assert(out@[i0 + 1].total_cost == x);
                        }
                    }
                }
                assert forall|x: int|
                    spec_all_results_le(found_results, x) implies (
                #[trigger] spec_all_results_le(searcher.results@, x) && spec_all_results_le(
                    out@,
                    x,
                )) by {
                    assert(spec_all_results_le(pre_remove, x));
                    assert(spec_all_results_le(out0, x));
                    assert forall|k: int|
                        0 <= k < searcher.results@.len() implies (
                    #[trigger] searcher.results@[k]).total_cost <= x by {
                        assert(searcher.results@[k] == pre_remove[k + 1]);
                    }
                    assert forall|k: int| 0 <= k < out@.len() implies (
                    #[trigger] out@[k]).total_cost <= x by {
                        if k < pos {
                            assert(out@[k] == out0[k]);
                        } else if k == pos {
                            assert(out@[k] == pre_remove[0]);
                        } else {
                            assert(out@[k] == out0[k - 1]);
                        }
                    }
                }
            }
        }
        let ghost out_sorted = out@;
        proof {
            assert(out@.len() <= self.max_results);
        }
        while out.len() > maxr
            invariant
                maxr == self.max_results,
                out@.len() <= maxr,
                out@ == out_sorted,
                forall|i: int|
                    0 <= i < out@.len() ==> t.spec_valid_path(
                        *conn,
                        #[trigger] out@[i],
                        self.min_tokens as int,
                    ),
                forall|i: int, j: int|
                    0 <= i <= j < out@.len() ==> #[trigger] out@[i].total_cost
                        <= #[trigger] out@[j].total_cost,
                out@.len() >= self.max_results || out@.len() < found + 1,
                self.max_results >= 1,
                out@.len() >= 1 || found == 0,
                forall|x: int|
                    spec_some_result_le(out_sorted, x) ==> #[trigger] spec_some_result_le(
                        out@,
                        x,
                    ),
            decreases out@.len(),
        {
            // The search never retains more than the maximum, so the cut
            // is provably a no-op.
            proof {
                assert(false);
            }
            let _ = out.pop();
        }
        proof {
            if self.min_tokens == 1 && t.spec_can_complete(SearchTables::spec_start()) {
                assert(found >= 1);
                assert(out@.len() >= 1);
            }
            assert forall|c: Seq<(int, int)>|
                (#[trigger] t.spec_completion(SearchTables::spec_start(), c) && c.len()
                    >= self.min_tokens) implies spec_some_result_le(
                out@,
                t.spec_completion_cost(*conn, SearchTables::spec_start(), c),
            ) && spec_cost_secured(
                out@,
                self.max_results as int,
                t.spec_completion_cost(*conn, SearchTables::spec_start(), c),
            ) by {
                let x = t.spec_completion_cost(*conn, SearchTables::spec_start(), c);
                assert(spec_some_result_le(found_results, x));
                if spec_some_result_le(searcher.results@, x) {
                    let i0 = choose|i: int|
                        0 <= i < searcher.results@.len()
                            && #[trigger] searcher.results@[i].total_cost <= x;
                    assert(false);
                }
                assert(spec_some_result_le(out_sorted, x));
                assert(spec_cost_secured(found_results, self.max_results as int, x));
                if spec_some_result_eq(found_results, x) {
                    if spec_some_result_eq(searcher.results@, x) {
                        let i0 = choose|i: int|
                            0 <= i < searcher.results@.len()
                                && #[trigger] searcher.results@[i].total_cost == x;
                        assert(false);
                    }
                    assert(spec_some_result_eq(out@, x));
                } else {
                    assert(found_results.len() == self.max_results && spec_all_results_le(
                        found_results,
                        x,
                    ));
                    assert(spec_all_results_le(searcher.results@, x));
                    assert(spec_all_results_le(out@, x));
                    assert(out@.len() == found_results.len());
                }
            }
        }
        out
    }
}

impl SearchTables {
    /// Boundary growth along a chain: each prefix state's boundary is at
    /// least the number of steps taken, and prefix states chain through
    /// admissible steps.
    proof fn lemma_chain_boundaries(self, steps: Seq<(int, int)>, i: int)
        requires
            self.spec_steps_ok(Self::spec_start(), steps),
            0 <= i <= steps.len(),
        ensures
            self.spec_chain_state(steps, i).boundary >= i,
        decreases i,
    {
        if i == 0 {
            assert(steps.take(0) =~= Seq::<(int, int)>::empty());
        } else {
            self.lemma_chain_boundaries(steps, i - 1);
            self.lemma_chain_index(Self::spec_start(), steps, i - 1);
        }
    }

    /// Law: the token spans of a valid reading-candidate path tile the
    /// input without gaps or overlaps: the first token starts at 0, each
    /// token starts where the previous one ended and ends strictly later,
    /// and the last token ends at the last boundary. The path holds at
    /// least `min_tokens` and at most `end_boundary` tokens.
    pub proof fn lemma_valid_path_tiles(
        self,
        conn: ConnectionMatrix,
        p: ReadingCandidatePath,
        min_tokens: int,
    )
        requires
            self.wf(),
            self.spec_valid_path(conn, p, min_tokens),
        ensures
            min_tokens <= p.tokens@.len() <= self.spec_eb(),
            p.tokens@.len() >= 1 ==> p.tokens@[0].begin == 0,
            p.tokens@.len() >= 1 ==> p.tokens@[p.tokens@.len() - 1].end == self.end_boundary,
            forall|i: int| 0 <= i < p.tokens@.len() ==> #[trigger] p.tokens@[i].begin < p.tokens@[i].end,
            forall|i: int|
                0 <= i < p.tokens@.len() - 1 ==> #[trigger] p.tokens@[i].end == p.tokens@[i
                    + 1].begin,
    {
        let start = Self::spec_start();
        let steps = choose|steps: Seq<(int, int)>|
            self.spec_path_from_steps(conn, p, steps, min_tokens);
        let n = steps.len() as int;
        assert forall|i: int| 0 <= i < n implies {
            &&& #[trigger] p.tokens@[i].begin == self.spec_chain_state(steps, i).boundary
            &&& p.tokens@[i].end == self.spec_chain_state(steps, i + 1).boundary
            &&& p.tokens@[i].begin < p.tokens@[i].end
        } by {
            self.lemma_chain_index(start, steps, i);
            let si = self.spec_chain_state(steps, i);
            let r = self.spec_refs(si.boundary as int)[steps[i].0];
            let m = self.spec_metas(r.end as int)[r.index as int];
            assert(self.spec_step_ok(si, steps[i].0, steps[i].1));
            assert(m.node.spec_begin() == si.boundary);
            assert(self.spec_token_matches(self.spec_chain_ref(steps, i), p.tokens@[i]));
            assert(p.tokens@[i].begin == m.node.spec_begin());
            assert(self.spec_chain_state(steps, i + 1) == self.spec_next(si, steps[i].0, steps[i].1));
        }
        assert(steps.take(n) =~= steps);
        assert(self.spec_chain_state(steps, n) == self.spec_steps_end(start, steps));
        if n >= 1 {
            assert(steps.take(0) =~= Seq::<(int, int)>::empty());
            assert(p.tokens@[0].begin == 0);
            assert(p.tokens@[n - 1].end == self.end_boundary);
        }
        self.lemma_chain_boundaries(steps, n);
        assert(n <= self.spec_eb());
        assert forall|i: int| 0 <= i < n - 1 implies #[trigger] p.tokens@[i].end == p.tokens@[i
            + 1].begin by {}
    }

    /// Law: a valid path never has fewer than `min_tokens` tokens, and no
    /// valid path can have more tokens than there are codepoints, so a
    /// minimum above that leaves nothing to return.
    pub proof fn lemma_min_tokens_filter(
        self,
        conn: ConnectionMatrix,
        p: ReadingCandidatePath,
        min_tokens: int,
    )
        requires
            self.wf(),
            self.spec_valid_path(conn, p, min_tokens),
        ensures
            min_tokens <= p.tokens@.len() <= self.spec_eb(),
    {
        self.lemma_valid_path_tiles(conn, p, min_tokens);
    }

    /// The concatenated surfaces of a token list.
    pub open spec fn spec_concat_surfaces(toks: Seq<ReadingCandidateToken>) -> Seq<char>
        decreases toks.len(),
    {
        if toks.len() == 0 {
            Seq::empty()
        } else {
            toks[0].surface@ + Self::spec_concat_surfaces(toks.skip(1))
        }
    }

    /// Tiling tokens whose surfaces agree with the input rebuild the
    /// input: concatenation over a tiled span equals the span's slice.
    proof fn lemma_concat_covers(
        toks: Seq<ReadingCandidateToken>,
        text: Seq<char>,
        from: int,
    )
        requires
            0 <= from <= text.len(),
            toks.len() >= 1 ==> toks[0].begin == from,
            toks.len() == 0 ==> from == text.len(),
            forall|i: int| 0 <= i < toks.len() ==> #[trigger] toks[i].begin < toks[i].end,
            forall|i: int|
                0 <= i < toks.len() - 1 ==> #[trigger] toks[i].end == toks[i + 1].begin,
            toks.len() >= 1 ==> toks[toks.len() - 1].end == text.len(),
            forall|i: int|
                0 <= i < toks.len() ==> (#[trigger] toks[i].end <= text.len()
                    && toks[i].surface@ == text.subrange(
                    toks[i].begin as int,
                    toks[i].end as int,
                )),
        ensures
            Self::spec_concat_surfaces(toks) == text.subrange(from, text.len() as int),
        decreases toks.len(),
    {
        if toks.len() == 0 {
            assert(text.subrange(from, text.len() as int) =~= Seq::<char>::empty());
        } else {
            let rest = toks.skip(1);
            assert forall|i: int| 0 <= i < rest.len() implies {
                &&& (#[trigger] rest[i].begin) < rest[i].end
                &&& rest[i].end <= text.len()
                &&& rest[i].surface@ == text.subrange(rest[i].begin as int, rest[i].end as int)
            } by {
                assert(rest[i] == toks[i + 1]);
            }
            assert forall|i: int| 0 <= i < rest.len() - 1 implies #[trigger] rest[i].end == rest[i
                + 1].begin by {
                assert(rest[i] == toks[i + 1] && rest[i + 1] == toks[i + 2]);
            }
            if rest.len() >= 1 {
                assert(rest[0] == toks[1]);
                assert(rest[rest.len() - 1] == toks[toks.len() - 1]);
            }
            Self::lemma_concat_covers(rest, text, toks[0].end as int);
            assert(text.subrange(from, text.len() as int) =~= text.subrange(
                toks[0].begin as int,
                toks[0].end as int,
            ) + text.subrange(toks[0].end as int, text.len() as int));
        }
    }

    /// Law: when every token's surface equals the input slice of its
    /// span, the concatenated surfaces of a valid path rebuild the whole
    /// input.
    pub proof fn lemma_valid_path_covers_input(
        self,
        conn: ConnectionMatrix,
        p: ReadingCandidatePath,
        min_tokens: int,
        text: Seq<char>,
    )
        requires
            self.wf(),
            self.spec_valid_path(conn, p, min_tokens),
            min_tokens >= 1,
            text.len() == self.spec_eb(),
            forall|i: int|
                0 <= i < p.tokens@.len() ==> (#[trigger] p.tokens@[i].end <= text.len()
                    && p.tokens@[i].surface@ == text.subrange(
                    p.tokens@[i].begin as int,
                    p.tokens@[i].end as int,
                )),
        ensures
            Self::spec_concat_surfaces(p.tokens@) == text,
    {
        self.lemma_valid_path_tiles(conn, p, min_tokens);
        Self::lemma_concat_covers(p.tokens@, text, 0);
        assert(text.subrange(0, text.len() as int) =~= text);
    }
}

/// Append a candidate reference to the row of its begin boundary.
fn ref_push(data: &mut Vec<Vec<NodeRef>>, b: usize, val: NodeRef)
    requires
        b < old(data)@.len(),
    ensures
        final(data)@.len() == old(data)@.len(),
        final(data)@[b as int]@ == old(data)@[b as int]@.push(val),
        forall|x: int|
            0 <= x < final(data)@.len() && x != b ==> #[trigger] final(data)@[x] == old(
                data,
            )@[x],
{
    let mut row = data.remove(b);
    row.push(val);
    data.insert(b, row);
}

/// Every match variant of a word is non-empty.
proof fn lemma_variants_nonempty(wi: WordInfo, k: int)
    requires
        0 <= k < spec_variants(wi).len(),
    ensures
        spec_variants(wi)[k].len() >= 1,
{
}

/// Whether the candidate `(e, i)` is listed in row `b` of a
/// begin-boundary index.
pub open spec fn spec_listed(rows: Seq<Vec<NodeRef>>, b: int, e: int, i: int) -> bool {
    exists|j: int|
        0 <= j < rows[b]@.len() && #[trigger] rows[b]@[j] == (NodeRef {
            end: e as usize,
            index: i as usize,
        })
}

/// The tables the enumerator builds over a lattice: one record per
/// lattice candidate, carrying that candidate's resolved word information
/// and match variants; the references of every candidate grouped under
/// its begin boundary; and the normalized target reading.
pub open spec fn spec_tables_built(
    t: SearchTables,
    lattice: Lattice,
    input: InputBuffer,
    lexicon: Lexicon,
    subset: InfoSubset,
    reading: Seq<char>,
) -> bool {
    &&& t.spec_eb() + 1 == lattice.spec_size()
    &&& t.spec_reading() == spec_normalize(reading)
    &&& forall|e: int|
        0 <= e < lattice.spec_size() ==> #[trigger] t.spec_metas(e).len() == lattice.spec_nodes(
            e,
        ).len()
    &&& forall|e: int, i: int|
        0 <= e < lattice.spec_size() && 0 <= i < t.spec_metas(e).len() ==> {
            let m = #[trigger] t.spec_metas(e)[i];
            &&& m.node == lattice.spec_nodes(e)[i]
            &&& spec_word_info_built(m.word_info, m.node, input, lexicon, subset)
            &&& m.match_variants@.map_values(|x: Vec<u32>| x@) == spec_variants(m.word_info)
        }
    &&& forall|e: int, i: int|
        0 <= e < lattice.spec_size() && 0 <= i < t.spec_metas(e).len() ==> spec_listed(
            t.nodes_by_begin@,
            (#[trigger] t.spec_metas(e)[i]).node.spec_begin() as int,
            e,
            i,
        )
}

/// Enumerate up to `max_results` segmentations of the lattice whose
/// concatenated normalized readings equal the normalized target, each
/// with at least `min_tokens` tokens (a zero minimum counts as one),
/// ordered by ascending total path cost. An empty target, a zero result
/// budget or an unprepared lattice yield no candidates; a failed lexicon
/// lookup aborts the enumeration.
pub fn enumerate_reading_candidates(
    lattice: &Lattice,
    input: &InputBuffer,
    lexicon: &Lexicon,
    conn: &ConnectionMatrix,
    subset: InfoSubset,
    reading: &str,
    max_results: usize,
    min_tokens: usize,
) -> (r: Result<Vec<ReadingCandidatePath>, AnalysisError>)
    requires
        lattice.wf() || (lattice.shape_wf() && lattice.spec_size() == 0),
        conn.wf(),
        lattice.spec_size() <= input.spec_curr().len() + 1,
        lattice.spec_size() * 65536 <= i32::MAX,
    ensures
        match r {
            Ok(results) => {
                &&& (max_results == 0 || lattice.spec_size() == 0 || spec_normalize(
                    reading@,
                ).len() == 0 || spec_normalize(reading@).len() >= 0x1_0000_0000)
                    ==> results@.len() == 0
                &&& (max_results >= 1 && lattice.spec_size() >= 1 && 1 <= spec_normalize(
                    reading@,
                ).len() < 0x1_0000_0000) ==> (exists|t: SearchTables|
                    {
                        &&& #[trigger] t.wf()
                        &&& spec_tables_built(
                            t,
                            *lattice,
                            *input,
                            *lexicon,
                            subset.spec_union(
                                InfoSubset { reading_form: true, surface: true, ..InfoSubset::spec_empty() },
                            ),
                            reading@,
                        )
                        &&& results@.len() <= max_results
                        &&& forall|i: int|
                            0 <= i < results@.len() ==> t.spec_valid_path(
                                *conn,
                                #[trigger] results@[i],
                                if min_tokens < 1 {
                                    1int
                                } else {
                                    min_tokens as int
                                },
                            )
                        &&& forall|i: int, j: int|
                            0 <= i <= j < results@.len() ==> #[trigger] results@[i].total_cost
                                <= #[trigger] results@[j].total_cost
                        &&& (min_tokens <= 1 && t.spec_can_complete(SearchTables::spec_start()))
                            ==> results@.len() >= 1
                        &&& forall|c: Seq<(int, int)>|
                            (#[trigger] t.spec_completion(SearchTables::spec_start(), c)
                                && c.len() >= if min_tokens < 1 {
                                1int
                            } else {
                                min_tokens as int
                            }) ==> spec_some_result_le(
                                results@,
                                t.spec_completion_cost(*conn, SearchTables::spec_start(), c),
                            )
                        &&& forall|c: Seq<(int, int)>|
                            (#[trigger] t.spec_completion(SearchTables::spec_start(), c)
                                && c.len() >= if min_tokens < 1 {
                                1int
                            } else {
                                min_tokens as int
                            }) ==> spec_cost_secured(
                                results@,
                                max_results as int,
                                t.spec_completion_cost(*conn, SearchTables::spec_start(), c),
                            )
                        &&& forall|c: Seq<(int, int)>|
                            (#[trigger] t.spec_completion(SearchTables::spec_start(), c)
                                && c.len() >= (if min_tokens < 1 {
                                1int
                            } else {
                                min_tokens as int
                            }) && results@.len() < max_results) ==> spec_some_result_eq(
                                results@,
                                t.spec_completion_cost(*conn, SearchTables::spec_start(), c),
                            )
                        &&& forall|c: Seq<(int, int)>|
                            (#[trigger] t.spec_completion(SearchTables::spec_start(), c)
                                && c.len() >= (if min_tokens < 1 {
                                1int
                            } else {
                                min_tokens as int
                            })) ==> results@.len() >= 1
                    })
            },
            Err(e) => {
                &&& e == AnalysisError::LexiconLookupFailure
                &&& exists|e2: int, i2: int|
                    {
                        &&& 0 <= e2 < lattice.spec_size()
                        &&& 0 <= i2 < lattice.spec_nodes(e2).len()
                        &&& !(#[trigger] lattice.spec_nodes(e2)[i2]).spec_word_id().spec_is_oov()
                        &&& !lexicon.spec_has(lattice.spec_nodes(e2)[i2].spec_word_id())
                    }
            },
        },
{
    if max_results == 0 {
        return Ok(Vec::new());
    }
    let min_tokens = if min_tokens < 1 {
        1
    } else {
        min_tokens
    };

    let normalized_reading = normalize_for_matching(reading);
    if normalized_reading.len() == 0 {
        return Ok(Vec::new());
    }

    let boundary_count = lattice.boundary_count();
    if boundary_count == 0 {
        return Ok(Vec::new());
    }
    if normalized_reading.len() as u64 >= 0x1_0000_0000u64 {
        return Ok(Vec::new());
    }

    let end_boundary = boundary_count - 1;
    let mut nodes_by_begin: Vec<Vec<NodeRef>> = Vec::new();
    let mut b: usize = 0;
    while b < boundary_count
        invariant
            b <= boundary_count,
            nodes_by_begin@.len() == b,
            forall|x: int| 0 <= x < b ==> #[trigger] nodes_by_begin@[x]@.len() == 0,
        decreases boundary_count - b,
    {
        nodes_by_begin.push(Vec::new());
        b = b + 1;
    }
    let mut metas_by_end: Vec<Vec<NodeMeta>> = Vec::new();

    let read_subset = subset.union(
        InfoSubset {
            reading_form: true,
            surface: true,
            ..InfoSubset::empty()
        },
    ).normalize();

    let ghost lat = *lattice;
    let mut end: usize = 0;
    while end < boundary_count
        invariant
            lat == *lattice,
            lattice.wf(),
            conn.wf(),
            lattice.spec_size() == boundary_count,
            lattice.spec_size() <= input.spec_curr().len() + 1,
            end_boundary + 1 == boundary_count,
            end <= boundary_count,
            read_subset == subset.spec_union(
                InfoSubset { reading_form: true, surface: true, ..InfoSubset::spec_empty() },
            ),
            metas_by_end@.len() == end,
            nodes_by_begin@.len() == boundary_count,
            forall|e: int|
                0 <= e < end ==> #[trigger] metas_by_end@[e]@.len() == lattice.spec_nodes(
                    e,
                ).len(),
            forall|e: int, i: int|
                0 <= e < end && 0 <= i < metas_by_end@[e]@.len() ==> {
                    let m = #[trigger] metas_by_end@[e]@[i];
                    &&& m.node == lattice.spec_nodes(e)[i]
                    &&& m.node.spec_end() == e
                    &&& m.node.spec_begin() < e
                    &&& spec_word_info_built(m.word_info, m.node, *input, *lexicon, read_subset)
                    &&& m.match_variants@.map_values(|x: Vec<u32>| x@) == spec_variants(
                        m.word_info,
                    )
                },
            forall|x: int, j: int|
                0 <= x < boundary_count && 0 <= j < nodes_by_begin@[x]@.len() ==> {
                    let rf = #[trigger] nodes_by_begin@[x]@[j];
                    &&& (rf.end as int) < end
                    &&& (rf.index as int) < metas_by_end@[rf.end as int]@.len()
                    &&& metas_by_end@[rf.end as int]@[rf.index as int].node.spec_begin() == x
                },
            forall|e: int, i: int|
                0 <= e < end && 0 <= i < metas_by_end@[e]@.len() ==> spec_listed(
                    nodes_by_begin@,
                    (#[trigger] metas_by_end@[e]@[i]).node.spec_begin() as int,
                    e,
                    i,
                ),
        decreases boundary_count - end,
    {
        let nodes = lattice.nodes_ending_at(end);
        let nn = nodes.len();
        let mut metas: Vec<NodeMeta> = Vec::new();
        let mut i: usize = 0;
        while i < nn
            invariant
                lat == *lattice,
                lattice.wf(),
                conn.wf(),
                lattice.spec_size() == boundary_count,
                lattice.spec_size() <= input.spec_curr().len() + 1,
                end_boundary + 1 == boundary_count,
                end < boundary_count,
                read_subset == subset.spec_union(
                    InfoSubset { reading_form: true, surface: true, ..InfoSubset::spec_empty() },
                ),
                nodes@ == lattice.spec_nodes(end as int),
                nn == nodes@.len(),
                i <= nn,
                metas_by_end@.len() == end,
                nodes_by_begin@.len() == boundary_count,
                metas@.len() == i,
                forall|k: int|
                    0 <= k < i ==> {
                        let m = #[trigger] metas@[k];
                        &&& m.node == lattice.spec_nodes(end as int)[k]
                        &&& m.node.spec_end() == end
                        &&& m.node.spec_begin() < end
                        &&& spec_word_info_built(
                            m.word_info,
                            m.node,
                            *input,
                            *lexicon,
                            read_subset,
                        )
                        &&& m.match_variants@.map_values(|x: Vec<u32>| x@) == spec_variants(
                            m.word_info,
                        )
                    },
                forall|e: int|
                    0 <= e < end ==> #[trigger] metas_by_end@[e]@.len() == lattice.spec_nodes(
                        e,
                    ).len(),
                forall|e: int, i2: int|
                    0 <= e < end && 0 <= i2 < metas_by_end@[e]@.len() ==> {
                        let m = #[trigger] metas_by_end@[e]@[i2];
                        &&& m.node == lattice.spec_nodes(e)[i2]
                        &&& m.node.spec_end() == e
                        &&& m.node.spec_begin() < e
                        &&& spec_word_info_built(
                            m.word_info,
                            m.node,
                            *input,
                            *lexicon,
                            read_subset,
                        )
                        &&& m.match_variants@.map_values(|x: Vec<u32>| x@) == spec_variants(
                            m.word_info,
                        )
                    },
                forall|x: int, j: int|
                    0 <= x < boundary_count && 0 <= j < nodes_by_begin@[x]@.len() ==> {
                        let rf = #[trigger] nodes_by_begin@[x]@[j];
                        &&& ((rf.end as int) < end || (rf.end == end && (rf.index as int) < i))
                        &&& if (rf.end as int) < end {
                            &&& (rf.index as int) < metas_by_end@[rf.end as int]@.len()
                            &&& metas_by_end@[rf.end as int]@[rf.index as int].node.spec_begin()
                                == x
                        } else {
                            &&& (rf.index as int) < metas@.len()
                            &&& metas@[rf.index as int].node.spec_begin() == x
                        }
                    },
                forall|e: int, i2: int|
                    0 <= e < end && 0 <= i2 < metas_by_end@[e]@.len() ==> spec_listed(
                        nodes_by_begin@,
                        (#[trigger] metas_by_end@[e]@[i2]).node.spec_begin() as int,
                        e,
                        i2,
                    ),
                forall|i2: int|
                    0 <= i2 < i ==> spec_listed(
                        nodes_by_begin@,
                        (#[trigger] metas@[i2]).node.spec_begin() as int,
                        end as int,
                        i2,
                    ),
            decreases nn - i,
        {
            let node = nodes[i];
            proof {
                assert(node == lattice.spec_nodes(end as int)[i as int]);
                assert(end >= 1);
                assert(node.spec_end() == end);
                assert(node.spec_begin() < node.spec_end());
            }
            let word_info = match make_word_info(&node, input, lexicon, read_subset) {
                Ok(w) => w,
                Err(e) => {
                    proof {
                        assert(!node.spec_word_id().spec_is_oov() && !lexicon.spec_has(
                            node.spec_word_id(),
                        ));
                        assert(0 <= end < lattice.spec_size() && 0 <= i < lattice.spec_nodes(
                            end as int,
                        ).len());
                    }
                    return Err(e);
                },
            };
            let match_variants = build_match_variants(&word_info);
            let meta = NodeMeta { node, match_variants, word_info };
            let idx = metas.len();
            let ghost nb0 = nodes_by_begin@;
            let ghost metas0 = metas@;
            ref_push(&mut nodes_by_begin, node.begin(), NodeRef { end, index: idx });
            metas.push(meta);
            proof {
                let bnode = node.spec_begin() as int;
                assert(nodes_by_begin@[bnode]@ == nb0[bnode]@.push(
                    NodeRef { end, index: idx },
                ));
                assert(metas@ == metas0.push(meta));
                assert forall|b2: int, e2: int, i2: int|
                    0 <= b2 < nb0.len() && spec_listed(nb0, b2, e2, i2) implies spec_listed(
                    nodes_by_begin@,
                    b2,
                    e2,
                    i2,
                ) by {
                    let j0 = choose|j: int|
                        0 <= j < nb0[b2]@.len() && #[trigger] nb0[b2]@[j] == (NodeRef {
                            end: e2 as usize,
                            index: i2 as usize,
                        });
                    if b2 == bnode {
                        assert(nodes_by_begin@[b2]@[j0] == nb0[b2]@[j0]);
                    } else {
                        assert(nodes_by_begin@[b2] == nb0[b2]);
                    }
                }
                assert forall|e2: int, i2: int|
                    0 <= e2 < end && 0 <= i2 < metas_by_end@[e2]@.len() implies spec_listed(
                    nodes_by_begin@,
                    (#[trigger] metas_by_end@[e2]@[i2]).node.spec_begin() as int,
                    e2,
                    i2,
                ) by {
                    let bb = metas_by_end@[e2]@[i2].node.spec_begin() as int;
                    assert(spec_listed(nb0, bb, e2, i2));
                    assert(0 <= bb < nb0.len());
                }
                assert forall|i2: int| 0 <= i2 < i + 1 implies spec_listed(
                    nodes_by_begin@,
                    (#[trigger] metas@[i2]).node.spec_begin() as int,
                    end as int,
                    i2,
                ) by {
                    if i2 < i {
                        assert(metas@[i2] == metas0[i2]);
                        let bb = metas0[i2].node.spec_begin() as int;
                        assert(spec_listed(nb0, bb, end as int, i2));
                        assert(0 <= bb < nb0.len());
                    } else {
                        assert(metas@[i2] == meta);
                        let j1 = nb0[bnode]@.len() as int;
                        assert(nodes_by_begin@[bnode]@[j1] == (NodeRef { end, index: idx }));
                        assert(idx as int == i2);
                        assert(spec_listed(nodes_by_begin@, bnode, end as int, i2));
                    }
                }
            }
            i = i + 1;
        }
        let ghost nbf = nodes_by_begin@;
        let ghost metasf = metas@;
        metas_by_end.push(metas);
        proof {
            assert(metas_by_end@[end as int]@ == metasf);
            assert forall|e2: int, i2: int|
                0 <= e2 < end + 1 && 0 <= i2 < metas_by_end@[e2]@.len() implies spec_listed(
                nodes_by_begin@,
                (#[trigger] metas_by_end@[e2]@[i2]).node.spec_begin() as int,
                e2,
                i2,
            ) by {
                if e2 < end {
                } else {
                    assert(metas_by_end@[e2]@[i2] == metasf[i2]);
                    assert(spec_listed(
                        nodes_by_begin@,
                        metasf[i2].node.spec_begin() as int,
                        end as int,
                        i2,
                    ));
                }
            }
        }
        end = end + 1;
    }

    let tables = SearchTables {
        reading: normalized_reading,
        end_boundary,
        nodes_by_begin,
        metas_by_end,
    };
    proof {
        assert forall|x: int, j: int|
            0 <= x <= tables.spec_eb() && 0 <= j < tables.spec_refs(x).len() implies {
            let rf = #[trigger] tables.spec_refs(x)[j];
            &&& (rf.end as int) <= tables.spec_eb()
            &&& (rf.index as int) < tables.spec_metas(rf.end as int).len()
            &&& tables.spec_metas(rf.end as int)[rf.index as int].node.spec_begin() == x
        } by {}
        assert forall|e: int, i: int|
            0 <= e <= tables.spec_eb() && 0 <= i < tables.spec_metas(e).len() implies {
            let m = #[trigger] tables.spec_metas(e)[i];
            &&& m.node.spec_end() == e
            &&& m.node.spec_begin() < e
            &&& forall|v: int|
                0 <= v < m.match_variants@.len() ==> #[trigger] m.match_variants@[v]@.len() >= 1
        } by {
            let m = tables.spec_metas(e)[i];
            assert forall|v: int|
                0 <= v < m.match_variants@.len() implies #[trigger] m.match_variants@[v]@.len()
                >= 1 by {
                assert(m.match_variants@.map_values(|x: Vec<u32>| x@)[v] == m.match_variants@[v]@);
                lemma_variants_nonempty(m.word_info, v);
            }
        }
        assert(tables.wf());
        assert forall|e2: int, i2: int|
            0 <= e2 < lat.spec_size() && 0 <= i2 < tables.spec_metas(e2).len()
                implies spec_listed(
            tables.nodes_by_begin@,
            (#[trigger] tables.spec_metas(e2)[i2]).node.spec_begin() as int,
            e2,
            i2,
        ) by {
            assert(tables.spec_metas(e2)[i2] == metas_by_end@[e2]@[i2]);
        }
        assert(spec_tables_built(tables, lat, *input, *lexicon, read_subset, reading@));
    }
    let searcher = Searcher::new(tables, max_results, min_tokens);
    let ghost tb = searcher.tables;
    let ghost maxr = max_results as int;
    let results = searcher.run(conn);
    proof {
        assert(tb.wf());
        assert(spec_tables_built(tb, lat, *input, *lexicon, read_subset, reading@));
        assert forall|c: Seq<(int, int)>|
            (#[trigger] tb.spec_completion(SearchTables::spec_start(), c) && c.len()
                >= min_tokens && results@.len() < max_results) implies spec_some_result_eq(
            results@,
            tb.spec_completion_cost(*conn, SearchTables::spec_start(), c),
        ) by {
            let x = tb.spec_completion_cost(*conn, SearchTables::spec_start(), c);
            assert(spec_cost_secured(results@, maxr, x));
        }
        assert forall|c: Seq<(int, int)>|
            (#[trigger] tb.spec_completion(SearchTables::spec_start(), c) && c.len()
                >= min_tokens) implies results@.len() >= 1 by {
            let x = tb.spec_completion_cost(*conn, SearchTables::spec_start(), c);
            assert(spec_cost_secured(results@, maxr, x));
            if spec_some_result_eq(results@, x) {
                let i0 = choose|i: int|
                    0 <= i < results@.len() && #[trigger] results@[i].total_cost == x;
            }
        }
    }
    Ok(results)
}

impl SearchTables {
    /// A completion from `s`: an admissible chain of steps ending in
    /// acceptance.
    pub open spec fn spec_completion(self, s: SearchState, c: Seq<(int, int)>) -> bool {
        &&& self.spec_steps_ok(s, c)
        &&& self.spec_accept(self.spec_steps_end(s, c))
    }

    /// What a completion still costs from `s`: its step costs plus the
    /// final transition into EOS.
    pub open spec fn spec_completion_cost(
        self,
        conn: ConnectionMatrix,
        s: SearchState,
        c: Seq<(int, int)>,
    ) -> int {
        self.spec_steps_cost(conn, s, c) + conn.spec_cost(
            self.spec_steps_end(s, c).prev_right_id,
            0,
        )
    }

    /// A state with a completion can reach acceptance.
    proof fn lemma_completion_can_complete(self, s: SearchState, c: Seq<(int, int)>)
        requires
            self.spec_completion(s, c),
            spec_bounded_state(self, s),
        ensures
            self.spec_can_complete(s),
        decreases c.len(),
    {
        if c.len() == 0 {
            assert(self.spec_steps_end(s, c) == s);
        } else {
            let next = self.spec_next(s, c[0].0, c[0].1);
            assert(self.spec_step_ok(s, c[0].0, c[0].1));
            assert(spec_bounded_state(self, next));
            self.lemma_completion_can_complete(next, c.skip(1));
            assert((s.boundary as int) < self.spec_eb()) by {
                assert((s.boundary as int) < next.boundary <= self.spec_eb());
                if (s.boundary as int) == self.spec_eb() {
                }
            }
        }
    }

    /// A non-empty completion decomposes into an admissible first step
    /// and a completion from the step's target.
    proof fn lemma_completion_first_step(
        self,
        conn: ConnectionMatrix,
        state: SearchState,
        c: Seq<(int, int)>,
    )
        requires
            self.spec_completion(state, c),
            c.len() > 0,
        ensures
            self.spec_step_ok(state, c[0].0, c[0].1),
            self.spec_completion(self.spec_next(state, c[0].0, c[0].1), c.skip(1)),
            spec_bounded_state(self, self.spec_next(state, c[0].0, c[0].1)),
            self.spec_completion_cost(conn, state, c) == self.spec_step_cost(
                conn,
                state,
                c[0].0,
            ) + self.spec_completion_cost(
                conn,
                self.spec_next(state, c[0].0, c[0].1),
                c.skip(1),
            ),
    {
        let nx = self.spec_next(state, c[0].0, c[0].1);
        assert(self.spec_steps_ok(nx, c.skip(1)));
        assert(self.spec_steps_end(state, c) == self.spec_steps_end(nx, c.skip(1)));
        assert(self.spec_steps_cost(conn, state, c) == self.spec_step_cost(conn, state, c[0].0)
            + self.spec_steps_cost(conn, nx, c.skip(1)));
    }

    /// An admissible step followed by a completion of its target is a
    /// completion, and its cost decomposes accordingly.
    proof fn lemma_completion_cons(
        self,
        conn: ConnectionMatrix,
        s: SearchState,
        j: int,
        vi: int,
        c: Seq<(int, int)>,
    )
        requires
            self.spec_step_ok(s, j, vi),
            self.spec_completion(self.spec_next(s, j, vi), c),
        ensures
            self.spec_completion(s, seq![(j, vi)] + c),
            self.spec_completion_cost(conn, s, seq![(j, vi)] + c) == self.spec_step_cost(
                conn,
                s,
                j,
            ) + self.spec_completion_cost(conn, self.spec_next(s, j, vi), c),
    {
        let full = seq![(j, vi)] + c;
        let nx = self.spec_next(s, j, vi);
        assert(full[0] == (j, vi));
        assert(full.skip(1) =~= c);
        assert(self.spec_steps_ok(s, full));
        assert(self.spec_steps_end(s, full) == self.spec_steps_end(nx, c));
        assert(self.spec_steps_cost(conn, s, full) == self.spec_step_cost(conn, s, j)
            + self.spec_steps_cost(conn, nx, c));
    }

    /// An accepting state has no outgoing step, so its only completion is
    /// the empty one.
    proof fn lemma_accept_completion_empty(self, s: SearchState, c: Seq<(int, int)>)
        requires
            self.spec_completion(s, c),
            (s.boundary as int) == self.spec_eb(),
        ensures
            c.len() == 0,
    {
        if c.len() > 0 {
            assert(self.spec_step_ok(s, c[0].0, c[0].1));
        }
    }
}

impl SearchTables {
    /// Law: the returned set is tail-optimal. Under the enumerator's
    /// guarantee that every admissible segmentation's cost is secured, a
    /// valid cost attained by no returned result can only occur when the
    /// list is full and every returned result costs at most it — no
    /// absent segmentation undercuts any returned one.
    pub proof fn lemma_tail_optimal(
        self,
        conn: ConnectionMatrix,
        results: Seq<ReadingCandidatePath>,
        max_results: int,
        min_tokens: int,
        c: Seq<(int, int)>,
    )
        requires
            forall|c2: Seq<(int, int)>|
                (#[trigger] self.spec_completion(Self::spec_start(), c2) && c2.len()
                    >= min_tokens) ==> spec_cost_secured(
                    results,
                    max_results,
                    self.spec_completion_cost(conn, Self::spec_start(), c2),
                ),
            self.spec_completion(Self::spec_start(), c),
            c.len() >= min_tokens,
            !spec_some_result_eq(
                results,
                self.spec_completion_cost(conn, Self::spec_start(), c),
            ),
        ensures
            results.len() == max_results,
            spec_all_results_le(
                results,
                self.spec_completion_cost(conn, Self::spec_start(), c),
            ),
    {
        assert(spec_cost_secured(
            results,
            max_results,
            self.spec_completion_cost(conn, Self::spec_start(), c),
        ));
    }

    /// Law: over a sorted result list that is covering (every admissible
    /// segmentation of at least `min_tokens` tokens is matched by some
    /// result at most as costly, as the enumerator returns), the first
    /// result realises the minimum total cost over all of them.
    pub proof fn lemma_first_result_minimal(
        self,
        conn: ConnectionMatrix,
        results: Seq<ReadingCandidatePath>,
        min_tokens: int,
        c: Seq<(int, int)>,
    )
        requires
            forall|i: int, j: int|
                0 <= i <= j < results.len() ==> #[trigger] results[i].total_cost
                    <= #[trigger] results[j].total_cost,
            forall|c2: Seq<(int, int)>|
                (#[trigger] self.spec_completion(Self::spec_start(), c2) && c2.len()
                    >= min_tokens) ==> spec_some_result_le(
                    results,
                    self.spec_completion_cost(conn, Self::spec_start(), c2),
                ),
            self.spec_completion(Self::spec_start(), c),
            c.len() >= min_tokens,
            results.len() >= 1,
        ensures
            results[0].total_cost <= self.spec_completion_cost(conn, Self::spec_start(), c),
    {
        let x = self.spec_completion_cost(conn, Self::spec_start(), c);
        assert(spec_some_result_le(results, x));
        let i0 = choose|i: int| 0 <= i < results.len() && #[trigger] results[i].total_cost <= x;
        assert(results[0].total_cost <= results[i0].total_cost);
    }
}

} // verus!
