//! Lattice node records: the full per-candidate record and the small index
//! pair used as a traceback pointer.

use vstd::prelude::*;
use crate::word_id::WordId;

verus! {

/// Sentinel for "no boundary / no index" inside a `NodeIdx`.
pub const NODE_IDX_NONE: u16 = 0xffff;

/// Identifies a candidate inside the lattice: the boundary its span ends at,
/// and its position among the candidates ending there.
#[derive(Clone, Copy, Debug, PartialEq, Eq, Structural)]
pub struct NodeIdx {
    pub end: u16,
    pub index: u16,
}

impl NodeIdx {
    pub open spec fn spec_end(self) -> u16 {
        self.end
    }

    pub open spec fn spec_index(self) -> u16 {
        self.index
    }

    pub open spec fn spec_is_empty(self) -> bool {
        self.spec_end() == NODE_IDX_NONE && self.spec_index() == NODE_IDX_NONE
    }

    pub fn new(end: u16, index: u16) -> (r: NodeIdx)
        ensures
            r.spec_end() == end,
            r.spec_index() == index,
    {
        NodeIdx { end, index }
    }

    /// The sentinel index: points at no candidate.
    pub fn empty() -> (r: NodeIdx)
        ensures
            r.spec_is_empty(),
            r.spec_end() == NODE_IDX_NONE,
            r.spec_index() == NODE_IDX_NONE,
    {
        NodeIdx { end: NODE_IDX_NONE, index: NODE_IDX_NONE }
    }

    pub fn end(&self) -> (r: u16)
        ensures
            r == self.spec_end(),
    {
        self.end
    }

    pub fn index(&self) -> (r: u16)
        ensures
            r == self.spec_index(),
    {
        self.index
    }
}

/// A candidate morpheme: a span over codepoint boundaries, connection ids,
/// a node cost, a word id and a whitespace flag.
#[derive(Clone, Copy, Debug, PartialEq, Eq, Structural)]
pub struct Node {
    pub begin: u16,
    pub end: u16,
    pub left_id: u16,
    pub right_id: u16,
    pub cost: i16,
    pub word_id: WordId,
    pub whitespace: bool,
}

impl Node {
    pub open spec fn spec_begin(self) -> u16 {
        self.begin
    }

    pub open spec fn spec_end(self) -> u16 {
        self.end
    }

    pub open spec fn spec_left_id(self) -> u16 {
        self.left_id
    }

    pub open spec fn spec_right_id(self) -> u16 {
        self.right_id
    }

    pub open spec fn spec_cost(self) -> i16 {
        self.cost
    }

    pub open spec fn spec_word_id(self) -> WordId {
        self.word_id
    }

    pub open spec fn spec_is_whitespace(self) -> bool {
        self.whitespace
    }

    pub fn new(begin: u16, end: u16, left_id: u16, right_id: u16, cost: i16, word_id: WordId) -> (r:
        Node)
        ensures
            r == (Node { begin, end, left_id, right_id, cost, word_id, whitespace: false }),
    {
        Node { begin, end, left_id, right_id, cost, word_id, whitespace: false }
    }

    pub fn set_whitespace(&mut self, whitespace: bool)
        ensures
            final(self).spec_is_whitespace() == whitespace,
            final(self).spec_begin() == old(self).spec_begin(),
            final(self).spec_end() == old(self).spec_end(),
            final(self).spec_left_id() == old(self).spec_left_id(),
            final(self).spec_right_id() == old(self).spec_right_id(),
            final(self).spec_cost() == old(self).spec_cost(),
            final(self).spec_word_id() == old(self).spec_word_id(),
    {
        self.whitespace = whitespace;
    }

    pub fn begin(&self) -> (r: usize)
        ensures
            r == self.spec_begin(),
    {
        self.begin as usize
    }

    pub fn end(&self) -> (r: usize)
        ensures
            r == self.spec_end(),
    {
        self.end as usize
    }

    pub fn left_id(&self) -> (r: u16)
        ensures
            r == self.spec_left_id(),
    {
        self.left_id
    }

    pub fn right_id(&self) -> (r: u16)
        ensures
            r == self.spec_right_id(),
    {
        self.right_id
    }

    pub fn cost(&self) -> (r: i16)
        ensures
            r == self.spec_cost(),
    {
        self.cost
    }

    pub fn word_id(&self) -> (r: WordId)
        ensures
            r == self.spec_word_id(),
    {
        self.word_id
    }

    pub fn is_whitespace(&self) -> (r: bool)
        ensures
            r == self.spec_is_whitespace(),
    {
        self.whitespace
    }

    /// BOS/EOS sentinels are the only nodes carrying a special word id.
    pub fn is_special_node(&self) -> (r: bool)
        ensures
            r == self.spec_word_id().spec_is_special(),
    {
        self.word_id.is_special()
    }

    pub fn is_oov(&self) -> (r: bool)
        ensures
            r == self.spec_word_id().spec_is_oov(),
    {
        self.word_id.is_oov()
    }
}

} // verus!
