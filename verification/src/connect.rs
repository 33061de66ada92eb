//! Connection-cost matrix: a read-only 2-D table of 16-bit bigram costs,
//! indexed by the right id of the left node and the left id of the right
//! node. Lookups are total: an id outside the table costs 0.

use vstd::prelude::*;

verus! {

/// Bigram cost table. `cost(left, right)` is the transition cost from a node
/// whose right connection id is `left` to a node whose left connection id is
/// `right`.
pub struct ConnectionMatrix {
    left_count: usize,
    right_count: usize,
    costs: Vec<i16>,
}

impl ConnectionMatrix {
    pub closed spec fn wf(self) -> bool {
        &&& self.costs@.len() == self.left_count * self.right_count
        &&& self.left_count <= 0xffff
        &&& self.right_count <= 0xffff
    }

    /// The cost the table holds for a pair of connection ids; 0 outside it.
    pub closed spec fn spec_cost(self, left: u16, right: u16) -> i16 {
        if left < self.left_count && right < self.right_count {
            self.costs@[left * self.right_count + right]
        } else {
            0
        }
    }

    proof fn lemma_flat_index(self, left: u16, right: u16)
        requires
            self.wf(),
            left < self.left_count,
            right < self.right_count,
        ensures
            0 <= left * self.right_count + right < self.costs@.len(),
            left * self.right_count + right < 0xffff_ffff,
    {
        assert(left * self.right_count + right < self.left_count * self.right_count
            && left * self.right_count + right < 0xffff_ffff) by (nonlinear_arith)
            requires
                left < self.left_count,
                right < self.right_count,
                0 <= left,
                0 <= right,
                self.left_count <= 0xffff,
                self.right_count <= 0xffff,
        ;
    }

    /// A zero-filled matrix for `left_count * right_count` id pairs.
    pub fn new(left_count: usize, right_count: usize) -> (r: ConnectionMatrix)
        requires
            left_count <= 0xffff,
            right_count <= 0xffff,
        ensures
            r.wf(),
            r.spec_left_count() == left_count,
            r.spec_right_count() == right_count,
            forall|l: u16, r2: u16| r.spec_cost(l, r2) == 0,
    {
        proof {
            assert(left_count * right_count < 0xffff_ffff) by (nonlinear_arith)
                requires
                    0 <= left_count <= 0xffff,
                    0 <= right_count <= 0xffff,
            ;
        }
        let n = left_count * right_count;
        let mut costs: Vec<i16> = Vec::new();
        let mut i: usize = 0;
        while i < n
            invariant
                costs@.len() == i,
                i <= n,
                forall|k: int| 0 <= k < i ==> costs@[k] == 0,
            decreases n - i,
        {
            costs.push(0i16);
            i = i + 1;
        }
        let m = ConnectionMatrix { left_count, right_count, costs };
        proof {
            assert forall|l: u16, r2: u16| m.spec_cost(l, r2) == 0 by {
                if l < m.left_count && r2 < m.right_count {
                    m.lemma_flat_index(l, r2);
                }
            }
        }
        m
    }

    /// Replace the cost of one id pair.
    pub fn update(&mut self, left: u16, right: u16, cost: i16)
        requires
            old(self).wf(),
            left < old(self).spec_left_count(),
            right < old(self).spec_right_count(),
        ensures
            final(self).wf(),
            final(self).spec_left_count() == old(self).spec_left_count(),
            final(self).spec_right_count() == old(self).spec_right_count(),
            final(self).spec_cost(left, right) == cost,
            forall|l: u16, r: u16|
                !(l == left && r == right) ==> final(self).spec_cost(l, r) == old(
                    self,
                ).spec_cost(l, r),
    {
        proof {
            self.lemma_flat_index(left, right);
        }
        let idx = left as usize * self.right_count + right as usize;
        self.costs.set(idx, cost);
        proof {
            assert forall|l: u16, r: u16| !(l == left && r == right) implies self.spec_cost(l, r)
                == old(self).spec_cost(l, r) by {
                if l < self.left_count && r < self.right_count {
                    old(self).lemma_flat_index(l, r);
                    assert(l * self.right_count + r != left * self.right_count + right)
                        by (nonlinear_arith)
                        requires
                            0 <= l,
                            0 <= r < self.right_count,
                            0 <= right < self.right_count,
                            0 <= left,
                            !(l == left && r == right),
                    ;
                }
            }
        }
    }

    pub closed spec fn spec_left_count(self) -> usize {
        self.left_count
    }

    pub closed spec fn spec_right_count(self) -> usize {
        self.right_count
    }

    /// Total lookup: ids beyond the table's bounds cost 0.
    pub fn cost(&self, left: u16, right: u16) -> (r: i16)
        requires
            self.wf(),
        ensures
            r == self.spec_cost(left, right),
    {
        if (left as usize) < self.left_count && (right as usize) < self.right_count {
            proof {
                self.lemma_flat_index(left, right);
            }
            self.costs[left as usize * self.right_count + right as usize]
        } else {
            0
        }
    }
}

} // verus!
