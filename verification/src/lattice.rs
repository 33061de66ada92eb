//! Viterbi lattice over codepoint boundaries.
//!
//! The lattice holds three parallel arrays of arrays indexed by the end
//! boundary of a candidate: the small per-candidate `VNode` records read in
//! the hot connection loop, the full `Node` records, and the traceback
//! pointers. Candidates are inserted in non-decreasing order of their end
//! boundary; each insertion records the cheapest incoming path. An optional
//! whitespace bridge lets a transition out of a whitespace predecessor reuse
//! the connection id of the last non-whitespace node on its best path.

use vstd::prelude::*;
use crate::connect::ConnectionMatrix;
use crate::error::AnalysisError;
use crate::node::Node;
use crate::node::NodeIdx;
use crate::node::NODE_IDX_NONE;
use crate::word_id::WordId;

verus! {

/// Sentinel meaning "no non-whitespace node seen on the path yet".
pub const NONE_RIGHT_ID: u16 = 0xffff;

/// Largest number of boundaries a lattice can hold: boundaries are stored
/// as 16-bit values in traceback pointers.
pub const MAX_BOUNDARIES: usize = 0x10000;

/// Small per-candidate record for the Viterbi loop: the best known path
/// cost to this candidate, its right connection id (duplicated from the
/// full record), and the right id of the last non-whitespace node on the
/// best incoming path (`NONE_RIGHT_ID` when there is none).
#[derive(Clone, Copy, Debug, PartialEq, Eq, Structural)]
pub struct VNode {
    pub total_cost: i32,
    pub right_id: u16,
    pub prev_non_ws_right_id: u16,
}

impl VNode {
    pub fn new(right_id: u16, total_cost: i32, prev_non_ws_right_id: u16) -> (r: VNode)
        ensures
            r == (VNode { right_id, total_cost, prev_non_ws_right_id }),
    {
        VNode { right_id, total_cost, prev_non_ws_right_id }
    }

    /// A candidate is reachable from BOS iff its cost is below the
    /// `i32::MAX` sentinel.
    pub open spec fn spec_is_connected_to_bos(self) -> bool {
        self.total_cost < i32::MAX
    }

    pub fn is_connected_to_bos(&self) -> (r: bool)
        ensures
            r == self.spec_is_connected_to_bos(),
    {
        self.total_cost < i32::MAX
    }
}

impl Default for Lattice {
    /// Same as `Lattice::new`: an empty lattice awaiting `reset`.
    fn default() -> (r: Lattice)
        ensures
            r.shape_wf(),
            r.spec_size() == 0,
            r.spec_rows() == 0,
            r.spec_eos() is None,
            !r.spec_bridge(),
    {
        Lattice::new()
    }
}

/// The Viterbi lattice. See the module documentation.
pub struct Lattice {
    ends: Vec<Vec<VNode>>,
    ends_full: Vec<Vec<Node>>,
    indices: Vec<Vec<NodeIdx>>,
    eos: Option<(NodeIdx, i32)>,
    size: usize,
    global_whitespace_bridge: bool,
}

impl Lattice {
    pub closed spec fn spec_size(self) -> usize {
        self.size
    }

    pub closed spec fn spec_rows(self) -> nat {
        self.ends@.len()
    }

    pub closed spec fn spec_vnodes(self, b: int) -> Seq<VNode> {
        self.ends@[b]@
    }

    pub closed spec fn spec_nodes(self, b: int) -> Seq<Node> {
        self.ends_full@[b]@
    }

    pub closed spec fn spec_indices(self, b: int) -> Seq<NodeIdx> {
        self.indices@[b]@
    }

    pub closed spec fn spec_eos(self) -> Option<(NodeIdx, i32)> {
        self.eos
    }

    pub closed spec fn spec_bridge(self) -> bool {
        self.global_whitespace_bridge
    }

    /// The three arrays of rows always have the same length. This holds of
    /// every lattice the constructors and methods produce, reset or not.
    pub closed spec fn shape_wf(self) -> bool {
        &&& self.ends@.len() == self.ends_full@.len()
        &&& self.ends@.len() == self.indices@.len()
    }

    /// The value of the BOS record seeded at boundary 0.
    pub open spec fn spec_bos_vnode() -> VNode {
        VNode { total_cost: 0, right_id: 0, prev_non_ws_right_id: NONE_RIGHT_ID }
    }

    /// Structural well-formedness of a lattice that has been `reset`:
    /// the boundary count is in range and backed by the rows; boundary 0
    /// holds exactly the BOS record and no full node; at every other
    /// boundary the three rows are aligned, each full node ends at its
    /// boundary and spans forward, and its right id is duplicated into the
    /// small record; rows past the boundary count stay empty.
    pub open spec fn wf(self) -> bool {
        &&& self.shape_wf()
        &&& 1 <= self.spec_size() <= MAX_BOUNDARIES
        &&& self.spec_size() <= self.spec_rows()
        &&& self.spec_vnodes(0) =~= seq![Self::spec_bos_vnode()]
        &&& self.spec_nodes(0).len() == 0
        &&& self.spec_indices(0).len() == 0
        &&& forall|b: int|
            1 <= b < self.spec_rows() ==> #[trigger] self.spec_vnodes(b).len()
                == self.spec_nodes(b).len()
        &&& forall|b: int|
            1 <= b < self.spec_rows() ==> #[trigger] self.spec_indices(b).len()
                == self.spec_nodes(b).len()
        &&& forall|b: int|
            self.spec_size() <= b < self.spec_rows() ==> #[trigger] self.spec_nodes(b).len() == 0
        &&& forall|b: int| 0 <= b < self.spec_rows() ==> #[trigger] self.spec_vnodes(b).len()
            <= 0xffff
        &&& forall|b: int, i: int|
            1 <= b < self.spec_rows() && 0 <= i < self.spec_nodes(b).len() ==> {
                let n = #[trigger] self.spec_nodes(b)[i];
                &&& n.spec_end() == b
                &&& n.spec_begin() < n.spec_end()
                &&& n.spec_right_id() == self.spec_vnodes(b)[i].right_id
            }
    }

    /// Cost of reaching `r` through the predecessor record `l` by the
    /// plain transition.
    pub open spec fn spec_normal_cost(l: VNode, conn: ConnectionMatrix, r: Node) -> int {
        l.total_cost + conn.spec_cost(l.right_id, r.spec_left_id()) + r.spec_cost()
    }

    /// Cost of reaching `r` through `l` by the whitespace bridge: the
    /// connection id of the last non-whitespace node before `l` replaces
    /// `l`'s own.
    pub open spec fn spec_bridged_cost(l: VNode, conn: ConnectionMatrix, r: Node) -> int {
        l.total_cost + conn.spec_cost(l.prev_non_ws_right_id, r.spec_left_id()) + r.spec_cost()
    }

    /// Whether the predecessor at `(begin, i)` counts as whitespace: BOS
    /// never does; any other candidate does iff its full record says so.
    pub open spec fn spec_pred_is_ws(self, begin: int, i: int) -> bool {
        begin != 0 && self.spec_nodes(begin)[i].spec_is_whitespace()
    }

    /// Whether the bridged transition is offered from predecessor `i` of
    /// `begin` to `r`.
    pub open spec fn spec_bridge_applies(self, r: Node, i: int) -> bool {
        let begin = r.spec_begin() as int;
        let l = self.spec_vnodes(begin)[i];
        &&& self.spec_bridge()
        &&& self.spec_pred_is_ws(begin, i)
        &&& !r.spec_is_whitespace()
        &&& l.prev_non_ws_right_id != NONE_RIGHT_ID
    }

    /// The best cost the predecessor at index `i` offers for reaching `r`:
    /// the plain transition, improved by the bridge where it applies.
    pub open spec fn spec_cand_cost(self, conn: ConnectionMatrix, r: Node, i: int) -> int {
        let begin = r.spec_begin() as int;
        let l = self.spec_vnodes(begin)[i];
        let normal = Self::spec_normal_cost(l, conn, r);
        if self.spec_bridge_applies(r, i) {
            let bridged = Self::spec_bridged_cost(l, conn, r);
            if bridged < normal {
                bridged
            } else {
                normal
            }
        } else {
            normal
        }
    }

    /// The carrier that reaching `r` through predecessor `i` propagates:
    /// a non-whitespace `r` becomes the new last non-whitespace node; a
    /// whitespace `r` passes the predecessor's carrier through.
    pub open spec fn spec_cand_carrier(self, r: Node, i: int) -> u16 {
        if r.spec_is_whitespace() {
            self.spec_vnodes(r.spec_begin() as int)[i].prev_non_ws_right_id
        } else {
            r.spec_right_id()
        }
    }

    pub open spec fn spec_cand_connected(self, r: Node, i: int) -> bool {
        self.spec_vnodes(r.spec_begin() as int)[i].spec_is_connected_to_bos()
    }

    /// No candidate cost for `r` leaves the `i32` range, and `i32::MAX`
    /// stays reserved for "unreachable". Machine limit of the 32-bit cost
    /// arithmetic; disconnected predecessors are skipped and not counted.
    pub open spec fn spec_connect_fits(self, conn: ConnectionMatrix, r: Node) -> bool {
        forall|i: int|
            0 <= i < self.spec_vnodes(r.spec_begin() as int).len() && self.spec_cand_connected(
                r,
                i,
            ) ==> i32::MIN <= #[trigger] self.spec_cand_cost(conn, r, i) < i32::MAX
    }

    /// What `connect_node` computes, over the first `n` predecessors of
    /// `r`'s begin boundary: either no predecessor among them is connected
    /// to BOS and the result is the unreachable sentinel, or the result is
    /// the earliest predecessor offering the smallest candidate cost,
    /// together with that cost and the carrier it propagates.
    pub open spec fn spec_is_best_prefix(
        self,
        conn: ConnectionMatrix,
        r: Node,
        n: int,
        idx: NodeIdx,
        cost: int,
        carrier: u16,
    ) -> bool {
        if exists|i: int| 0 <= i < n && self.spec_cand_connected(r, i) {
            exists|i: int|
                {
                    &&& 0 <= i < n
                    &&& self.spec_cand_connected(r, i)
                    &&& cost == self.spec_cand_cost(conn, r, i)
                    &&& idx.spec_end() == r.spec_begin()
                    &&& idx.spec_index() == i
                    &&& carrier == self.spec_cand_carrier(r, i)
                    &&& forall|j: int|
                        0 <= j < n && self.spec_cand_connected(r, j)
                            ==> #[trigger] self.spec_cand_cost(conn, r, j) >= cost
                    &&& forall|j: int|
                        0 <= j < i && self.spec_cand_connected(r, j)
                            ==> #[trigger] self.spec_cand_cost(conn, r, j) > cost
                }
        } else {
            cost == i32::MAX && idx.spec_is_empty() && carrier == NONE_RIGHT_ID
        }
    }

    /// Well-formedness carries over to a lattice with the same boundary
    /// count and the same rows.
    proof fn lemma_wf_same_rows(a: Lattice, b: Lattice)
        requires
            a.wf(),
            b.shape_wf(),
            b.spec_size() == a.spec_size(),
            b.spec_rows() == a.spec_rows(),
            forall|x: int| 0 <= x < a.spec_rows() ==> b.spec_vnodes(x) == a.spec_vnodes(x),
            forall|x: int| 0 <= x < a.spec_rows() ==> b.spec_nodes(x) == a.spec_nodes(x),
            forall|x: int| 0 <= x < a.spec_rows() ==> b.spec_indices(x) == a.spec_indices(x),
        ensures
            b.wf(),
    {
        assert(b.spec_vnodes(0) == a.spec_vnodes(0));
        assert(b.spec_vnodes(0) =~= seq![Self::spec_bos_vnode()]);
        assert forall|x: int| 1 <= x < b.spec_rows() implies #[trigger] b.spec_vnodes(x).len()
            == b.spec_nodes(x).len() by {
            assert(a.spec_vnodes(x).len() == a.spec_nodes(x).len());
        }
        assert forall|x: int| 1 <= x < b.spec_rows() implies #[trigger] b.spec_indices(x).len()
            == b.spec_nodes(x).len() by {
            assert(a.spec_indices(x).len() == a.spec_nodes(x).len());
        }
        assert forall|x: int| b.spec_size() <= x < b.spec_rows() implies #[trigger] b.spec_nodes(
            x,
        ).len() == 0 by {
            assert(a.spec_nodes(x).len() == 0);
        }
        assert forall|x: int| 0 <= x < b.spec_rows() implies #[trigger] b.spec_vnodes(x).len()
            <= 0xffff by {
            assert(a.spec_vnodes(x).len() <= 0xffff);
        }
        assert forall|x: int, i: int|
            1 <= x < b.spec_rows() && 0 <= i < b.spec_nodes(x).len() implies {
            let n = #[trigger] b.spec_nodes(x)[i];
            &&& n.spec_end() == x
            &&& n.spec_begin() < n.spec_end()
            &&& n.spec_right_id() == b.spec_vnodes(x)[i].right_id
        } by {
            assert(a.spec_nodes(x)[i].spec_end() == x);
        }
    }

    /// Every stored candidate's cost, traceback pointer and carrier are
    /// what `connect_node` computes for it against `conn`: the invariant
    /// behind the Viterbi optimality of the lattice, kept as long as every
    /// insertion uses the same matrix and the same bridge setting.
    pub open spec fn spec_costs_consistent(self, conn: ConnectionMatrix) -> bool {
        forall|b: int, i: int|
            1 <= b < self.spec_size() && 0 <= i < self.spec_vnodes(b).len() ==> self.spec_is_best(
                conn,
                #[trigger] self.spec_nodes(b)[i],
                self.spec_indices(b)[i],
                self.spec_vnodes(b)[i].total_cost as int,
                self.spec_vnodes(b)[i].prev_non_ws_right_id,
            )
    }

    /// What `connect_node` computes for `r` depends only on the rows at
    /// `r`'s begin boundary and the bridge setting, so it carries over to
    /// any lattice that shares them.
    proof fn lemma_is_best_same_row(
        a: Lattice,
        b: Lattice,
        conn: ConnectionMatrix,
        r: Node,
        idx: NodeIdx,
        cost: int,
        carrier: u16,
    )
        requires
            a.spec_is_best(conn, r, idx, cost, carrier),
            b.spec_vnodes(r.spec_begin() as int) == a.spec_vnodes(r.spec_begin() as int),
            b.spec_nodes(r.spec_begin() as int) == a.spec_nodes(r.spec_begin() as int),
            b.spec_bridge() == a.spec_bridge(),
        ensures
            b.spec_is_best(conn, r, idx, cost, carrier),
    {
        let begin = r.spec_begin() as int;
        let n = a.spec_vnodes(begin).len() as int;
        assert forall|i: int| 0 <= i < n implies {
            &&& #[trigger] b.spec_cand_cost(conn, r, i) == a.spec_cand_cost(conn, r, i)
            &&& b.spec_cand_connected(r, i) == a.spec_cand_connected(r, i)
            &&& b.spec_cand_carrier(r, i) == a.spec_cand_carrier(r, i)
        } by {
            assert(b.spec_bridge_applies(r, i) == a.spec_bridge_applies(r, i));
        }
        if exists|i: int| 0 <= i < n && a.spec_cand_connected(r, i) {
            let k = choose|k: int|
                {
                    &&& 0 <= k < n
                    &&& a.spec_cand_connected(r, k)
                    &&& cost == a.spec_cand_cost(conn, r, k)
                    &&& idx.spec_end() == r.spec_begin()
                    &&& idx.spec_index() == k
                    &&& carrier == a.spec_cand_carrier(r, k)
                    &&& forall|j: int|
                        0 <= j < n && a.spec_cand_connected(r, j)
                            ==> #[trigger] a.spec_cand_cost(conn, r, j) >= cost
                    &&& forall|j: int|
                        0 <= j < k && a.spec_cand_connected(r, j)
                            ==> #[trigger] a.spec_cand_cost(conn, r, j) > cost
                };
            assert(b.spec_cand_connected(r, k));
            assert forall|j: int|
                0 <= j < n && b.spec_cand_connected(r, j) implies #[trigger] b.spec_cand_cost(
                conn,
                r,
                j,
            ) >= cost by {
                assert(a.spec_cand_connected(r, j));
                assert(a.spec_cand_cost(conn, r, j) >= cost);
            }
            assert forall|j: int|
                0 <= j < k && b.spec_cand_connected(r, j) implies #[trigger] b.spec_cand_cost(
                conn,
                r,
                j,
            ) > cost by {
                assert(a.spec_cand_connected(r, j));
                assert(a.spec_cand_cost(conn, r, j) > cost);
            }
            assert(b.spec_is_best(conn, r, idx, cost, carrier));
        } else {
            assert forall|i: int| 0 <= i < n implies !b.spec_cand_connected(r, i) by {
                assert(!a.spec_cand_connected(r, i));
            }
            assert(b.spec_is_best(conn, r, idx, cost, carrier));
        }
    }

    /// Traceback well-formedness carries over to a lattice with the same
    /// boundary count and the same rows.
    proof fn lemma_trace_wf_same_rows(a: Lattice, b: Lattice)
        requires
            a.spec_trace_wf(),
            b.spec_size() == a.spec_size(),
            forall|x: int| b.spec_vnodes(x) == a.spec_vnodes(x),
            forall|x: int| b.spec_nodes(x) == a.spec_nodes(x),
            forall|x: int| b.spec_indices(x) == a.spec_indices(x),
        ensures
            b.spec_trace_wf(),
    {
        assert forall|x: int, i: int|
            1 <= x < b.spec_size() && 0 <= i < b.spec_indices(x).len() implies {
            let p = #[trigger] b.spec_indices(x)[i];
            if b.spec_vnodes(x)[i].total_cost == i32::MAX {
                p.spec_is_empty()
            } else {
                &&& p.spec_end() == b.spec_nodes(x)[i].spec_begin()
                &&& p.spec_end() < x
                &&& p.spec_index() < b.spec_vnodes(p.spec_end() as int).len()
                &&& b.spec_vnodes(p.spec_end() as int)[p.spec_index() as int].total_cost
                    < i32::MAX
            }
        } by {
            assert(a.spec_indices(x)[i] == b.spec_indices(x)[i]);
            assert(1 <= x < a.spec_size() && 0 <= i < a.spec_indices(x).len());
        }
    }

    /// Cost consistency carries over to a lattice with the same boundary
    /// count, the same rows and the same bridge setting.
    proof fn lemma_consistent_same_rows(a: Lattice, b: Lattice, conn: ConnectionMatrix)
        requires
            a.spec_costs_consistent(conn),
            b.spec_size() == a.spec_size(),
            b.spec_bridge() == a.spec_bridge(),
            forall|x: int| b.spec_vnodes(x) == a.spec_vnodes(x),
            forall|x: int| b.spec_nodes(x) == a.spec_nodes(x),
            forall|x: int| b.spec_indices(x) == a.spec_indices(x),
        ensures
            b.spec_costs_consistent(conn),
    {
        assert forall|x: int, i: int|
            1 <= x < b.spec_size() && 0 <= i < b.spec_vnodes(x).len() implies b.spec_is_best(
            conn,
            #[trigger] b.spec_nodes(x)[i],
            b.spec_indices(x)[i],
            b.spec_vnodes(x)[i].total_cost as int,
            b.spec_vnodes(x)[i].prev_non_ws_right_id,
        ) by {
            let r = a.spec_nodes(x)[i];
            assert(a.spec_is_best(
                conn,
                r,
                a.spec_indices(x)[i],
                a.spec_vnodes(x)[i].total_cost as int,
                a.spec_vnodes(x)[i].prev_non_ws_right_id,
            ));
            Self::lemma_is_best_same_row(
                a,
                b,
                conn,
                r,
                a.spec_indices(x)[i],
                a.spec_vnodes(x)[i].total_cost as int,
                a.spec_vnodes(x)[i].prev_non_ws_right_id,
            );
        }
    }

    /// An empty lattice; `reset` must be called before anything is
    /// inserted.
    pub fn new() -> (r: Lattice)
        ensures
            r.shape_wf(),
            r.spec_size() == 0,
            r.spec_rows() == 0,
            r.spec_eos() is None,
            !r.spec_bridge(),
    {
        Lattice {
            ends: Vec::new(),
            ends_full: Vec::new(),
            indices: Vec::new(),
            eos: None,
            size: 0,
            global_whitespace_bridge: false,
        }
    }

    /// Set the whitespace-bridge policy; returns the previous setting.
    pub fn set_global_whitespace_bridge(&mut self, enabled: bool) -> (prev: bool)
        ensures
            prev == old(self).spec_bridge(),
            final(self).spec_bridge() == enabled,
            final(self).spec_size() == old(self).spec_size(),
            final(self).spec_rows() == old(self).spec_rows(),
            final(self).spec_eos() == old(self).spec_eos(),
            forall|b: int| final(self).spec_vnodes(b) == old(self).spec_vnodes(b),
            forall|b: int| final(self).spec_nodes(b) == old(self).spec_nodes(b),
            forall|b: int| final(self).spec_indices(b) == old(self).spec_indices(b),
            old(self).shape_wf() ==> final(self).shape_wf(),
            old(self).wf() ==> final(self).wf(),
    {
        let prev = self.global_whitespace_bridge;
        self.global_whitespace_bridge = enabled;
        proof {
            if old(self).wf() {
                Self::lemma_wf_same_rows(*old(self), *self);
            }
        }
        prev
    }

    /// Number of boundaries in the current lattice: `N + 1` after
    /// `reset(N)`.
    pub fn boundary_count(&self) -> (r: usize)
        ensures
            r == self.spec_size(),
    {
        self.size
    }

    /// The full records of the candidates ending at `boundary`; empty for
    /// an out-of-range boundary.
    pub fn nodes_ending_at(&self, boundary: usize) -> (r: &[Node])
        requires
            self.wf(),
        ensures
            boundary < self.spec_size() ==> r@ == self.spec_nodes(boundary as int),
            boundary >= self.spec_size() ==> r@.len() == 0,
    {
        if boundary < self.ends_full.len() {
            proof {
                if boundary >= self.spec_size() {
                    assert(self.spec_nodes(boundary as int).len() == 0);
                }
            }
            self.ends_full[boundary].as_slice()
        } else {
            proof {
                assert(self.spec_nodes(0).len() == 0);
            }
            self.ends_full[0].as_slice()
        }
    }

    /// Whether at least one candidate ends at boundary `i`.
    pub fn has_previous_node(&self, i: usize) -> (r: bool)
        requires
            self.wf(),
        ensures
            r == (i < self.spec_size() && self.spec_vnodes(i as int).len() > 0),
    {
        if i < self.ends.len() {
            proof {
                if self.spec_size() <= i {
                    assert(self.spec_nodes(i as int).len() == 0);
                    if i >= 1 {
                        assert(self.spec_vnodes(i as int).len() == self.spec_nodes(i as int).len());
                    }
                }
            }
            self.ends[i].len() > 0
        } else {
            false
        }
    }

    /// Append `val` to the row at index `i` of an array of rows.
    fn row_push<T>(data: &mut Vec<Vec<T>>, i: usize, val: T)
        requires
            i < old(data)@.len(),
        ensures
            final(data)@.len() == old(data)@.len(),
            final(data)@[i as int]@ == old(data)@[i as int]@.push(val),
            forall|b: int|
                0 <= b < final(data)@.len() && b != i ==> #[trigger] final(data)@[b] == old(
                    data,
                )@[b],
    {
        let mut row = data.remove(i);
        row.push(val);
        data.insert(i, row);
    }

    /// Clear every row of `data` and grow it with fresh rows to at least
    /// `target` rows. Rows keep their capacity across analyses.
    fn reset_vec<T>(data: &mut Vec<Vec<T>>, target: usize)
        ensures
            final(data)@.len() == if old(data)@.len() >= target {
                old(data)@.len() as int
            } else {
                target as int
            },
            forall|b: int| 0 <= b < final(data)@.len() ==> #[trigger] final(data)@[b]@.len() == 0,
    {
        let ghost n0 = data@.len();
        let mut kept: Vec<Vec<T>> = Vec::new();
        while data.len() > 0
            invariant
                data@.len() + kept@.len() == n0,
                forall|b: int| 0 <= b < kept@.len() ==> #[trigger] kept@[b]@.len() == 0,
            decreases data@.len(),
        {
            let mut row = match data.pop() {
                Some(r) => r,
                None => Vec::new(),
            };
            row.clear();
            kept.push(row);
        }
        while kept.len() > 0
            invariant
                data@.len() + kept@.len() == n0,
                forall|b: int| 0 <= b < kept@.len() ==> #[trigger] kept@[b]@.len() == 0,
                forall|b: int| 0 <= b < data@.len() ==> #[trigger] data@[b]@.len() == 0,
            decreases kept@.len(),
        {
            let row = match kept.pop() {
                Some(r) => r,
                None => Vec::new(),
            };
            data.push(row);
        }
        while data.len() < target
            invariant
                forall|b: int| 0 <= b < data@.len() ==> #[trigger] data@[b]@.len() == 0,
                data@.len() >= n0,
                n0 >= target ==> data@.len() == n0,
                data@.len() > n0 ==> data@.len() <= target,
            decreases target - data@.len(),
        {
            data.push(Vec::with_capacity(16));
        }
    }

    /// Prepare the lattice for a sentence of `length` codepoints: clear
    /// every row, grow to `length + 1` boundaries, forget any EOS, and
    /// seed boundary 0 with the BOS record.
    pub fn reset(&mut self, length: usize)
        requires
            old(self).shape_wf(),
            length < MAX_BOUNDARIES,
        ensures
            final(self).wf(),
            final(self).spec_size() == length + 1,
            final(self).spec_eos() is None,
            final(self).spec_bridge() == old(self).spec_bridge(),
            final(self).spec_vnodes(0) =~= seq![Self::spec_bos_vnode()],
            forall|b: int|
                1 <= b < final(self).spec_rows() ==> #[trigger] final(self).spec_vnodes(b).len()
                    == 0,
            forall|b: int|
                0 <= b < final(self).spec_rows() ==> #[trigger] final(self).spec_nodes(b).len()
                    == 0,
            forall|b: int|
                0 <= b < final(self).spec_rows() ==> #[trigger] final(self).spec_indices(b).len()
                    == 0,
            final(self).spec_trace_wf(),
            forall|c: ConnectionMatrix| #[trigger] final(self).spec_costs_consistent(c),
    {
        Self::reset_vec(&mut self.ends, length + 1);
        Self::reset_vec(&mut self.ends_full, length + 1);
        Self::reset_vec(&mut self.indices, length + 1);
        self.eos = None;
        self.size = length + 1;
        self.connect_bos();
    }

    /// Seed boundary 0 with the single BOS record: right id 0, cost 0, no
    /// non-whitespace carrier yet.
    fn connect_bos(&mut self)
        requires
            old(self).spec_rows() >= 1,
            old(self).spec_vnodes(0).len() == 0,
        ensures
            final(self).spec_vnodes(0) =~= seq![Self::spec_bos_vnode()],
            final(self).spec_size() == old(self).spec_size(),
            final(self).spec_rows() == old(self).spec_rows(),
            final(self).spec_eos() == old(self).spec_eos(),
            final(self).spec_bridge() == old(self).spec_bridge(),
            forall|b: int|
                1 <= b < final(self).spec_rows() ==> final(self).spec_vnodes(b) == old(
                    self,
                ).spec_vnodes(b),
            forall|b: int| final(self).spec_nodes(b) == old(self).spec_nodes(b),
            forall|b: int| final(self).spec_indices(b) == old(self).spec_indices(b),
            final(self).ends_full@ == old(self).ends_full@,
            final(self).indices@ == old(self).indices@,
    {
        let bos = VNode::new(0, 0, NONE_RIGHT_ID);
        Self::row_push(&mut self.ends, 0, bos);
    }

    /// Find the cheapest path through the lattice to the attached node:
    /// the chosen predecessor, its cost, and the non-whitespace carrier to
    /// store. All boundaries before `r_node`'s begin must already be
    /// constructed. Returns the unreachable sentinel when no predecessor
    /// is connected to BOS.
    pub fn connect_node(&self, r_node: &Node, conn: &ConnectionMatrix) -> (res: (NodeIdx, i32, u16))
        requires
            self.wf(),
            conn.wf(),
            r_node.spec_begin() < self.spec_size(),
            self.spec_connect_fits(*conn, *r_node),
        ensures
            self.spec_is_best(*conn, *r_node, res.0, res.1 as int, res.2),
            res.1 == i32::MAX <==> !(exists|i: int|
                0 <= i < self.spec_vnodes(r_node.spec_begin() as int).len()
                    && self.spec_cand_connected(*r_node, i)),
    {
        let begin = r_node.begin();
        let node_cost = r_node.cost() as i64;
        let mut min_cost: i32 = i32::MAX;
        let mut prev_idx = NodeIdx::empty();
        let mut prev_non_ws_right_id: u16 = NONE_RIGHT_ID;

        let n = self.ends[begin].len();
        let mut i: usize = 0;
        while i < n
            invariant
                self.wf(),
                conn.wf(),
                self.spec_connect_fits(*conn, *r_node),
                begin == r_node.spec_begin(),
                begin < self.spec_size(),
                node_cost == r_node.spec_cost(),
                n == self.spec_vnodes(begin as int).len(),
                i <= n,
                self.spec_is_best_prefix(
                    *conn,
                    *r_node,
                    i as int,
                    prev_idx,
                    min_cost as int,
                    prev_non_ws_right_id,
                ),
                min_cost == i32::MAX <==> !(exists|j: int|
                    0 <= j < i && self.spec_cand_connected(*r_node, j)),
            decreases n - i,
        {
            let l_vnode = self.ends[begin][i];
            if l_vnode.is_connected_to_bos() {
                let l_node_is_whitespace = if begin == 0 {
                    false
                } else {
                    self.ends_full[begin][i].is_whitespace()
                };
                let normal_connect_cost = conn.cost(l_vnode.right_id, r_node.left_id()) as i64;
                let normal_cost = l_vnode.total_cost as i64 + normal_connect_cost + node_cost;

                let mut best_cost_for_pred = normal_cost;
                if self.global_whitespace_bridge && l_node_is_whitespace && !r_node.is_whitespace()
                    && l_vnode.prev_non_ws_right_id != NONE_RIGHT_ID {
                    let bridged_connect_cost = conn.cost(
                        l_vnode.prev_non_ws_right_id,
                        r_node.left_id(),
                    ) as i64;
                    let bridged_cost = l_vnode.total_cost as i64 + bridged_connect_cost
                        + node_cost;
                    if bridged_cost < best_cost_for_pred {
                        best_cost_for_pred = bridged_cost;
                    }
                }
                proof {
                    assert(self.spec_cand_connected(*r_node, i as int));
                    assert(best_cost_for_pred == self.spec_cand_cost(*conn, *r_node, i as int));
                    assert(i32::MIN <= self.spec_cand_cost(*conn, *r_node, i as int) < i32::MAX);
                }

                if best_cost_for_pred < min_cost as i64 {
                    let ghost old_min = min_cost as int;
                    min_cost = best_cost_for_pred as i32;
                    prev_idx = NodeIdx::new(begin as u16, i as u16);
                    prev_non_ws_right_id = if r_node.is_whitespace() {
                        l_vnode.prev_non_ws_right_id
                    } else {
                        r_node.right_id()
                    };
                    proof {
                        assert(prev_non_ws_right_id == self.spec_cand_carrier(*r_node, i as int));
                        assert forall|j: int|
                            0 <= j < i && self.spec_cand_connected(*r_node, j)
                                implies #[trigger] self.spec_cand_cost(*conn, *r_node, j)
                                > min_cost by {
                            assert(self.spec_cand_cost(*conn, *r_node, j) >= old_min);
                        }
                        assert(self.spec_is_best_prefix(
                            *conn,
                            *r_node,
                            i + 1,
                            prev_idx,
                            min_cost as int,
                            prev_non_ws_right_id,
                        ));
                    }
                } else {
                    proof {
                        let ghost k = choose|k: int|
                            {
                                &&& 0 <= k < i
                                &&& self.spec_cand_connected(*r_node, k)
                                &&& min_cost == self.spec_cand_cost(*conn, *r_node, k)
                                &&& prev_idx.spec_end() == r_node.spec_begin()
                                &&& prev_idx.spec_index() == k
                                &&& prev_non_ws_right_id == self.spec_cand_carrier(*r_node, k)
                                &&& forall|j: int|
                                    0 <= j < i && self.spec_cand_connected(*r_node, j)
                                        ==> #[trigger] self.spec_cand_cost(*conn, *r_node, j)
                                        >= min_cost
                                &&& forall|j: int|
                                    0 <= j < k && self.spec_cand_connected(*r_node, j)
                                        ==> #[trigger] self.spec_cand_cost(*conn, *r_node, j)
                                        > min_cost
                            };
                        assert(self.spec_is_best_prefix(
                            *conn,
                            *r_node,
                            i + 1,
                            prev_idx,
                            min_cost as int,
                            prev_non_ws_right_id,
                        ));
                    }
                }
            } else {
                proof {
                    assert forall|j: int|
                        0 <= j < i + 1 && self.spec_cand_connected(*r_node, j) implies 0 <= j
                        < i && self.spec_cand_connected(*r_node, j) by {}
                    assert(self.spec_is_best_prefix(
                        *conn,
                        *r_node,
                        i + 1,
                        prev_idx,
                        min_cost as int,
                        prev_non_ws_right_id,
                    ));
                }
            }
            i = i + 1;
        }
        (prev_idx, min_cost, prev_non_ws_right_id)
    }

    /// Insert one candidate, recording the cheapest path to it. All
    /// candidates at earlier end boundaries must already be inserted:
    /// insertions come in non-decreasing order of end boundary, so every
    /// boundary after this node's end is still empty.
    pub fn insert(&mut self, node: Node, conn: &ConnectionMatrix) -> (cost: i32)
        requires
            old(self).wf(),
            conn.wf(),
            node.spec_begin() < node.spec_end(),
            node.spec_end() < old(self).spec_size(),
            old(self).spec_vnodes(node.spec_end() as int).len() < 0xffff,
            old(self).spec_connect_fits(*conn, node),
            forall|b: int|
                node.spec_end() < b < old(self).spec_size() ==> #[trigger] old(self).spec_vnodes(
                    b,
                ).len() == 0,
        ensures
            final(self).wf(),
            final(self).spec_size() == old(self).spec_size(),
            final(self).spec_rows() == old(self).spec_rows(),
            final(self).spec_eos() == old(self).spec_eos(),
            final(self).spec_bridge() == old(self).spec_bridge(),
            forall|b: int|
                0 <= b < old(self).spec_rows() && b != node.spec_end()
                    ==> #[trigger] final(self).spec_vnodes(b) == old(self).spec_vnodes(b),
            forall|b: int|
                0 <= b < old(self).spec_rows() && b != node.spec_end()
                    ==> #[trigger] final(self).spec_nodes(b) == old(self).spec_nodes(b),
            forall|b: int|
                0 <= b < old(self).spec_rows() && b != node.spec_end()
                    ==> #[trigger] final(self).spec_indices(b) == old(self).spec_indices(b),
            ({
                let e = node.spec_end() as int;
                let vn = final(self).spec_vnodes(e).last();
                let idx = final(self).spec_indices(e).last();
                &&& final(self).spec_nodes(e) == old(self).spec_nodes(e).push(node)
                &&& final(self).spec_vnodes(e) == old(self).spec_vnodes(e).push(vn)
                &&& final(self).spec_indices(e) == old(self).spec_indices(e).push(idx)
                &&& vn.right_id == node.spec_right_id()
                &&& vn.total_cost == cost
                &&& old(self).spec_is_best(
                    *conn,
                    node,
                    idx,
                    cost as int,
                    vn.prev_non_ws_right_id,
                )
            }),
            old(self).spec_costs_consistent(*conn) ==> final(self).spec_costs_consistent(*conn),
            old(self).spec_trace_wf() ==> final(self).spec_trace_wf(),
    {
        let (idx, cost, prev_non_ws_right_id) = self.connect_node(&node, conn);
        let end_idx = node.end();
        Self::row_push(&mut self.ends, end_idx, VNode::new(node.right_id(), cost, prev_non_ws_right_id));
        Self::row_push(&mut self.indices, end_idx, idx);
        Self::row_push(&mut self.ends_full, end_idx, node);
        proof {
            let e = node.spec_end() as int;
            Self::lemma_wf_after_insert(*old(self), *self, node, e);
            assert(self.spec_vnodes(e).last() == (VNode {
                right_id: node.spec_right_id(),
                total_cost: cost,
                prev_non_ws_right_id,
            }));
            Self::lemma_is_best_same_row(
                *old(self),
                *self,
                *conn,
                node,
                idx,
                cost as int,
                prev_non_ws_right_id,
            );
            if old(self).spec_costs_consistent(*conn) {
                assert forall|b: int, i: int|
                    1 <= b < self.spec_size() && 0 <= i < self.spec_vnodes(b).len()
                        implies self.spec_is_best(
                        *conn,
                        #[trigger] self.spec_nodes(b)[i],
                        self.spec_indices(b)[i],
                        self.spec_vnodes(b)[i].total_cost as int,
                        self.spec_vnodes(b)[i].prev_non_ws_right_id,
                    ) by {
                    if b == e && i == self.spec_vnodes(e).len() - 1 {
                        assert(self.spec_nodes(b)[i] == node);
                    } else {
                        assert(b != e || i < old(self).spec_vnodes(e).len());
                        if b == e {
                            assert(self.spec_nodes(b)[i] == old(self).spec_nodes(b)[i]);
                            assert(self.spec_indices(b)[i] == old(self).spec_indices(b)[i]);
                            assert(self.spec_vnodes(b)[i] == old(self).spec_vnodes(b)[i]);
                        }
                        let r = old(self).spec_nodes(b)[i];
                        assert(old(self).spec_is_best(
                            *conn,
                            r,
                            old(self).spec_indices(b)[i],
                            old(self).spec_vnodes(b)[i].total_cost as int,
                            old(self).spec_vnodes(b)[i].prev_non_ws_right_id,
                        ));
                        assert(r.spec_begin() < b);
                        assert(r.spec_begin() as int != e);
                        Self::lemma_is_best_same_row(
                            *old(self),
                            *self,
                            *conn,
                            r,
                            old(self).spec_indices(b)[i],
                            old(self).spec_vnodes(b)[i].total_cost as int,
                            old(self).spec_vnodes(b)[i].prev_non_ws_right_id,
                        );
                    }
                }
            }
            if old(self).spec_trace_wf() {
                assert forall|b: int, i: int|
                    1 <= b < self.spec_size() && 0 <= i < self.spec_indices(b).len() implies {
                    let p = #[trigger] self.spec_indices(b)[i];
                    if self.spec_vnodes(b)[i].total_cost == i32::MAX {
                        p.spec_is_empty()
                    } else {
                        &&& p.spec_end() == self.spec_nodes(b)[i].spec_begin()
                        &&& p.spec_end() < b
                        &&& p.spec_index() < self.spec_vnodes(p.spec_end() as int).len()
                        &&& self.spec_vnodes(p.spec_end() as int)[p.spec_index() as int].total_cost
                            < i32::MAX
                    }
                } by {
                    let begin = node.spec_begin() as int;
                    if b == e && i == self.spec_indices(e).len() - 1 {
                        assert(self.spec_indices(b)[i] == idx);
                        assert(self.spec_nodes(b)[i] == node);
                        assert(self.spec_vnodes(b)[i].total_cost == cost);
                        if cost != i32::MAX {
                            let k = choose|k: int|
                                {
                                    &&& 0 <= k < old(self).spec_vnodes(begin).len()
                                    &&& old(self).spec_cand_connected(node, k)
                                    &&& cost == old(self).spec_cand_cost(*conn, node, k)
                                    &&& idx.spec_end() == node.spec_begin()
                                    &&& idx.spec_index() == k
                                };
                            assert(self.spec_vnodes(begin) == old(self).spec_vnodes(begin));
                        }
                    } else {
                        let p = old(self).spec_indices(b)[i];
                        assert(self.spec_indices(b)[i] == p);
                        assert(self.spec_vnodes(b)[i] == old(self).spec_vnodes(b)[i]);
                        assert(self.spec_nodes(b)[i] == old(self).spec_nodes(b)[i]);
                        if old(self).spec_vnodes(b)[i].total_cost != i32::MAX {
                            assert(old(self).spec_vnodes(b).len() > 0);
                            assert(b <= e);
                            assert(p.spec_end() < b);
                            assert(self.spec_vnodes(p.spec_end() as int) == old(
                                self,
                            ).spec_vnodes(p.spec_end() as int));
                        }
                    }
                }
            }
        }
        cost
    }

    /// Appending one aligned candidate to the rows of its end boundary
    /// keeps the lattice well-formed.
    proof fn lemma_wf_after_insert(a: Lattice, b: Lattice, node: Node, e: int)
        requires
            a.wf(),
            b.shape_wf(),
            b.spec_size() == a.spec_size(),
            b.spec_rows() == a.spec_rows(),
            b.spec_eos() == a.spec_eos(),
            e == node.spec_end(),
            node.spec_begin() < node.spec_end(),
            e < a.spec_size(),
            a.spec_vnodes(e).len() < 0xffff,
            forall|x: int|
                0 <= x < a.spec_rows() && x != e ==> #[trigger] b.spec_vnodes(x)
                    == a.spec_vnodes(x),
            forall|x: int|
                0 <= x < a.spec_rows() && x != e ==> #[trigger] b.spec_nodes(x) == a.spec_nodes(x),
            forall|x: int|
                0 <= x < a.spec_rows() && x != e ==> #[trigger] b.spec_indices(x)
                    == a.spec_indices(x),
            b.spec_nodes(e) == a.spec_nodes(e).push(node),
            b.spec_indices(e).len() == a.spec_indices(e).len() + 1,
            b.spec_vnodes(e) == a.spec_vnodes(e).push(b.spec_vnodes(e).last()),
            b.spec_vnodes(e).last().right_id == node.spec_right_id(),
        ensures
            b.wf(),
    {
        assert(e >= 1);
        assert(b.spec_vnodes(0) == a.spec_vnodes(0));
        assert(b.spec_vnodes(0) =~= seq![Self::spec_bos_vnode()]);
        assert forall|x: int| 1 <= x < b.spec_rows() implies #[trigger] b.spec_vnodes(x).len()
            == b.spec_nodes(x).len() by {
            assert(a.spec_vnodes(x).len() == a.spec_nodes(x).len());
        }
        assert forall|x: int| 1 <= x < b.spec_rows() implies #[trigger] b.spec_indices(x).len()
            == b.spec_nodes(x).len() by {
            assert(a.spec_indices(x).len() == a.spec_nodes(x).len());
        }
        assert forall|x: int| b.spec_size() <= x < b.spec_rows() implies #[trigger] b.spec_nodes(
            x,
        ).len() == 0 by {
            assert(a.spec_nodes(x).len() == 0);
        }
        assert forall|x: int| 0 <= x < b.spec_rows() implies #[trigger] b.spec_vnodes(x).len()
            <= 0xffff by {
            assert(a.spec_vnodes(x).len() <= 0xffff);
        }
        assert forall|x: int, i: int|
            1 <= x < b.spec_rows() && 0 <= i < b.spec_nodes(x).len() implies {
            let n = #[trigger] b.spec_nodes(x)[i];
            &&& n.spec_end() == x
            &&& n.spec_begin() < n.spec_end()
            &&& n.spec_right_id() == b.spec_vnodes(x)[i].right_id
        } by {
            if x == e && i == b.spec_nodes(e).len() - 1 {
                assert(b.spec_nodes(x)[i] == node);
            } else {
                assert(b.spec_nodes(x)[i] == a.spec_nodes(x)[i]);
                assert(a.spec_nodes(x)[i].spec_end() == x);
                if x == e {
                    assert(b.spec_vnodes(x)[i] == a.spec_vnodes(x)[i]);
                }
            }
        }
    }

    /// Close the lattice: connect the synthetic EOS node and store its
    /// chosen predecessor and cost. Fails iff no candidate at the last
    /// boundary is connected to BOS.
    pub fn connect_eos(&mut self, conn: &ConnectionMatrix) -> (res: Result<(), AnalysisError>)
        requires
            old(self).wf(),
            conn.wf(),
            old(self).spec_connect_fits(*conn, old(self).spec_eos_node()),
        ensures
            final(self).wf(),
            final(self).spec_size() == old(self).spec_size(),
            final(self).spec_rows() == old(self).spec_rows(),
            final(self).spec_bridge() == old(self).spec_bridge(),
            forall|b: int| final(self).spec_vnodes(b) == old(self).spec_vnodes(b),
            forall|b: int| final(self).spec_nodes(b) == old(self).spec_nodes(b),
            forall|b: int| final(self).spec_indices(b) == old(self).spec_indices(b),
            old(self).spec_trace_wf() ==> final(self).spec_trace_wf(),
            old(self).spec_costs_consistent(*conn) ==> final(self).spec_costs_consistent(*conn),
            res is Ok <==> exists|i: int|
                0 <= i < old(self).spec_vnodes(old(self).spec_size() - 1).len() && old(
                    self,
                ).spec_cand_connected(old(self).spec_eos_node(), i),
            match res {
                Ok(r) => {
                    &&& final(self).spec_eos() is Some
                    &&& final(self).spec_eos_consistent(*conn)
                    &&& (old(self).spec_size() >= 2 ==> final(self).spec_eos_trace_ok())
                },
                Err(e) => {
                    &&& e == AnalysisError::EosBosDisconnect
                    &&& final(self).spec_eos() == old(self).spec_eos()
                },
            },
    {
        let len = self.size;
        let eos_start = (len - 1) as u16;
        let eos_end = (len - 1) as u16;
        let node = Node::new(eos_start, eos_end, 0, 0, 0, WordId::eos());
        proof {
            assert(node == self.spec_eos_node());
        }
        let (idx, cost, _carrier) = self.connect_node(&node, conn);
        if cost == i32::MAX {
            Err(AnalysisError::EosBosDisconnect)
        } else {
            self.eos = Some((idx, cost));
            proof {
                Self::lemma_wf_same_rows(*old(self), *self);
                let ghost c = _carrier;
                assert(old(self).spec_is_best(
                    *conn,
                    old(self).spec_eos_node(),
                    idx,
                    cost as int,
                    c,
                ));
                assert(self.spec_eos_node() == old(self).spec_eos_node());
                Self::lemma_is_best_same_row(
                    *old(self),
                    *self,
                    *conn,
                    self.spec_eos_node(),
                    idx,
                    cost as int,
                    c,
                );
                assert(self.spec_is_best(*conn, self.spec_eos_node(), idx, cost as int, c));
                if old(self).spec_trace_wf() {
                    Self::lemma_trace_wf_same_rows(*old(self), *self);
                }
                if old(self).spec_costs_consistent(*conn) {
                    Self::lemma_consistent_same_rows(*old(self), *self, *conn);
                }
                if self.spec_size() >= 2 {
                    let begin = self.spec_eos_node().spec_begin() as int;
                    let k = choose|k: int|
                        {
                            &&& 0 <= k < self.spec_vnodes(begin).len()
                            &&& self.spec_cand_connected(self.spec_eos_node(), k)
                            &&& idx.spec_end() == self.spec_eos_node().spec_begin()
                            &&& idx.spec_index() == k
                        };
                    assert(self.spec_eos_trace_ok());
                }
            }
            Ok(())
        }
    }

    /// The synthetic end-of-sentence node: it spans `[N-1, N-1]` with zero
    /// connection ids and zero cost.
    pub open spec fn spec_eos_node(self) -> Node {
        Node {
            begin: (self.spec_size() - 1) as u16,
            end: (self.spec_size() - 1) as u16,
            left_id: 0,
            right_id: 0,
            cost: 0,
            word_id: WordId::spec_eos_word(),
            whitespace: false,
        }
    }

    /// The stored EOS connection, when there is one, is what
    /// `connect_node` computed for the synthetic EOS node, and is
    /// reachable.
    pub open spec fn spec_eos_consistent(self, conn: ConnectionMatrix) -> bool {
        match self.spec_eos() {
            Some(ec) => {
                &&& ec.1 < i32::MAX
                &&& exists|carrier: u16|
                    self.spec_is_best(conn, self.spec_eos_node(), ec.0, ec.1 as int, carrier)
            },
            None => true,
        }
    }

    /// Every stored traceback pointer of a reachable candidate points at a
    /// reachable candidate at that candidate's begin boundary; unreachable
    /// candidates store the sentinel pointer.
    pub open spec fn spec_trace_wf(self) -> bool {
        forall|b: int, i: int|
            1 <= b < self.spec_size() && 0 <= i < self.spec_indices(b).len() ==> {
                let p = #[trigger] self.spec_indices(b)[i];
                if self.spec_vnodes(b)[i].total_cost == i32::MAX {
                    p.spec_is_empty()
                } else {
                    &&& p.spec_end() == self.spec_nodes(b)[i].spec_begin()
                    &&& p.spec_end() < b
                    &&& p.spec_index() < self.spec_vnodes(p.spec_end() as int).len()
                    &&& self.spec_vnodes(p.spec_end() as int)[p.spec_index() as int].total_cost
                        < i32::MAX
                }
            }
    }

    /// The stored EOS pointer names a reachable candidate at a boundary
    /// after BOS, so the traceback can start from it.
    pub open spec fn spec_eos_trace_ok(self) -> bool {
        match self.spec_eos() {
            Some(ec) => {
                &&& 1 <= ec.0.spec_end() < self.spec_size()
                &&& ec.0.spec_index() < self.spec_vnodes(ec.0.spec_end() as int).len()
                &&& self.spec_vnodes(ec.0.spec_end() as int)[ec.0.spec_index() as int].total_cost
                    < i32::MAX
            },
            None => true,
        }
    }

    /// The traceback pointer stored for the candidate `idx` points at.
    pub open spec fn spec_trace_next(self, idx: NodeIdx) -> NodeIdx {
        self.spec_indices(idx.spec_end() as int)[idx.spec_index() as int]
    }

    /// The predecessors of `idx` along the stored traceback pointers, in
    /// order, stopping before BOS.
    pub open spec fn spec_trace_from(self, idx: NodeIdx) -> Seq<NodeIdx>
        decreases idx.spec_end(),
    {
        let p = self.spec_trace_next(idx);
        if 0 < p.spec_end() < idx.spec_end() {
            seq![p] + self.spec_trace_from(p)
        } else {
            Seq::empty()
        }
    }

    /// Look up the full record and best path cost of a stored candidate.
    /// BOS has no full record, so the pointer must name a later boundary.
    pub fn node(&self, id: NodeIdx) -> (res: (&Node, i32))
        requires
            self.wf(),
            1 <= id.spec_end() < self.spec_size(),
            id.spec_index() < self.spec_nodes(id.spec_end() as int).len(),
        ensures
            *res.0 == self.spec_nodes(id.spec_end() as int)[id.spec_index() as int],
            res.1 == self.spec_vnodes(id.spec_end() as int)[id.spec_index() as int].total_cost,
    {
        let node = &self.ends_full[id.end() as usize][id.index() as usize];
        let cost = self.ends[id.end() as usize][id.index() as usize].total_cost;
        (node, cost)
    }

    /// Append the minimum-cost path to `result`, in reverse: the chosen
    /// predecessor of EOS first, then each stored traceback pointer in
    /// turn, BOS excluded. Does nothing when EOS is not connected yet.
    pub fn fill_top_path(&self, result: &mut Vec<NodeIdx>)
        requires
            self.wf(),
            self.spec_trace_wf(),
            self.spec_eos_trace_ok(),
        ensures
            match self.spec_eos() {
                None => final(result)@ == old(result)@,
                Some(ec) => final(result)@ == old(result)@ + seq![ec.0] + self.spec_trace_from(
                    ec.0,
                ),
            },
    {
        let (mut idx, _cost) = match self.eos {
            Some(e) => e,
            None => {
                return ;
            },
        };
        let ghost start = idx;
        let ghost result0 = result@;
        result.push(idx);
        loop
            invariant_except_break
                self.wf(),
                self.spec_trace_wf(),
                self.spec_eos() == Some::<(NodeIdx, i32)>((start, _cost)),
                1 <= idx.spec_end() < self.spec_size(),
                idx.spec_index() < self.spec_vnodes(idx.spec_end() as int).len(),
                self.spec_vnodes(idx.spec_end() as int)[idx.spec_index() as int].total_cost
                    < i32::MAX,
                result@ + self.spec_trace_from(idx) == result0 + seq![start]
                    + self.spec_trace_from(start),
            ensures
                result@ == result0 + seq![start] + self.spec_trace_from(start),
            decreases idx.spec_end(),
        {
            let prev_idx = self.indices[idx.end() as usize][idx.index() as usize];
            proof {
                assert(prev_idx == self.spec_trace_next(idx));
                assert(prev_idx.spec_end() < idx.spec_end());
            }
            if prev_idx.end() != 0 {
                proof {
                    assert(self.spec_trace_from(idx) =~= seq![prev_idx] + self.spec_trace_from(
                        prev_idx,
                    ));
                    assert((result@ + self.spec_trace_from(idx)) =~= (result@.push(prev_idx)
                        + self.spec_trace_from(prev_idx)));
                }
                result.push(prev_idx);
                idx = prev_idx;
            } else {
                proof {
                    assert(self.spec_trace_from(idx) =~= Seq::<NodeIdx>::empty());
                    assert(result@ =~= result0 + seq![start] + self.spec_trace_from(start));
                }
                break ;
            }
        }
    }

    /// Law: the three per-boundary rows stay aligned. Every stored
    /// candidate has a small record, a full record and a traceback pointer
    /// at the same index; the full record ends at its boundary and its
    /// right id is duplicated into the small record.
    pub proof fn lemma_parallel_arrays_aligned(lat: Lattice, b: int, i: int)
        requires
            lat.wf(),
            1 <= b < lat.spec_size(),
            0 <= i < lat.spec_nodes(b).len(),
        ensures
            lat.spec_vnodes(b).len() == lat.spec_nodes(b).len(),
            lat.spec_indices(b).len() == lat.spec_nodes(b).len(),
            lat.spec_nodes(b)[i].spec_end() == b,
            lat.spec_nodes(b)[i].spec_begin() < b,
            lat.spec_vnodes(b)[i].right_id == lat.spec_nodes(b)[i].spec_right_id(),
    {
    }

    /// Law: every reachable stored candidate's cost is realised through
    /// one of its predecessors, and no predecessor offers a strictly
    /// cheaper way in.
    pub proof fn lemma_total_cost_minimal(lat: Lattice, conn: ConnectionMatrix, b: int, i: int)
        requires
            lat.wf(),
            lat.spec_costs_consistent(conn),
            1 <= b < lat.spec_size(),
            0 <= i < lat.spec_vnodes(b).len(),
            lat.spec_vnodes(b)[i].total_cost < i32::MAX,
        ensures
            exists|k: int|
                {
                    &&& 0 <= k < lat.spec_vnodes(lat.spec_nodes(b)[i].spec_begin() as int).len()
                    &&& lat.spec_cand_connected(lat.spec_nodes(b)[i], k)
                    &&& lat.spec_vnodes(b)[i].total_cost == #[trigger] lat.spec_cand_cost(
                        conn,
                        lat.spec_nodes(b)[i],
                        k,
                    )
                },
            forall|k: int|
                0 <= k < lat.spec_vnodes(lat.spec_nodes(b)[i].spec_begin() as int).len()
                    && lat.spec_cand_connected(lat.spec_nodes(b)[i], k)
                    ==> #[trigger] lat.spec_cand_cost(conn, lat.spec_nodes(b)[i], k)
                    >= lat.spec_vnodes(b)[i].total_cost,
    {
        let r = lat.spec_nodes(b)[i];
        let cost = lat.spec_vnodes(b)[i].total_cost as int;
        assert(lat.spec_is_best(
            conn,
            r,
            lat.spec_indices(b)[i],
            cost,
            lat.spec_vnodes(b)[i].prev_non_ws_right_id,
        ));
        let n = lat.spec_vnodes(r.spec_begin() as int).len() as int;
        if exists|j: int| 0 <= j < n && lat.spec_cand_connected(r, j) {
            let k = choose|k: int|
                {
                    &&& 0 <= k < n
                    &&& lat.spec_cand_connected(r, k)
                    &&& cost == lat.spec_cand_cost(conn, r, k)
                    &&& forall|j: int|
                        0 <= j < n && lat.spec_cand_connected(r, j)
                            ==> #[trigger] lat.spec_cand_cost(conn, r, j) >= cost
                };
            assert(lat.spec_cand_cost(conn, r, k) == cost);
        } else {
            assert(cost == i32::MAX);
        }
    }

    /// Two lattices hold the same candidates when their boundary counts
    /// agree and every boundary holds the same full records.
    pub open spec fn spec_same_candidates(a: Lattice, b: Lattice) -> bool {
        &&& b.spec_size() == a.spec_size()
        &&& forall|x: int| 0 <= x < a.spec_size() ==> b.spec_nodes(x) == a.spec_nodes(x)
    }

    /// The right id a predecessor record carries agrees between two
    /// consistent lattices holding the same candidates.
    proof fn lemma_pred_right_id(lp: Lattice, lb: Lattice, x: int, i: int)
        requires
            lp.wf(),
            lb.wf(),
            Self::spec_same_candidates(lp, lb),
            0 <= x < lp.spec_size(),
            0 <= i < lp.spec_vnodes(x).len(),
        ensures
            lb.spec_vnodes(x).len() == lp.spec_vnodes(x).len(),
            lb.spec_vnodes(x)[i].right_id == lp.spec_vnodes(x)[i].right_id,
    {
        if x == 0 {
            assert(lp.spec_vnodes(0) =~= seq![Self::spec_bos_vnode()]);
            assert(lb.spec_vnodes(0) =~= seq![Self::spec_bos_vnode()]);
        } else {
            assert(lp.spec_vnodes(x)[i].right_id == lp.spec_nodes(x)[i].spec_right_id());
            assert(lb.spec_vnodes(x)[i].right_id == lb.spec_nodes(x)[i].spec_right_id());
        }
    }

    /// Induction core for the bridge laws: up to boundary `b`, every
    /// stored cost under the bridge is at most the cost without it.
    proof fn lemma_bridge_upto(lp: Lattice, lb: Lattice, conn: ConnectionMatrix, b: int)
        requires
            lp.wf(),
            lb.wf(),
            Self::spec_same_candidates(lp, lb),
            !lp.spec_bridge(),
            lb.spec_bridge(),
            lp.spec_costs_consistent(conn),
            lb.spec_costs_consistent(conn),
            0 <= b < lp.spec_size(),
        ensures
            forall|x: int, i: int|
                0 <= x <= b && 0 <= i < lp.spec_vnodes(x).len()
                    ==> #[trigger] lb.spec_vnodes(x)[i].total_cost <= lp.spec_vnodes(
                    x,
                )[i].total_cost,
        decreases b,
    {
        if b > 0 {
            Self::lemma_bridge_upto(lp, lb, conn, b - 1);
        }
        assert forall|x: int, i: int|
            0 <= x <= b && 0 <= i < lp.spec_vnodes(x).len() implies #[trigger] lb.spec_vnodes(
            x,
        )[i].total_cost <= lp.spec_vnodes(x)[i].total_cost by {
            if x == b {
                if x == 0 {
                    assert(lp.spec_vnodes(0) =~= seq![Self::spec_bos_vnode()]);
                    assert(lb.spec_vnodes(0) =~= seq![Self::spec_bos_vnode()]);
                } else {
                    let r = lp.spec_nodes(x)[i];
                    let cp = lp.spec_vnodes(x)[i].total_cost as int;
                    let cb = lb.spec_vnodes(x)[i].total_cost as int;
                    assert(lp.spec_is_best(
                        conn,
                        r,
                        lp.spec_indices(x)[i],
                        cp,
                        lp.spec_vnodes(x)[i].prev_non_ws_right_id,
                    ));
                    assert(lb.spec_nodes(x)[i] == r);
                    assert(lb.spec_is_best(
                        conn,
                        r,
                        lb.spec_indices(x)[i],
                        cb,
                        lb.spec_vnodes(x)[i].prev_non_ws_right_id,
                    ));
                    if cp < i32::MAX {
                        Self::lemma_bridge_best_at_most(lp, lb, conn, r, cp, cb, b);
                    }
                }
            }
        }
    }

    /// One step of the bridge argument: for a node whose begin row already
    /// satisfies the pointwise bound, the bridged best connection is at
    /// most the plain one.
    proof fn lemma_bridge_best_at_most(
        lp: Lattice,
        lb: Lattice,
        conn: ConnectionMatrix,
        r: Node,
        cp: int,
        cb: int,
        b: int,
    )
        requires
            lp.wf(),
            lb.wf(),
            Self::spec_same_candidates(lp, lb),
            !lp.spec_bridge(),
            lb.spec_bridge(),
            r.spec_begin() < b,
            0 <= b <= lp.spec_size(),
            r.spec_begin() < lp.spec_size(),
            exists|idx: NodeIdx, car: u16| lp.spec_is_best(conn, r, idx, cp, car),
            exists|idx: NodeIdx, car: u16| lb.spec_is_best(conn, r, idx, cb, car),
            cp < i32::MAX,
            cb <= i32::MAX,
            forall|x: int, i: int|
                0 <= x < b && 0 <= i < lp.spec_vnodes(x).len()
                    ==> #[trigger] lb.spec_vnodes(x)[i].total_cost <= lp.spec_vnodes(
                    x,
                )[i].total_cost,
        ensures
            cb <= cp,
    {
        let begin = r.spec_begin() as int;
        let n = lp.spec_vnodes(begin).len() as int;
        let idxp = choose|idx: NodeIdx, car: u16| lp.spec_is_best(conn, r, idx, cp, car);
        assert(lp.spec_is_best(conn, r, idxp.0, cp, idxp.1));
        assert(lb.spec_vnodes(begin).len() == n) by {
            if begin == 0 {
                assert(lp.spec_vnodes(0) =~= seq![Self::spec_bos_vnode()]);
                assert(lb.spec_vnodes(0) =~= seq![Self::spec_bos_vnode()]);
            }
        }
        if exists|j: int| 0 <= j < n && lp.spec_cand_connected(r, j) {
            let kp = choose|kp: int|
                {
                    &&& 0 <= kp < n
                    &&& lp.spec_cand_connected(r, kp)
                    &&& cp == lp.spec_cand_cost(conn, r, kp)
                    &&& forall|j: int|
                        0 <= j < n && lp.spec_cand_connected(r, j)
                            ==> #[trigger] lp.spec_cand_cost(conn, r, j) >= cp
                };
            Self::lemma_pred_right_id(lp, lb, begin, kp);
            assert(lb.spec_vnodes(begin)[kp].total_cost <= lp.spec_vnodes(begin)[kp].total_cost);
            assert(lb.spec_cand_connected(r, kp));
            assert(lp.spec_cand_cost(conn, r, kp) == Self::spec_normal_cost(
                lp.spec_vnodes(begin)[kp],
                conn,
                r,
            ));
            assert(lb.spec_cand_cost(conn, r, kp) <= Self::spec_normal_cost(
                lb.spec_vnodes(begin)[kp],
                conn,
                r,
            ));
            assert(Self::spec_normal_cost(lb.spec_vnodes(begin)[kp], conn, r)
                <= Self::spec_normal_cost(lp.spec_vnodes(begin)[kp], conn, r));
            let idxb = choose|idx: NodeIdx, car: u16| lb.spec_is_best(conn, r, idx, cb, car);
            assert(lb.spec_is_best(conn, r, idxb.0, cb, idxb.1));
            assert(exists|j: int| 0 <= j < n && lb.spec_cand_connected(r, j));
            let kb = choose|kb: int|
                {
                    &&& 0 <= kb < n
                    &&& lb.spec_cand_connected(r, kb)
                    &&& cb == lb.spec_cand_cost(conn, r, kb)
                    &&& forall|j: int|
                        0 <= j < n && lb.spec_cand_connected(r, j)
                            ==> #[trigger] lb.spec_cand_cost(conn, r, j) >= cb
                };
            assert(lb.spec_cand_cost(conn, r, kp) >= cb);
        } else {
            assert(cp == i32::MAX);
        }
    }

    /// Law: over identical candidates and the same matrix, turning the
    /// whitespace bridge on never increases any stored best-path cost.
    pub proof fn lemma_bridge_never_worse(lp: Lattice, lb: Lattice, conn: ConnectionMatrix)
        requires
            lp.wf(),
            lb.wf(),
            Self::spec_same_candidates(lp, lb),
            !lp.spec_bridge(),
            lb.spec_bridge(),
            lp.spec_costs_consistent(conn),
            lb.spec_costs_consistent(conn),
        ensures
            forall|x: int, i: int|
                0 <= x < lp.spec_size() && 0 <= i < lp.spec_vnodes(x).len()
                    ==> #[trigger] lb.spec_vnodes(x)[i].total_cost <= lp.spec_vnodes(
                    x,
                )[i].total_cost,
    {
        Self::lemma_bridge_upto(lp, lb, conn, lp.spec_size() - 1);
    }

    /// Law: the bridge bound extends through the EOS connection: the total
    /// path cost stored by `connect_eos` under the bridge is at most the
    /// one stored without it.
    pub proof fn lemma_bridge_never_worse_eos(lp: Lattice, lb: Lattice, conn: ConnectionMatrix)
        requires
            lp.wf(),
            lb.wf(),
            Self::spec_same_candidates(lp, lb),
            !lp.spec_bridge(),
            lb.spec_bridge(),
            lp.spec_costs_consistent(conn),
            lb.spec_costs_consistent(conn),
            lp.spec_eos_consistent(conn),
            lb.spec_eos_consistent(conn),
            lp.spec_eos() is Some,
            lb.spec_eos() is Some,
        ensures
            lb.spec_eos().unwrap().1 <= lp.spec_eos().unwrap().1,
    {
        Self::lemma_bridge_upto(lp, lb, conn, lp.spec_size() - 1);
        let ecp = lp.spec_eos().unwrap();
        let ecb = lb.spec_eos().unwrap();
        let r = lp.spec_eos_node();
        assert(lb.spec_eos_node() == r);
        let carp = choose|car: u16| lp.spec_is_best(conn, r, ecp.0, ecp.1 as int, car);
        let carb = choose|car: u16| lb.spec_is_best(conn, r, ecb.0, ecb.1 as int, car);
        assert(lp.spec_is_best(conn, r, ecp.0, ecp.1 as int, carp));
        assert(lb.spec_is_best(conn, r, ecb.0, ecb.1 as int, carb));
        Self::lemma_bridge_best_at_most(
            lp,
            lb,
            conn,
            r,
            ecp.1 as int,
            ecb.1 as int,
            lp.spec_size() as int,
        );
    }

    /// Law: in a lattice without any whitespace candidate the bridge is a
    /// no-op; every stored best-path cost is the same with and without it.
    pub proof fn lemma_bridge_noop_without_whitespace(
        lp: Lattice,
        lb: Lattice,
        conn: ConnectionMatrix,
        b: int,
    )
        requires
            lp.wf(),
            lb.wf(),
            Self::spec_same_candidates(lp, lb),
            !lp.spec_bridge(),
            lb.spec_bridge(),
            lp.spec_costs_consistent(conn),
            lb.spec_costs_consistent(conn),
            forall|x: int, i: int|
                1 <= x < lp.spec_size() && 0 <= i < lp.spec_nodes(x).len()
                    ==> !(#[trigger] lp.spec_nodes(x)[i].spec_is_whitespace()),
            0 <= b < lp.spec_size(),
        ensures
            forall|x: int, i: int|
                0 <= x <= b && 0 <= i < lp.spec_vnodes(x).len()
                    ==> #[trigger] lb.spec_vnodes(x)[i].total_cost == lp.spec_vnodes(
                    x,
                )[i].total_cost,
        decreases b,
    {
        if b > 0 {
            Self::lemma_bridge_noop_without_whitespace(lp, lb, conn, b - 1);
        }
        assert forall|x: int, i: int|
            0 <= x <= b && 0 <= i < lp.spec_vnodes(x).len() implies #[trigger] lb.spec_vnodes(
            x,
        )[i].total_cost == lp.spec_vnodes(x)[i].total_cost by {
            if x == b {
                if x == 0 {
                    assert(lp.spec_vnodes(0) =~= seq![Self::spec_bos_vnode()]);
                    assert(lb.spec_vnodes(0) =~= seq![Self::spec_bos_vnode()]);
                } else {
                    let r = lp.spec_nodes(x)[i];
                    let begin = r.spec_begin() as int;
                    let n = lp.spec_vnodes(begin).len() as int;
                    let cp = lp.spec_vnodes(x)[i].total_cost as int;
                    let cb = lb.spec_vnodes(x)[i].total_cost as int;
                    assert(lp.spec_is_best(
                        conn,
                        r,
                        lp.spec_indices(x)[i],
                        cp,
                        lp.spec_vnodes(x)[i].prev_non_ws_right_id,
                    ));
                    assert(lb.spec_nodes(x)[i] == r);
                    assert(lb.spec_is_best(
                        conn,
                        r,
                        lb.spec_indices(x)[i],
                        cb,
                        lb.spec_vnodes(x)[i].prev_non_ws_right_id,
                    ));
                    assert(lb.spec_vnodes(begin).len() == n) by {
                        if begin == 0 {
                            assert(lp.spec_vnodes(0) =~= seq![Self::spec_bos_vnode()]);
                            assert(lb.spec_vnodes(0) =~= seq![Self::spec_bos_vnode()]);
                        }
                    }
                    assert forall|j: int| 0 <= j < n implies {
                        &&& #[trigger] lb.spec_cand_cost(conn, r, j) == lp.spec_cand_cost(
                            conn,
                            r,
                            j,
                        )
                        &&& lb.spec_cand_connected(r, j) == lp.spec_cand_connected(r, j)
                    } by {
                        Self::lemma_pred_right_id(lp, lb, begin, j);
                        assert(lb.spec_vnodes(begin)[j].total_cost <= lp.spec_vnodes(
                            begin,
                        )[j].total_cost);
                        assert(lp.spec_vnodes(begin)[j].total_cost <= lb.spec_vnodes(
                            begin,
                        )[j].total_cost);
                        assert(!lp.spec_pred_is_ws(begin, j));
                        assert(!lb.spec_pred_is_ws(begin, j));
                        assert(!lb.spec_bridge_applies(r, j));
                    }
                    if exists|j: int| 0 <= j < n && lp.spec_cand_connected(r, j) {
                        let kp = choose|kp: int|
                            {
                                &&& 0 <= kp < n
                                &&& lp.spec_cand_connected(r, kp)
                                &&& cp == lp.spec_cand_cost(conn, r, kp)
                                &&& forall|j: int|
                                    0 <= j < n && lp.spec_cand_connected(r, j)
                                        ==> #[trigger] lp.spec_cand_cost(conn, r, j) >= cp
                            };
                        let kb = choose|kb: int|
                            {
                                &&& 0 <= kb < n
                                &&& lb.spec_cand_connected(r, kb)
                                &&& cb == lb.spec_cand_cost(conn, r, kb)
                                &&& forall|j: int|
                                    0 <= j < n && lb.spec_cand_connected(r, j)
                                        ==> #[trigger] lb.spec_cand_cost(conn, r, j) >= cb
                            };
                        assert(lb.spec_cand_cost(conn, r, kp) >= cb);
                        assert(lp.spec_cand_cost(conn, r, kb) >= cp);
                    } else {
                        assert(forall|j: int| 0 <= j < n ==> !lb.spec_cand_connected(r, j));
                        assert(cp == i32::MAX && cb == i32::MAX);
                    }
                }
            }
        }
    }

    /// Every part-of-speech reference a dump would follow resolves: each
    /// stored candidate is either a sentinel, an out-of-vocabulary node
    /// whose word-index bits name a known part of speech, or a dictionary
    /// word whose lexicon entry names one.
    pub open spec fn spec_dump_resolvable(
        self,
        grammar: crate::grammar::Grammar,
        lexicon: crate::lexicon::Lexicon,
    ) -> bool {
        forall|b: int, i: int|
            1 <= b < self.spec_size() && 0 <= i < self.spec_nodes(b).len() ==> {
                let n = #[trigger] self.spec_nodes(b)[i];
                &&& (n.spec_word_id().spec_is_oov() && !n.spec_word_id().spec_is_special()
                    ==> (n.spec_word_id().spec_word() as int)
                    < grammar.spec_pos_list().len())
                &&& (!n.spec_word_id().spec_is_oov() && !n.spec_word_id().spec_is_special() ==> {
                    &&& lexicon.spec_has(n.spec_word_id())
                    &&& (lexicon.spec_entry(n.spec_word_id()).pos_id as int)
                        < grammar.spec_pos_list().len()
                })
            }
    }

    /// The comma-separated text of the first `i` part-of-speech
    /// components: every component but the last is followed by a comma.
    pub open spec fn spec_pos_text_upto(components: Seq<Seq<char>>, i: int) -> Seq<char>
        decreases i,
    {
        if i <= 0 {
            Seq::empty()
        } else {
            Self::spec_pos_text_upto(components, i - 1) + components[i - 1] + if i
                < components.len() {
                ", "@
            } else {
                Seq::empty()
            }
        }
    }

    /// The comma-separated text of a part of speech.
    pub open spec fn spec_pos_text(components: Seq<Seq<char>>) -> Seq<char> {
        Self::spec_pos_text_upto(components, components.len() as int)
    }

    /// The surface a dump shows for a candidate: the sentinel text for
    /// BOS/EOS, the current-text slice for an out-of-vocabulary word, the
    /// original-text slice otherwise.
    pub open spec fn spec_dump_surface(
        self,
        input: crate::input::InputBuffer,
        r: Node,
    ) -> Seq<char> {
        if r.spec_word_id().spec_is_special() {
            "(null)"@
        } else if r.spec_word_id().spec_is_oov() {
            input.spec_curr().subrange(r.spec_begin() as int, r.spec_end() as int)
        } else {
            input.spec_orig().subrange(
                input.spec_orig_starts()[r.spec_begin() as int] as int,
                input.spec_orig_starts()[r.spec_end() as int] as int,
            )
        }
    }

    /// The part-of-speech text a dump shows for a candidate: the sentinel
    /// text for BOS/EOS, else the grammar's components of the word's
    /// part-of-speech id (carried in the word-index bits for an
    /// out-of-vocabulary word, by the lexicon entry otherwise).
    pub open spec fn spec_dump_pos(
        self,
        grammar: crate::grammar::Grammar,
        lexicon: crate::lexicon::Lexicon,
        r: Node,
    ) -> Seq<char> {
        if r.spec_word_id().spec_is_special() {
            "BOS/EOS"@
        } else {
            let pid = if r.spec_word_id().spec_is_oov() {
                r.spec_word_id().spec_word() as int
            } else {
                lexicon.spec_entry(r.spec_word_id()).pos_id as int
            };
            Self::spec_pos_text(grammar.spec_pos_list()[pid].map_values(|c: String| c@))
        }
    }

    /// The text of the first `k` per-predecessor connection costs of a
    /// candidate: a space and the signed cost of each predecessor at its
    /// begin boundary, in order.
    pub open spec fn spec_pred_costs_upto(
        self,
        conn: ConnectionMatrix,
        r: Node,
        k: int,
    ) -> Seq<char>
        decreases k,
    {
        if k <= 0 {
            Seq::empty()
        } else {
            self.spec_pred_costs_upto(conn, r, k - 1) + " "@ + crate::fmt::spec_decimal_signed(
                conn.spec_cost(
                    self.spec_vnodes(r.spec_begin() as int)[k - 1].right_id,
                    r.spec_left_id(),
                ) as int,
            )
        }
    }

    /// The head of one listing line: running index, span, surface, raw
    /// word id, part of speech, connection ids and node cost.
    pub open spec fn spec_dump_line_head(
        self,
        input: crate::input::InputBuffer,
        grammar: crate::grammar::Grammar,
        lexicon: crate::lexicon::Lexicon,
        idx: int,
        r: Node,
    ) -> Seq<char> {
        crate::fmt::spec_decimal(idx) + ": "@ + crate::fmt::spec_decimal(r.spec_begin() as int)
            + " "@ + crate::fmt::spec_decimal(r.spec_end() as int) + " "@
            + self.spec_dump_surface(input, r) + crate::fmt::spec_decimal(
            r.spec_word_id().spec_raw() as int,
        ) + " "@ + self.spec_dump_pos(grammar, lexicon, r) + " "@ + crate::fmt::spec_decimal(
            r.spec_left_id() as int,
        ) + " "@ + crate::fmt::spec_decimal(r.spec_right_id() as int) + " "@
            + crate::fmt::spec_decimal_signed(r.spec_cost() as int) + ":"@
    }

    /// One listing line: the head, then the connection cost from every
    /// predecessor, then a line break.
    pub open spec fn spec_dump_line(
        self,
        input: crate::input::InputBuffer,
        grammar: crate::grammar::Grammar,
        lexicon: crate::lexicon::Lexicon,
        idx: int,
        r: Node,
    ) -> Seq<char> {
        self.spec_dump_line_head(input, grammar, lexicon, idx, r) + self.spec_pred_costs_upto(
            grammar.spec_conn(),
            r,
            self.spec_vnodes(r.spec_begin() as int).len() as int,
        ) + "\n"@
    }

    /// The lines of the first `i` candidates at boundary `b`; their
    /// running indices continue from the boundaries already listed.
    pub open spec fn spec_dump_row_upto(
        self,
        input: crate::input::InputBuffer,
        grammar: crate::grammar::Grammar,
        lexicon: crate::lexicon::Lexicon,
        b: int,
        i: int,
    ) -> Seq<char>
        decreases i,
    {
        if i <= 0 {
            Seq::empty()
        } else {
            self.spec_dump_row_upto(input, grammar, lexicon, b, i - 1) + self.spec_dump_line(
                input,
                grammar,
                lexicon,
                self.spec_count_from(b + 1) + (i - 1),
                self.spec_nodes(b)[i - 1],
            )
        }
    }

    /// How many candidates the boundaries at or after `b` hold.
    pub open spec fn spec_count_from(self, b: int) -> int
        decreases self.spec_size() - b,
    {
        if b >= self.spec_size() || b < 0 {
            0
        } else {
            self.spec_count_from(b + 1) + self.spec_nodes(b).len()
        }
    }

    /// The listing of the boundaries at or after `b`, highest boundary
    /// first.
    pub open spec fn spec_dump_from(
        self,
        input: crate::input::InputBuffer,
        grammar: crate::grammar::Grammar,
        lexicon: crate::lexicon::Lexicon,
        b: int,
    ) -> Seq<char>
        decreases self.spec_size() - b,
    {
        if b >= self.spec_size() || b < 0 {
            Seq::empty()
        } else {
            self.spec_dump_from(input, grammar, lexicon, b + 1) + self.spec_dump_row_upto(
                input,
                grammar,
                lexicon,
                b,
                self.spec_nodes(b).len() as int,
            )
        }
    }

    /// The whole listing: every boundary from the highest down to 0, one
    /// line per stored candidate.
    pub open spec fn spec_dump_text(
        self,
        input: crate::input::InputBuffer,
        grammar: crate::grammar::Grammar,
        lexicon: crate::lexicon::Lexicon,
    ) -> Seq<char> {
        self.spec_dump_from(input, grammar, lexicon, 0)
    }

    /// The boundaries at or after `b` hold at most `0x10000` candidates
    /// each.
    proof fn lemma_count_from_bound(self, b: int)
        requires
            self.wf(),
            0 <= b <= self.spec_size(),
        ensures
            0 <= self.spec_count_from(b) <= (self.spec_size() - b) * 0x10000,
        decreases self.spec_size() - b,
    {
        if b < self.spec_size() {
            self.lemma_count_from_bound(b + 1);
            if b == 0 {
                assert(self.spec_nodes(0).len() == 0);
            } else {
                assert(self.spec_nodes(b).len() == self.spec_vnodes(b).len());
                assert(self.spec_vnodes(b).len() <= 0xffff);
            }
        }
    }

    /// A human-readable listing of every boundary's candidates, last
    /// boundary first: index, span, surface, word id, part of speech,
    /// connection ids, node cost, and the connection cost from each
    /// predecessor. Diagnostic only; nothing analytical depends on the
    /// text.
    #[verifier::rlimit(100)]
    pub fn dump(
        &self,
        input: &crate::input::InputBuffer,
        grammar: &crate::grammar::Grammar,
        lexicon: &crate::lexicon::Lexicon,
    ) -> (r: Result<String, AnalysisError>)
        requires
            self.wf(),
            grammar.spec_conn().wf(),
            input.wf(),
            self.spec_size() <= input.spec_curr().len() + 1,
            self.spec_dump_resolvable(*grammar, *lexicon),
        ensures
            match r {
                Ok(s) => s@ == self.spec_dump_text(*input, *grammar, *lexicon),
                Err(e) => false,
            },
    {
        let mut out = String::new();
        let mut dump_idx: u64 = 0;
        let mut b = self.size;
        proof {
            assert(out@ =~= self.spec_dump_from(*input, *grammar, *lexicon, b as int));
        }
        while b > 0
            invariant
                self.wf(),
                grammar.spec_conn().wf(),
                input.wf(),
                self.spec_size() <= input.spec_curr().len() + 1,
                self.spec_dump_resolvable(*grammar, *lexicon),
                b <= self.spec_size(),
                out@ == self.spec_dump_from(*input, *grammar, *lexicon, b as int),
                dump_idx == self.spec_count_from(b as int),
            decreases b,
        {
            b = b - 1;
            let row_len = if b == 0 {
                0
            } else {
                self.ends_full[b].len()
            };
            proof {
                if b == 0 {
                    assert(self.spec_nodes(0).len() == 0);
                }
                assert(self.spec_dump_row_upto(*input, *grammar, *lexicon, b as int, 0)
                    =~= Seq::<char>::empty());
                assert(out@ =~= self.spec_dump_from(*input, *grammar, *lexicon, b + 1)
                    + self.spec_dump_row_upto(*input, *grammar, *lexicon, b as int, 0));
            }
            let mut i: usize = 0;
            while i < row_len
                invariant
                    self.wf(),
                    grammar.spec_conn().wf(),
                    input.wf(),
                    self.spec_size() <= input.spec_curr().len() + 1,
                    self.spec_dump_resolvable(*grammar, *lexicon),
                    b < self.spec_size(),
                    row_len > 0 ==> 1 <= b,
                    b >= 1 ==> row_len == self.spec_nodes(b as int).len(),
                    b == 0 ==> row_len == 0 && self.spec_nodes(0).len() == 0,
                    i <= row_len,
                    out@ == self.spec_dump_from(*input, *grammar, *lexicon, b + 1)
                        + self.spec_dump_row_upto(*input, *grammar, *lexicon, b as int, i as int),
                    dump_idx == self.spec_count_from(b + 1) + i,
                decreases row_len - i,
            {
                let r_node = self.ends_full[b][i];
                match self.dump_line(&mut out, dump_idx, &r_node, input, grammar, lexicon) {
                    Ok(u) => u,
                    Err(e) => {
                        proof {
                            assert(false);
                        }
                        return Err(e);
                    },
                };
                proof {
                    assert(out@ =~= self.spec_dump_from(*input, *grammar, *lexicon, b + 1)
                        + self.spec_dump_row_upto(
                        *input,
                        *grammar,
                        *lexicon,
                        b as int,
                        i + 1,
                    ));
                    self.lemma_count_from_bound(b + 1);
                    assert((self.spec_size() - (b + 1)) * 0x10000 <= 0x1_0000_0000)
                        by (nonlinear_arith)
                        requires
                            0 <= self.spec_size() - (b + 1) <= 0x10000,
                    ;
                    assert(self.spec_vnodes(b as int).len() <= 0xffff);
                    assert(i + 1 <= 0xffff);
                    assert(self.spec_count_from(b + 1) + i + 1 < u64::MAX);
                }
                dump_idx = dump_idx + 1;
                i = i + 1;
            }
            proof {
                assert(out@ =~= self.spec_dump_from(*input, *grammar, *lexicon, b as int));
                assert(dump_idx == self.spec_count_from(b as int));
            }
        }
        proof {
            assert(out@ == self.spec_dump_text(*input, *grammar, *lexicon));
        }
        Ok(out)
    }

    /// Build the head of one listing line.
    #[verifier::rlimit(100)]
    fn dump_line_head(
        &self,
        dump_idx: u64,
        r_node: &Node,
        input: &crate::input::InputBuffer,
        grammar: &crate::grammar::Grammar,
        lexicon: &crate::lexicon::Lexicon,
    ) -> (r: Result<String, AnalysisError>)
        requires
            self.wf(),
            input.wf(),
            r_node.spec_begin() <= r_node.spec_end() <= input.spec_curr().len(),
            r_node.spec_word_id().spec_is_oov() && !r_node.spec_word_id().spec_is_special()
                ==> (r_node.spec_word_id().spec_word() as int) < grammar.spec_pos_list().len(),
            !r_node.spec_word_id().spec_is_oov() && !r_node.spec_word_id().spec_is_special()
                ==> lexicon.spec_has(r_node.spec_word_id()) && (lexicon.spec_entry(
                r_node.spec_word_id(),
            ).pos_id as int) < grammar.spec_pos_list().len(),
        ensures
            match r {
                Ok(h) => h@ == self.spec_dump_line_head(
                    *input,
                    *grammar,
                    *lexicon,
                    dump_idx as int,
                    *r_node,
                ),
                Err(e) => false,
            },
    {
        let (surface, pos) = if r_node.is_special_node() {
            (String::from_str("(null)"), String::from_str("BOS/EOS"))
        } else if r_node.is_oov() {
            let chars = input.curr_slice_c(r_node.begin(), r_node.end());
            let pos_id = r_node.word_id().word() as usize;
            (
                crate::word_info::string_from_chars(&chars),
                Self::join_pos(grammar.pos_components(pos_id)),
            )
        } else {
            let winfo = match lexicon.get_word_info_subset(
                r_node.word_id(),
                crate::word_info::InfoSubset::pos_id_only(),
            ) {
                Ok(w) => w,
                Err(e) => {
                    proof {
                        assert(false);
                    }
                    return Err(e);
                },
            };
            let chars = input.orig_slice_c(r_node.begin(), r_node.end());
            (
                crate::word_info::string_from_chars(&chars),
                Self::join_pos(grammar.pos_components(winfo.pos_id as usize)),
            )
        };
        proof {
            assert(surface@ == self.spec_dump_surface(*input, *r_node));
            assert(pos@ == self.spec_dump_pos(*grammar, *lexicon, *r_node));
        }

        let mut h = String::new();
        h.append(crate::fmt::u64_to_string(dump_idx).as_str());
        h.append(": ");
        h.append(crate::fmt::u64_to_string(r_node.begin() as u64).as_str());
        h.append(" ");
        h.append(crate::fmt::u64_to_string(r_node.end() as u64).as_str());
        h.append(" ");
        h.append(surface.as_str());
        h.append(crate::fmt::u64_to_string(r_node.word_id().as_raw() as u64).as_str());
        h.append(" ");
        h.append(pos.as_str());
        h.append(" ");
        h.append(crate::fmt::u64_to_string(r_node.left_id() as u64).as_str());
        h.append(" ");
        h.append(crate::fmt::u64_to_string(r_node.right_id() as u64).as_str());
        h.append(" ");
        h.append(crate::fmt::i64_to_string(r_node.cost() as i64).as_str());
        h.append(":");
        proof {
            assert(h@ =~= self.spec_dump_line_head(
                *input,
                *grammar,
                *lexicon,
                dump_idx as int,
                *r_node,
            ));
        }
        Ok(h)
    }

    /// Append one listing line for a stored candidate.
    fn dump_line(
        &self,
        out: &mut String,
        dump_idx: u64,
        r_node: &Node,
        input: &crate::input::InputBuffer,
        grammar: &crate::grammar::Grammar,
        lexicon: &crate::lexicon::Lexicon,
    ) -> (r: Result<(), AnalysisError>)
        requires
            self.wf(),
            grammar.spec_conn().wf(),
            input.wf(),
            r_node.spec_begin() < self.spec_size(),
            r_node.spec_begin() <= r_node.spec_end() <= input.spec_curr().len(),
            r_node.spec_word_id().spec_is_oov() && !r_node.spec_word_id().spec_is_special()
                ==> (r_node.spec_word_id().spec_word() as int) < grammar.spec_pos_list().len(),
            !r_node.spec_word_id().spec_is_oov() && !r_node.spec_word_id().spec_is_special()
                ==> lexicon.spec_has(r_node.spec_word_id()) && (lexicon.spec_entry(
                r_node.spec_word_id(),
            ).pos_id as int) < grammar.spec_pos_list().len(),
        ensures
            match r {
                Ok(u) => final(out)@ == old(out)@ + self.spec_dump_line(
                    *input,
                    *grammar,
                    *lexicon,
                    dump_idx as int,
                    *r_node,
                ),
                Err(e) => false,
            },
    {
        let ghost line_start = out@;
        let head = match self.dump_line_head(dump_idx, r_node, input, grammar, lexicon) {
            Ok(h) => h,
            Err(e) => {
                proof {
                    assert(false);
                }
                return Err(e);
            },
        };
        out.append(head.as_str());
        let ghost costs_start = out@;

        let conn = grammar.conn_matrix();
        let begin = r_node.begin();
        let preds = self.ends[begin].len();
        let mut k: usize = 0;
        proof {
            assert(out@ =~= costs_start + self.spec_pred_costs_upto(
                grammar.spec_conn(),
                *r_node,
                0,
            ));
        }
        while k < preds
            invariant
                self.wf(),
                grammar.spec_conn().wf(),
                begin < self.spec_size(),
                begin == r_node.spec_begin(),
                *conn == grammar.spec_conn(),
                preds == self.spec_vnodes(begin as int).len(),
                k <= preds,
                out@ == costs_start + self.spec_pred_costs_upto(
                    grammar.spec_conn(),
                    *r_node,
                    k as int,
                ),
            decreases preds - k,
        {
            let connect_cost = conn.cost(self.ends[begin][k].right_id, r_node.left_id());
            out.append(" ");
            out.append(crate::fmt::i64_to_string(connect_cost as i64).as_str());
            proof {
                assert(out@ =~= costs_start + self.spec_pred_costs_upto(
                    grammar.spec_conn(),
                    *r_node,
                    k + 1,
                ));
            }
            k = k + 1;
        }

        out.append("\n");
        proof {
            assert(out@ =~= line_start + self.spec_dump_line(
                *input,
                *grammar,
                *lexicon,
                dump_idx as int,
                *r_node,
            ));
        }
        Ok(())
    }

    /// The comma-separated components of a part of speech: a comma after
    /// every component but the last.
    fn join_pos(components: &Vec<String>) -> (r: String)
        ensures
            r@ == Self::spec_pos_text(components@.map_values(|c: String| c@)),
    {
        let ghost view = components@.map_values(|c: String| c@);
        let mut out = String::new();
        let n = components.len();
        let mut i: usize = 0;
        while i < n
            invariant
                n == components@.len(),
                view == components@.map_values(|c: String| c@),
                i <= n,
                out@ == Self::spec_pos_text_upto(view, i as int),
            decreases n - i,
        {
            out.append(components[i].as_str());
            if i + 1 != n {
                out.append(", ");
            }
            proof {
                assert(view[i as int] == components@[i as int]@);
                assert(out@ =~= Self::spec_pos_text_upto(view, i + 1));
            }
            i = i + 1;
        }
        out
    }

    /// What `connect_node` computes over all predecessors of `r`.
    pub open spec fn spec_is_best(
        self,
        conn: ConnectionMatrix,
        r: Node,
        idx: NodeIdx,
        cost: int,
        carrier: u16,
    ) -> bool {
        self.spec_is_best_prefix(
            conn,
            r,
            self.spec_vnodes(r.spec_begin() as int).len() as int,
            idx,
            cost,
            carrier,
        )
    }
}

} // verus!
