//! Errors of the analysis core.

use vstd::prelude::*;

verus! {

/// The failures the core can report. Both are fatal for the call that
/// returns them; no partial result accompanies them.
#[derive(Clone, Copy, Debug, PartialEq, Eq, Structural)]
pub enum AnalysisError {
    /// `connect_eos` found no predecessor reachable from BOS.
    EosBosDisconnect,
    /// A word-info lookup failed during reading-candidate precomputation.
    LexiconLookupFailure,
}

} // verus!
