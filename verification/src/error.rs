use vstd::prelude::*;

verus! {

/// Everything that can go wrong in the solver. All failures are deterministic
/// functions of the inputs; none is transient.
#[derive(Clone, Copy, Debug, PartialEq, Eq, Structural)]
pub enum Error {
    /// A supplied word (list entry or answer) is not exactly five bytes long.
    MalformedWord,
    /// Folding a feedback pattern would require a letter to be simultaneously
    /// excluded and confirmed present.
    InconsistentState,
    /// The candidate pool cannot converge on the answer (the answer is not in
    /// the word list).
    UnsolvableAnswer,
    /// Scoring was asked for with no candidate left to score.
    EmptyPool,
}

} // verus!
