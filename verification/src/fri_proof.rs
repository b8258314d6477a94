//! The emitted proof and the ways proof generation can abort.
use vstd::prelude::*;

verus! {

/// One round of a query's opening path: the value paired with the queried
/// position in that round's table, and the commitment scheme's opening proof
/// for the row holding both.
pub struct CommitPhaseProofStep<F, P> {
    pub sibling_value: F,
    pub opening_proof: P,
}

/// The answer to one query: the opening of the supplied oracles at the sampled
/// index, then one step per commit round, largest round first.
pub struct QueryProof<F, P, I> {
    pub input_proof: I,
    pub commit_phase_openings: Vec<CommitPhaseProofStep<F, P>>,
}

/// A complete proof.
pub struct FriProof<F, C, P, W, I> {
    pub commit_phase_commits: Vec<C>,
    pub query_proofs: Vec<QueryProof<F, P, I>>,
    pub final_poly: Vec<F>,
    pub pow_witness: W,
}

/// Why proof generation aborted.
#[derive(Clone, Copy, Debug, PartialEq, Eq, Structural)]
pub enum FriError {
    /// No oracle was supplied.
    NoInputs,
    /// Some oracle's length is not a power of two.
    LengthNotPowerOfTwo,
    /// The oracles are not sorted by strictly decreasing length.
    NotStrictlyDecreasing,
    /// The query index would be at least as wide as a machine word.
    IndexTooWide,
    /// The commitment scheme retained no table, or one that is not two columns wide.
    MalformedTable,
    /// The fold strategy returned a vector that is not half as long as its input.
    FoldLengthMismatch,
    /// The commitment scheme opened other than one row of two values.
    MalformedOpening,
}

} // verus!
