//! Typed failures reported to the caller. No error here is fatal or retried
//! internally.

use vstd::prelude::*;
use crate::primitives::PublicKey;

verus! {

/// The failures this crate reports.
#[derive(Debug)]
pub enum MempoolError {
    /// An authority attempted to vote twice within one aggregator instance.
    /// The vote is dropped and the instance's state is unchanged.
    AuthorityReuse(PublicKey),
    /// A coded payload's author is unknown to the committee, or its chunk does
    /// not hash to the proof's recorded leaf, or the inclusion proof does not
    /// recombine to the claimed root.
    BadInclusionProof,
}

pub type MempoolResult<T> = Result<T, MempoolError>;

} // verus!
