//! Votes, grades and errors of the broadcast.
use crate::types::{Certificate, Digest, PublicKey, Round, Signature};
use std::sync::Arc;
use vstd::prelude::*;

verus! {

/// A vote for a header.
#[derive(Clone, Copy, Debug, PartialEq, Eq)]
pub struct Vote {
    /// The header that is voted for.
    pub id: Digest,
    /// The round of the header.
    pub round: Round,
    /// The author of the header.
    pub origin: PublicKey,
    /// The voter.
    pub author: PublicKey,
    /// The signature of the voter.
    pub signature: Signature,
}

/// A signed grade-1 delivery.
#[derive(Clone, Copy, Debug, PartialEq, Eq)]
pub struct GradeVote {
    /// The digest of the delivered block.
    pub id: Digest,
    /// The round of the block.
    pub round: Round,
    /// The author of the block.
    pub origin: PublicKey,
    /// The voter.
    pub author: PublicKey,
    /// The signature of the voter.
    pub signature: Signature,
}

/// The grade of a delivery.
#[derive(Clone, Copy, Debug, PartialEq, Eq, Structural)]
pub enum Grade {
    /// A quorum certified the block.
    One,
    /// A quorum delivered the block at grade 1.
    Two,
}

/// A certificate with the grade votes that prove its grade.
#[derive(Debug, PartialEq, Eq)]
pub struct GradedCertificate {
    /// The delivered block.
    pub certificate: Certificate,
    /// The grade of the delivery.
    pub grade: Grade,
    /// The grade votes.
    pub votes: Arc<Vec<(PublicKey, Signature)>>,
}

/// What can be wrong with a message.
#[derive(Clone, Copy, Debug, PartialEq, Eq, Structural)]
pub enum DagError {
    /// A signature or a proof did not verify.
    Invalid,
    /// The store failed.
    StoreError,
    /// An edge of the header leads to the wrong round.
    MalformedHeader(Digest),
    /// The strong parents of the header are no quorum.
    HeaderRequiresQuorum(Digest),
    /// A vote for another header.
    UnexpectedVote(Digest),
    /// A grade vote for another block.
    UnexpectedGradeVote(Digest),
    /// The authority has voted already.
    AuthorityReuse(PublicKey),
    /// The authority is not of the committee.
    UnknownAuthority(PublicKey),
    /// The message is of a round that has been cleaned up.
    TooOld(Digest, Round),
}

} // verus!
