//! What a primary has to do next, what it asks of its surroundings and what it
//! has them do.
use crate::primary::messages::{DagError, GradeVote, Vote};
use crate::types::{Certificate, Digest, Header, PublicKey, Round, Signature};
use std::sync::Arc;
use vstd::prelude::*;

verus! {

/// A piece of work. The last of a list of tasks comes first.
pub enum Task {
    /// Process a header.
    Header(Arc<Header>),
    /// Note that a header is being processed, then ask for the blocks that it
    /// references.
    Parents(Arc<Header>),
    /// Wait for the blocks that a header references.
    AwaitParents(Arc<Header>),
    /// Wait to hear whether the payload of a header is missing.
    AwaitPayload(Arc<Header>),
    /// Wait for the signature of a vote.
    AwaitVote(Arc<Header>),
    /// Process a vote.
    Vote(Vote),
    /// Process a certificate.
    Certificate(Certificate),
    /// Process the header of a certificate if need be, then deliver the
    /// certificate.
    Embedded(Certificate),
    /// Wait to hear whether the ancestors of a certificate are there.
    AwaitDelivery(Certificate),
    /// Wait for the signature of a grade vote.
    AwaitGrade(Digest, Round, PublicKey),
    /// Process the grade votes that came before their certificate.
    PendingGrades(Digest),
    /// Process a grade vote.
    GradeVote(GradeVote),
    /// Count a grade vote.
    Tally(GradeVote),
    /// Process a block with a grade-2 proof.
    Graded(Certificate),
    /// Deliver a block at grade 2.
    GradeTwo(Certificate),
    /// Wait to hear whether a grade-2 block may count towards the next round.
    AwaitReady(Certificate),
    /// Ask again for the grade-2 blocks that could not count.
    Retry,
    /// A failure of what comes before is the end of the node.
    Barrier,
}

/// A question to the surroundings.
pub enum Question {
    /// The referenced blocks of a header. None if one is missing.
    Parents(Arc<Header>),
    /// Whether the payload of a header is missing.
    Payload(Arc<Header>),
    /// The signature of a vote for a header.
    SignVote(Arc<Header>),
    /// Whether the ancestors of a certificate are there.
    Delivery(Certificate),
    /// The signature of a grade vote.
    SignGrade(Digest, Round, PublicKey),
    /// Whether the dependencies of a grade-2 block are there.
    Ready(Certificate),
}

/// The answer to a question.
pub enum Reply {
    /// The referenced blocks.
    Parents(Vec<Certificate>),
    /// Whether the payload is missing.
    Payload(bool),
    /// A signature.
    Signature(Signature),
    /// Whether the ancestors are there.
    Delivery(bool),
    /// Whether the dependencies are there.
    Ready(bool),
    /// The surroundings failed.
    Failure(DagError),
}

/// The outcome of a piece of work.
pub enum Step {
    /// Nothing is left to do.
    Idle,
    /// The piece of work is done.
    Done,
    /// The work goes on with the answer to a question.
    Ask(Question),
    /// The work failed and is given up.
    Failed(DagError),
    /// Work that cannot fail has failed: the node has to stop.
    Fatal(DagError),
}

/// What the surroundings have to do.
pub enum Effect {
    /// Tell the consensus of a block that was seen.
    Observed(Arc<Header>),
    /// Tell the consensus of a grade-1 delivery.
    GradeOne(Certificate),
    /// Tell the consensus of a grade-2 delivery.
    GradeTwo(Certificate),
    /// Tell the consensus that the node enters a round.
    RoundAdvanced(Round),
    /// Have a header proposed with these strong, weak and virtual edges after
    /// this round.
    Propose(Vec<Digest>, Vec<Digest>, Vec<Digest>, Round),
    /// Send a header to all other primaries.
    BroadcastHeader(Arc<Header>),
    /// Send a vote to all other primaries.
    BroadcastVote(Vote),
    /// Send a certificate to all other primaries.
    BroadcastCertificate(Certificate),
    /// Send a grade vote to all other primaries.
    BroadcastGradeVote(GradeVote),
    /// Ask all other primaries for the block of a leader.
    BroadcastLeaderRequest(Round, PublicKey),
    /// Send a header to one primary.
    SendHeader(Arc<Header>, PublicKey),
    /// Store a header.
    StoreHeader(Arc<Header>),
    /// Store a certificate.
    StoreCertificate(Certificate),
}

/// What the surroundings have to do, over plain sequences.
pub enum EffectView {
    Observed(Arc<Header>),
    GradeOne(Certificate),
    GradeTwo(Certificate),
    RoundAdvanced(Round),
    Propose(Seq<Digest>, Seq<Digest>, Seq<Digest>, Round),
    BroadcastHeader(Arc<Header>),
    BroadcastVote(Vote),
    BroadcastCertificate(Certificate),
    BroadcastGradeVote(GradeVote),
    BroadcastLeaderRequest(Round, PublicKey),
    SendHeader(Arc<Header>, PublicKey),
    StoreHeader(Arc<Header>),
    StoreCertificate(Certificate),
}

impl View for Effect {
    type V = EffectView;

    open spec fn view(&self) -> EffectView {
        match *self {
            Effect::Observed(h) => EffectView::Observed(h),
            Effect::GradeOne(c) => EffectView::GradeOne(c),
            Effect::GradeTwo(c) => EffectView::GradeTwo(c),
            Effect::RoundAdvanced(r) => EffectView::RoundAdvanced(r),
            Effect::Propose(parents, weak, virtuals, r) => EffectView::Propose(
                parents@,
                weak@,
                virtuals@,
                r,
            ),
            Effect::BroadcastHeader(h) => EffectView::BroadcastHeader(h),
            Effect::BroadcastVote(v) => EffectView::BroadcastVote(v),
            Effect::BroadcastCertificate(c) => EffectView::BroadcastCertificate(c),
            Effect::BroadcastGradeVote(v) => EffectView::BroadcastGradeVote(v),
            Effect::BroadcastLeaderRequest(r, l) => EffectView::BroadcastLeaderRequest(r, l),
            Effect::SendHeader(h, to) => EffectView::SendHeader(h, to),
            Effect::StoreHeader(h) => EffectView::StoreHeader(h),
            Effect::StoreCertificate(c) => EffectView::StoreCertificate(c),
        }
    }
}

} // verus!
