//! What comes in to a primary, and what goes out.
use crate::ordered::{ascending, Key};
use crate::primary::aggregators::{CertificatesAggregator, GradeVotesAggregator, VotesAggregator};
use crate::primary::machine::{Effect, EffectView, Task};
use crate::primary::messages::{DagError, GradeVote, GradedCertificate, Vote};
use crate::primary::node::{Core, CoreView, Support};
use crate::primary::references::{sanitize, verify_grade_vote};
use crate::types::{share, Certificate, Digest, Header, PublicKey, Round};
use std::sync::Arc;
use vstd::prelude::*;

verus! {

/// What a check lets through is done next.
pub open spec fn admits(
    before: CoreView,
    check: Result<(), DagError>,
    task: Task,
    after: CoreView,
    result: Result<(), DagError>,
) -> bool {
    &&& result == check
    &&& after == (if check is Ok {
        before.push(task)
    } else {
        before
    })
}

/// Whether a message is of a round that has been cleaned up.
pub open spec fn aged(
    gc_round: Round,
    digest: Digest,
    round: Round,
    verification: Result<(), DagError>,
) -> Result<(), DagError> {
    if gc_round > round {
        Err(DagError::TooOld(digest, round))
    } else {
        verification
    }
}

impl Core {
    /// Has a piece of work done next.
    fn push(&mut self, task: Task)
        ensures
            final(self)@ == old(self)@.push(task),
            final(self).same_node(old(self)),
    {
        self.tasks.push(task);
    }

    /// Takes in a header of another primary, with the outcome of its
    /// verification.
    pub fn receive_header(&mut self, header: Arc<Header>, verification: Result<(), DagError>)
        -> (result: Result<(), DagError>)
        requires
            old(self).wf(),
        ensures
            admits(
                old(self)@,
                aged(old(self)@.gc_round, header.id, header.round, verification),
                Task::Header(header),
                final(self)@,
                result,
            ),
            final(self).same_node(old(self)),
            final(self).wf(),
    {
        let check = sanitize(self.gc_round, header.id, header.round, verification);
        if check.is_ok() {
            self.push(Task::Header(header));
        }
        check
    }

    /// Takes in a vote of another primary, with its digest and the outcome of
    /// its verification.
    pub fn receive_vote(
        &mut self,
        vote: Vote,
        digest: Digest,
        verification: Result<(), DagError>,
    ) -> (result: Result<(), DagError>)
        requires
            old(self).wf(),
        ensures
            admits(
                old(self)@,
                aged(old(self)@.gc_round, digest, vote.round, verification),
                Task::Vote(vote),
                final(self)@,
                result,
            ),
            final(self).same_node(old(self)),
            final(self).wf(),
    {
        let check = sanitize(self.gc_round, digest, vote.round, verification);
        if check.is_ok() {
            self.push(Task::Vote(vote));
        }
        check
    }

    /// Takes in a certificate of another primary, with the outcome of its
    /// verification.
    pub fn receive_certificate(
        &mut self,
        certificate: Certificate,
        verification: Result<(), DagError>,
    ) -> (result: Result<(), DagError>)
        requires
            old(self).wf(),
        ensures
            admits(
                old(self)@,
                aged(
                    old(self)@.gc_round,
                    certificate.digest(),
                    certificate.round(),
                    verification,
                ),
                Task::Certificate(certificate),
                final(self)@,
                result,
            ),
            final(self).same_node(old(self)),
            final(self).wf(),
    {
        let check = sanitize(
            self.gc_round,
            certificate.digest(),
            certificate.round(),
            verification,
        );
        if check.is_ok() {
            self.push(Task::Certificate(certificate));
        }
        check
    }

    /// Takes in a grade vote of another primary, with the outcome of its
    /// verification against the committee and a cleaned-up round.
    pub fn receive_grade_vote(
        &mut self,
        vote: GradeVote,
        gc_round: Round,
        verification: Result<(), DagError>,
    ) -> (result: Result<(), DagError>)
        requires
            old(self).wf(),
        ensures
            admits(
                old(self)@,
                if gc_round > vote.round {
                    Err(DagError::TooOld(vote.id, vote.round))
                } else if old(self).committee.spec_stake(vote.origin) == 0 {
                    Err(DagError::UnknownAuthority(vote.origin))
                } else {
                    verification
                },
                Task::GradeVote(vote),
                final(self)@,
                result,
            ),
            final(self).same_node(old(self)),
            final(self).wf(),
    {
        let check = verify_grade_vote(&self.committee, gc_round, &vote, verification);
        if check.is_ok() {
            self.push(Task::GradeVote(vote));
        }
        check
    }

    /// Takes in a grade-2 proof of another primary, with the outcome of its
    /// verification.
    pub fn receive_graded_certificate(
        &mut self,
        graded: GradedCertificate,
        verification: Result<(), DagError>,
    ) -> (result: Result<(), DagError>)
        requires
            old(self).wf(),
        ensures
            admits(
                old(self)@,
                aged(
                    old(self)@.gc_round,
                    graded.certificate.digest(),
                    graded.certificate.round(),
                    verification,
                ),
                Task::Graded(graded.certificate),
                final(self)@,
                result,
            ),
            final(self).same_node(old(self)),
            final(self).wf(),
    {
        let check = sanitize(
            self.gc_round,
            graded.certificate.digest(),
            graded.certificate.round(),
            verification,
        );
        if check.is_ok() {
            self.push(Task::Graded(graded.certificate));
        }
        check
    }

    /// Resumes a header whose processing was suspended.
    pub fn resume_header(&mut self, header: Arc<Header>)
        requires
            old(self).wf(),
        ensures
            final(self)@ == old(self)@.push(Task::Header(header)),
            final(self).same_node(old(self)),
            final(self).wf(),
    {
        self.push(Task::Header(header));
    }

    /// Resumes a certificate whose processing was suspended.
    pub fn resume_certificate(&mut self, certificate: Certificate)
        requires
            old(self).wf(),
        ensures
            final(self)@ == old(self)@.push(Task::Certificate(certificate)),
            final(self).same_node(old(self)),
            final(self).wf(),
    {
        self.push(Task::Certificate(certificate));
    }

    /// Sends out and processes a header of this primary.
    pub fn process_own_header(&mut self, header: Arc<Header>)
        requires
            old(self).wf(),
        ensures
            final(self)@ == old(self)@.emit(EffectView::BroadcastHeader(header)).push(
                Task::Header(header),
            ),
            final(self).same_node(old(self)),
            final(self).wf(),
    {
        self.emit(Effect::BroadcastHeader(share(&header)));
        self.push(Task::Header(header));
    }

    /// Asks the other primaries for the block of a leader that the consensus
    /// misses.
    pub fn request_leader(&mut self, round: Round, leader: PublicKey)
        requires
            old(self).wf(),
        ensures
            final(self)@ == old(self)@.emit(EffectView::BroadcastLeaderRequest(round, leader)),
            final(self).same_node(old(self)),
            final(self).wf(),
    {
        self.emit(Effect::BroadcastLeaderRequest(round, leader));
    }

    /// The first known header, by digest, of a leader.
    fn find_header(&self, round: Round, leader: PublicKey) -> (result: Option<Arc<Header>>)
        ensures
            match result {
                Some(header) => exists|d: Digest| #[trigger]
                    self@.is_first_of(round, leader, d) && self@.headers[d] == header,
                None => forall|d: Digest| !#[trigger] self@.is_of(round, leader, d),
            },
    {
        let digests = self.observed_headers.keys();
        let mut i: usize = 0;
        while i < digests.len()
            invariant
                i <= digests@.len(),
                digests@.to_set() == self@.headers.dom(),
                ascending(digests@),
                forall|j: int| 0 <= j < i ==> !self@.is_of(round, leader, #[trigger] digests@[j]),
            decreases digests@.len() - i,
        {
            proof {
                assert(digests@.to_set().contains(digests@[i as int]));
            }
            if let Some(header) = self.observed_headers.get(&digests[i]) {
                if header.round == round && header.author == leader {
                    proof {
                        let d = digests@[i as int];
                        assert forall|x: Digest| #[trigger]
                            self@.is_of(round, leader, x) implies x == d || d.before(x) by {
                            assert(digests@.to_set().contains(x));
                            let j = choose|j: int| 0 <= j < digests@.len() && digests@[j] == x;
                            if j > i {
                                assert(digests@[i as int].before(digests@[j]));
                            } else if j < i {
                                assert(!self@.is_of(round, leader, digests@[j]));
                            }
                        }
                        assert(self@.is_first_of(round, leader, d));
                    }
                    return Some(share(header));
                }
            }
            i += 1;
        }
        proof {
            assert forall|d: Digest| !#[trigger] self@.is_of(round, leader, d) by {
                if self@.is_of(round, leader, d) {
                    assert(digests@.to_set().contains(d));
                    let j = choose|j: int| 0 <= j < digests@.len() && digests@[j] == d;
                    assert(!self@.is_of(round, leader, digests@[j]));
                }
            }
        }
        None
    }

    /// Answers a primary of the committee that asks for the block of a leader
    /// with a known header of it. A signed header is enough.
    pub fn process_leader_request(
        &mut self,
        round: Round,
        leader: PublicKey,
        requestor: PublicKey,
    )
        requires
            old(self).wf(),
        ensures
            ({
                let before = old(self)@;
                if old(self).committee.authorities@.contains_key(requestor) && exists|d: Digest|
                    #[trigger] before.is_of(round, leader, d) {
                    exists|d: Digest| #[trigger]
                        before.is_first_of(round, leader, d) && final(self)@ == before.emit(
                            EffectView::SendHeader(before.headers[d], requestor),
                        )
                } else {
                    final(self)@ == before
                }
            }),
            final(self).same_node(old(self)),
            final(self).wf(),
    {
        let ghost before = self@;
        if let Some(header) = self.find_header(round, leader) {
            proof {
                let d = choose|d: Digest| #[trigger]
                    before.is_first_of(round, leader, d) && before.headers[d] == header;
                assert(before.is_of(round, leader, d));
            }
            if self.committee.authorities.contains_key(&requestor) {
                self.emit(Effect::SendHeader(header, requestor));
            }
        }
    }

    /// Hands out the effects to carry out, in their order.
    pub fn take_effects(&mut self) -> (result: Vec<Effect>)
        requires
            old(self).wf(),
        ensures
            result@.map_values(|e: Effect| e@) == old(self)@.effects,
            final(self)@ == (CoreView { effects: Seq::empty(), ..old(self)@ }),
            final(self).same_node(old(self)),
            final(self).wf(),
    {
        let ghost before = self@;
        let mut taken: Vec<Effect> = Vec::new();
        std::mem::swap(&mut taken, &mut self.effects);
        proof {
            assert(self@ =~= (CoreView { effects: Seq::empty(), ..before }));
        }
        taken
    }

    /// Cleans up behind the consensus.
    pub fn cleanup(&mut self, consensus_round: Round)
        requires
            old(self).wf(),
        ensures
            final(self)@ == old(self)@.clean(consensus_round, old(self).gc_depth),
            final(self).same_node(old(self)),
            final(self).wf(),
    {
        if consensus_round > self.gc_depth {
            self.forget(consensus_round - self.gc_depth);
        }
    }

    /// Forgets what lies below `gc_round`.
    fn forget(&mut self, gc_round: Round)
        requires
            old(self).wf(),
        ensures
            final(self)@ == old(self)@.forget(gc_round),
            final(self).same_node(old(self)),
            final(self).wf(),
    {
        let ghost start = self@;
        let ghost pending_votes = self.pending_votes@;
        let ghost pending_grades = self.pending_grade_votes@;
        let ghost tallies = self.votes_aggregators@;
        let ghost grades = self.grade_aggregators@;
        let ghost gathered = self.certificates_aggregators@;
        let ghost supports = self.ready_support@;
        let ghost voted = |p: (Round, PublicKey)| p.0 >= gc_round;
        let keep = |p: &(Round, PublicKey)| -> (keep: bool)
            ensures
                keep == voted(*p),
            {
                p.0 >= gc_round
            };
        self.last_voted.retain(keep, Ghost(voted));
        let ghost processed = |p: (Round, Digest)| p.0 >= gc_round;
        let keep = |p: &(Round, Digest)| -> (keep: bool)
            ensures
                keep == processed(*p),
            {
                p.0 >= gc_round
            };
        self.processing.retain(keep, Ghost(processed));
        let ghost recent_header = |d: Digest, h: Arc<Header>| h.round >= gc_round;
        let keep = |_d: &Digest, h: &Arc<Header>| -> (keep: bool)
            ensures
                keep == recent_header(*_d, *h),
            {
                h.round >= gc_round
            };
        self.observed_headers.retain(keep, Ghost(recent_header));
        let ghost recent = |d: Digest, c: Certificate| c.round() >= gc_round;
        let keep = |_d: &Digest, c: &Certificate| -> (keep: bool)
            ensures
                keep == recent(*_d, *c),
            {
                c.round() >= gc_round
            };
        self.grbc_certificates.retain(keep, Ghost(recent));
        let headers = &self.observed_headers;
        let live = &self.grbc_certificates;
        let ghost counted = |d: Digest, a: VotesAggregator| headers@.contains_key(d);
        let keep = |d: &Digest, _a: &VotesAggregator| -> (keep: bool)
            ensures
                keep == counted(*d, *_a),
            {
                headers.contains_key(d)
            };
        self.votes_aggregators.retain(keep, Ghost(counted));
        let ghost waiting = |d: Digest, votes: Vec<Vote>|
            exists|i: int| 0 <= i < votes@.len() && (#[trigger] votes@[i]).round >= gc_round;
        let keep = |_d: &Digest, votes: &Vec<Vote>| -> (keep: bool)
            ensures
                keep == waiting(*_d, *votes),
            {
                any_recent_vote(votes, gc_round)
            };
        self.pending_votes.retain(keep, Ghost(waiting));
        let ghost later = |r: Round, a: CertificatesAggregator| r >= gc_round;
        let keep = |r: &Round, _a: &CertificatesAggregator| -> (keep: bool)
            ensures
                keep == later(*r, *_a),
            {
                *r >= gc_round
            };
        self.certificates_aggregators.retain(keep, Ghost(later));
        let ghost graded = |d: Digest, a: GradeVotesAggregator| live@.contains_key(d);
        let keep = |d: &Digest, _a: &GradeVotesAggregator| -> (keep: bool)
            ensures
                keep == graded(*d, *_a),
            {
                live.contains_key(d)
            };
        self.grade_aggregators.retain(keep, Ghost(graded));
        let ghost waiting_grades = |d: Digest, votes: Vec<GradeVote>|
            exists|i: int| 0 <= i < votes@.len() && (#[trigger] votes@[i]).round >= gc_round;
        let keep = |_d: &Digest, votes: &Vec<GradeVote>| -> (keep: bool)
            ensures
                keep == waiting_grades(*_d, *votes),
            {
                any_recent_grade(votes, gc_round)
            };
        self.pending_grade_votes.retain(keep, Ghost(waiting_grades));
        let ghost supported = |d: Digest, s: Support| s.round >= gc_round;
        let keep = |_d: &Digest, s: &Support| -> (keep: bool)
            ensures
                keep == supported(*_d, *s),
            {
                s.round >= gc_round
            };
        self.ready_support.retain(keep, Ghost(supported));
        let ready = &self.ready_support;
        let ghost emitted = |d: Digest| live@.contains_key(d) || ready@.contains_key(d);
        let keep = |d: &Digest| -> (keep: bool)
            ensures
                keep == emitted(*d),
            {
                live.contains_key(d) || ready.contains_key(d)
            };
        self.grade_voted.retain(keep, Ghost(emitted));
        let ghost alive = |d: Digest| live@.contains_key(d);
        let keep = |d: &Digest| -> (keep: bool)
            ensures
                keep == alive(*d),
            {
                live.contains_key(d)
            };
        self.grade_two.retain(keep, Ghost(alive));
        let ghost candidate = |d: Digest, r: Round| r >= gc_round;
        let keep = |_d: &Digest, r: &Round| -> (keep: bool)
            ensures
                keep == candidate(*_d, *r),
            {
                *r >= gc_round
            };
        self.weak_edge_candidates.retain(keep, Ghost(candidate));
        self.gc_round = gc_round;
        proof {
            let goal = start.forget(gc_round);
            assert(self@.headers =~= goal.headers);
            assert(self@.certificates =~= goal.certificates);
            assert(self@.votes =~= goal.votes);
            assert(self@.pending_votes =~= goal.pending_votes);
            assert(self@.gathered =~= goal.gathered);
            assert(self@.grades =~= goal.grades);
            assert(self@.pending_grades =~= goal.pending_grades);
            assert(self@.support =~= goal.support);
            assert(self@ =~= goal);
            assert forall|d: Digest| #[trigger] self@.votes.contains_key(d) implies self@.votes[d].wf(
                &self.committee,
            ) by {
                assert(start.votes.contains_key(d));
            }
            assert forall|d: Digest| #[trigger]
                self@.grades.contains_key(d) implies self@.grades[d].wf(&self.committee) by {
                assert(start.grades.contains_key(d));
            }
            assert forall|r: Round| #[trigger]
                self@.gathered.contains_key(r) implies self@.gathered[r].wf(&self.committee) by {
                assert(start.gathered.contains_key(r));
            }
            assert forall|d: Digest| #[trigger]
                self@.support.contains_key(d) implies self@.support[d].stake
                == self.committee.weight(self@.support[d].senders) by {
                assert(start.support.contains_key(d));
            }
        }
    }
}

/// Whether one of the votes is not below `gc_round`.
fn any_recent_vote(votes: &Vec<Vote>, gc_round: Round) -> (result: bool)
    ensures
        result == exists|i: int| 0 <= i < votes@.len() && (#[trigger] votes@[i]).round >= gc_round,
{
    let mut i: usize = 0;
    while i < votes.len()
        invariant
            i <= votes@.len(),
            forall|j: int| 0 <= j < i ==> (#[trigger] votes@[j]).round < gc_round,
        decreases votes@.len() - i,
    {
        if votes[i].round >= gc_round {
            return true;
        }
        i += 1;
    }
    false
}

/// Whether one of the grade votes is not below `gc_round`.
fn any_recent_grade(votes: &Vec<GradeVote>, gc_round: Round) -> (result: bool)
    ensures
        result == exists|i: int| 0 <= i < votes@.len() && (#[trigger] votes@[i]).round >= gc_round,
{
    let mut i: usize = 0;
    while i < votes.len()
        invariant
            i <= votes@.len(),
            forall|j: int| 0 <= j < i ==> (#[trigger] votes@[j]).round < gc_round,
        decreases votes@.len() - i,
    {
        if votes[i].round >= gc_round {
            return true;
        }
        i += 1;
    }
    false
}

} // verus!
