//! The state of a primary and the model of its work.
use crate::committee::Committee;
use crate::ordered::{in_order, keep_in, keep_where, Key, OrdMap, OrdSet, Relation};
use crate::primary::aggregators::{
    CertificatesAggregator, GatherView, GradeVotesAggregator, TallyView, VotesAggregator,
};
use crate::primary::machine::{Effect, EffectView, Step, Task};
use crate::primary::messages::{DagError, GradeVote, Vote};
use crate::types::{Certificate, Digest, Header, PublicKey, Round, Signature, Stake};
use std::sync::Arc;
use vstd::prelude::*;

verus! {

/// The grade votes seen for a block.
#[verifier::ext_equal]
pub struct SupportView {
    /// The round of the block.
    pub round: Round,
    /// The author of the block.
    pub origin: PublicKey,
    /// Who sent a grade vote.
    pub senders: Set<PublicKey>,
    /// The stake of the senders.
    pub stake: Stake,
}

/// The contents of the state of a primary.
#[verifier::ext_equal]
pub struct CoreView {
    pub gc_round: Round,
    pub last_voted: Set<(Round, PublicKey)>,
    pub processing: Set<(Round, Digest)>,
    pub votes: Map<Digest, TallyView>,
    pub pending_votes: Map<Digest, Seq<Vote>>,
    pub gathered: Map<Round, GatherView>,
    pub certificates: Map<Digest, Certificate>,
    pub headers: Map<Digest, Arc<Header>>,
    pub grades: Map<Digest, TallyView>,
    pub pending_grades: Map<Digest, Seq<GradeVote>>,
    pub support: Map<Digest, SupportView>,
    pub grade_voted: Set<Digest>,
    pub grade_two: Set<Digest>,
    pub advancing: Map<Digest, Certificate>,
    pub weak_candidates: Map<Digest, Round>,
    pub tasks: Seq<Task>,
    pub effects: Seq<EffectView>,
}

/// Whether a vote of `author` is among `votes`.
pub open spec fn has_voted(votes: Seq<Vote>, author: PublicKey) -> bool {
    exists|i: int| 0 <= i < votes.len() && (#[trigger] votes[i]).author == author
}

/// Whether a grade vote of `author` is among `votes`.
pub open spec fn has_graded(votes: Seq<GradeVote>, author: PublicKey) -> bool {
    exists|i: int| 0 <= i < votes.len() && (#[trigger] votes[i]).author == author
}

/// The tasks to process `votes` in their order.
pub open spec fn vote_tasks(votes: Seq<Vote>) -> Seq<Task> {
    votes.reverse().map_values(|v: Vote| Task::Vote(v))
}

/// The tasks to process grade `votes` in their order.
pub open spec fn grade_tasks(votes: Seq<GradeVote>) -> Seq<Task> {
    votes.reverse().map_values(|v: GradeVote| Task::GradeVote(v))
}

impl CoreView {
    // ----- Validity -----

    /// The tallies are right.
    pub open spec fn wf(self, committee: &Committee) -> bool {
        &&& forall|d: Digest| #[trigger]
            self.votes.contains_key(d) ==> self.votes[d].wf(committee)
        &&& forall|d: Digest| #[trigger]
            self.grades.contains_key(d) ==> self.grades[d].wf(committee)
        &&& forall|r: Round| #[trigger]
            self.gathered.contains_key(r) ==> self.gathered[r].wf(committee)
        &&& forall|d: Digest| #[trigger]
            self.support.contains_key(d) ==> self.support[d].stake == committee.weight(
                self.support[d].senders,
            )
    }

    /// The state in which nothing has happened.
    pub open spec fn initial() -> CoreView {
        CoreView {
            gc_round: 0,
            last_voted: Set::empty(),
            processing: Set::empty(),
            votes: Map::empty(),
            pending_votes: Map::empty(),
            gathered: Map::empty(),
            certificates: Map::empty(),
            headers: Map::empty(),
            grades: Map::empty(),
            pending_grades: Map::empty(),
            support: Map::empty(),
            grade_voted: Set::empty(),
            grade_two: Set::empty(),
            advancing: Map::empty(),
            weak_candidates: Map::empty(),
            tasks: Seq::empty(),
            effects: Seq::empty(),
        }
    }

    // ----- Work -----

    /// One more task, to be done next.
    pub open spec fn push(self, task: Task) -> CoreView {
        CoreView { tasks: self.tasks.push(task), ..self }
    }

    /// One more effect.
    pub open spec fn emit(self, effect: EffectView) -> CoreView {
        CoreView { effects: self.effects.push(effect), ..self }
    }

    /// The next task is taken.
    pub open spec fn pop(self) -> CoreView {
        CoreView { tasks: self.tasks.drop_last(), ..self }
    }

    /// All work is given up.
    pub open spec fn give_up(self) -> CoreView {
        CoreView { tasks: Seq::empty(), ..self }
    }

    /// What becomes of an error: behind a barrier it is the end of the node.
    pub open spec fn failure(self, error: DagError) -> Step {
        if self.tasks.contains(Task::Barrier) {
            Step::Fatal(error)
        } else {
            Step::Failed(error)
        }
    }

    // ----- Headers and votes -----

    /// A header is seen. The consensus learns of a new one, and the votes that
    /// came before it are processed next.
    pub open spec fn observe(self, h: Arc<Header>) -> CoreView {
        CoreView {
            headers: self.headers.insert(h.id, h),
            effects: if self.headers.contains_key(h.id) {
                self.effects
            } else {
                self.effects.push(EffectView::Observed(h))
            },
            pending_votes: self.pending_votes.remove(h.id),
            tasks: if self.pending_votes.contains_key(h.id) {
                self.tasks.push(Task::Barrier) + vote_tasks(self.pending_votes[h.id])
            } else {
                self.tasks
            },
            ..self
        }
    }

    /// A header is being processed.
    pub open spec fn mark_processing(self, h: Arc<Header>) -> CoreView {
        CoreView { processing: self.processing.insert((h.round, h.id)), ..self }
    }

    /// The payload of a header is there: it is stored, and voted for unless its
    /// author had a vote in this round.
    pub open spec fn accept_header(self, h: Arc<Header>) -> CoreView {
        let stored = self.emit(EffectView::StoreHeader(h)).push(Task::Retry);
        if self.last_voted.contains((h.round, h.author)) {
            stored
        } else {
            (CoreView { last_voted: self.last_voted.insert((h.round, h.author)), ..stored }).push(
                Task::AwaitVote(h),
            )
        }
    }

    /// The vote of `name` for a header.
    pub open spec fn vote_for(h: Arc<Header>, name: PublicKey, signature: Signature) -> Vote {
        Vote { id: h.id, round: h.round, origin: h.author, author: name, signature }
    }

    /// The tally of votes for a header.
    pub open spec fn votes_of(self, id: Digest) -> TallyView {
        if self.votes.contains_key(id) {
            self.votes[id]
        } else {
            TallyView::empty()
        }
    }

    /// A vote waits for its header. Of one voter only the first does.
    pub open spec fn park_vote(self, v: Vote) -> CoreView {
        let waiting = if self.pending_votes.contains_key(v.id) {
            self.pending_votes[v.id]
        } else {
            Seq::empty()
        };
        CoreView {
            pending_votes: self.pending_votes.insert(
                v.id,
                if has_voted(waiting, v.author) {
                    waiting
                } else {
                    waiting.push(v)
                },
            ),
            ..self
        }
    }

    /// What is wrong with a vote for a known header.
    pub open spec fn vote_error(self, v: Vote) -> Option<DagError> {
        let h = self.headers[v.id];
        if !VotesAggregator::is_for(v, *h) {
            Some(DagError::UnexpectedVote(v.id))
        } else if self.votes_of(h.id).used.contains(v.author) {
            Some(DagError::AuthorityReuse(v.author))
        } else {
            None
        }
    }

    /// A vote for a known header is refused.
    pub open spec fn refuse_vote(self, v: Vote) -> CoreView {
        let id = self.headers[v.id].id;
        CoreView { votes: self.votes.insert(id, self.votes_of(id)), ..self }.give_up()
    }

    /// A vote for a known header is counted.
    pub open spec fn count_vote(self, v: Vote, committee: &Committee) -> CoreView {
        let id = self.headers[v.id].id;
        CoreView {
            votes: self.votes.insert(
                id,
                self.votes_of(id).count(committee, v.author, v.signature),
            ),
            ..self
        }
    }

    /// Whether a vote for a known header completes a quorum.
    pub open spec fn vote_completes(self, v: Vote, committee: &Committee) -> bool {
        self.votes_of(self.headers[v.id].id).completes(committee, v.author)
    }

    /// A certificate is assembled: it is sent out and processed.
    pub open spec fn assemble(self, c: Certificate) -> CoreView {
        self.emit(EffectView::BroadcastCertificate(c)).push(Task::Barrier).push(
            Task::Certificate(c),
        )
    }

    /// Whether `c` is the certificate that the vote yields.
    pub open spec fn certifies(self, v: Vote, c: Certificate, committee: &Committee) -> bool {
        let h = self.headers[v.id];
        &&& c.header == h
        &&& c.votes@ == self.votes_of(h.id).count(committee, v.author, v.signature).votes
    }

    // ----- Certificates -----

    /// The header of a certificate is processed if it is not being processed,
    /// then the certificate is delivered.
    pub open spec fn embed(self, c: Certificate) -> CoreView {
        let waiting = self.push(Task::AwaitDelivery(c));
        if self.processing.contains((c.round(), c.header.id)) {
            waiting
        } else {
            waiting.push(Task::Header(c.header))
        }
    }

    /// The ancestors of a certificate are there. A new certificate is delivered
    /// at grade 1 and answered with a grade vote. One that was delivered may now
    /// count towards the next round.
    pub open spec fn deliver(self, c: Certificate) -> CoreView {
        let d = c.digest();
        if self.certificates.contains_key(d) {
            let retrying = self.push(Task::Retry);
            if self.grade_two.contains(d) {
                retrying.push(Task::AwaitReady(c))
            } else {
                retrying
            }
        } else {
            let delivered = (CoreView {
                certificates: self.certificates.insert(d, c),
                ..self.emit(EffectView::StoreCertificate(c)).emit(EffectView::GradeOne(c))
            }).push(Task::Retry).push(Task::PendingGrades(d));
            if self.grade_voted.contains(d) {
                delivered
            } else {
                (CoreView { grade_voted: self.grade_voted.insert(d), ..delivered }).push(
                    Task::AwaitGrade(d, c.round(), c.origin()),
                )
            }
        }
    }

    /// The grade votes that came before their certificate are processed.
    pub open spec fn release_grades(self, d: Digest) -> CoreView {
        CoreView {
            pending_grades: self.pending_grades.remove(d),
            tasks: if self.pending_grades.contains_key(d) {
                self.tasks + grade_tasks(self.pending_grades[d])
            } else {
                self.tasks
            },
            ..self
        }
    }

    // ----- Grade votes -----

    /// The grade vote of `name` for a block.
    pub open spec fn grade_for(
        id: Digest,
        round: Round,
        origin: PublicKey,
        name: PublicKey,
        signature: Signature,
    ) -> GradeVote {
        GradeVote { id, round, origin, author: name, signature }
    }

    /// The grade votes seen for a block.
    pub open spec fn support_of(self, v: GradeVote) -> SupportView {
        if self.support.contains_key(v.id) {
            self.support[v.id]
        } else {
            SupportView { round: v.round, origin: v.origin, senders: Set::empty(), stake: 0 }
        }
    }

    /// Whether a grade vote agrees with those seen before on the block.
    pub open spec fn grade_fits(self, v: GradeVote) -> bool {
        self.support_of(v).round == v.round && self.support_of(v).origin == v.origin
    }

    /// A grade vote is seen. Once the senders guarantee an honest one, the node
    /// relays a grade vote of its own, unless it sent one.
    pub open spec fn hear_grade(self, v: GradeVote, committee: &Committee) -> CoreView {
        let seen = self.support_of(v);
        let senders = seen.senders.insert(v.author);
        let heard = (CoreView {
            support: self.support.insert(
                v.id,
                SupportView { senders, stake: committee.weight(senders) as Stake, ..seen },
            ),
            ..self
        }).push(Task::Tally(v));
        if self.relays(v, committee) {
            (CoreView { grade_voted: self.grade_voted.insert(v.id), ..heard }).push(
                Task::AwaitGrade(v.id, v.round, v.origin),
            )
        } else {
            heard
        }
    }

    /// Whether a grade vote makes the node relay one.
    pub open spec fn relays(self, v: GradeVote, committee: &Committee) -> bool {
        &&& committee.weight(self.support_of(v).senders.insert(v.author)) >= committee.validity()
        &&& !self.grade_voted.contains(v.id)
    }

    /// The tally of grade votes for a block.
    pub open spec fn grades_of(self, id: Digest) -> TallyView {
        if self.grades.contains_key(id) {
            self.grades[id]
        } else {
            TallyView::empty()
        }
    }

    /// A grade vote waits for its certificate. Of one voter only the first does.
    pub open spec fn park_grade(self, v: GradeVote) -> CoreView {
        let waiting = if self.pending_grades.contains_key(v.id) {
            self.pending_grades[v.id]
        } else {
            Seq::empty()
        };
        CoreView {
            pending_grades: self.pending_grades.insert(
                v.id,
                if has_graded(waiting, v.author) {
                    waiting
                } else {
                    waiting.push(v)
                },
            ),
            ..self
        }
    }

    /// What is wrong with a grade vote for a delivered block.
    pub open spec fn grade_error(self, v: GradeVote) -> Option<DagError> {
        if !GradeVotesAggregator::is_for(v, self.certificates[v.id]) {
            Some(DagError::UnexpectedGradeVote(v.id))
        } else if self.grades_of(v.id).used.contains(v.author) {
            Some(DagError::AuthorityReuse(v.author))
        } else {
            None
        }
    }

    /// A grade vote for a delivered block is refused.
    pub open spec fn refuse_grade(self, v: GradeVote) -> CoreView {
        CoreView { grades: self.grades.insert(v.id, self.grades_of(v.id)), ..self }.give_up()
    }

    /// A grade vote for a delivered block is counted. The one that completes a
    /// quorum proves grade 2.
    pub open spec fn count_grade(self, v: GradeVote, committee: &Committee) -> CoreView {
        let tally = self.grades_of(v.id);
        let counted = CoreView {
            grades: self.grades.insert(v.id, tally.count(committee, v.author, v.signature)),
            ..self
        };
        if tally.completes(committee, v.author) {
            counted.push(Task::Graded(self.certificates[v.id]))
        } else {
            counted
        }
    }

    /// A block is delivered at grade 2, once.
    pub open spec fn deliver_two(self, c: Certificate) -> CoreView {
        let d = c.digest();
        if self.grade_two.contains(d) {
            self
        } else {
            (CoreView {
                grade_two: self.grade_two.insert(d),
                weak_candidates: self.weak_candidates.insert(d, c.round()),
                ..self.emit(EffectView::GradeTwo(c))
            }).push(Task::AwaitReady(c))
        }
    }

    // ----- Rounds -----

    /// A grade-2 block cannot count towards the next round yet.
    pub open spec fn postpone(self, c: Certificate) -> CoreView {
        CoreView { advancing: self.advancing.insert(c.digest(), c), ..self }
    }

    /// The certificates gathered in a round.
    pub open spec fn gathered_in(self, round: Round) -> GatherView {
        if self.gathered.contains_key(round) {
            self.gathered[round]
        } else {
            GatherView::empty()
        }
    }

    /// The grade-1 blocks of a round that are not of grade 2.
    pub open spec fn virtual_edges(self, round: Round) -> Set<Digest> {
        Set::new(
            |d: Digest|
                self.certificates.contains_key(d) && self.certificates[d].round() == round
                    && !self.grade_two.contains(d),
        )
    }

    /// The grade-2 blocks of earlier rounds that no edge references.
    pub open spec fn weak_edges(self, round: Round) -> Set<Digest> {
        Set::new(
            |d: Digest| self.weak_candidates.contains_key(d) && self.weak_candidates[d] < round,
        )
    }

    /// A grade-2 block counts towards the next round. The one that completes a
    /// quorum has the node enter the next round and propose a header.
    pub open spec fn advance(self, c: Certificate, committee: &Committee) -> CoreView {
        let round = c.round();
        let before = self.gathered_in(round);
        let counted = CoreView {
            advancing: self.advancing.remove(c.digest()),
            gathered: self.gathered.insert(round, before.gather(committee, c)),
            ..self
        };
        if before.yields(committee, c) {
            let parents = before.certificates.push(c.digest());
            let weak = self.weak_edges(round);
            (CoreView {
                weak_candidates: keep_where(
                    self.weak_candidates,
                    |d: Digest, r: Round| !parents.contains(d) && !weak.contains(d),
                ),
                ..counted
            }).emit(EffectView::RoundAdvanced((round + 1) as Round)).emit(
                EffectView::Propose(
                    parents,
                    in_order(weak),
                    in_order(self.virtual_edges(round)),
                    round,
                ),
            )
        } else {
            counted
        }
    }

    /// The tasks to ask again for the blocks that could not count, in the order
    /// of their digests.
    pub open spec fn retry(self) -> CoreView {
        CoreView {
            tasks: self.tasks + in_order(self.advancing.dom()).reverse().map_values(
                |d: Digest| Task::AwaitReady(self.advancing[d]),
            ),
            ..self
        }
    }

    // ----- Requests -----

    /// Whether `h` is the first known header, by digest, of a leader.
    pub open spec fn is_first_of(self, round: Round, leader: PublicKey, d: Digest) -> bool {
        &&& self.is_of(round, leader, d)
        &&& forall|x: Digest| #[trigger] self.is_of(round, leader, x) ==> x == d || d.before(x)
    }

    /// Whether `d` names a known header of a leader.
    pub open spec fn is_of(self, round: Round, leader: PublicKey, d: Digest) -> bool {
        &&& self.headers.contains_key(d)
        &&& self.headers[d].round == round
        &&& self.headers[d].author == leader
    }

    // ----- Cleanup -----

    /// Cleans up behind the consensus.
    pub open spec fn clean(self, consensus_round: Round, gc_depth: Round) -> CoreView {
        if consensus_round > gc_depth {
            self.forget((consensus_round - gc_depth) as Round)
        } else {
            self
        }
    }

    /// Whether a grade vote was seen for a block that is not below `gc_round`.
    pub open spec fn supported_from(self, d: Digest, gc_round: Round) -> bool {
        self.support.contains_key(d) && self.support[d].round >= gc_round
    }

    /// Whether the certificate of a block that is not below `gc_round` was
    /// delivered.
    pub open spec fn certified_from(self, d: Digest, gc_round: Round) -> bool {
        self.certificates.contains_key(d) && self.certificates[d].round() >= gc_round
    }

    /// Forgets what lies below `gc_round`. Grade votes stay given as long as the
    /// certificate or the support of the block is there, grade 2 stays
    /// delivered as long as its certificate is.
    pub open spec fn forget(self, gc_round: Round) -> CoreView {
        let certificates = keep_where(
            self.certificates,
            |d: Digest, c: Certificate| c.round() >= gc_round,
        );
        let headers = keep_where(self.headers, |d: Digest, h: Arc<Header>| h.round >= gc_round);
        CoreView {
            gc_round,
            last_voted: keep_in(self.last_voted, |p: (Round, PublicKey)| p.0 >= gc_round),
            processing: keep_in(self.processing, |p: (Round, Digest)| p.0 >= gc_round),
            votes: keep_where(self.votes, |d: Digest, t: TallyView| headers.contains_key(d)),
            pending_votes: keep_where(
                self.pending_votes,
                |d: Digest, votes: Seq<Vote>|
                    exists|i: int|
                        0 <= i < votes.len() && (#[trigger] votes[i]).round >= gc_round,
            ),
            gathered: keep_where(self.gathered, |r: Round, g: GatherView| r >= gc_round),
            certificates,
            headers,
            grades: keep_where(self.grades, |d: Digest, t: TallyView| certificates.contains_key(d)),
            pending_grades: keep_where(
                self.pending_grades,
                |d: Digest, votes: Seq<GradeVote>|
                    exists|i: int|
                        0 <= i < votes.len() && (#[trigger] votes[i]).round >= gc_round,
            ),
            support: keep_where(self.support, |d: Digest, s: SupportView| s.round >= gc_round),
            grade_voted: keep_in(
                self.grade_voted,
                |d: Digest| certificates.contains_key(d) || self.supported_from(d, gc_round),
            ),
            grade_two: keep_in(self.grade_two, |d: Digest| certificates.contains_key(d)),
            weak_candidates: keep_where(
                self.weak_candidates,
                |d: Digest, r: Round| r >= gc_round,
            ),
            ..self
        }
    }
}

/// The grade votes seen for a block.
pub struct Support {
    /// The round of the block.
    pub round: Round,
    /// The author of the block.
    pub origin: PublicKey,
    /// Who sent a grade vote.
    pub senders: OrdSet<PublicKey>,
    /// The stake of the senders.
    pub stake: Stake,
}

impl View for Support {
    type V = SupportView;

    open spec fn view(&self) -> SupportView {
        SupportView {
            round: self.round,
            origin: self.origin,
            senders: self.senders@,
            stake: self.stake,
        }
    }
}

/// The state machine of a primary. The surroundings start its work, answer its
/// questions and carry out its effects.
pub struct Core {
    /// The public key of this primary.
    pub name: PublicKey,
    /// The committee information.
    pub committee: Committee,
    /// The depth of the garbage collector.
    pub gc_depth: Round,
    /// The last garbage collected round.
    pub gc_round: Round,
    /// The authors of the headers voted for, by round.
    pub last_voted: Relation<Round, PublicKey>,
    /// The headers that are being processed, by round.
    pub processing: Relation<Round, Digest>,
    /// The votes for every observed header.
    pub votes_aggregators: OrdMap<Digest, VotesAggregator>,
    /// Votes that arrived before their header.
    pub pending_votes: OrdMap<Digest, Vec<Vote>>,
    /// The grade-2 certificates to use as parents, by round.
    pub certificates_aggregators: OrdMap<Round, CertificatesAggregator>,
    /// Certificates delivered at grade 1.
    pub grbc_certificates: OrdMap<Digest, Certificate>,
    /// Valid headers seen before any certificate or grade.
    pub observed_headers: OrdMap<Digest, Arc<Header>>,
    /// The grade votes for every delivered certificate.
    pub grade_aggregators: OrdMap<Digest, GradeVotesAggregator>,
    /// Grade votes that arrived before their certificate.
    pub pending_grade_votes: OrdMap<Digest, Vec<GradeVote>>,
    /// The senders of grade votes for every block.
    pub ready_support: OrdMap<Digest, Support>,
    /// The blocks for which this primary sent a grade vote.
    pub grade_voted: OrdSet<Digest>,
    /// The blocks of grade 2.
    pub grade_two: OrdSet<Digest>,
    /// Grade-2 blocks that cannot count towards the next round yet.
    pub round_advance_pending: OrdMap<Digest, Certificate>,
    /// Grade-2 blocks that no edge references.
    pub weak_edge_candidates: OrdMap<Digest, Round>,
    /// The work that is left. The last task comes first.
    pub tasks: Vec<Task>,
    /// The effects that have not been handed out.
    pub effects: Vec<Effect>,
}

impl View for Core {
    type V = CoreView;

    open spec fn view(&self) -> CoreView {
        CoreView {
            gc_round: self.gc_round,
            last_voted: self.last_voted@,
            processing: self.processing@,
            votes: self.votes_aggregators@.map_values(|a: VotesAggregator| a@),
            pending_votes: self.pending_votes@.map_values(|v: Vec<Vote>| v@),
            gathered: self.certificates_aggregators@.map_values(|a: CertificatesAggregator| a@),
            certificates: self.grbc_certificates@,
            headers: self.observed_headers@,
            grades: self.grade_aggregators@.map_values(|a: GradeVotesAggregator| a@),
            pending_grades: self.pending_grade_votes@.map_values(|v: Vec<GradeVote>| v@),
            support: self.ready_support@.map_values(|s: Support| s@),
            grade_voted: self.grade_voted@,
            grade_two: self.grade_two@,
            advancing: self.round_advance_pending@,
            weak_candidates: self.weak_edge_candidates@,
            tasks: self.tasks@,
            effects: self.effects@.map_values(|e: Effect| e@),
        }
    }
}

impl Core {
    /// The committee is valid and the tallies are right.
    pub open spec fn wf(&self) -> bool {
        self.committee.wf() && self@.wf(&self.committee)
    }

    /// Two states of one primary.
    pub open spec fn same_node(&self, other: &Core) -> bool {
        &&& self.name == other.name
        &&& self.committee == other.committee
        &&& self.gc_depth == other.gc_depth
    }

    /// A primary to which nothing has happened.
    pub fn new(name: PublicKey, committee: Committee, gc_depth: Round) -> (result: Self)
        requires
            committee.wf(),
        ensures
            result@ == CoreView::initial(),
            result.name == name,
            result.committee == committee,
            result.gc_depth == gc_depth,
            result.wf(),
    {
        let result = Core {
            name,
            committee,
            gc_depth,
            gc_round: 0,
            last_voted: Relation::new(),
            processing: Relation::new(),
            votes_aggregators: OrdMap::new(),
            pending_votes: OrdMap::new(),
            certificates_aggregators: OrdMap::new(),
            grbc_certificates: OrdMap::new(),
            observed_headers: OrdMap::new(),
            grade_aggregators: OrdMap::new(),
            pending_grade_votes: OrdMap::new(),
            ready_support: OrdMap::new(),
            grade_voted: OrdSet::new(),
            grade_two: OrdSet::new(),
            round_advance_pending: OrdMap::new(),
            weak_edge_candidates: OrdMap::new(),
            tasks: Vec::new(),
            effects: Vec::new(),
        };
        proof {
            assert(result@ =~= CoreView::initial());
        }
        result
    }
}

} // verus!
