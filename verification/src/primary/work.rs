//! The work of a primary, one task at a time.
use crate::committee::Committee;
use crate::ordered::{group_ordered, insert_all, keep_where, lemma_take_contains, OrdSet};
use crate::primary::aggregators::{
    CertificatesAggregator, GatherView, GradeVotesAggregator, TallyView, VotesAggregator,
};
use crate::primary::machine::{Effect, EffectView, Question, Reply, Step, Task};
use crate::primary::messages::{DagError, GradeVote, Vote};
use crate::primary::node::{grade_tasks, vote_tasks, Core, CoreView, Support};
use crate::primary::references::{check_references, reference_error};
use crate::types::{share, Certificate, Digest, Header, PublicKey, Round, Signature};
use std::sync::Arc;
use vstd::prelude::*;

verus! {

impl Core {
    /// Has an effect carried out.
    pub(crate) fn emit(&mut self, effect: Effect)
        ensures
            final(self)@ == old(self)@.emit(effect@),
            final(self).same_node(old(self)),
    {
        let ghost before = self.effects@;
        self.effects.push(effect);
        proof {
            assert(self.effects@.map_values(|e: Effect| e@) =~= before.map_values(
                |e: Effect| e@,
            ).push(effect@));
        }
    }

    /// Gives all work up for an error.
    fn fail(&mut self, error: DagError) -> (step: Step)
        ensures
            final(self)@ == old(self)@.give_up(),
            final(self).same_node(old(self)),
            step == old(self)@.failure(error),
    {
        let ghost tasks = self.tasks@;
        let mut fatal = false;
        let mut i: usize = 0;
        while i < self.tasks.len()
            invariant
                i <= self.tasks@.len(),
                tasks == self.tasks@,
                fatal == tasks.take(i as int).contains(Task::Barrier),
            decreases self.tasks@.len() - i,
        {
            proof {
                lemma_take_contains(tasks, i as int);
            }
            match self.tasks[i] {
                Task::Barrier => {
                    fatal = true;
                },
                _ => {},
            }
            i += 1;
        }
        proof {
            assert(tasks.take(tasks.len() as int) =~= tasks);
        }
        self.tasks = Vec::new();
        proof {
            assert(self@ =~= old(self)@.give_up());
        }
        if fatal {
            Step::Fatal(error)
        } else {
            Step::Failed(error)
        }
    }

    /// Sees a header.
    fn observe_header(&mut self, header: &Arc<Header>)
        ensures
            final(self)@ == old(self)@.observe(*header),
            final(self).same_node(old(self)),
    {
        let ghost start = self@;
        let ghost waiting = self.pending_votes@;
        let id = header.id;
        if self.observed_headers.insert(id, share(header)).is_none() {
            self.emit(Effect::Observed(share(header)));
        }
        let ghost seen = self@;
        if let Some(votes) = self.pending_votes.remove(&id) {
            self.tasks.push(Task::Barrier);
            let ghost base = self.tasks@;
            let mut left: usize = votes.len();
            proof {
                assert(votes@.skip(left as int) =~= Seq::empty());
                assert(base + vote_tasks(Seq::<Vote>::empty()) =~= base);
            }
            let ghost forgotten = self.pending_votes@;
            while left > 0
                invariant
                    left <= votes@.len(),
                    self.tasks@ == base + vote_tasks(votes@.skip(left as int)),
                    self@ == (CoreView { tasks: self.tasks@, pending_votes: self@.pending_votes, ..seen }),
                    self.pending_votes@ == forgotten,
                    self.same_node(old(self)),
                decreases left,
            {
                left -= 1;
                let ghost before = self.tasks@;
                self.tasks.push(Task::Vote(votes[left]));
                proof {
                    let shorter = votes@.skip(left + 1);
                    let longer = votes@.skip(left as int);
                    assert(longer =~= seq![votes@[left as int]] + shorter);
                    assert(vote_tasks(longer) =~= vote_tasks(shorter).push(
                        Task::Vote(votes@[left as int]),
                    ));
                    assert(self.tasks@ =~= base + vote_tasks(longer));
                }
            }
            proof {
                assert(votes@.skip(0) =~= votes@);
            }
        }
        proof {
            assert(self.pending_votes@.map_values(|v: Vec<Vote>| v@) =~= waiting.map_values(
                |v: Vec<Vote>| v@,
            ).remove(id));
            assert(self@ =~= start.observe(*header));
        }
    }

    /// Has a vote wait for its header.
    fn park_vote(&mut self, vote: Vote)
        ensures
            final(self)@ == old(self)@.park_vote(vote),
            final(self).same_node(old(self)),
    {
        let ghost start = self@;
        let ghost before = self.pending_votes@;
        let mut waiting = match self.pending_votes.remove(&vote.id) {
            Some(waiting) => waiting,
            None => Vec::new(),
        };
        let ghost had = waiting@;
        let mut known = false;
        let mut i: usize = 0;
        while i < waiting.len()
            invariant
                i <= waiting@.len(),
                waiting@ == had,
                known == exists|j: int| 0 <= j < i && (#[trigger] had[j]).author == vote.author,
            decreases waiting@.len() - i,
        {
            if waiting[i].author == vote.author {
                known = true;
                proof {
                    assert(had[i as int].author == vote.author);
                }
            }
            i += 1;
        }
        if !known {
            waiting.push(vote);
        }
        self.pending_votes.insert(vote.id, waiting);
        proof {
            assert(self.pending_votes@.map_values(|v: Vec<Vote>| v@) =~= before.map_values(
                |v: Vec<Vote>| v@,
            ).insert(vote.id, waiting@));
            assert(self@ =~= start.park_vote(vote));
        }
    }

    /// Processes a vote.
    fn process_vote(&mut self, vote: Vote) -> (step: Step)
        requires
            old(self).wf(),
        ensures
            final(self).same_node(old(self)),
            final(self).wf(),
            Self::votes(old(self)@, vote, &old(self).committee, final(self)@, step),
    {
        let ghost start = self@;
        let header = match self.observed_headers.get(&vote.id) {
            Some(header) => share(header),
            None => {
                self.park_vote(vote);
                return Step::Done;
            },
        };
        let id = header.id;
        let ghost tallies = self.votes_aggregators@;
        let mut aggregator = match self.votes_aggregators.remove(&id) {
            Some(aggregator) => aggregator,
            None => VotesAggregator::new(),
        };
        proof {
            TallyView::lemma_empty(&self.committee);
            assert(start.votes.contains_key(id) ==> start.votes[id].wf(&self.committee));
            assert(aggregator@ == start.votes_of(id));
        }
        let outcome = aggregator.append(vote, &self.committee, &header);
        self.votes_aggregators.insert(id, aggregator);
        let ghost counted = self@;
        proof {
            assert(self.votes_aggregators@.map_values(|a: VotesAggregator| a@)
                =~= tallies.map_values(|a: VotesAggregator| a@).insert(id, aggregator@));
            assert(counted =~= (CoreView {
                votes: start.votes.insert(id, aggregator@),
                ..start
            }));
            assert(self.wf());
        }
        match outcome {
            Err(error) => {
                let step = self.fail(error);
                proof {
                    assert(counted.tasks == start.tasks);
                }
                step
            },
            Ok(None) => Step::Done,
            Ok(Some(certificate)) => {
                self.emit(Effect::BroadcastCertificate(certificate.clone()));
                let ghost sent = self@;
                self.tasks.push(Task::Barrier);
                self.tasks.push(Task::Certificate(certificate));
                proof {
                    assert(self@ =~= sent.push(Task::Barrier).push(Task::Certificate(certificate)));
                    assert(start.certifies(vote, certificate, &self.committee));
                    assert(self@ == start.count_vote(vote, &self.committee).assemble(certificate));
                }
                Step::Done
            },
        }
    }

    /// Stores a header whose payload is there, and votes for it unless its
    /// author had a vote in this round.
    fn accept_header(&mut self, header: Arc<Header>)
        ensures
            final(self)@ == old(self)@.accept_header(header),
            final(self).same_node(old(self)),
    {
        let ghost start = self@;
        self.emit(Effect::StoreHeader(share(&header)));
        self.tasks.push(Task::Retry);
        proof {
            assert(self@ =~= start.emit(EffectView::StoreHeader(header)).push(Task::Retry));
        }
        if self.last_voted.insert(header.round, header.author) {
            self.tasks.push(Task::AwaitVote(header));
        }
        proof {
            assert(self@ =~= start.accept_header(header));
        }
    }

    /// Delivers a certificate whose ancestors are there.
    fn deliver_certificate(&mut self, certificate: Certificate)
        ensures
            final(self)@ == old(self)@.deliver(certificate),
            final(self).same_node(old(self)),
    {
        let ghost start = self@;
        let digest = certificate.digest();
        let round = certificate.round();
        let origin = certificate.origin();
        if self.grbc_certificates.contains_key(&digest) {
            self.tasks.push(Task::Retry);
            if self.grade_two.contains(&digest) {
                self.tasks.push(Task::AwaitReady(certificate));
            }
            proof {
                assert(self@ =~= start.deliver(certificate));
            }
            return ;
        }
        self.emit(Effect::StoreCertificate(certificate.clone()));
        self.emit(Effect::GradeOne(certificate.clone()));
        self.grbc_certificates.insert(digest, certificate);
        self.tasks.push(Task::Retry);
        self.tasks.push(Task::PendingGrades(digest));
        if self.grade_voted.insert(digest) {
            self.tasks.push(Task::AwaitGrade(digest, round, origin));
        }
        proof {
            assert(self@ =~= start.deliver(certificate));
        }
    }

    /// Processes the grade votes that came before their certificate.
    fn release_grades(&mut self, digest: &Digest)
        ensures
            final(self)@ == old(self)@.release_grades(*digest),
            final(self).same_node(old(self)),
    {
        let ghost start = self@;
        let ghost before = self.pending_grade_votes@;
        if let Some(votes) = self.pending_grade_votes.remove(digest) {
            let ghost base = self.tasks@;
            let ghost forgotten = self.pending_grade_votes@;
            let mut left: usize = votes.len();
            proof {
                assert(votes@.skip(left as int) =~= Seq::empty());
                assert(base + grade_tasks(Seq::<GradeVote>::empty()) =~= base);
            }
            while left > 0
                invariant
                    left <= votes@.len(),
                    self.tasks@ == base + grade_tasks(votes@.skip(left as int)),
                    self@ == (CoreView {
                        tasks: self.tasks@,
                        pending_grades: self@.pending_grades,
                        ..start
                    }),
                    self.pending_grade_votes@ == forgotten,
                    self.same_node(old(self)),
                decreases left,
            {
                left -= 1;
                self.tasks.push(Task::GradeVote(votes[left]));
                proof {
                    let shorter = votes@.skip(left + 1);
                    let longer = votes@.skip(left as int);
                    assert(longer =~= seq![votes@[left as int]] + shorter);
                    assert(grade_tasks(longer) =~= grade_tasks(shorter).push(
                        Task::GradeVote(votes@[left as int]),
                    ));
                    assert(self.tasks@ =~= base + grade_tasks(longer));
                }
            }
            proof {
                assert(votes@.skip(0) =~= votes@);
            }
        }
        proof {
            assert(self.pending_grade_votes@.map_values(|v: Vec<GradeVote>| v@)
                =~= before.map_values(|v: Vec<GradeVote>| v@).remove(*digest));
            assert(self@ =~= start.release_grades(*digest));
        }
    }

    /// Sees a grade vote.
    fn process_grade_vote(&mut self, vote: GradeVote) -> (step: Step)
        requires
            old(self).wf(),
        ensures
            final(self).same_node(old(self)),
            final(self).wf(),
            Self::grades(old(self)@, vote, &old(self).committee, final(self)@, step),
    {
        let ghost start = self@;
        let ghost seen = self.ready_support@;
        let mut support = match self.ready_support.remove(&vote.id) {
            Some(support) => support,
            None => Support {
                round: vote.round,
                origin: vote.origin,
                senders: OrdSet::new(),
                stake: 0,
            },
        };
        let ghost known = support@;
        proof {
            self.committee.lemma_weight_empty();
            assert(start.support.contains_key(vote.id) ==> start.support[vote.id].stake
                == self.committee.weight(start.support[vote.id].senders));
            assert(known == start.support_of(vote));
            assert(known.stake == self.committee.weight(known.senders));
        }
        if support.round != vote.round || support.origin != vote.origin {
            self.ready_support.insert(vote.id, support);
            proof {
                assert(self.ready_support@.map_values(|s: Support| s@) =~= seen.map_values(
                    |s: Support| s@,
                ));
                assert(self@ =~= start);
            }
            return self.fail(DagError::UnexpectedGradeVote(vote.id));
        }
        proof {
            self.committee.lemma_weight_monotone(known.senders.insert(vote.author), Set::full());
            if !known.senders.contains(vote.author) {
                self.committee.lemma_weight_insert(known.senders, vote.author);
            } else {
                assert(known.senders.insert(vote.author) =~= known.senders);
            }
        }
        if support.senders.insert(vote.author) {
            support.stake = support.stake + self.committee.stake(&vote.author);
        }
        let stake = support.stake;
        self.ready_support.insert(vote.id, support);
        self.tasks.push(Task::Tally(vote));
        let relays = stake >= self.committee.validity_threshold() && self.grade_voted.insert(
            vote.id,
        );
        if relays {
            self.tasks.push(Task::AwaitGrade(vote.id, vote.round, vote.origin));
        }
        proof {
            assert(self.ready_support@.map_values(|s: Support| s@) =~= seen.map_values(
                |s: Support| s@,
            ).insert(vote.id, support@));
            assert(start.grade_voted.insert(vote.id) =~= start.grade_voted
                || !start.grade_voted.contains(vote.id));
            assert(self@ =~= start.hear_grade(vote, &self.committee));
        }
        Step::Done
    }

    /// Has a grade vote wait for its certificate.
    fn park_grade(&mut self, vote: GradeVote)
        ensures
            final(self)@ == old(self)@.park_grade(vote),
            final(self).same_node(old(self)),
    {
        let ghost start = self@;
        let ghost before = self.pending_grade_votes@;
        let mut waiting = match self.pending_grade_votes.remove(&vote.id) {
            Some(waiting) => waiting,
            None => Vec::new(),
        };
        let ghost had = waiting@;
        let mut known = false;
        let mut i: usize = 0;
        while i < waiting.len()
            invariant
                i <= waiting@.len(),
                waiting@ == had,
                known == exists|j: int| 0 <= j < i && (#[trigger] had[j]).author == vote.author,
            decreases waiting@.len() - i,
        {
            if waiting[i].author == vote.author {
                known = true;
                proof {
                    assert(had[i as int].author == vote.author);
                }
            }
            i += 1;
        }
        if !known {
            waiting.push(vote);
        }
        self.pending_grade_votes.insert(vote.id, waiting);
        proof {
            assert(self.pending_grade_votes@.map_values(|v: Vec<GradeVote>| v@)
                =~= before.map_values(|v: Vec<GradeVote>| v@).insert(vote.id, waiting@));
            assert(self@ =~= start.park_grade(vote));
        }
    }

    /// Counts a grade vote.
    fn tally_grade_vote(&mut self, vote: GradeVote) -> (step: Step)
        requires
            old(self).wf(),
        ensures
            final(self).same_node(old(self)),
            final(self).wf(),
            Self::tallies(old(self)@, vote, &old(self).committee, final(self)@, step),
    {
        let ghost start = self@;
        let certificate = match self.grbc_certificates.get(&vote.id) {
            Some(certificate) => certificate.clone(),
            None => {
                self.park_grade(vote);
                return Step::Done;
            },
        };
        let ghost tallies = self.grade_aggregators@;
        let mut aggregator = match self.grade_aggregators.remove(&vote.id) {
            Some(aggregator) => aggregator,
            None => GradeVotesAggregator::new(),
        };
        proof {
            TallyView::lemma_empty(&self.committee);
            assert(start.grades.contains_key(vote.id) ==> start.grades[vote.id].wf(
                &self.committee,
            ));
            assert(aggregator@ == start.grades_of(vote.id));
        }
        let outcome = aggregator.append(vote, &self.committee, &certificate);
        self.grade_aggregators.insert(vote.id, aggregator);
        let ghost counted = self@;
        proof {
            assert(self.grade_aggregators@.map_values(|a: GradeVotesAggregator| a@)
                =~= tallies.map_values(|a: GradeVotesAggregator| a@).insert(
                vote.id,
                aggregator@,
            ));
            assert(counted =~= (CoreView {
                grades: start.grades.insert(vote.id, aggregator@),
                ..start
            }));
            assert(self.wf());
        }
        match outcome {
            Err(error) => {
                let step = self.fail(error);
                proof {
                    assert(counted.tasks == start.tasks);
                }
                step
            },
            Ok(None) => Step::Done,
            Ok(Some(graded)) => {
                self.tasks.push(Task::Graded(graded.certificate));
                proof {
                    assert(self@ =~= start.count_grade(vote, &self.committee));
                }
                Step::Done
            },
        }
    }

    /// Delivers a block at grade 2, once.
    fn deliver_grade_two(&mut self, certificate: Certificate)
        ensures
            final(self)@ == old(self)@.deliver_two(certificate),
            final(self).same_node(old(self)),
    {
        let ghost start = self@;
        let digest = certificate.digest();
        if self.grade_two.insert(digest) {
            self.emit(Effect::GradeTwo(certificate.clone()));
            self.weak_edge_candidates.insert(digest, certificate.round());
            self.tasks.push(Task::AwaitReady(certificate));
        }
        proof {
            assert(start.grade_two.contains(digest) ==> start.grade_two.insert(digest)
                =~= start.grade_two);
            assert(self@ =~= start.deliver_two(certificate));
        }
    }

    /// The grade-1 blocks of a round that are not of grade 2.
    fn collect_virtual_edges(&self, round: Round) -> (result: OrdSet<Digest>)
        ensures
            result@ == self@.virtual_edges(round),
    {
        broadcast use group_ordered;

        let ghost digests = self.grbc_certificates.key_seq();
        let ghost goal = self@.virtual_edges(round);
        let mut result: OrdSet<Digest> = OrdSet::new();
        let count = self.grbc_certificates.len();
        let mut i: usize = 0;
        while i < count
            invariant
                count == digests.len(),
                digests == self.grbc_certificates.key_seq(),
                goal == self@.virtual_edges(round),
                i <= count,
                forall|d: Digest| #[trigger]
                    result@.contains(d) <==> goal.contains(d) && digests.take(i as int).contains(d),
            decreases count - i,
        {
            proof {
                lemma_take_contains(digests, i as int);
            }
            let digest = self.grbc_certificates.key_at(i);
            let certificate = self.grbc_certificates.value_at(i);
            if certificate.round() == round && !self.grade_two.contains(&digest) {
                result.insert(digest);
            }
            i += 1;
        }
        proof {
            assert(digests.take(digests.len() as int) =~= digests);
            assert forall|d: Digest| result@.contains(d) == goal.contains(d) by {
                if goal.contains(d) {
                    assert(digests.to_set().contains(d));
                }
            }
            assert(result@ =~= goal);
        }
        result
    }

    /// The grade-2 blocks of earlier rounds that no edge references.
    fn collect_weak_edges(&self, round: Round) -> (result: OrdSet<Digest>)
        ensures
            result@ == self@.weak_edges(round),
    {
        broadcast use group_ordered;

        let ghost digests = self.weak_edge_candidates.key_seq();
        let ghost goal = self@.weak_edges(round);
        let mut result: OrdSet<Digest> = OrdSet::new();
        let count = self.weak_edge_candidates.len();
        let mut i: usize = 0;
        while i < count
            invariant
                count == digests.len(),
                digests == self.weak_edge_candidates.key_seq(),
                goal == self@.weak_edges(round),
                i <= count,
                forall|d: Digest| #[trigger]
                    result@.contains(d) <==> goal.contains(d) && digests.take(i as int).contains(d),
            decreases count - i,
        {
            proof {
                lemma_take_contains(digests, i as int);
            }
            let digest = self.weak_edge_candidates.key_at(i);
            if *self.weak_edge_candidates.value_at(i) < round {
                result.insert(digest);
            }
            i += 1;
        }
        proof {
            assert(digests.take(digests.len() as int) =~= digests);
            assert forall|d: Digest| result@.contains(d) == goal.contains(d) by {
                if goal.contains(d) {
                    assert(digests.to_set().contains(d));
                }
            }
            assert(result@ =~= goal);
        }
        result
    }

    /// Counts a grade-2 block towards the next round.
    fn advance_grade_two(&mut self, certificate: Certificate)
        requires
            old(self).wf(),
            certificate.round() < Round::MAX,
        ensures
            final(self)@ == old(self)@.advance(certificate, &old(self).committee),
            final(self).same_node(old(self)),
            final(self).wf(),
    {
        let ghost start = self@;
        let digest = certificate.digest();
        let round = certificate.round();
        self.round_advance_pending.remove(&digest);
        let ghost gathered = self.certificates_aggregators@;
        let mut aggregator = match self.certificates_aggregators.remove(&round) {
            Some(aggregator) => aggregator,
            None => CertificatesAggregator::new(),
        };
        let ghost before = aggregator@;
        proof {
            TallyView::lemma_empty(&self.committee);
            assert(GatherView::empty().tally() =~= TallyView::empty());
            assert(start.gathered.contains_key(round) ==> start.gathered[round].wf(
                &self.committee,
            ));
            assert(before == start.gathered_in(round));
        }
        let outcome = aggregator.append(certificate, &self.committee);
        self.certificates_aggregators.insert(round, aggregator);
        let ghost counted = self@;
        proof {
            assert(self.certificates_aggregators@.map_values(|a: CertificatesAggregator| a@)
                =~= gathered.map_values(|a: CertificatesAggregator| a@).insert(
                round,
                aggregator@,
            ));
            assert(counted =~= (CoreView {
                advancing: start.advancing.remove(digest),
                gathered: start.gathered.insert(
                    round,
                    before.gather(&self.committee, certificate),
                ),
                ..start
            }));
            assert(self.wf());
        }
        if let Ok(Some(parents)) = outcome {
            let virtual_edges = self.collect_virtual_edges(round);
            let weak_edges = self.collect_weak_edges(round);
            let mut referenced: OrdSet<Digest> = OrdSet::new();
            insert_all(&mut referenced, &parents);
            let ghost kept = |d: Digest, r: Round|
                !parents@.contains(d) && !weak_edges@.contains(d);
            let strong = &referenced;
            let weak = &weak_edges;
            proof {
                assert forall|d: Digest| strong@.contains(d) == parents@.contains(d) by {
                    assert(parents@.to_set().contains(d) == parents@.contains(d));
                }
            }
            let keep = |d: &Digest, _r: &Round| -> (keep: bool)
                ensures
                    keep == (!strong@.contains(*d) && !weak@.contains(*d)),
                {
                    !strong.contains(d) && !weak.contains(d)
                };
            self.weak_edge_candidates.retain(keep, Ghost(kept));
            let ghost kept_state = self@;
            let virtuals = virtual_edges.items();
            let weaks = weak_edges.items();
            self.emit(Effect::RoundAdvanced(round + 1));
            self.emit(Effect::Propose(parents, weaks, virtuals, round));
            proof {
                assert(counted.virtual_edges(round) =~= start.virtual_edges(round));
                assert(counted.weak_edges(round) =~= start.weak_edges(round));
                assert(kept_state.weak_candidates =~= keep_where(start.weak_candidates, kept));
                assert(self@ =~= start.advance(certificate, &self.committee));
            }
        }
    }

    /// Asks again for the blocks that could not count.
    fn retry_round_advance_pending(&mut self)
        ensures
            final(self)@ == old(self)@.retry(),
            final(self).same_node(old(self)),
    {
        let ghost start = self@;
        let digests = self.round_advance_pending.keys();
        let ghost task = |d: Digest| Task::AwaitReady(start.advancing[d]);
        let ghost base = self.tasks@;
        let mut left: usize = digests.len();
        proof {
            assert(digests@.skip(left as int) =~= Seq::empty());
            assert(base + Seq::<Digest>::empty().reverse().map_values(task) =~= base);
        }
        while left > 0
            invariant
                left <= digests@.len(),
                digests@.to_set() == start.advancing.dom(),
                task == (|d: Digest| Task::AwaitReady(start.advancing[d])),
                self.tasks@ == base + digests@.skip(left as int).reverse().map_values(task),
                self@ == (CoreView { tasks: self.tasks@, ..start }),
                self.same_node(old(self)),
            decreases left,
        {
            left -= 1;
            proof {
                assert(digests@.to_set().contains(digests@[left as int]));
                assert(start.advancing.contains_key(digests@[left as int]));
            }
            if let Some(certificate) = self.round_advance_pending.get(&digests[left]) {
                self.tasks.push(Task::AwaitReady(certificate.clone()));
            }
            proof {
                let shorter = digests@.skip(left + 1);
                let longer = digests@.skip(left as int);
                assert(longer =~= seq![digests@[left as int]] + shorter);
                assert(longer.reverse().map_values(task) =~= shorter.reverse().map_values(
                    task,
                ).push(task(digests@[left as int])));
                assert(self.tasks@ =~= base + longer.reverse().map_values(task));
            }
        }
        proof {
            assert(digests@.skip(0) =~= digests@);
            assert(self@ =~= start.retry());
        }
    }

    // ----- Steps -----

    /// The question that a waiting task asks.
    pub open spec fn asks(task: Task) -> Option<Question> {
        match task {
            Task::AwaitParents(h) => Some(Question::Parents(h)),
            Task::AwaitPayload(h) => Some(Question::Payload(h)),
            Task::AwaitVote(h) => Some(Question::SignVote(h)),
            Task::AwaitDelivery(c) => Some(Question::Delivery(c)),
            Task::AwaitGrade(d, r, o) => Some(Question::SignGrade(d, r, o)),
            Task::AwaitReady(c) => Some(Question::Ready(c)),
            _ => None,
        }
    }

    /// What processing a vote comes to.
    pub open spec fn votes(
        before: CoreView,
        vote: Vote,
        committee: &Committee,
        after: CoreView,
        step: Step,
    ) -> bool {
        if !before.headers.contains_key(vote.id) {
            after == before.park_vote(vote) && step is Done
        } else {
            match before.vote_error(vote) {
                Some(error) => after == before.refuse_vote(vote) && step == before.failure(error),
                None => {
                    &&& step is Done
                    &&& if before.vote_completes(vote, committee) {
                        exists|c: Certificate| #[trigger]
                            before.certifies(vote, c, committee) && after == before.count_vote(
                                vote,
                                committee,
                            ).assemble(c)
                    } else {
                        after == before.count_vote(vote, committee)
                    }
                },
            }
        }
    }

    /// What seeing a grade vote comes to.
    pub open spec fn grades(
        before: CoreView,
        vote: GradeVote,
        committee: &Committee,
        after: CoreView,
        step: Step,
    ) -> bool {
        if before.grade_fits(vote) {
            after == before.hear_grade(vote, committee) && step is Done
        } else {
            after == before.give_up() && step == before.failure(
                DagError::UnexpectedGradeVote(vote.id),
            )
        }
    }

    /// What counting a grade vote comes to.
    pub open spec fn tallies(
        before: CoreView,
        vote: GradeVote,
        committee: &Committee,
        after: CoreView,
        step: Step,
    ) -> bool {
        if !before.certificates.contains_key(vote.id) {
            after == before.park_grade(vote) && step is Done
        } else {
            match before.grade_error(vote) {
                Some(error) => after == before.refuse_grade(vote) && step == before.failure(error),
                None => after == before.count_grade(vote, committee) && step is Done,
            }
        }
    }

    /// What the next piece of work comes to.
    pub open spec fn steps(
        before: CoreView,
        committee: &Committee,
        after: CoreView,
        step: Step,
    ) -> bool {
        if before.tasks.len() == 0 {
            after == before && step is Idle
        } else {
            let task = before.tasks.last();
            let rest = before.pop();
            match Self::asks(task) {
                Some(question) => after == before && step == Step::Ask(question),
                None => match task {
                    Task::Vote(v) => Self::votes(rest, v, committee, after, step),
                    Task::GradeVote(v) => Self::grades(rest, v, committee, after, step),
                    Task::Tally(v) => Self::tallies(rest, v, committee, after, step),
                    _ => {
                        &&& step is Done
                        &&& after == (match task {
                            Task::Header(h) => rest.push(Task::Parents(h)).observe(h),
                            Task::Parents(h) => rest.mark_processing(h).push(
                                Task::AwaitParents(h),
                            ),
                            Task::Certificate(c) => rest.push(Task::Embedded(c)).observe(c.header),
                            Task::Embedded(c) => rest.embed(c),
                            Task::PendingGrades(d) => rest.release_grades(d),
                            Task::Graded(c) => rest.push(Task::GradeTwo(c)).observe(c.header),
                            Task::GradeTwo(c) => rest.deliver_two(c),
                            Task::Retry => rest.retry(),
                            _ => rest,
                        })
                    },
                },
            }
        }
    }

    /// Does the next piece of work, or asks the question that it waits on.
    pub fn step(&mut self) -> (step: Step)
        requires
            old(self).wf(),
        ensures
            final(self).same_node(old(self)),
            final(self).wf(),
            Self::steps(old(self)@, &old(self).committee, final(self)@, step),
    {
        let ghost start = self@;
        let task = match self.tasks.pop() {
            Some(task) => task,
            None => {
                proof {
                    assert(self@ =~= start);
                }
                return Step::Idle;
            },
        };
        let ghost rest = self@;
        proof {
            assert(rest =~= start.pop());
            assert(start.tasks =~= rest.tasks.push(task));
        }
        match task {
            Task::Header(header) => {
                self.tasks.push(Task::Parents(share(&header)));
                proof {
                    assert(self@ =~= rest.push(Task::Parents(header)));
                }
                self.observe_header(&header);
                Step::Done
            },
            Task::Parents(header) => {
                self.processing.insert(header.round, header.id);
                self.tasks.push(Task::AwaitParents(share(&header)));
                proof {
                    assert(self@ =~= rest.mark_processing(header).push(
                        Task::AwaitParents(header),
                    ));
                }
                Step::Done
            },
            Task::AwaitParents(header) => {
                self.tasks.push(Task::AwaitParents(share(&header)));
                proof {
                    assert(self@ =~= start);
                }
                Step::Ask(Question::Parents(header))
            },
            Task::AwaitPayload(header) => {
                self.tasks.push(Task::AwaitPayload(share(&header)));
                proof {
                    assert(self@ =~= start);
                }
                Step::Ask(Question::Payload(header))
            },
            Task::AwaitVote(header) => {
                self.tasks.push(Task::AwaitVote(share(&header)));
                proof {
                    assert(self@ =~= start);
                }
                Step::Ask(Question::SignVote(header))
            },
            Task::Vote(vote) => self.process_vote(vote),
            Task::Certificate(certificate) => {
                let header = share(&certificate.header);
                self.tasks.push(Task::Embedded(certificate));
                proof {
                    assert(self@ =~= rest.push(Task::Embedded(certificate)));
                }
                self.observe_header(&header);
                Step::Done
            },
            Task::Embedded(certificate) => {
                let header = share(&certificate.header);
                self.tasks.push(Task::AwaitDelivery(certificate));
                if !self.processing.contains(&header.round, &header.id) {
                    self.tasks.push(Task::Header(header));
                }
                proof {
                    assert(self@ =~= rest.embed(certificate));
                }
                Step::Done
            },
            Task::AwaitDelivery(certificate) => {
                self.tasks.push(Task::AwaitDelivery(certificate.clone()));
                proof {
                    assert(self@ =~= start);
                }
                Step::Ask(Question::Delivery(certificate))
            },
            Task::AwaitGrade(digest, round, origin) => {
                self.tasks.push(Task::AwaitGrade(digest, round, origin));
                proof {
                    assert(self@ =~= start);
                }
                Step::Ask(Question::SignGrade(digest, round, origin))
            },
            Task::PendingGrades(digest) => {
                self.release_grades(&digest);
                Step::Done
            },
            Task::GradeVote(vote) => self.process_grade_vote(vote),
            Task::Tally(vote) => self.tally_grade_vote(vote),
            Task::Graded(certificate) => {
                let header = share(&certificate.header);
                self.tasks.push(Task::GradeTwo(certificate));
                proof {
                    assert(self@ =~= rest.push(Task::GradeTwo(certificate)));
                }
                self.observe_header(&header);
                Step::Done
            },
            Task::GradeTwo(certificate) => {
                self.deliver_grade_two(certificate);
                Step::Done
            },
            Task::AwaitReady(certificate) => {
                self.tasks.push(Task::AwaitReady(certificate.clone()));
                proof {
                    assert(self@ =~= start);
                }
                Step::Ask(Question::Ready(certificate))
            },
            Task::Retry => {
                self.retry_round_advance_pending();
                Step::Done
            },
            Task::Barrier => Step::Done,
        }
    }

    /// Whether a reply answers the question of a waiting task.
    pub open spec fn answers(task: Task, reply: Reply) -> bool {
        match (task, reply) {
            (Task::AwaitParents(_), Reply::Parents(_)) => true,
            (Task::AwaitPayload(_), Reply::Payload(_)) => true,
            (Task::AwaitVote(_), Reply::Signature(_)) => true,
            (Task::AwaitDelivery(_), Reply::Delivery(_)) => true,
            (Task::AwaitGrade(_, _, _), Reply::Signature(_)) => true,
            (Task::AwaitReady(_), Reply::Ready(_)) => true,
            (_, Reply::Failure(_)) => Self::asks(task) is Some,
            _ => false,
        }
    }

    /// The work after the answer to a question, and whether it failed.
    pub open spec fn resumed(
        rest: CoreView,
        task: Task,
        reply: Reply,
        committee: &Committee,
        name: PublicKey,
    ) -> (CoreView, Option<DagError>) {
        match (task, reply) {
            (_, Reply::Failure(error)) => (rest.give_up(), Some(error)),
            (Task::AwaitParents(h), Reply::Parents(referenced)) => if referenced@.len() == 0 {
                (rest, None)
            } else {
                match reference_error(committee, *h, referenced@) {
                    Some(error) => (rest.give_up(), Some(error)),
                    None => (rest.push(Task::AwaitPayload(h)), None),
                }
            },
            (Task::AwaitPayload(h), Reply::Payload(missing)) => if missing {
                (rest, None)
            } else {
                (rest.accept_header(h), None)
            },
            (Task::AwaitVote(h), Reply::Signature(signature)) => {
                let vote = CoreView::vote_for(h, name, signature);
                (rest.emit(EffectView::BroadcastVote(vote)).push(Task::Vote(vote)), None)
            },
            (Task::AwaitDelivery(c), Reply::Delivery(there)) => if there {
                (rest.deliver(c), None)
            } else {
                (rest, None)
            },
            (Task::AwaitGrade(d, r, o), Reply::Signature(signature)) => {
                let vote = CoreView::grade_for(d, r, o, name, signature);
                (rest.emit(EffectView::BroadcastGradeVote(vote)).push(Task::GradeVote(vote)), None)
            },
            (Task::AwaitReady(c), Reply::Ready(there)) => if there {
                (rest.advance(c, committee), None)
            } else {
                (rest.postpone(c), None)
            },
            _ => (rest, None),
        }
    }

    /// Goes on with the answer to the question that the work waits on. A reply
    /// to no question changes nothing.
    pub fn answer(&mut self, reply: Reply) -> (step: Step)
        requires
            old(self).wf(),
            old(self)@.tasks.len() > 0 ==> (old(self)@.tasks.last() matches Task::AwaitReady(c)
                ==> c.round() < Round::MAX),
        ensures
            final(self).same_node(old(self)),
            final(self).wf(),
            if old(self)@.tasks.len() > 0 && Self::answers(old(self)@.tasks.last(), reply) {
                let (after, error) = Self::resumed(
                    old(self)@.pop(),
                    old(self)@.tasks.last(),
                    reply,
                    &old(self).committee,
                    old(self).name,
                );
                &&& final(self)@ == after
                &&& match error {
                    Some(error) => step == old(self)@.pop().failure(error),
                    None => step is Done,
                }
            } else {
                final(self)@ == old(self)@ && step is Idle
            },
    {
        let ghost start = self@;
        let task = match self.tasks.pop() {
            Some(task) => task,
            None => {
                proof {
                    assert(self@ =~= start);
                }
                return Step::Idle;
            },
        };
        let ghost rest = self@;
        proof {
            assert(rest =~= start.pop());
            assert(start.tasks =~= rest.tasks.push(task));
        }
        match (task, reply) {
            (Task::AwaitParents(header), Reply::Parents(referenced)) => {
                if referenced.len() == 0 {
                    return Step::Done;
                }
                match check_references(&self.committee, &header, &referenced) {
                    Err(error) => self.fail(error),
                    Ok(()) => {
                        self.tasks.push(Task::AwaitPayload(header));
                        proof {
                            assert(self@ =~= rest.push(Task::AwaitPayload(header)));
                        }
                        Step::Done
                    },
                }
            },
            (Task::AwaitPayload(header), Reply::Payload(missing)) => {
                if !missing {
                    self.accept_header(header);
                }
                Step::Done
            },
            (Task::AwaitVote(header), Reply::Signature(signature)) => {
                let vote = Vote {
                    id: header.id,
                    round: header.round,
                    origin: header.author,
                    author: self.name,
                    signature,
                };
                self.emit(Effect::BroadcastVote(vote));
                let ghost sent = self@;
                self.tasks.push(Task::Vote(vote));
                proof {
                    assert(self@ =~= sent.push(Task::Vote(vote)));
                }
                Step::Done
            },
            (Task::AwaitDelivery(certificate), Reply::Delivery(there)) => {
                if there {
                    self.deliver_certificate(certificate);
                }
                Step::Done
            },
            (Task::AwaitGrade(id, round, origin), Reply::Signature(signature)) => {
                let vote = GradeVote { id, round, origin, author: self.name, signature };
                self.emit(Effect::BroadcastGradeVote(vote));
                let ghost sent = self@;
                self.tasks.push(Task::GradeVote(vote));
                proof {
                    assert(self@ =~= sent.push(Task::GradeVote(vote)));
                }
                Step::Done
            },
            (Task::AwaitReady(certificate), Reply::Ready(there)) => {
                if there {
                    self.advance_grade_two(certificate);
                } else {
                    self.round_advance_pending.insert(certificate.digest(), certificate);
                    proof {
                        assert(self@ =~= rest.postpone(certificate));
                    }
                }
                Step::Done
            },
            (Task::AwaitParents(_), Reply::Failure(error)) => self.fail(error),
            (Task::AwaitPayload(_), Reply::Failure(error)) => self.fail(error),
            (Task::AwaitVote(_), Reply::Failure(error)) => self.fail(error),
            (Task::AwaitDelivery(_), Reply::Failure(error)) => self.fail(error),
            (Task::AwaitGrade(_, _, _), Reply::Failure(error)) => self.fail(error),
            (Task::AwaitReady(_), Reply::Failure(error)) => self.fail(error),
            (task, _) => {
                self.tasks.push(task);
                proof {
                    assert(self@ =~= start);
                }
                Step::Idle
            },
        }
    }
}

} // verus!
