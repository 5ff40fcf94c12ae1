//! Votes, certificates and grades in terms of their voters, and what a node
//! takes in and forgets.
use crate::committee::Committee;
use crate::ordered::{in_order, lemma_in_order_of};
use crate::primary::aggregators::TallyView;
use crate::primary::intake::aged;
use crate::primary::machine::{EffectView, Reply, Step, Task};
use crate::primary::messages::{DagError, GradeVote, Vote};
use crate::primary::node::{Core, CoreView};
use crate::types::{Certificate, Digest, Header, PublicKey, Round, Signature};
use std::sync::Arc;
use vstd::prelude::*;

verus! {

/// The voters of a list of votes.
pub open spec fn voters_of(votes: Seq<(PublicKey, Signature)>) -> Set<PublicKey> {
    Set::new(|a: PublicKey| exists|i: int| 0 <= i < votes.len() && (#[trigger] votes[i]).0 == a)
}

impl TallyView {
    /// The list holds one vote of everybody who has voted.
    pub open spec fn lists_voters(self) -> bool {
        &&& voters_of(self.votes) == self.used
        &&& forall|i: int, j: int|
            0 <= i < j < self.votes.len() ==> (#[trigger] self.votes[i]).0 != (
            #[trigger] self.votes[j]).0
    }

    /// An empty tally lists nobody.
    pub proof fn law_empty_tally_lists_nobody()
        ensures
            Self::empty().lists_voters(),
    {
        assert(voters_of(Self::empty().votes) =~= Set::empty());
    }

    /// A counted vote is listed last, and nothing else changes in the list.
    pub proof fn law_counted_vote_is_listed(
        self,
        committee: &Committee,
        author: PublicKey,
        signature: Signature,
    )
        requires
            self.lists_voters(),
            !self.used.contains(author),
        ensures
            self.count(committee, author, signature).lists_voters(),
            self.count(committee, author, signature).used == self.used.insert(author),
            self.count(committee, author, signature).votes.last() == (author, signature),
            self.count(committee, author, signature).votes.drop_last() == self.votes,
    {
        let after = self.count(committee, author, signature);
        assert(after.votes.drop_last() =~= self.votes);
        assert forall|a: PublicKey|
            voters_of(after.votes).contains(a) == self.used.insert(author).contains(a) by {
            if voters_of(after.votes).contains(a) {
                let i = choose|i: int|
                    0 <= i < after.votes.len() && (#[trigger] after.votes[i]).0 == a;
                if i < self.votes.len() {
                    assert(self.votes[i].0 == a);
                    assert(voters_of(self.votes).contains(a));
                }
            }
            if self.used.contains(a) {
                assert(voters_of(self.votes).contains(a));
                let i = choose|i: int|
                    0 <= i < self.votes.len() && (#[trigger] self.votes[i]).0 == a;
                assert(after.votes[i].0 == a);
            }
            if a == author {
                assert(after.votes[self.votes.len() as int].0 == a);
            }
        }
        assert(voters_of(after.votes) =~= after.used);
        assert forall|i: int, j: int| 0 <= i < j < after.votes.len() implies (
        #[trigger] after.votes[i]).0 != (#[trigger] after.votes[j]).0 by {
            if j == self.votes.len() {
                assert(self.votes[i].0 != author) by {
                    assert(voters_of(self.votes).contains(self.votes[i].0));
                }
            } else {
                assert(self.votes[i].0 != self.votes[j].0);
            }
        }
    }

    /// A vote completes the quorum if with it, and not before, the voters hold
    /// more than two thirds of the stake.
    pub proof fn law_vote_completes_at_two_thirds(self, committee: &Committee, author: PublicKey)
        ensures
            self.completes(committee, author) <==> !committee.holds_two_thirds(self.used)
                && committee.holds_two_thirds(self.used.insert(author)),
    {
        committee.law_thresholds(self.used);
        committee.law_thresholds(self.used.insert(author));
    }
}

impl Core {
    /// A vote for a known header is counted if it names the header, its round
    /// and its author, and its voter has none. The one with which the voters
    /// hold more than two thirds of the stake, and no other, yields a certificate
    /// of the header, which carries one vote of each voter.
    pub proof fn law_certificate_carries_a_quorum(
        before: CoreView,
        v: Vote,
        committee: &Committee,
        after: CoreView,
        step: Step,
    )
        requires
            Self::votes(before, v, committee, after, step),
            before.headers.contains_key(v.id),
            before.headers[v.id].id == v.id,
            before.votes_of(v.id).lists_voters(),
        ensures
            ({
                let h = before.headers[v.id];
                let used = before.votes_of(v.id).used;
                let voters = used.insert(v.author);
                let sound = v.round == h.round && v.origin == h.author && !used.contains(v.author);
                &&& !sound ==> after.effects == before.effects && after.tasks.len() == 0
                    && after.votes_of(v.id) == before.votes_of(v.id) && !(step is Done)
                &&& !(v.round == h.round && v.origin == h.author) ==> step == before.failure(
                    DagError::UnexpectedVote(v.id),
                )
                &&& v.round == h.round && v.origin == h.author && used.contains(v.author) ==> step
                    == before.failure(DagError::AuthorityReuse(v.author))
                &&& sound ==> step is Done && after.votes_of(v.id).used == voters
                    && after.votes_of(v.id).lists_voters()
                &&& sound && !(!committee.holds_two_thirds(used) && committee.holds_two_thirds(
                    voters,
                )) ==> after.effects == before.effects && after.tasks == before.tasks
                &&& sound && !committee.holds_two_thirds(used) && committee.holds_two_thirds(voters)
                    ==> exists|c: Certificate|
                    c.header == h && voters_of(c.votes@) == voters && #[trigger] after.effects
                        == before.effects.push(EffectView::BroadcastCertificate(c)) && after.tasks
                        == before.tasks.push(Task::Barrier).push(Task::Certificate(c))
            }),
    {
        let h = before.headers[v.id];
        let tally = before.votes_of(v.id);
        tally.law_vote_completes_at_two_thirds(committee, v.author);
        if before.vote_error(v) is None {
            tally.law_counted_vote_is_listed(committee, v.author, v.signature);
            if before.vote_completes(v, committee) {
                let c = choose|c: Certificate| #[trigger]
                    before.certifies(v, c, committee) && after == before.count_vote(
                        v,
                        committee,
                    ).assemble(c);
                assert(after.effects == before.effects.push(EffectView::BroadcastCertificate(c)));
            }
        }
    }

    /// A grade vote for a delivered block is counted if it names the round and
    /// the author of the block, and its voter has none. The one with which the
    /// voters hold more than two thirds of the stake, and no other, proves grade
    /// 2 of the block.
    pub proof fn law_grade_two_needs_a_quorum(
        before: CoreView,
        v: GradeVote,
        committee: &Committee,
        after: CoreView,
        step: Step,
    )
        requires
            Self::tallies(before, v, committee, after, step),
            before.certificates.contains_key(v.id),
            before.certificates[v.id].digest() == v.id,
        ensures
            ({
                let c = before.certificates[v.id];
                let used = before.grades_of(v.id).used;
                let voters = used.insert(v.author);
                let sound = v.round == c.round() && v.origin == c.origin() && !used.contains(
                    v.author,
                );
                &&& !sound ==> after.tasks.len() == 0 && after.grades_of(v.id) == before.grades_of(
                    v.id,
                ) && !(step is Done)
                &&& !(v.round == c.round() && v.origin == c.origin()) ==> step == before.failure(
                    DagError::UnexpectedGradeVote(v.id),
                )
                &&& v.round == c.round() && v.origin == c.origin() && used.contains(v.author)
                    ==> step == before.failure(DagError::AuthorityReuse(v.author))
                &&& sound ==> step is Done && after.grades_of(v.id).used == voters
                &&& sound ==> after.tasks == (if !committee.holds_two_thirds(used)
                    && committee.holds_two_thirds(voters) {
                    before.tasks.push(Task::Graded(c))
                } else {
                    before.tasks
                })
                &&& after.effects == before.effects
            }),
    {
        before.grades_of(v.id).law_vote_completes_at_two_thirds(committee, v.author);
    }

    /// A grade vote that names another round or author than those before it for
    /// the same block is refused. Any other is heard and then counted, and its
    /// sender is on record.
    pub proof fn law_contradicting_grade_vote_is_refused(
        before: CoreView,
        v: GradeVote,
        committee: &Committee,
        after: CoreView,
        step: Step,
    )
        requires
            Self::grades(before, v, committee, after, step),
        ensures
            ({
                let known = before.support.contains_key(v.id);
                let fits = known ==> before.support[v.id].round == v.round
                    && before.support[v.id].origin == v.origin;
                &&& !fits ==> after == before.give_up() && step == before.failure(
                    DagError::UnexpectedGradeVote(v.id),
                )
                &&& fits ==> step is Done && after.support.contains_key(v.id)
                    && after.support[v.id].senders.contains(v.author) && after.support[v.id].round
                    == v.round && after.support[v.id].origin == v.origin
                    && after.tasks[before.tasks.len() as int] == Task::Tally(v)
                &&& fits && known ==> after.support[v.id].senders
                    == before.support[v.id].senders.insert(v.author)
                &&& fits && !known ==> after.support[v.id].senders =~= set![v.author]
            }),
    {
        if !before.support.contains_key(v.id) {
            assert(Set::<PublicKey>::empty().insert(v.author) =~= set![v.author]);
        }
    }

    /// Work that lacks something is suspended without an error: a header whose
    /// referenced blocks or whose payload are missing, and a certificate whose
    /// ancestors are. A grade-2 block that is not ready is kept for later.
    pub proof fn law_work_that_lacks_something_waits(
        rest: CoreView,
        h: Arc<Header>,
        c: Certificate,
        none: Vec<Certificate>,
        committee: &Committee,
        name: PublicKey,
    )
        requires
            none@.len() == 0,
        ensures
            Self::resumed(
                rest,
                Task::AwaitParents(h),
                Reply::Parents(none),
                committee,
                name,
            ) == (rest, None::<DagError>),
            Self::resumed(rest, Task::AwaitPayload(h), Reply::Payload(true), committee, name) == (
                rest,
                None::<DagError>,
            ),
            Self::resumed(rest, Task::AwaitDelivery(c), Reply::Delivery(false), committee, name)
                == (rest, None::<DagError>),
            Self::resumed(
                rest,
                Task::AwaitReady(c),
                Reply::Ready(false),
                committee,
                name,
            ).0.advancing == rest.advancing.insert(c.digest(), c),
            Self::resumed(
                rest,
                Task::AwaitReady(c),
                Reply::Ready(false),
                committee,
                name,
            ).0.gathered == rest.gathered,
    {
    }

    /// An error behind a barrier ends the node, any other ends the work.
    pub proof fn law_failures_behind_a_barrier_are_fatal(before: CoreView, error: DagError)
        ensures
            before.failure(error) is Fatal <==> exists|i: int|
                0 <= i < before.tasks.len() && #[trigger] before.tasks[i] == Task::Barrier,
            before.failure(error) is Failed <==> !(before.failure(error) is Fatal),
    {
    }
}

impl CoreView {
    // ----- Headers -----

    /// An accepted header is stored. It is voted for if and only if its author
    /// had no vote in this round.
    pub proof fn law_one_vote_per_author_and_round(self, h: Arc<Header>, other: Arc<Header>)
        ensures
            ({
                let after = self.accept_header(h);
                &&& after.effects == self.effects.push(EffectView::StoreHeader(h))
                &&& after.last_voted.contains((h.round, h.author))
                &&& after.tasks.len() > self.tasks.len()
                &&& (after.tasks.last() == Task::AwaitVote(h)) == !self.last_voted.contains(
                    (h.round, h.author),
                )
                &&& other.round == h.round && other.author == h.author ==> after.accept_header(
                    other,
                ).tasks.last() == Task::Retry
                &&& (other.round != h.round || other.author != h.author) ==> (
                after.last_voted.contains((other.round, other.author)) == self.last_voted.contains(
                    (other.round, other.author),
                ))
            }),
    {
    }

    /// The consensus learns of a header once. The votes that waited for it are
    /// processed next, in the order in which they came.
    pub proof fn law_seen_header_releases_its_votes(self, h: Arc<Header>, i: int)
        ensures
            ({
                let after = self.observe(h);
                &&& after.headers.contains_key(h.id) && after.headers[h.id] == h
                &&& !after.pending_votes.contains_key(h.id)
                &&& after.effects == (if self.headers.contains_key(h.id) {
                    self.effects
                } else {
                    self.effects.push(EffectView::Observed(h))
                })
                &&& !self.pending_votes.contains_key(h.id) ==> after.tasks == self.tasks
                &&& self.pending_votes.contains_key(h.id) && 0 <= i
                    < self.pending_votes[h.id].len() ==> after.tasks[after.tasks.len() - 1 - i]
                    == Task::Vote(self.pending_votes[h.id][i])
                &&& self.pending_votes.contains_key(h.id) ==> after.tasks.len()
                    == self.tasks.len() + 1 + self.pending_votes[h.id].len()
                    && after.tasks[self.tasks.len() as int] == Task::Barrier
            }),
    {
    }

    /// Of one voter only the first vote waits for its header.
    pub proof fn law_first_vote_waits(self, v: Vote, again: Vote)
        requires
            again.id == v.id,
            again.author == v.author,
        ensures
            self.park_vote(v).park_vote(again) == self.park_vote(v),
            self.park_vote(v).pending_votes.contains_key(v.id),
            exists|i: int|
                0 <= i < self.park_vote(v).pending_votes[v.id].len() && (
                #[trigger] self.park_vote(v).pending_votes[v.id][i]).author == v.author,
            !self.pending_votes.contains_key(v.id) ==> self.park_vote(v).pending_votes[v.id]
                == seq![v],
    {
        let after = self.park_vote(v);
        let waiting = if self.pending_votes.contains_key(v.id) {
            self.pending_votes[v.id]
        } else {
            Seq::empty()
        };
        let list = after.pending_votes[v.id];
        if exists|i: int| 0 <= i < waiting.len() && (#[trigger] waiting[i]).author == v.author {
            let i = choose|i: int|
                0 <= i < waiting.len() && (#[trigger] waiting[i]).author == v.author;
            assert(list[i].author == v.author);
        } else {
            assert(list[waiting.len() as int].author == v.author);
        }
        assert(list =~= after.park_vote(again).pending_votes[v.id]);
        assert(after.park_vote(again) =~= after);
    }

    /// Of one voter only the first grade vote waits for its certificate.
    pub proof fn law_first_grade_vote_waits(self, v: GradeVote, again: GradeVote)
        requires
            again.id == v.id,
            again.author == v.author,
        ensures
            self.park_grade(v).park_grade(again) == self.park_grade(v),
            self.park_grade(v).pending_grades.contains_key(v.id),
            exists|i: int|
                0 <= i < self.park_grade(v).pending_grades[v.id].len() && (
                #[trigger] self.park_grade(v).pending_grades[v.id][i]).author == v.author,
            !self.pending_grades.contains_key(v.id) ==> self.park_grade(v).pending_grades[v.id]
                == seq![v],
    {
        let after = self.park_grade(v);
        let waiting = if self.pending_grades.contains_key(v.id) {
            self.pending_grades[v.id]
        } else {
            Seq::empty()
        };
        let list = after.pending_grades[v.id];
        if exists|i: int| 0 <= i < waiting.len() && (#[trigger] waiting[i]).author == v.author {
            let i = choose|i: int|
                0 <= i < waiting.len() && (#[trigger] waiting[i]).author == v.author;
            assert(list[i].author == v.author);
        } else {
            assert(list[waiting.len() as int].author == v.author);
        }
        assert(list =~= after.park_grade(again).pending_grades[v.id]);
        assert(after.park_grade(again) =~= after);
    }

    // ----- Certificates -----

    /// A certificate is delivered at grade 1 once. Its first delivery is stored,
    /// told to the consensus and answered with a grade vote, unless one was
    /// given.
    pub proof fn law_certificate_is_delivered_once(self, c: Certificate)
        ensures
            ({
                let after = self.deliver(c);
                let d = c.digest();
                &&& after.certificates.contains_key(d)
                &&& self.certificates.contains_key(d) ==> after.effects == self.effects
                    && after.certificates == self.certificates
                &&& !self.certificates.contains_key(d) ==> after.effects == self.effects.push(
                    EffectView::StoreCertificate(c),
                ).push(EffectView::GradeOne(c)) && after.certificates[d] == c
                    && after.grade_voted == self.grade_voted.insert(d)
                &&& !self.certificates.contains_key(d) ==> (after.tasks.last()
                    == Task::AwaitGrade(d, c.round(), c.origin())) == !self.grade_voted.contains(d)
                &&& self.certificates.contains_key(d) ==> (after.tasks.last()
                    == Task::AwaitReady(c)) == self.grade_two.contains(d)
                &&& after.deliver(c).effects == after.effects
            }),
    {
    }

    /// The grade votes that waited for a certificate are processed next, in the
    /// order in which they came, and wait no longer.
    pub proof fn law_certificate_releases_its_grade_votes(self, d: Digest, i: int)
        ensures
            ({
                let after = self.release_grades(d);
                &&& !after.pending_grades.contains_key(d)
                &&& !self.pending_grades.contains_key(d) ==> after.tasks == self.tasks
                &&& self.pending_grades.contains_key(d) ==> after.tasks.len() == self.tasks.len()
                    + self.pending_grades[d].len()
                &&& self.pending_grades.contains_key(d) && 0 <= i < self.pending_grades[d].len()
                    ==> after.tasks[after.tasks.len() - 1 - i] == Task::GradeVote(
                    self.pending_grades[d][i],
                )
            }),
    {
    }

    /// Every grade-2 block that could not count is asked for again.
    pub proof fn law_postponed_blocks_are_asked_for_again(self, d: Digest)
        requires
            self.advancing.dom().finite(),
            self.advancing.contains_key(d),
        ensures
            self.retry().tasks.contains(Task::AwaitReady(self.advancing[d])),
            self.retry().advancing == self.advancing,
    {
        let list = in_order(self.advancing.dom());
        lemma_in_order_of(self.advancing.dom());
        assert(list.to_set().contains(d));
        let i = choose|i: int| 0 <= i < list.len() && list[i] == d;
        let n = self.tasks.len() as int;
        let k = list.len() - 1 - i;
        assert(list.reverse()[k] == d);
        assert(self.retry().tasks[n + k] == Task::AwaitReady(self.advancing[d]));
    }

    /// The header of a certificate is processed before the certificate is
    /// delivered, unless it is being processed.
    pub proof fn law_header_comes_before_its_certificate(self, c: Certificate)
        ensures
            ({
                let after = self.embed(c);
                let n = self.tasks.len() as int;
                &&& after.tasks[n] == Task::AwaitDelivery(c)
                &&& self.processing.contains((c.round(), c.header.id)) ==> after.tasks.len() == n
                    + 1
                &&& !self.processing.contains((c.round(), c.header.id)) ==> after.tasks.len() == n
                    + 2 && after.tasks[n + 1] == Task::Header(c.header)
            }),
    {
    }

    // ----- What is taken in and what is forgotten -----

    /// A message of a round that was cleaned up is refused as too old, whatever
    /// its verification says. One of the last cleaned-up round or later stands as
    /// verified.
    pub proof fn law_old_messages_are_refused(
        gc_round: Round,
        digest: Digest,
        round: Round,
        verification: Result<(), DagError>,
    )
        ensures
            round < gc_round ==> aged(gc_round, digest, round, verification) == Err::<
                (),
                DagError,
            >(DagError::TooOld(digest, round)),
            round >= gc_round ==> aged(gc_round, digest, round, verification) == verification,
    {
    }

    /// A node cleans up what lies more than `gc_depth` rounds below the
    /// consensus, and nothing while the consensus has not come that far.
    pub proof fn law_cleanup_stays_behind_the_consensus(
        self,
        consensus_round: Round,
        gc_depth: Round,
    )
        ensures
            consensus_round <= gc_depth ==> self.clean(consensus_round, gc_depth) == self,
            consensus_round > gc_depth ==> self.clean(consensus_round, gc_depth).gc_round + gc_depth
                == consensus_round,
    {
    }

    /// After a cleanup the node holds what it held of the rounds from `gc_round`
    /// on, and nothing of the rounds below.
    pub proof fn law_cleanup_forgets_the_past(self, gc_round: Round, d: Digest, r: Round, a: PublicKey)
        ensures
            ({
                let after = self.forget(gc_round);
                &&& after.gc_round == gc_round
                &&& after.certificates.contains_key(d) <==> self.certificates.contains_key(d)
                    && self.certificates[d].round() >= gc_round
                &&& after.headers.contains_key(d) <==> self.headers.contains_key(d)
                    && self.headers[d].round >= gc_round
                &&& after.support.contains_key(d) <==> self.support.contains_key(d)
                    && self.support[d].round >= gc_round
                &&& after.gathered.contains_key(r) <==> self.gathered.contains_key(r) && r
                    >= gc_round
                &&& after.last_voted.contains((r, a)) <==> self.last_voted.contains((r, a)) && r
                    >= gc_round
                &&& after.processing.contains((r, d)) <==> self.processing.contains((r, d)) && r
                    >= gc_round
                &&& after.weak_candidates.contains_key(d) <==> self.weak_candidates.contains_key(d)
                    && self.weak_candidates[d] >= gc_round
                &&& after.grade_two.contains(d) <==> self.grade_two.contains(d)
                    && self.certificates.contains_key(d) && self.certificates[d].round()
                    >= gc_round
                &&& after.votes.contains_key(d) <==> self.votes.contains_key(d)
                    && self.headers.contains_key(d) && self.headers[d].round >= gc_round
                &&& after.grades.contains_key(d) <==> self.grades.contains_key(d)
                    && self.certificates.contains_key(d) && self.certificates[d].round()
                    >= gc_round
                &&& after.grade_voted.contains(d) <==> self.grade_voted.contains(d) && ((
                self.certificates.contains_key(d) && self.certificates[d].round() >= gc_round) || (
                self.support.contains_key(d) && self.support[d].round >= gc_round))
                &&& after.pending_votes.contains_key(d) <==> self.pending_votes.contains_key(d)
                    && exists|i: int|
                    0 <= i < self.pending_votes[d].len() && (
                    #[trigger] self.pending_votes[d][i]).round >= gc_round
                &&& after.pending_grades.contains_key(d) <==> self.pending_grades.contains_key(d)
                    && exists|i: int|
                    0 <= i < self.pending_grades[d].len() && (
                    #[trigger] self.pending_grades[d][i]).round >= gc_round
                &&& after.certificates.contains_key(d) ==> after.certificates[d]
                    == self.certificates[d]
                &&& after.headers.contains_key(d) ==> after.headers[d] == self.headers[d]
                &&& after.advancing == self.advancing
                &&& after.tasks == self.tasks
                &&& after.effects == self.effects
            }),
    {
    }
}

} // verus!
