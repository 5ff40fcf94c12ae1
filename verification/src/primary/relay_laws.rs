//! When a node relays a grade vote of its own.
use crate::committee::Committee;
use crate::primary::machine::{EffectView, Reply, Step, Task};
use crate::primary::messages::GradeVote;
use crate::primary::node::{Core, CoreView};
use crate::types::{Digest, PublicKey, Round, Signature};
use vstd::prelude::*;

verus! {

/// Whether all `votes` are for the block `d` of this round and author.
pub open spec fn all_for(
    votes: Seq<GradeVote>,
    d: Digest,
    round: Round,
    origin: PublicKey,
) -> bool {
    forall|i: int|
        0 <= i < votes.len() ==> (#[trigger] votes[i]).id == d && votes[i].round == round
            && votes[i].origin == origin
}

/// The authors of the first `n` votes, together with `senders`.
pub open spec fn heard_from(
    senders: Set<PublicKey>,
    votes: Seq<GradeVote>,
    n: int,
) -> Set<PublicKey>
    decreases n,
{
    if n <= 0 {
        senders
    } else {
        heard_from(senders, votes, n - 1).insert(votes[n - 1].author)
    }
}

impl CoreView {
    /// Who sent a grade vote for the block `d`.
    pub open spec fn senders_for(self, d: Digest) -> Set<PublicKey> {
        if self.support.contains_key(d) {
            self.support[d].senders
        } else {
            Set::empty()
        }
    }

    /// Whether the two states know the same of the grade votes for the block
    /// `d`, and of whether one of the node's own went out.
    pub open spec fn same_relay(self, other: CoreView, d: Digest) -> bool {
        &&& self.support.contains_key(d) == other.support.contains_key(d)
        &&& self.support.contains_key(d) ==> self.support[d] == other.support[d]
        &&& self.grade_voted.contains(d) == other.grade_voted.contains(d)
    }
}

impl Core {
    /// Whether `states` are those in which the node hears `votes`, one after the
    /// other, and does other work in between that leaves alone what it knows of
    /// the grade votes for the block `d`.
    pub open spec fn hears_all(
        states: Seq<CoreView>,
        votes: Seq<GradeVote>,
        committee: &Committee,
        d: Digest,
    ) -> bool {
        &&& states.len() == votes.len()
        &&& forall|k: int|
            0 < k < states.len() ==> (#[trigger] states[k]).same_relay(
                states[k - 1].hear_grade(votes[k - 1], committee),
                d,
            )
    }

    /// What the node knows of the grade votes for a block when it hears one.
    proof fn lemma_heard(
        states: Seq<CoreView>,
        votes: Seq<GradeVote>,
        committee: &Committee,
        d: Digest,
        round: Round,
        origin: PublicKey,
        k: int,
    )
        requires
            all_for(votes, d, round, origin),
            Self::hears_all(states, votes, committee, d),
            0 <= k < votes.len(),
            !states[0].grade_voted.contains(d),
            states[0].grade_fits(votes[0]),
            committee.weight(states[0].senders_for(d)) < committee.validity(),
        ensures
            states[k].grade_fits(votes[k]),
            states[k].support_of(votes[k]).senders == heard_from(
                states[0].senders_for(d),
                votes,
                k,
            ),
            states[k].grade_voted.contains(d) <==> committee.weight(
                heard_from(states[0].senders_for(d), votes, k),
            ) >= committee.validity(),
        decreases k,
    {
        let senders = states[0].senders_for(d);
        assert(votes[k].id == d && votes[k].round == round && votes[k].origin == origin);
        if k > 0 {
            let before = states[k - 1];
            let vote = votes[k - 1];
            assert(vote.id == d && vote.round == round && vote.origin == origin);
            Self::lemma_heard(states, votes, committee, d, round, origin, k - 1);
            assert(states[k].same_relay(before.hear_grade(vote, committee), d));
            committee.lemma_weight_monotone(
                heard_from(senders, votes, k - 1),
                heard_from(senders, votes, k),
            );
        }
    }

    /// Of a sequence of grade votes for one block, exactly the one that brings
    /// the stake of the distinct senders to the threshold, and no other, makes
    /// the node begin a grade vote of its own. No vote of the sequence is
    /// refused, and a repeated sender adds no stake.
    pub proof fn law_grade_vote_is_relayed_at_the_threshold(
        states: Seq<CoreView>,
        votes: Seq<GradeVote>,
        committee: &Committee,
        d: Digest,
        round: Round,
        origin: PublicKey,
        k: int,
    )
        requires
            all_for(votes, d, round, origin),
            Self::hears_all(states, votes, committee, d),
            0 <= k < votes.len(),
            !states[0].grade_voted.contains(d),
            states[0].grade_fits(votes[0]),
            committee.weight(states[0].senders_for(d)) < committee.validity(),
        ensures
            ({
                let senders = states[0].senders_for(d);
                let relays = committee.weight(heard_from(senders, votes, k)) < committee.validity()
                    <= committee.weight(heard_from(senders, votes, k + 1));
                let after = states[k].hear_grade(votes[k], committee);
                &&& states[k].grade_fits(votes[k])
                &&& states[k].relays(votes[k], committee) <==> relays
                &&& after.tasks == if relays {
                    states[k].tasks.push(Task::Tally(votes[k])).push(
                        Task::AwaitGrade(d, round, origin),
                    )
                } else {
                    states[k].tasks.push(Task::Tally(votes[k]))
                }
                &&& heard_from(senders, votes, k).contains(votes[k].author) ==> !relays
            }),
    {
        let senders = states[0].senders_for(d);
        Self::lemma_heard(states, votes, committee, d, round, origin, k);
        assert(votes[k].id == d && votes[k].round == round && votes[k].origin == origin);
        let heard = heard_from(senders, votes, k);
        if heard.contains(votes[k].author) {
            assert(heard.insert(votes[k].author) =~= heard);
        }
    }

    /// A grade vote that was begun is sent out to all once it is signed, and
    /// then processed like one of another node.
    pub proof fn law_begun_grade_vote_is_sent(
        before: CoreView,
        d: Digest,
        round: Round,
        origin: PublicKey,
        signature: Signature,
        committee: &Committee,
        name: PublicKey,
    )
        ensures
            ({
                let vote = CoreView::grade_for(d, round, origin, name, signature);
                let task = Task::AwaitGrade(d, round, origin);
                let (after, error) = Self::resumed(
                    before,
                    task,
                    Reply::Signature(signature),
                    committee,
                    name,
                );
                &&& error is None
                &&& after.effects == before.effects.push(EffectView::BroadcastGradeVote(vote))
                &&& after.tasks == before.tasks.push(Task::GradeVote(vote))
                &&& after.same_relay(before, d)
            }),
    {
    }

    /// Work other than hearing a grade vote for a block, and delivering its
    /// certificate, leaves alone what the node knows of the grade votes for it.
    pub proof fn law_other_work_leaves_grade_votes_alone(
        before: CoreView,
        committee: &Committee,
        after: CoreView,
        step: Step,
        reply: Reply,
        name: PublicKey,
        d: Digest,
    )
        requires
            Self::steps(before, committee, after, step),
            before.tasks.len() > 0 ==> (before.tasks.last() matches Task::GradeVote(v) ==> v.id
                != d),
            before.tasks.len() > 0 ==> (before.tasks.last() matches Task::AwaitDelivery(c)
                ==> c.digest() != d),
        ensures
            after.same_relay(before, d),
            before.tasks.len() > 0 ==> Self::resumed(
                before.pop(),
                before.tasks.last(),
                reply,
                committee,
                name,
            ).0.same_relay(before, d),
    {
    }
}

} // verus!
