//! The messages that drive the consensus.
use crate::consensus::commit::Time;
use crate::consensus::model::{lane_of, CommitView, StateView};
use crate::consensus::recovery::datable;
use crate::consensus::rules::Consensus;
use crate::consensus::state::State;
use crate::ordered::{in_order, insert_all, OrdSet};
use crate::types::{Certificate, Digest, PublicKey, Round, LAST_ROUND};
use vstd::prelude::*;

verus! {

/// What the primary tells the consensus.
pub enum ConsensusMessage {
    /// The node entered a round.
    RoundAdvanced(Round),
    /// A valid block was seen before its certificate. It has no votes.
    Observed(Certificate),
    /// A block was delivered at grade 1.
    GradeOne(Certificate),
    /// A block was delivered at grade 2.
    GradeTwo(Certificate),
}

/// The stage at which a block arrives.
#[derive(Clone, Copy, Debug, PartialEq, Eq, Structural)]
pub enum Stage {
    /// Before its certificate.
    Observed,
    /// Delivered at grade 1.
    GradeOne,
    /// Delivered at grade 2.
    GradeTwo,
}

impl StateView {
    /// Takes a block in at a stage: the state and the blocks promoted by it.
    pub open spec fn take_in(self, c: Certificate, stage: Stage) -> (StateView, Seq<Certificate>) {
        match stage {
            Stage::Observed => (self.observe(c), Seq::empty()),
            Stage::GradeOne => self.insert_grade_one(c).promote_ready(),
            Stage::GradeTwo => self.observe(c).mark_grade_two(c.digest()).promote_ready(),
        }
    }

    /// The rounds of the leaders that a block may decide.
    pub open spec fn dirtied_by(self, c: Certificate, stage: Stage) -> Set<Round> {
        match stage {
            Stage::GradeOne => self.grade_one_dirties(c),
            _ => self.observe_dirties(c),
        }
    }

    /// What holds between the states before and after a message is handled.
    pub open spec fn keeps_upon(self, message: ConsensusMessage, after: StateView) -> bool {
        match message {
            ConsensusMessage::RoundAdvanced(_) => self.keeps(after),
            ConsensusMessage::Observed(c) => self.keeps_given(c, after),
            ConsensusMessage::GradeOne(c) => self.keeps_given(c, after),
            ConsensusMessage::GradeTwo(c) => self.keeps_given(c, after),
        }
    }

    /// All leaders of `rounds` are to be evaluated again.
    pub open spec fn mark_leaders(self, rounds: Set<Round>) -> StateView {
        StateView {
            commits: CommitView {
                dirty_leaders: self.commits.dirty_leaders.union(rounds),
                ..self.commits
            },
            ..self
        }
    }

    /// The block of a leader arrived: the leader and the anchor of its lane are
    /// to be evaluated again.
    pub open spec fn greet_leader(self, round: Round) -> StateView {
        let marked = self.mark_leaders(set![round]);
        if self.fallback.anchors.contains_key(lane_of(round)) {
            marked.mark_anchor_dirty(self.fallback.anchors[lane_of(round)])
        } else {
            marked
        }
    }

    /// The authority designated as leader of a round.
    pub open spec fn designate(self, round: Round, leader: PublicKey) -> StateView {
        StateView {
            commits: CommitView { leaders: self.commits.leaders.insert(round, leader), ..self.commits },
            ..self
        }
    }
}

impl Consensus {
    /// What follows from a block that was taken in, before the rules are
    /// evaluated.
    pub open spec fn absorb(&self, s: StateView, c: Certificate, dirty: Set<Round>) -> StateView {
        let marked = self.refreshed(s, dirty).mark_leaders(dirty);
        let greeted = if c.origin() == self.lead(c.round()) {
            marked.greet_leader(c.round())
        } else {
            marked
        };
        self.promote_pending(greeted, c.round()).designate(
            c.round(),
            self.committee.turn(c.round() as int),
        )
    }

    /// The rounds in which rule 1 is evaluated: those of a first observation
    /// and of promoted blocks that hold a strong edge to the leader before.
    pub open spec fn rule_one_rounds(
        &self,
        s: StateView,
        c: Certificate,
        first: bool,
        promoted: Seq<Certificate>,
    ) -> Set<Round> {
        Set::new(
            |r: Round|
                (first && r == c.round() && s.graph.observed.contains_key(c.digest())
                    && self.backs_previous(s, s.graph.observed[c.digest()])) || exists|i: int|
                    0 <= i < promoted.len() && (#[trigger] promoted[i]).round() == r
                        && self.backs_previous(s, promoted[i]),
        )
    }

    /// The rounds in which rule 2 is evaluated: those of a first observation
    /// and of promoted blocks.
    pub open spec fn rule_two_rounds(c: Certificate, first: bool, promoted: Seq<Certificate>) -> Set<
        Round,
    > {
        Set::new(
            |r: Round|
                (first && r == c.round()) || exists|i: int|
                    0 <= i < promoted.len() && (#[trigger] promoted[i]).round() == r,
        )
    }

    /// Evaluates rule 1 in the given rounds.
    pub open spec fn rule_one_each(&self, s: StateView, rounds: Seq<Round>, now: Time) -> StateView
        decreases rounds.len(),
    {
        if rounds.len() == 0 {
            s
        } else {
            self.rule_one(self.rule_one_each(s, rounds.drop_last(), now), rounds.last(), now)
        }
    }

    /// Evaluates rule 2 in the given rounds.
    pub open spec fn rule_two_each(&self, s: StateView, rounds: Seq<Round>, now: Time) -> StateView
        decreases rounds.len(),
    {
        if rounds.len() == 0 {
            s
        } else {
            self.rule_two(self.rule_two_each(s, rounds.drop_last(), now), rounds.last(), now)
        }
    }

    /// Evaluates what a block that was taken in may decide.
    pub open spec fn react(
        &self,
        s: StateView,
        c: Certificate,
        first: bool,
        promoted: Seq<Certificate>,
        now: Time,
    ) -> StateView {
        let ones = in_order(self.rule_one_rounds(s, c, first, promoted));
        let twos = in_order(Self::rule_two_rounds(c, first, promoted));
        self.settle_dirty(
            self.rule_two_each(self.rule_one_each(s, ones, now), twos, now),
            now,
        )
    }

    /// Takes a block in at a stage of its broadcast and evaluates the commit
    /// rules.
    pub open spec fn receive(&self, s: StateView, c: Certificate, stage: Stage, now: Time) -> StateView {
        let (taken, promoted) = s.take_in(c, stage);
        self.react(
            self.absorb(taken, c, s.dirtied_by(c, stage)),
            c,
            !s.graph.observed.contains_key(c.digest()),
            promoted,
            now,
        )
    }

    /// Handles a message of the primary.
    pub open spec fn handled(&self, s: StateView, message: ConsensusMessage, now: Time) -> StateView {
        match message {
            ConsensusMessage::RoundAdvanced(round) => self.advance(s, round, now),
            ConsensusMessage::Observed(c) => self.receive(s, c, Stage::Observed, now),
            ConsensusMessage::GradeOne(c) => self.receive(s, c, Stage::GradeOne, now),
            ConsensusMessage::GradeTwo(c) => self.receive(s, c, Stage::GradeTwo, now),
        }
    }

    /// Follows up on a block that was taken in, before the rules are evaluated.
    fn absorb_block(&self, block: &Certificate, dirty: &OrdSet<Round>, state: &mut State)
        requires
            self.wf(),
            old(state)@.wf(),
            block.round() <= LAST_ROUND,
            forall|r: Round| #[trigger] dirty@.contains(r) ==> r <= LAST_ROUND,
        ensures
            final(state)@ == self.absorb(old(state)@, *block, dirty@),
            final(state)@.wf(),
            old(state)@.keeps(final(state)@),
    {
        let ghost start = state@;
        let round = block.round();
        self.refresh_pending_orders(dirty, state);
        let ghost refreshed = state@;
        let rounds = dirty.items();
        insert_all(&mut state.commits.dirty_leaders, &rounds);
        let ghost marked = state@;
        proof {
            assert(marked =~= refreshed.mark_leaders(dirty@));
            refreshed.lemma_same_graph(marked);
        }
        if block.origin() == self.ordering_leader_authority(round) {
            state.commits.dirty_leaders.insert(round);
            proof {
                assert(state@ =~= marked.mark_leaders(set![round]));
            }
            let anchor = match state.fallback.anchors.get(&(round % 3)) {
                Some(anchor) => Some(*anchor),
                None => None,
            };
            if let Some(anchor) = anchor {
                state.mark_fallback_anchor_dirty(anchor);
            }
            proof {
                assert(state@ == marked.greet_leader(round));
            }
        }
        let ghost greeted = state@;
        proof {
            marked.lemma_same_graph(greeted);
        }
        self.promote_observed_pending_leader(round, state);
        let ghost promoted = state@;
        let designated = self.leader_authority(round);
        state.commits.leaders.insert(round, designated);
        proof {
            assert(state@ =~= promoted.designate(round, designated));
            promoted.lemma_same_graph(state@);
            start.lemma_keeps(refreshed, marked);
            start.lemma_keeps(marked, greeted);
            start.lemma_keeps(greeted, promoted);
            start.lemma_keeps(promoted, state@);
        }
    }

    /// Collects the rounds in which the two rules are evaluated.
    fn rounds_to_check(
        &self,
        block: &Certificate,
        first: bool,
        promoted: &Vec<Certificate>,
        state: &State,
    ) -> (result: (OrdSet<Round>, OrdSet<Round>))
        requires
            self.wf(),
        ensures
            result.0@ == self.rule_one_rounds(state@, *block, first, promoted@),
            result.1@ == Self::rule_two_rounds(*block, first, promoted@),
    {
        let mut ones: OrdSet<Round> = OrdSet::new();
        let mut twos: OrdSet<Round> = OrdSet::new();
        if first {
            if let Some(seen) = state.graph.observed.get(&block.digest()) {
                if self.directly_supports_previous_leader(seen, state) {
                    ones.insert(block.round());
                }
            }
            twos.insert(block.round());
        }
        let ghost first_ones = ones@;
        let ghost first_twos = twos@;
        let mut i: usize = 0;
        while i < promoted.len()
            invariant
                self.wf(),
                i <= promoted@.len(),
                forall|r: Round| #[trigger]
                    ones@.contains(r) <==> first_ones.contains(r) || exists|j: int|
                        0 <= j < i && (#[trigger] promoted@[j]).round() == r && self.backs_previous(
                            state@,
                            promoted@[j],
                        ),
                forall|r: Round| #[trigger]
                    twos@.contains(r) <==> first_twos.contains(r) || exists|j: int|
                        0 <= j < i && (#[trigger] promoted@[j]).round() == r,
            decreases promoted@.len() - i,
        {
            let ghost had_ones = ones@;
            let ghost had_twos = twos@;
            if self.directly_supports_previous_leader(&promoted[i], state) {
                ones.insert(promoted[i].round());
            }
            twos.insert(promoted[i].round());
            proof {
                let now = promoted@[i as int];
                assert forall|r: Round| #[trigger]
                    ones@.contains(r) <==> first_ones.contains(r) || exists|j: int|
                        0 <= j < i + 1 && (#[trigger] promoted@[j]).round() == r
                            && self.backs_previous(state@, promoted@[j]) by {
                    if had_ones.contains(r) && !first_ones.contains(r) {
                        let j = choose|j: int|
                            0 <= j < i && (#[trigger] promoted@[j]).round() == r
                                && self.backs_previous(state@, promoted@[j]);
                        assert(promoted@[j].round() == r);
                    }
                    assert(now == promoted@[i as int]);
                }
                assert forall|r: Round| #[trigger]
                    twos@.contains(r) <==> first_twos.contains(r) || exists|j: int|
                        0 <= j < i + 1 && (#[trigger] promoted@[j]).round() == r by {
                    if had_twos.contains(r) && !first_twos.contains(r) {
                        let j = choose|j: int| 0 <= j < i && (#[trigger] promoted@[j]).round() == r;
                        assert(promoted@[j].round() == r);
                    }
                    assert(now == promoted@[i as int]);
                }
            }
            i += 1;
        }
        proof {
            assert(ones@ =~= self.rule_one_rounds(state@, *block, first, promoted@));
            assert(twos@ =~= Self::rule_two_rounds(*block, first, promoted@));
        }
        (ones, twos)
    }

    /// Evaluates what a block that was taken in may decide.
    fn react_to_block(
        &self,
        block: &Certificate,
        first: bool,
        promoted: &Vec<Certificate>,
        now: Time,
        state: &mut State,
    )
        requires
            self.wf(),
            old(state)@.wf(),
            datable(now),
        ensures
            final(state)@ == self.react(old(state)@, *block, first, promoted@, now),
            final(state)@.wf(),
            final(state)@.clean(),
            old(state)@.keeps(final(state)@),
    {
        let ghost start = state@;
        let (ones, twos) = self.rounds_to_check(block, first, promoted, state);
        let one_rounds = ones.items();
        let two_rounds = twos.items();
        let mut i: usize = 0;
        proof {
            assert(one_rounds@.take(0) =~= Seq::empty());
        }
        while i < one_rounds.len()
            invariant
                self.wf(),
                datable(now),
                i <= one_rounds@.len(),
                state@ == self.rule_one_each(start, one_rounds@.take(i as int), now),
                state@.wf(),
                start.keeps(state@),
            decreases one_rounds@.len() - i,
        {
            let ghost before = state@;
            proof {
                assert(one_rounds@.take(i + 1).drop_last() =~= one_rounds@.take(i as int));
            }
            self.evaluate_commit_rule_one(one_rounds[i], now, state);
            proof {
                start.lemma_keeps(before, state@);
            }
            i += 1;
        }
        let ghost once = state@;
        let mut j: usize = 0;
        proof {
            assert(one_rounds@.take(one_rounds@.len() as int) =~= one_rounds@);
            assert(two_rounds@.take(0) =~= Seq::empty());
        }
        while j < two_rounds.len()
            invariant
                self.wf(),
                datable(now),
                j <= two_rounds@.len(),
                state@ == self.rule_two_each(once, two_rounds@.take(j as int), now),
                state@.wf(),
                start.keeps(state@),
            decreases two_rounds@.len() - j,
        {
            let ghost before = state@;
            proof {
                assert(two_rounds@.take(j + 1).drop_last() =~= two_rounds@.take(j as int));
            }
            self.evaluate_commit_rule_two(two_rounds[j], now, state);
            proof {
                start.lemma_keeps(before, state@);
            }
            j += 1;
        }
        let ghost twice = state@;
        proof {
            assert(two_rounds@.take(two_rounds@.len() as int) =~= two_rounds@);
        }
        self.process_dirty_leaders(now, state);
        proof {
            start.lemma_keeps(twice, state@);
        }
    }

    /// Takes a block in at a stage of its broadcast and evaluates the commit
    /// rules.
    pub fn receive_block(&self, block: Certificate, stage: Stage, now: Time, state: &mut State)
        requires
            self.wf(),
            old(state)@.wf(),
            old(state)@.admissible(block),
            datable(now),
        ensures
            final(state)@ == self.receive(old(state)@, block, stage, now),
            final(state)@.wf(),
            final(state)@.clean(),
            old(state)@.keeps_given(block, final(state)@),
    {
        let ghost start = state@;
        let digest = block.digest();
        let first = !state.graph.observed.contains_key(&digest);
        let (dirty, promoted) = match stage {
            Stage::Observed => {
                let none: Vec<Certificate> = Vec::new();
                proof {
                    start.lemma_dirties_bounded(block, stage);
                }
                (state.observe(block.clone()), none)
            },
            Stage::GradeOne => {
                proof {
                    start.lemma_dirties_bounded(block, stage);
                }
                let (dirty, _) = state.insert_grade_one(block.clone());
                let ghost inserted = state@;
                let promoted = state.promote_ready();
                proof {
                    start.lemma_keeps_given(block, inserted, state@);
                }
                (dirty, promoted)
            },
            Stage::GradeTwo => {
                proof {
                    start.lemma_dirties_bounded(block, stage);
                }
                let dirty = state.observe(block.clone());
                let ghost observed = state@;
                state.mark_grade_two(digest);
                let ghost marked = state@;
                let promoted = state.promote_ready();
                proof {
                    start.lemma_keeps_given(block, observed, marked);
                    start.lemma_keeps_given(block, marked, state@);
                }
                (dirty, promoted)
            },
        };
        let ghost taken = state@;
        proof {
            assert(promoted@ =~= start.take_in(block, stage).1);
        }
        self.absorb_block(&block, &dirty, state);
        let ghost absorbed = state@;
        self.react_to_block(&block, first, &promoted, now, state);
        proof {
            start.lemma_keeps_given(block, taken, absorbed);
            start.lemma_keeps_given(block, absorbed, state@);
        }
    }

    /// Handles a message of the primary.
    pub fn handle(&self, message: ConsensusMessage, now: Time, state: &mut State)
        requires
            self.wf(),
            old(state)@.wf(),
            datable(now),
            match message {
                ConsensusMessage::RoundAdvanced(_) => true,
                ConsensusMessage::Observed(c) => old(state)@.admissible(c),
                ConsensusMessage::GradeOne(c) => old(state)@.admissible(c),
                ConsensusMessage::GradeTwo(c) => old(state)@.admissible(c),
            },
        ensures
            final(state)@ == self.handled(old(state)@, message, now),
            final(state)@.wf(),
            final(state)@.clean(),
            old(state)@.carries(final(state)@),
            old(state)@.keeps_upon(message, final(state)@),
    {
        match message {
            ConsensusMessage::RoundAdvanced(round) => self.advance_commit_checks(round, now, state),
            ConsensusMessage::Observed(block) => self.receive_block(
                block,
                Stage::Observed,
                now,
                state,
            ),
            ConsensusMessage::GradeOne(block) => self.receive_block(
                block,
                Stage::GradeOne,
                now,
                state,
            ),
            ConsensusMessage::GradeTwo(block) => self.receive_block(
                block,
                Stage::GradeTwo,
                now,
                state,
            ),
        }
    }
}

impl StateView {
    /// The leaders that a block may decide are in rounds that can be looked
    /// ahead from.
    pub proof fn lemma_dirties_bounded(self, c: Certificate, stage: Stage)
        requires
            self.wf(),
            self.admissible(c),
        ensures
            forall|r: Round| #[trigger] self.dirtied_by(c, stage).contains(r) ==> r <= LAST_ROUND,
    {
        self.lemma_observe_bounded(c);
        if !self.graph.dag_digests.contains(c.digest()) {
            self.lemma_enter_vdag(c);
            self.enter_vdag(c).lemma_observe_bounded(c);
        }
    }

    proof fn lemma_observe_bounded(self, c: Certificate)
        requires
            self.wf(),
            self.admissible(c),
        ensures
            forall|r: Round| #[trigger] self.observe_dirties(c).contains(r) ==> r <= LAST_ROUND,
    {
        self.lemma_learn(c);
        let recorded = self.record(c);
        assert forall|r: Round| #[trigger] self.observe_dirties(c).contains(r) implies r
            <= LAST_ROUND by {
            let indexed = recorded.revise().wake_users(set![c.digest()]);
            let edged = indexed.add_edges(c.content());
            let additions = indexed.inherited(c.content());
            if edged.newly_supported(c.digest(), additions).contains(r) {
                let fresh = edged.fresh_pairs(c.digest(), additions);
                let p = choose|p: (Digest, Digest)| #[trigger]
                    fresh.contains(p) && edged.graph.observed.contains_key(p.0)
                        && edged.graph.observed.contains_key(p.1)
                        && edged.graph.observed[p.1].round() == r;
                assert(recorded.graph.observed.contains_key(p.1));
            } else if r == c.round() {
            } else if recorded.virtual_targets(c.content()).contains(r) {
                let t = choose|t: Digest| #[trigger]
                    c.header.virtual_edges@.contains(t) && recorded.graph.observed.contains_key(t)
                        && recorded.graph.observed[t].round() == r;
                assert(recorded.graph.observed.contains_key(t));
            } else {
                assert(self.fallback.forced_waiters.contains((c.digest(), r)));
            }
        }
    }
}

} // verus!
