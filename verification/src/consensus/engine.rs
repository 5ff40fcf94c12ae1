//! The commit rules and the messages that drive them.
use crate::consensus::commit::Time;
use crate::consensus::model::{lane_of, FallbackView, StateView};
use crate::consensus::recovery::datable;
use crate::consensus::rules::Consensus;
use crate::consensus::state::State;
use crate::ordered::image;
use crate::types::{Certificate, Round};
use vstd::prelude::*;

verus! {

impl StateView {
    /// A leader becomes the anchor of its lane unless a later one is.
    pub open spec fn raise_anchor(self, round: Round) -> StateView {
        let lane = lane_of(round);
        if self.fallback.anchors.contains_key(lane) && self.fallback.anchors[lane] >= round {
            self
        } else {
            StateView {
                fallback: FallbackView {
                    anchors: self.fallback.anchors.insert(lane, round),
                    ..self.fallback
                },
                ..self
            }
        }
    }

    /// A step that takes in no block, enters no round, resolves leaders only for
    /// good and leaves no more anchors to evaluate.
    pub open spec fn pushes(self, after: StateView) -> bool {
        &&& after.graph.homes == self.graph.homes
        &&& after.commits.highest_advanced_round == self.commits.highest_advanced_round
        &&& forall|r: Round| #[trigger] self.resolved(r) ==> after.resolved(r)
        &&& after.fallback.dirty_anchors.subset_of(self.fallback.dirty_anchors)
    }
}

impl Consensus {
    /// Queues a leader that satisfies a rule. Under rules 1 and 2 it may become
    /// the anchor of its lane, and the leaders below are finalized first.
    pub open spec fn queue(&self, s: StateView, leader: Certificate, rule: u8, now: Time) -> StateView {
        let round = leader.round();
        if s.commits.committed.contains(round) || s.commits.skipped.contains(round)
            || s.commits.rules.contains_key(round) {
            s
        } else {
            let ready = if rule == 1 || rule == 2 {
                let forced = s.force(leader, round).raise_anchor(round);
                self.evaluate_dirty(
                    forced.mark_anchor_dirty(forced.fallback.anchors[lane_of(round)]),
                    now,
                )
            } else {
                s
            };
            if ready.unresolved(round) {
                ready.stage(leader, rule, self.gc_depth, now).drain(self.gc_depth)
            } else {
                ready
            }
        }
    }

    /// Queues a leader that satisfies a rule, and commits what becomes ready.
    pub fn queue_leader_commit(&self, leader: Certificate, rule: u8, now: Time, state: &mut State)
        requires
            self.wf(),
            old(state)@.wf(),
            old(state)@.settled(leader),
            datable(now),
        ensures
            final(state)@ == self.queue(old(state)@, leader, rule, now),
            final(state)@.wf(),
            final(state)@.resolved(leader.round()),
            old(state)@.pushes(final(state)@),
            old(state)@.keeps_given(leader, final(state)@),
    {
        let ghost start = state@;
        let round = leader.round();
        if state.commits.committed.contains(&round) || state.commits.skipped.contains(&round)
            || state.commits.rules.contains_key(&round) {
            return ;
        }
        if rule == 1 || rule == 2 {
            state.force_observed_history_to_dag(leader.clone(), round);
            let ghost forced = state@;
            let lane: Round = round % 3;
            let previous = match state.fallback.anchors.get(&lane) {
                Some(anchor) => Some(*anchor),
                None => None,
            };
            let anchor = match previous {
                Some(anchor) => {
                    if round > anchor {
                        state.fallback.anchors.insert(lane, round);
                        round
                    } else {
                        anchor
                    }
                },
                None => {
                    state.fallback.anchors.insert(lane, round);
                    round
                },
            };
            proof {
                start.lemma_force_only(leader, round);
                assert(state@ =~= forced.raise_anchor(round));
            }
            state.mark_fallback_anchor_dirty(anchor);
            let ghost marked = state@;
            proof {
                assert(forced.tracked_leaders());
                forced.lemma_same_graph(marked);
            }
            self.evaluate_dirty_fallback_anchors(now, state);
            proof {
                start.lemma_keeps_given(leader, forced, marked);
                start.lemma_keeps_given(leader, marked, state@);
                assert forall|r: Round| #[trigger] start.resolved(r) implies state@.resolved(r) by {
                    assert(marked.resolved(r));
                }
            }
        }
        let ghost ready = state@;
        if state.commits.committed.contains(&round) || state.commits.skipped.contains(&round)
            || state.commits.pending.contains_key(&round) || state.commits.rules.contains_key(
            &round,
        ) {
            return ;
        }
        proof {
            assert(ready.settled(leader));
            ready.lemma_stage(leader, rule, self.gc_depth, now);
        }
        self.stage_leader_commit(leader, rule, now, state);
        let ghost staged = state@;
        self.drain_ready_leaders(state);
        proof {
            start.lemma_keeps_given(leader, ready, staged);
            start.lemma_keeps_given(leader, staged, state@);
            assert forall|r: Round| #[trigger] start.resolved(r) implies state@.resolved(r) by {
                assert(ready.resolved(r));
                assert(staged.resolved(r));
            }
            assert(staged.resolved(round));
        }
    }

    // ----- Rule 1 -----

    /// Rule 1: the leader of the round before `r` commits if the blocks of `r`
    /// that hold a strong edge to it are a quorum among the observed ones, or
    /// guarantee an honest author among those of the Dag.
    pub open spec fn rule_one(&self, s: StateView, r: Round, now: Time) -> StateView {
        let leader_round = (r - 1) as Round;
        if r < 2 || self.schedule.adversarial@.contains(leader_round)
            || self.schedule.deferred@.contains(leader_round) || !s.unresolved(leader_round) {
            s
        } else {
            match self.sighted(s, leader_round) {
                Some(leader) => {
                    let target = (r, leader.digest());
                    if self.committee.weight(image(s.graph.observed_direct_support, target))
                        < self.committee.quorum() && self.committee.weight(
                        image(s.graph.dag_direct_support, target),
                    ) < self.committee.validity() {
                        s
                    } else {
                        self.queue(s.force(leader, leader_round), leader, 1, now)
                    }
                },
                None => s,
            }
        }
    }

    /// Whether the leader of a round is neither decided nor waiting.
    pub fn is_unresolved(&self, round: Round, state: &State) -> (result: bool)
        ensures
            result == state@.unresolved(round),
    {
        !state.commits.committed.contains(&round) && !state.commits.skipped.contains(&round)
            && !state.commits.rules.contains_key(&round) && !state.commits.pending.contains_key(
            &round,
        )
    }

    /// Evaluates rule 1 with the blocks of round `r` as support for the leader
    /// of the round before.
    pub fn evaluate_commit_rule_one(&self, r: Round, now: Time, state: &mut State)
        requires
            self.wf(),
            old(state)@.wf(),
            datable(now),
        ensures
            final(state)@ == self.rule_one(old(state)@, r, now),
            final(state)@.wf(),
            old(state)@.advances(final(state)@),
            old(state)@.keeps(final(state)@),
    {
        let ghost start = state@;
        if r < 2 {
            return ;
        }
        let leader_round: Round = r - 1;
        if self.schedule.adversarial.contains(&leader_round) || self.schedule.deferred.contains(
            &leader_round,
        ) {
            return ;
        }
        if !self.is_unresolved(leader_round, state) {
            return ;
        }
        let leader = match self.observed_leader(leader_round, state) {
            Some(leader) => leader,
            None => {
                return ;
            },
        };
        let (observed_stake, dag_stake) = self.strong_support_stake(r, &leader.digest(), state);
        if observed_stake < self.committee.quorum_threshold() && dag_stake
            < self.committee.validity_threshold() {
            return ;
        }
        proof {
            self.lemma_sighted(start, leader_round);
            self.lemma_sighted_held(start, leader_round);
            start.lemma_force_only(leader, leader_round);
        }
        state.force_observed_history_to_dag(leader.clone(), leader_round);
        let ghost forced = state@;
        proof {
            assert(forced.settled(leader));
        }
        self.queue_leader_commit(leader, 1, now, state);
        proof {
            start.lemma_keeps_given(leader, forced, state@);
            start.lemma_keeps_held(leader, state@);
            start.lemma_rule_advances(forced, state@, leader);
        }
    }

    // ----- Rule 2 -----

    /// Rule 2: the leader two rounds before `q` commits if the blocks of `q`
    /// that reach it strongly are a quorum among the observed ones, or
    /// guarantee an honest author among those of the Dag, or if the Dag blocks
    /// that reach it strongly or virtually are a quorum. The last forces its
    /// grade 2.
    pub open spec fn rule_two(&self, s: StateView, q: Round, now: Time) -> StateView {
        let leader_round = (q - 2) as Round;
        if q < 3 || self.schedule.adversarial@.contains(leader_round) || !s.unresolved(
            leader_round,
        ) {
            s
        } else {
            match self.delivered(s, leader_round) {
                Some(leader) => {
                    let d = leader.digest();
                    let by_observed = self.committee.weight(
                        image(s.graph.observed_strong_support, (q, d)),
                    ) >= self.committee.quorum();
                    let by_dag = self.committee.weight(image(s.graph.dag_strong_support, (q, d)))
                        >= self.committee.validity();
                    let by_virtual = self.committee.weight(s.strong_or_virtual(q, d))
                        >= self.committee.quorum();
                    if !by_observed && !by_dag && !by_virtual {
                        s
                    } else if by_virtual && !s.graph.grade_two.contains(d) {
                        self.queue(s.mark_grade_two(d).promote_ready().0, leader, 2, now)
                    } else {
                        self.queue(s, leader, 2, now)
                    }
                },
                None => s,
            }
        }
    }

    /// Evaluates rule 2 with the blocks of round `q` as support for the leader
    /// two rounds before.
    pub fn evaluate_commit_rule_two(&self, q: Round, now: Time, state: &mut State)
        requires
            self.wf(),
            old(state)@.wf(),
            datable(now),
        ensures
            final(state)@ == self.rule_two(old(state)@, q, now),
            final(state)@.wf(),
            old(state)@.advances(final(state)@),
            old(state)@.keeps(final(state)@),
    {
        let ghost start = state@;
        if q < 3 {
            return ;
        }
        let leader_round: Round = q - 2;
        if self.schedule.adversarial.contains(&leader_round) {
            return ;
        }
        if !self.is_unresolved(leader_round, state) {
            return ;
        }
        let leader = match self.delivered_leader(leader_round, state) {
            Some(leader) => leader,
            None => {
                return ;
            },
        };
        proof {
            self.lemma_sighted(start, leader_round);
            self.lemma_sighted_held(start, leader_round);
        }
        let digest = leader.digest();
        let (observed_strong, dag_strong, dag_strong_or_virtual) = self.rule_two_support_stake(
            q,
            &digest,
            state,
        );
        let quorum = self.committee.quorum_threshold();
        let by_observed = observed_strong >= quorum;
        let by_dag = dag_strong >= self.committee.validity_threshold();
        let by_virtual = dag_strong_or_virtual >= quorum;
        if !by_observed && !by_dag && !by_virtual {
            return ;
        }
        if by_virtual && !state.graph.grade_two.contains(&digest) {
            state.mark_grade_two(digest);
            let ghost marked = state@;
            state.promote_ready();
            proof {
                marked.lemma_promote_ready_only();
                start.lemma_keeps(marked, state@);
            }
        }
        let ghost promoted = state@;
        proof {
            assert(promoted.settled(leader));
        }
        self.queue_leader_commit(leader, 2, now, state);
        proof {
            start.lemma_keeps_given(leader, promoted, state@);
            start.lemma_keeps_held(leader, state@);
            start.lemma_rule_advances(promoted, state@, leader);
        }
    }
}

impl StateView {
    /// A rule that resolves an unresolved leader advances the state.
    pub proof fn lemma_rule_advances(
        self,
        forced: StateView,
        after: StateView,
        leader: Certificate,
    )
        requires
            self.wf(),
            self.settled(leader),
            self.unresolved(leader.round()),
            self.admits_only(forced),
            forced.graph.homes == self.graph.homes,
            forced.pushes(after),
            after.resolved(leader.round()),
        ensures
            self.advances(after),
    {
        assert forall|r: Round| #[trigger] self.resolved(r) implies after.resolved(r) by {
            assert(forced.resolved(r));
        }
        assert(self.has_block(leader.round())) by {
            assert(self.graph.homes.contains_key(leader.digest()));
        }
        assert(self.resolves_one(after));
    }
}

} // verus!
