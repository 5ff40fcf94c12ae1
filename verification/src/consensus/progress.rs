//! Leaders to evaluate again, and rounds.
use crate::consensus::commit::Time;
use crate::consensus::model::{lane_of, CommitView, FallbackView, StateView};
use crate::consensus::recovery::datable;
use crate::consensus::rules::Consensus;
use crate::consensus::state::State;
use crate::ordered::{group_ordered, in_order, OrdSet};
use crate::types::{Digest, Round, LAST_ROUND};
use vstd::prelude::*;

verus! {

impl StateView {
    /// Nothing is left to evaluate.
    pub open spec fn clean(self) -> bool {
        &&& self.commits.dirty_leaders == Set::<Round>::empty()
        &&& self.fallback.dirty_anchors == Set::<Round>::empty()
    }

    /// No leader is left to evaluate.
    pub open spec fn clear_leaders(self) -> StateView {
        StateView {
            commits: CommitView { dirty_leaders: Set::empty(), ..self.commits },
            ..self
        }
    }

    /// The rounds that have a block but whose leader is not resolved.
    pub open spec fn open_rounds(self) -> Set<Round> {
        Set::new(|r: Round| self.has_block(r) && !self.resolved(r))
    }

    /// The rounds with an unresolved leader are finitely many.
    pub proof fn lemma_open_rounds(self)
        requires
            self.graph.homes.dom().finite(),
        ensures
            self.open_rounds().finite(),
    {
        let round_of = |d: Digest| self.graph.homes[d].0;
        let rounds = self.graph.homes.dom().map(round_of);
        self.graph.homes.dom().lemma_map_finite(round_of);
        assert forall|r: Round| self.open_rounds().contains(r) implies rounds.contains(r) by {
            let d = choose|d: Digest| #[trigger]
                self.graph.homes.contains_key(d) && self.graph.homes[d].0 == r;
            assert(rounds.contains(round_of(d)));
        }
        vstd::set_lib::lemma_set_subset_finite(rounds, self.open_rounds());
    }

    /// A step that leaves leaders to evaluate where there were none has
    /// resolved a leader.
    pub proof fn lemma_fewer_open(self, after: StateView)
        requires
            self.graph.homes.dom().finite(),
            self.advances(after),
            self.commits.dirty_leaders == Set::<Round>::empty(),
            after.commits.dirty_leaders != Set::<Round>::empty(),
        ensures
            after.open_rounds().len() < self.open_rounds().len(),
    {
        if self.calm(after) {
            assert(after.commits.dirty_leaders =~= Set::<Round>::empty());
        }
        let r = choose|r: Round| #[trigger]
            after.resolved(r) && !self.resolved(r) && self.has_block(r);
        self.lemma_open_rounds();
        assert forall|x: Round| after.open_rounds().contains(x) implies self.open_rounds().remove(
            r,
        ).contains(x) by {
            let d = choose|d: Digest| #[trigger]
                after.graph.homes.contains_key(d) && after.graph.homes[d].0 == x;
            assert(self.graph.homes.contains_key(d));
            assert(!self.resolved(x));
        }
        assert(self.open_rounds().contains(r));
        vstd::set_lib::lemma_len_subset(after.open_rounds(), self.open_rounds().remove(r));
    }

    /// A lagging leader enters the fallback stack, and the anchor of its lane
    /// is evaluated again.
    pub open spec fn fall_back(self, round: Round) -> StateView {
        if !self.unresolved(round) || self.fallback.stack.contains(round) {
            self
        } else {
            let stacked = StateView {
                fallback: FallbackView {
                    stack: self.fallback.stack.insert(round),
                    ..self.fallback
                },
                ..self
            };
            if self.fallback.anchors.contains_key(lane_of(round)) {
                stacked.mark_anchor_dirty(self.fallback.anchors[lane_of(round)])
            } else {
                stacked
            }
        }
    }

    /// The checks of `round` run.
    pub open spec fn reach_round(self, round: Round) -> StateView {
        StateView {
            commits: CommitView { highest_advanced_round: round, ..self.commits },
            ..self
        }
    }
}

impl Consensus {
    // ----- Leaders to evaluate again -----

    /// Evaluates an unresolved leader by rules 1 and 2.
    pub open spec fn judge(&self, s: StateView, round: Round, now: Time) -> StateView {
        if s.unresolved(round) {
            self.rule_two(
                self.rule_one(s, (round + 1) as Round, now),
                (round + 2) as Round,
                now,
            )
        } else {
            s
        }
    }

    /// Evaluates leaders in turn.
    pub open spec fn judge_each(&self, s: StateView, rounds: Seq<Round>, now: Time) -> StateView
        decreases rounds.len(),
    {
        if rounds.len() == 0 {
            s
        } else {
            self.judge(self.judge_each(s, rounds.drop_last(), now), rounds.last(), now)
        }
    }

    /// Evaluates all leaders whose evidence changed, then all anchors.
    pub open spec fn pass(&self, s: StateView, now: Time) -> StateView {
        self.evaluate_dirty(
            self.judge_each(s.clear_leaders(), in_order(s.commits.dirty_leaders), now),
            now,
        )
    }

    /// Several passes.
    pub open spec fn passes(&self, s: StateView, n: nat, now: Time) -> StateView
        decreases n,
    {
        if n == 0 {
            s
        } else {
            self.pass(self.passes(s, (n - 1) as nat, now), now)
        }
    }

    /// Whether it takes `n` passes until nothing is left to evaluate.
    pub open spec fn takes(&self, s: StateView, n: nat, now: Time) -> bool {
        &&& n > 0
        &&& self.passes(s, n, now).clean()
        &&& forall|m: nat| 0 < m < n ==> !(#[trigger] self.passes(s, m, now)).clean()
    }

    /// Evaluates leaders and anchors until nothing is left to evaluate.
    pub open spec fn settle_dirty(&self, s: StateView, now: Time) -> StateView {
        self.passes(s, choose|n: nat| self.takes(s, n, now), now)
    }

    /// The number of passes is determined.
    pub proof fn lemma_takes(&self, s: StateView, n: nat, now: Time)
        requires
            self.takes(s, n, now),
        ensures
            self.settle_dirty(s, now) == self.passes(s, n, now),
    {
        let m = choose|m: nat| self.takes(s, m, now);
        assert(self.takes(s, m, now));
        if m < n {
            assert(!self.passes(s, m, now).clean());
        }
        if n < m {
            assert(!self.passes(s, n, now).clean());
        }
    }

    /// Evaluates unresolved leaders in turn by rules 1 and 2.
    fn judge_rounds(&self, rounds: &Vec<Round>, now: Time, state: &mut State)
        requires
            self.wf(),
            old(state)@.wf(),
            datable(now),
            forall|i: int| 0 <= i < rounds@.len() ==> #[trigger] rounds@[i] <= LAST_ROUND,
        ensures
            final(state)@ == self.judge_each(old(state)@, rounds@, now),
            final(state)@.wf(),
            old(state)@.advances(final(state)@),
            old(state)@.keeps(final(state)@),
    {
        let ghost start = state@;
        let mut i: usize = 0;
        proof {
            assert(rounds@.take(0) =~= Seq::empty());
        }
        while i < rounds.len()
            invariant
                self.wf(),
                datable(now),
                i <= rounds@.len(),
                forall|i: int| 0 <= i < rounds@.len() ==> #[trigger] rounds@[i] <= LAST_ROUND,
                state@ == self.judge_each(start, rounds@.take(i as int), now),
                state@.wf(),
                start.advances(state@),
                start.keeps(state@),
            decreases rounds@.len() - i,
        {
            let round = rounds[i];
            proof {
                assert(rounds@.take(i + 1).drop_last() =~= rounds@.take(i as int));
            }
            let ghost before = state@;
            if self.is_unresolved(round, state) {
                self.evaluate_commit_rule_one(round + 1, now, state);
                let ghost midway = state@;
                self.evaluate_commit_rule_two(round + 2, now, state);
                proof {
                    start.lemma_advances(before, midway);
                    start.lemma_keeps(before, midway);
                    start.lemma_advances(midway, state@);
                    start.lemma_keeps(midway, state@);
                }
            }
            i += 1;
        }
        proof {
            assert(rounds@.take(rounds@.len() as int) =~= rounds@);
        }
    }

    /// Evaluates leaders and anchors until nothing is left to evaluate.
    pub fn process_dirty_leaders(&self, now: Time, state: &mut State)
        requires
            self.wf(),
            old(state)@.wf(),
            datable(now),
        ensures
            final(state)@ == self.settle_dirty(old(state)@, now),
            final(state)@.wf(),
            final(state)@.clean(),
            final(state)@.commits.highest_advanced_round
                == old(state)@.commits.highest_advanced_round,
            old(state)@.keeps(final(state)@),
    {
        broadcast use group_ordered;

        let ghost start = state@;
        let ghost mut count: nat = 0;
        loop
            invariant_except_break
                self.wf(),
                datable(now),
                state@.wf(),
                start.keeps(state@),
                state@.commits.highest_advanced_round == start.commits.highest_advanced_round,
                state@ == self.passes(start, count, now),
                forall|m: nat| 0 < m <= count ==> !(#[trigger] self.passes(start, m, now)).clean(),
            ensures
                state@.wf(),
                start.keeps(state@),
                state@.commits.highest_advanced_round == start.commits.highest_advanced_round,
                state@.clean(),
                self.takes(start, count, now),
                state@ == self.passes(start, count, now),
            decreases state@.open_rounds().len(),
        {
            broadcast use group_ordered;

            let ghost before = state@;
            let dirty = state.commits.dirty_leaders.items();
            state.commits.dirty_leaders = OrdSet::new();
            let ghost cleared = state@;
            proof {
                assert(cleared =~= before.clear_leaders());
                before.lemma_same_graph(cleared);
                assert forall|i: int| 0 <= i < dirty@.len() implies #[trigger] dirty@[i]
                    <= LAST_ROUND by {
                    assert(dirty@.to_set().contains(dirty@[i]));
                    assert(before.commits.dirty_leaders.contains(dirty@[i]));
                }
            }
            self.judge_rounds(&dirty, now, state);
            let ghost judged = state@;
            self.evaluate_dirty_fallback_anchors(now, state);
            proof {
                cleared.lemma_advances(judged, state@);
                start.lemma_keeps(before, cleared);
                start.lemma_keeps(cleared, judged);
                start.lemma_keeps(judged, state@);
                assert(state@ == self.pass(before, now));
                assert(self.passes(start, count + 1, now) == state@);
                count = count + 1;
            }
            if state.commits.dirty_leaders.is_empty() && state.fallback.dirty_anchors.is_empty() {
                break ;
            }
            proof {
                cleared.lemma_fewer_open(state@);
                assert(cleared.open_rounds() =~= before.open_rounds());
            }
        }
        proof {
            self.lemma_takes(start, count, now);
        }
    }

    // ----- Rounds -----

    /// Runs the checks of one round.
    pub open spec fn check_round(&self, s: StateView, round: Round, now: Time) -> StateView {
        let judged = self.rule_two(
            self.rule_one(s.reach_round(round), round, now),
            round,
            now,
        );
        if round >= 4 {
            judged.fall_back((round - 3) as Round)
        } else {
            judged
        }
    }

    /// Runs the checks of the rounds above `from` up to `target`, in order.
    pub open spec fn check_rounds(
        &self,
        s: StateView,
        from: Round,
        target: Round,
        now: Time,
    ) -> StateView
        decreases target - from,
    {
        if from >= target {
            s
        } else {
            self.check_rounds(
                self.check_round(s, (from + 1) as Round, now),
                (from + 1) as Round,
                target,
                now,
            )
        }
    }

    /// Runs the checks of every round up to `target` that have not run, then
    /// evaluates until nothing is left to evaluate.
    pub open spec fn advance(&self, s: StateView, target: Round, now: Time) -> StateView {
        self.settle_dirty(
            self.check_rounds(s, s.commits.highest_advanced_round, target, now),
            now,
        )
    }

    /// Has a lagging leader await finalization.
    fn fall_back(&self, round: Round, state: &mut State)
        requires
            old(state)@.wf(),
        ensures
            final(state)@ == old(state)@.fall_back(round),
            final(state)@.wf(),
            old(state)@.keeps(final(state)@),
    {
        let ghost start = state@;
        proof {
            start.lemma_same_graph(start.fall_back(round));
        }
        if self.is_unresolved(round, state) {
            if state.fallback.stack.insert(round) {
                let anchor = match state.fallback.anchors.get(&(round % 3)) {
                    Some(anchor) => Some(*anchor),
                    None => None,
                };
                if let Some(anchor) = anchor {
                    state.mark_fallback_anchor_dirty(anchor);
                }
            } else {
                proof {
                    assert(state@ =~= start);
                }
            }
        }
    }

    /// Runs the checks of every crossed round in order, when the node enters a
    /// round.
    pub fn advance_commit_checks(&self, target_round: Round, now: Time, state: &mut State)
        requires
            self.wf(),
            old(state)@.wf(),
            datable(now),
        ensures
            final(state)@ == self.advance(old(state)@, target_round, now),
            final(state)@.wf(),
            final(state)@.clean(),
            final(state)@.commits.highest_advanced_round >= target_round,
            final(state)@.commits.highest_advanced_round
                >= old(state)@.commits.highest_advanced_round,
            final(state)@.commits.highest_advanced_round == target_round
                || final(state)@.commits.highest_advanced_round
                == old(state)@.commits.highest_advanced_round,
            old(state)@.keeps(final(state)@),
    {
        let ghost start = state@;
        let ghost goal = self.check_rounds(
            start,
            start.commits.highest_advanced_round,
            target_round,
            now,
        );
        let mut round: Round = state.commits.highest_advanced_round;
        while round < target_round
            invariant
                self.wf(),
                datable(now),
                state@.wf(),
                start.keeps(state@),
                state@.commits.highest_advanced_round == round,
                round >= start.commits.highest_advanced_round,
                round == start.commits.highest_advanced_round || round <= target_round,
                self.check_rounds(state@, round, target_round, now) == goal,
            decreases target_round - round,
        {
            let ghost before = state@;
            round += 1;
            state.commits.highest_advanced_round = round;
            let ghost reached = state@;
            proof {
                assert(reached =~= before.reach_round(round));
                before.lemma_same_graph(reached);
            }
            self.evaluate_commit_rule_one(round, now, state);
            let ghost once = state@;
            self.evaluate_commit_rule_two(round, now, state);
            let ghost twice = state@;
            proof {
                start.lemma_keeps(before, reached);
                start.lemma_keeps(reached, once);
                start.lemma_keeps(once, twice);
            }
            if round >= 4 {
                self.fall_back(round - 3, state);
                proof {
                    start.lemma_keeps(twice, state@);
                }
            }
        }
        let ghost checked = state@;
        self.process_dirty_leaders(now, state);
        proof {
            start.lemma_keeps(checked, state@);
        }
    }
}

} // verus!
