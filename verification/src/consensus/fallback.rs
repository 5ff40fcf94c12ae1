//! Pessimistic finalization: commit rule 3.
use crate::consensus::commit::Time;
use crate::consensus::model::{lane_of, FallbackDecision, FallbackView, HistoryView, StateView};
use crate::consensus::recovery::datable;
use crate::consensus::rules::Consensus;
use crate::consensus::state::{History, State};
use crate::ordered::{ascending, group_ordered, in_order, Key};
use crate::types::{Certificate, Round, LAST_ROUND};
use vstd::prelude::*;

verus! {

impl StateView {
    /// The newest leader of a lane below `limit` that awaits finalization.
    pub open spec fn is_newest(self, lane: Round, limit: Round, round: Round) -> bool {
        &&& self.awaits(lane, limit, round)
        &&& forall|r: Round| #[trigger] self.awaits(lane, limit, r) ==> r <= round
    }

    /// Whether the leader of `round` awaits finalization in a lane below
    /// `limit`.
    pub open spec fn awaits(self, lane: Round, limit: Round, round: Round) -> bool {
        &&& self.fallback.stack.contains(round)
        &&& lane_of(round) == lane
        &&& round < limit
    }

    /// The leader of `round` no longer awaits finalization.
    pub open spec fn unstack(self, round: Round) -> StateView {
        StateView {
            fallback: FallbackView {
                stack: self.fallback.stack.remove(round),
                ..self.fallback
            },
            ..self
        }
    }

    /// All unresolved leaders of the lane of an anchor below it await
    /// finalization.
    pub open spec fn stack_lane(self, anchor_round: Round) -> StateView {
        StateView {
            fallback: FallbackView {
                stack: self.fallback.stack.union(
                    Set::new(
                        |r: Round|
                            0 < r && r < anchor_round && lane_of(r) == lane_of(anchor_round)
                                && self.unresolved(r),
                    ),
                ),
                ..self.fallback
            },
            ..self
        }
    }

    /// Remembers the decision of an anchor on a leader.
    pub open spec fn remember(
        self,
        anchor_round: Round,
        target: Round,
        decision: FallbackDecision,
    ) -> StateView {
        StateView {
            fallback: FallbackView {
                decision_cache: self.fallback.decision_cache.insert(
                    (anchor_round, target),
                    decision,
                ),
                ..self.fallback
            },
            ..self
        }
    }

    /// The leader of `round` becomes the anchor of its lane, at the current
    /// evidence.
    pub open spec fn reanchor(self, round: Round) -> StateView {
        StateView {
            fallback: FallbackView {
                anchors: self.fallback.anchors.insert(lane_of(round), round),
                anchor_versions: self.fallback.anchor_versions.insert(
                    round,
                    self.fallback.evidence_version,
                ),
                dirty_anchors: self.fallback.dirty_anchors.remove(round),
                ..self.fallback
            },
            ..self
        }
    }

    /// The anchor of `round` is being evaluated.
    pub open spec fn take_anchor(self, round: Round) -> StateView {
        StateView {
            fallback: FallbackView {
                dirty_anchors: self.fallback.dirty_anchors.remove(round),
                ..self.fallback
            },
            ..self
        }
    }
}

impl Consensus {
    /// Whether an anchor commits the leader of `target`: an earlier decision at
    /// the same evidence stands. Up to three rounds above the leader the anchor
    /// decides by its own strong path and its parents, further up by the blocks
    /// three rounds above the leader in its history.
    pub open spec fn decides(
        &self,
        s: StateView,
        anchor: Certificate,
        leader: Option<Certificate>,
        target: Round,
        history: HistoryView,
    ) -> bool {
        match s.cached_decision(anchor.round(), target, history.version) {
            Some(commit) => commit,
            None => if anchor.round() <= target + 3 {
                (leader is Some && s.strong_path(anchor, (leader->0).digest()))
                    || self.committee.weight(
                    self.direct_voters(s, anchor.content(), target, self.lead(target)),
                ) >= self.committee.validity()
            } else {
                self.committee.weight(
                    self.indirect_voters(
                        s,
                        history.by_round,
                        leader,
                        target,
                        self.lead(target),
                    ),
                ) >= self.committee.validity()
            },
        }
    }

    /// Resolves the leaders of the lane of an anchor below `limit`, the newest
    /// first. A committed leader becomes the anchor. Evidence that is missing,
    /// or the missing block of a leader to commit, stops it. The missing block
    /// of a leader to skip is asked for once, as others may still commit it,
    /// unless the anchor has no history that could have held it.
    pub open spec fn resolve(
        &self,
        s: StateView,
        anchor: Certificate,
        limit: Round,
        now: Time,
    ) -> StateView
        decreases limit,
    {
        let lane = lane_of(anchor.round());
        if !(exists|t: Round| s.is_newest(lane, limit, t)) {
            s
        } else {
            let target = choose|t: Round| s.is_newest(lane, limit, t);
            if !s.unresolved(target) {
                self.resolve(s.unstack(target), anchor, target, now)
            } else {
                let leader = self.sighted(s, target);
                let history = s.history_of(anchor);
                let looked = s.snapshot(anchor);
                if !history.complete {
                    if leader is None {
                        self.request(looked, target, now)
                    } else {
                        looked
                    }
                } else {
                    let commit = self.decides(looked, anchor, leader, target, history);
                    let decided = looked.remember(
                        anchor.round(),
                        target,
                        FallbackDecision { version: history.version, commit },
                    );
                    if !commit {
                        let sought = if leader is None && history.by_round.len() > 0 {
                            self.request(decided, target, now)
                        } else {
                            decided
                        };
                        self.resolve(sought.skip_leader(target), anchor, target, now)
                    } else {
                        match leader {
                            Some(block) => self.resolve(
                                decided.stage(block, 3, self.gc_depth, now).reanchor(target),
                                block,
                                target,
                                now,
                            ),
                            None => self.request(decided, target, now),
                        }
                    }
                }
            }
        }
    }

    /// Finalizes the leaders below an anchor, and commits what becomes ready.
    pub open spec fn finalize(&self, s: StateView, anchor_round: Round, now: Time) -> StateView {
        match self.sighted(s, anchor_round) {
            Some(anchor) => self.resolve(
                s.stack_lane(anchor_round),
                anchor,
                anchor_round,
                now,
            ).drain(self.gc_depth),
            None => s,
        }
    }

    /// Evaluates up to `fuel` of the anchors whose evidence or lane changed,
    /// the earliest first.
    pub open spec fn evaluate_anchors(&self, s: StateView, fuel: nat, now: Time) -> StateView
        decreases fuel,
    {
        if fuel == 0 || s.fallback.dirty_anchors.len() == 0 {
            s
        } else {
            let anchor = in_order(s.fallback.dirty_anchors)[0];
            let taken = s.take_anchor(anchor);
            self.evaluate_anchors(
                if taken.is_anchor(anchor) {
                    self.finalize(taken, anchor, now)
                } else {
                    taken
                },
                (fuel - 1) as nat,
                now,
            )
        }
    }

    /// Evaluates all anchors whose evidence or lane changed.
    pub open spec fn evaluate_dirty(&self, s: StateView, now: Time) -> StateView {
        self.evaluate_anchors(s, s.fallback.dirty_anchors.len(), now)
    }

    /// The newest leader of a lane below `limit` that awaits finalization.
    fn newest_below(&self, lane: Round, limit: Round, state: &State) -> (result: Option<Round>)
        ensures
            match result {
                Some(round) => state@.is_newest(lane, limit, round),
                None => forall|r: Round| !#[trigger] state@.awaits(lane, limit, r),
            },
    {
        let items = state.fallback.stack.items();
        let mut i: usize = items.len();
        while i > 0
            invariant
                i <= items@.len(),
                items@.to_set() == state@.fallback.stack,
                ascending(items@),
                forall|j: int|
                    i <= j < items@.len() ==> !(lane_of(#[trigger] items@[j]) == lane && items@[j]
                        < limit),
            decreases i,
        {
            i -= 1;
            let round = items[i];
            if round % 3 == lane && round < limit {
                proof {
                    assert(items@.to_set().contains(round));
                    assert forall|r: Round| #[trigger] state@.awaits(lane, limit, r) implies r
                        <= round by {
                        assert(items@.to_set().contains(r));
                        let j = choose|j: int| 0 <= j < items@.len() && items@[j] == r;
                        if j > i {
                            assert(lane_of(items@[j]) == lane);
                        } else if j < i {
                            assert(items@[j].before(items@[i as int]));
                        }
                    }
                }
                return Some(round);
            }
        }
        proof {
            assert forall|r: Round| !#[trigger] state@.awaits(lane, limit, r) by {
                if state@.awaits(lane, limit, r) {
                    assert(items@.to_set().contains(r));
                    let j = choose|j: int| 0 <= j < items@.len() && items@[j] == r;
                    assert(lane_of(items@[j]) == lane);
                }
            }
        }
        None
    }

    /// Has all unresolved leaders of the lane of an anchor below it await
    /// finalization.
    fn stack_unresolved(&self, anchor_round: Round, state: &mut State)
        requires
            old(state)@.wf(),
        ensures
            final(state)@ == old(state)@.stack_lane(anchor_round),
            final(state)@.wf(),
            old(state)@.advances(final(state)@),
            old(state)@.keeps(final(state)@),
    {
        let ghost start = state@;
        let mut candidate: Round = if anchor_round > 3 {
            anchor_round - 3
        } else {
            0
        };
        while candidate > 0
            invariant
                candidate > 0 ==> candidate < anchor_round && lane_of(candidate) == lane_of(
                    anchor_round,
                ),
                state@ == (StateView {
                    fallback: FallbackView {
                        stack: start.fallback.stack.union(
                            Set::new(
                                |r: Round|
                                    candidate < r && r < anchor_round && lane_of(r) == lane_of(
                                        anchor_round,
                                    ) && start.unresolved(r),
                            ),
                        ),
                        ..start.fallback
                    },
                    ..start
                }),
            decreases candidate,
        {
            let ghost round = candidate;
            if !state.commits.committed.contains(&candidate) && !state.commits.skipped.contains(
                &candidate,
            ) && !state.commits.rules.contains_key(&candidate)
                && !state.commits.pending.contains_key(&candidate) {
                state.fallback.stack.insert(candidate);
            }
            candidate = if candidate > 3 {
                candidate - 3
            } else {
                0
            };
            proof {
                assert forall|r: Round|
                    candidate < r && r < anchor_round && lane_of(r) == lane_of(anchor_round)
                        && start.unresolved(r) <==> (round < r && r < anchor_round && lane_of(r)
                        == lane_of(anchor_round) && start.unresolved(r)) || (r == round
                        && start.unresolved(r)) by {}
                assert(state@.fallback.stack =~= start.fallback.stack.union(
                    Set::new(
                        |r: Round|
                            candidate < r && r < anchor_round && lane_of(r) == lane_of(anchor_round)
                                && start.unresolved(r),
                    ),
                ));
            }
        }
        proof {
            assert(state@ =~= start.stack_lane(anchor_round));
            start.lemma_same_graph(state@);
            assert(start.advances(state@));
        }
    }

    /// Whether an anchor commits the leader of a round.
    fn decide(
        &self,
        anchor: &Certificate,
        leader: &Option<Certificate>,
        target: Round,
        history: &History,
        state: &State,
    ) -> (commit: bool)
        requires
            self.wf(),
            target < anchor.round(),
            anchor.round() <= LAST_ROUND,
        ensures
            commit == self.decides(state@, *anchor, *leader, target, history@),
    {
        if let Some(commit) = state.fallback_decision(anchor.round(), target, history.version) {
            return commit;
        }
        let authority = self.ordering_leader_authority(target);
        let validity = self.committee.validity_threshold();
        if anchor.round() <= target + 3 {
            let strong = match leader {
                Some(leader) => self.has_strong_path(anchor, &leader.digest(), state),
                None => false,
            };
            strong || self.direct_fallback_stake(anchor, target, authority, state) >= validity
        } else {
            self.indirect_fallback_stake(history, leader, target, authority, state) >= validity
        }
    }

    /// Resolves the leaders of the lane of an anchor below it, the newest
    /// first.
    fn resolve_lane(&self, first: Certificate, now: Time, state: &mut State)
        requires
            self.wf(),
            old(state)@.wf(),
            old(state)@.settled(first),
            datable(now),
        ensures
            final(state)@ == self.resolve(old(state)@, first, first.round(), now),
            final(state)@.wf(),
            old(state)@.advances(final(state)@),
            old(state)@.keeps(final(state)@),
    {
        let ghost start = state@;
        let lane: Round = first.round() % 3;
        let mut anchor = first;
        let mut limit: Round = anchor.round();
        loop
            invariant_except_break
                self.wf(),
                datable(now),
                state@.wf(),
                state@.settled(anchor),
                lane == lane_of(anchor.round()),
                limit <= anchor.round(),
                start.advances(state@),
                start.keeps(state@),
                self.resolve(state@, anchor, limit, now) == self.resolve(
                    start,
                    first,
                    first.round(),
                    now,
                ),
            ensures
                state@.wf(),
                start.advances(state@),
                start.keeps(state@),
                state@ == self.resolve(start, first, first.round(), now),
            decreases limit,
        {
            let ghost before = state@;
            let target = match self.newest_below(lane, limit, state) {
                Some(round) => round,
                None => {
                    break ;
                },
            };
            proof {
                let chosen = choose|t: Round| before.is_newest(lane, limit, t);
                assert(before.is_newest(lane, limit, target));
                assert(before.is_newest(lane, limit, chosen));
                assert(before.awaits(lane, limit, target) && before.awaits(lane, limit, chosen));
                assert(chosen == target);
                assert(anchor.round() <= LAST_ROUND);
            }
            if state.commits.committed.contains(&target) || state.commits.skipped.contains(&target)
                || state.commits.rules.contains_key(&target) || state.commits.pending.contains_key(
                &target,
            ) {
                state.fallback.stack.remove(&target);
                proof {
                    assert(state@ =~= before.unstack(target));
                    before.lemma_same_graph(state@);
                    assert(before.advances(state@));
                    start.lemma_advances(before, state@);
                    start.lemma_keeps(before, state@);
                }
                limit = target;
                continue ;
            }
            let leader = self.observed_leader(target, state);
            let history = state.fallback_history_snapshot(&anchor);
            let ghost looked = state@;
            proof {
                self.lemma_sighted(before, target);
                self.lemma_sighted_held(before, target);
                assert(before.advances(looked));
                start.lemma_advances(before, looked);
                start.lemma_keeps(before, looked);
            }
            if !history.complete {
                if leader.is_none() {
                    self.request_missing_leader(target, now, state);
                    proof {
                        start.lemma_advances(looked, state@);
                        start.lemma_keeps(looked, state@);
                    }
                }
                break ;
            }
            let commit = self.decide(&anchor, &leader, target, &history, state);
            let ghost decision = FallbackDecision { version: history.version, commit };
            state.fallback.decision_cache.insert(
                (anchor.round(), target),
                FallbackDecision { version: history.version, commit },
            );
            let ghost decided = state@;
            proof {
                assert(decided =~= looked.remember(anchor.round(), target, decision));
                looked.lemma_same_graph(decided);
                assert(looked.advances(decided));
                start.lemma_advances(looked, decided);
                start.lemma_keeps(looked, decided);
            }
            if commit {
                let block = match leader {
                    Some(block) => block,
                    None => {
                        self.request_missing_leader(target, now, state);
                        proof {
                            start.lemma_advances(decided, state@);
                            start.lemma_keeps(decided, state@);
                        }
                        break ;
                    },
                };
                proof {
                    assert(decided.settled(block));
                    self.lemma_sighted_held(decided, target);
                }
                self.stage_leader_commit(block.clone(), 3, now, state);
                let ghost staged = state@;
                state.fallback.anchors.insert(lane, target);
                state.mark_fallback_anchor_dirty(target);
                state.fallback.dirty_anchors.remove(&target);
                proof {
                    assert(state@ =~= staged.reanchor(target));
                    staged.lemma_same_graph(state@);
                    assert(staged.advances(state@));
                    start.lemma_advances(decided, staged);
                    decided.lemma_keeps_held(block, staged);
                    start.lemma_keeps(decided, staged);
                    start.lemma_advances(staged, state@);
                    start.lemma_keeps(staged, state@);
                    assert(staged.settled(block));
                }
                anchor = block;
            } else {
                if leader.is_none() && history.by_round.len() > 0 {
                    self.request_missing_leader(target, now, state);
                }
                let ghost sought = state@;
                proof {
                    if sought == decided {
                        decided.lemma_same_graph(sought);
                    }
                    assert(decided.advances(sought));
                    start.lemma_advances(decided, sought);
                    start.lemma_keeps(decided, sought);
                    assert(decided.settled(anchor));
                }
                self.mark_rule_three_skipped(target, state);
                proof {
                    start.lemma_advances(sought, state@);
                    start.lemma_keeps(sought, state@);
                    assert(sought.settled(anchor));
                }
            }
            limit = target;
        }
    }

    /// Finalizes the leaders below an anchor, the newest first, and commits
    /// what becomes ready.
    pub fn finalize_fallback(&self, anchor_round: Round, now: Time, state: &mut State)
        requires
            self.wf(),
            old(state)@.wf(),
            datable(now),
        ensures
            final(state)@ == self.finalize(old(state)@, anchor_round, now),
            final(state)@.wf(),
            old(state)@.advances(final(state)@),
            old(state)@.keeps(final(state)@),
    {
        let ghost start = state@;
        proof {
            self.lemma_sighted(start, anchor_round);
            assert(start.advances(start));
        }
        let anchor = match self.observed_leader(anchor_round, state) {
            Some(anchor) => anchor,
            None => {
                return ;
            },
        };
        self.stack_unresolved(anchor_round, state);
        let ghost stacked = state@;
        self.resolve_lane(anchor, now, state);
        let ghost resolved = state@;
        self.drain_ready_leaders(state);
        proof {
            start.lemma_advances(stacked, resolved);
            start.lemma_keeps(stacked, resolved);
            start.lemma_advances(resolved, state@);
            start.lemma_keeps(resolved, state@);
        }
    }

    /// Evaluates all anchors whose evidence or lane changed.
    pub fn evaluate_dirty_fallback_anchors(&self, now: Time, state: &mut State)
        requires
            self.wf(),
            old(state)@.wf(),
            datable(now),
        ensures
            final(state)@ == self.evaluate_dirty(old(state)@, now),
            final(state)@.wf(),
            final(state)@.fallback.dirty_anchors == Set::<Round>::empty(),
            old(state)@.advances(final(state)@),
            old(state)@.keeps(final(state)@),
    {
        broadcast use group_ordered;

        let ghost start = state@;
        let ghost mut fuel: nat = start.fallback.dirty_anchors.len();
        loop
            invariant
                self.wf(),
                datable(now),
                state@.wf(),
                state@.fallback.dirty_anchors.len() <= fuel,
                self.evaluate_anchors(state@, fuel, now) == self.evaluate_dirty(start, now),
                start.advances(state@),
                start.keeps(state@),
            ensures
                state@.wf(),
                state@.fallback.dirty_anchors == Set::<Round>::empty(),
                state@ == self.evaluate_dirty(start, now),
                start.advances(state@),
                start.keeps(state@),
            decreases fuel,
        {
            broadcast use group_ordered;

            let ghost before = state@;
            let anchor = match state.fallback.dirty_anchors.first() {
                Some(anchor) => anchor,
                None => {
                    break ;
                },
            };
            state.fallback.dirty_anchors.remove(&anchor);
            let ghost taken = state@;
            proof {
                assert(taken =~= before.take_anchor(anchor));
                before.lemma_same_graph(taken);
                assert(before.advances(taken));
                start.lemma_advances(before, taken);
                start.lemma_keeps(before, taken);
            }
            let active = match state.fallback.anchors.get(&(anchor % 3)) {
                Some(round) => *round == anchor,
                None => false,
            };
            if active {
                self.finalize_fallback(anchor, now, state);
                proof {
                    start.lemma_advances(taken, state@);
                    start.lemma_keeps(taken, state@);
                    vstd::set_lib::lemma_len_subset(
                        state@.fallback.dirty_anchors,
                        taken.fallback.dirty_anchors,
                    );
                }
            }
            proof {
                fuel = (fuel - 1) as nat;
            }
        }
    }

    /// The active anchors, by lane.
    pub open spec fn active(s: StateView) -> Set<Round> {
        Set::new(|r: Round| s.is_anchor(r))
    }

    /// Evaluates every active anchor at the current evidence.
    pub open spec fn rule_three(&self, s: StateView, now: Time) -> StateView {
        self.evaluate_dirty(s.mark_anchors_dirty(Self::active(s)), now)
    }

    /// Evaluates every active anchor at the current evidence.
    pub fn evaluate_commit_rule_three(&self, now: Time, state: &mut State)
        requires
            self.wf(),
            old(state)@.wf(),
            datable(now),
        ensures
            final(state)@ == self.rule_three(old(state)@, now),
            final(state)@.wf(),
            old(state)@.keeps(final(state)@),
    {
        let ghost start = state@;
        let ghost mut marked: Set<Round> = Set::empty();
        let mut lane: Round = 0;
        proof {
            start.lemma_mark_one_more(Set::empty(), 0);
        }
        while lane < 3
            invariant
                lane <= 3,
                start.wf(),
                state@ == start.mark_anchors_dirty(marked),
                forall|r: Round| #[trigger]
                    marked.contains(r) <==> start.is_anchor(r) && lane_of(r) < lane,
            decreases 3 - lane,
        {
            let anchor = match state.fallback.anchors.get(&lane) {
                Some(anchor) => Some(*anchor),
                None => None,
            };
            if let Some(anchor) = anchor {
                proof {
                    start.lemma_mark_one_more(marked, anchor);
                }
                state.mark_fallback_anchor_dirty(anchor);
                proof {
                    marked = marked.insert(anchor);
                }
            }
            lane += 1;
        }
        proof {
            assert(start.mark_anchors_dirty(marked) =~= start.mark_anchors_dirty(
                Self::active(start),
            ));
            start.lemma_same_graph(state@);
        }
        let ghost dirtied = state@;
        self.evaluate_dirty_fallback_anchors(now, state);
        proof {
            start.lemma_keeps(dirtied, state@);
        }
    }
}

} // verus!
