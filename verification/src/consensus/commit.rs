//! Leaders that satisfy a commit rule, up to their commit.
use crate::consensus::cleanup::lemma_raise;
use crate::consensus::model::{
    heeded, in_turn, lemma_in_turn, CommitView, FallbackView, StateView,
};
use crate::consensus::rules::Consensus;
use crate::consensus::state::State;
use crate::ordered::{group_ordered, in_order, lemma_filter_take, lemma_in_order_of};
use crate::types::{Certificate, Digest, Round, LAST_ROUND};
use vstd::prelude::*;

verus! {

/// A reading of the clocks, in milliseconds.
#[derive(Clone, Copy, Debug, PartialEq, Eq)]
pub struct Time {
    /// Since the Unix epoch.
    pub wall_ms: u128,
    /// On a clock that never goes back.
    pub mono_ms: u64,
}

impl StateView {
    // ----- Progress -----

    /// Whether the fate of the leader of `round` is settled or it waits for its
    /// commit.
    pub open spec fn resolved(self, round: Round) -> bool {
        ||| self.commits.committed.contains(round)
        ||| self.commits.skipped.contains(round)
        ||| self.commits.pending.contains_key(round)
    }

    /// Whether some block stands in `round`.
    pub open spec fn has_block(self, round: Round) -> bool {
        exists|d: Digest| #[trigger]
            self.graph.homes.contains_key(d) && self.graph.homes[d].0 == round
    }

    /// A step that takes in no block, enters no round, resolves leaders only for
    /// good and leaves no more anchors to evaluate. It leaves more leaders to evaluate only
    /// where it resolves one that has a block.
    pub open spec fn advances(self, after: StateView) -> bool {
        &&& after.graph.homes == self.graph.homes
        &&& after.commits.highest_advanced_round == self.commits.highest_advanced_round
        &&& forall|r: Round| #[trigger] self.resolved(r) ==> after.resolved(r)
        &&& after.fallback.dirty_anchors.subset_of(self.fallback.dirty_anchors)
        &&& self.calm(after) || self.resolves_one(after)
    }

    /// No more leaders are left to evaluate.
    pub open spec fn calm(self, after: StateView) -> bool {
        after.commits.dirty_leaders.subset_of(self.commits.dirty_leaders)
    }

    /// A leader that has a block gets resolved.
    pub open spec fn resolves_one(self, after: StateView) -> bool {
        exists|r: Round| #[trigger] after.resolved(r) && !self.resolved(r) && self.has_block(r)
    }

    /// Two such steps make one.
    pub proof fn lemma_advances(self, midway: StateView, after: StateView)
        requires
            self.advances(midway),
            midway.advances(after),
        ensures
            self.advances(after),
    {
        if self.resolves_one(midway) {
            let r = choose|r: Round| #[trigger]
                midway.resolved(r) && !self.resolved(r) && self.has_block(r);
            assert(after.resolved(r));
        } else if midway.resolves_one(after) {
            let r = choose|r: Round| #[trigger]
                after.resolved(r) && !midway.resolved(r) && midway.has_block(r);
            let d = choose|d: Digest| #[trigger]
                midway.graph.homes.contains_key(d) && midway.graph.homes[d].0 == r;
            assert(self.graph.homes.contains_key(d));
            assert(!self.resolved(r));
        }
    }

    // ----- Commit -----

    /// The leader of `round` no longer awaits finalization or its block.
    pub open spec fn dismiss(self, round: Round) -> StateView {
        StateView {
            fallback: FallbackView {
                stack: self.fallback.stack.remove(round),
                recovery: self.fallback.recovery.remove(round),
                missing_requests: self.fallback.missing_requests.remove(round),
                ..self.fallback
            },
            ..self
        }
    }

    /// The leader of `round` waits for its commit.
    pub open spec fn enqueue(
        self,
        round: Round,
        leader: Certificate,
        rule: u8,
        ordered: Seq<Certificate>,
    ) -> StateView {
        StateView {
            commits: CommitView {
                rules: self.commits.rules.insert(round, rule),
                order: self.commits.order.insert(round, ordered),
                pending: self.commits.pending.insert(round, leader),
                ..self.commits
            },
            ..self
        }
    }

    /// Stages an unresolved leader for its commit under a rule: its history
    /// enters the Dag and is put in order.
    pub open spec fn stage(
        self,
        leader: Certificate,
        rule: u8,
        gc_depth: Round,
        now: Time,
    ) -> StateView {
        let round = leader.round();
        if self.unresolved(round) {
            let forced = self.force(leader, round).dismiss(round).note_ready(round, now.wall_ms);
            forced.enqueue(
                round,
                leader,
                rule,
                forced.order_dag(leader, gc_depth),
            ).wake_pending(round)
        } else {
            self
        }
    }

    /// The leader of `round` is no longer taken for ready.
    pub open spec fn unready(self, round: Round) -> StateView {
        StateView {
            commits: CommitView { ready: self.commits.ready.remove(round), ..self.commits },
            ..self
        }
    }

    /// Whether a pending leader can be committed: its predecessors are resolved
    /// and its block is in the Dag.
    pub open spec fn can_commit(self, round: Round) -> bool {
        &&& self.commits.pending.contains_key(round)
        &&& self.predecessor_resolved(round)
        &&& self.graph.dag_digests.contains(self.commits.pending[round].digest())
    }

    /// The leader of `round` is no longer pending.
    pub open spec fn unqueue(self, round: Round) -> StateView {
        StateView {
            fallback: FallbackView {
                stack: self.fallback.stack.remove(round),
                ..self.fallback
            },
            commits: CommitView { pending: self.commits.pending.remove(round), ..self.commits },
            ..self
        }
    }

    /// The leader of `round` counts as committed, which wakes its successor
    /// among the pending leaders.
    pub open spec fn close(self, round: Round) -> StateView {
        StateView {
            commits: CommitView {
                committed: self.commits.committed.insert(round),
                ..self.commits
            },
            ..self
        }.wake_lowest()
    }

    /// What is committed with a leader: its prepared history without what has
    /// been committed in the meantime.
    pub open spec fn batch(self, round: Round, leader: Certificate, gc_depth: Round) -> Seq<
        Certificate,
    > {
        let prepared = if self.commits.order.contains_key(round) {
            self.commits.order[round]
        } else {
            self.order_dag(leader, gc_depth)
        };
        prepared.filter(|c: Certificate| self.above_mark(c))
    }

    /// A batch lies above the watermarks.
    pub proof fn lemma_batch(self, round: Round, leader: Certificate, gc_depth: Round, j: int)
        requires
            0 <= j < self.batch(round, leader, gc_depth).len(),
        ensures
            self.above_mark(self.batch(round, leader, gc_depth)[j]),
    {
        let prepared = if self.commits.order.contains_key(round) {
            self.commits.order[round]
        } else {
            self.order_dag(leader, gc_depth)
        };
        prepared.lemma_filter_pred(|c: Certificate| self.above_mark(c), j);
    }

    /// Forgets how the leader of `round` came to its commit.
    pub open spec fn settle_account(self, round: Round) -> StateView {
        StateView {
            commits: CommitView {
                order: self.commits.order.remove(round),
                rules: self.commits.rules.remove(round),
                ready_at: self.commits.ready_at.remove(round),
                ..self.commits
            },
            ..self
        }
    }

    /// Hands out a committed sequence.
    pub open spec fn emit(self, sequence: Seq<Certificate>) -> StateView {
        StateView {
            commits: CommitView { outbox: self.commits.outbox.push(sequence), ..self.commits },
            ..self
        }
    }

    /// Commits a pending leader, unless its round is committed already.
    pub open spec fn commit_leader(self, round: Round, gc_depth: Round) -> StateView {
        let opened = self.unqueue(round);
        if self.commits.committed.contains(round) {
            opened
        } else {
            let closed = opened.close(round);
            let sequence = closed.batch(round, self.commits.pending[round], gc_depth);
            closed.settle_account(round).update(sequence, gc_depth).emit(sequence)
        }
    }

    /// Commits all leaders that are ready, the earliest first, and those that
    /// become ready by it.
    pub open spec fn drain(self, gc_depth: Round) -> StateView
        decreases self.commits.pending.dom().len(), self.commits.ready.len(),
        when self.commits.pending.dom().finite() && self.commits.ready.finite() via
            Self::drain_decreases
    {
        if self.commits.ready.len() == 0 {
            self
        } else {
            let round = in_order(self.commits.ready)[0];
            let next = self.unready(round);
            if next.can_commit(round) {
                next.commit_leader(round, gc_depth).drain(gc_depth)
            } else {
                next.drain(gc_depth)
            }
        }
    }

    #[via_fn]
    proof fn drain_decreases(self, gc_depth: Round) {
        if self.commits.ready.len() > 0 {
            lemma_in_order_of(self.commits.ready);
            let order = in_order(self.commits.ready);
            if order.len() == 0 {
                assert(order.to_set() =~= Set::empty());
            }
            assert(order.to_set().contains(order[0]));
            let round = order[0];
            let next = self.unready(round);
            if next.can_commit(round) {
                assert(next.commit_leader(round, gc_depth).commits.pending.dom()
                    =~= self.commits.pending.dom().remove(round));
            }
        }
    }

    /// Staging keeps the state well-formed and advances it.
    pub proof fn lemma_stage(self, leader: Certificate, rule: u8, gc_depth: Round, now: Time)
        requires
            self.wf(),
            self.settled(leader),
        ensures
            self.stage(leader, rule, gc_depth, now).wf(),
            self.advances(self.stage(leader, rule, gc_depth, now)),
            self.carries(self.stage(leader, rule, gc_depth, now)),
            self.stage(leader, rule, gc_depth, now).resolved(leader.round()),
            self.unresolved(leader.round()) ==> self.stage(
                leader,
                rule,
                gc_depth,
                now,
            ).fallback.stack == self.fallback.stack.remove(leader.round()),
    {
        let round = leader.round();
        if self.unresolved(round) {
            let forced = self.force(leader, round);
            self.lemma_force(leader, round);
            self.lemma_force_only(leader, round);
            let after = self.stage(leader, rule, gc_depth, now);
            assert(after.placed());
            assert(after.closed_paths());
            assert(forced.settled(leader));
            assert(after.tracked_leaders());
            assert(self.has_block(round)) by {
                assert(self.graph.homes.contains_key(leader.digest()));
            }
            assert(after.resolved(round) && !self.resolved(round));
            assert(self.resolves_one(after));
            assert(forced.heeds() ==> after.heeds()) by {
                reveal(heeded);
            }
        }
    }

    /// Committing a leader that can be leaves nothing open before it.
    pub proof fn lemma_commit_in_turn(self, round: Round)
        requires
            self.consecutive(),
            self.can_commit(round),
        ensures
            in_turn(self.commits.committed.insert(round), self.commits.skipped),
    {
        lemma_in_turn(
            self.commits.committed,
            self.commits.skipped,
            self.commits.committed.insert(round),
            self.commits.skipped,
        );
    }

    /// A commit keeps the state well-formed and advances it.
    pub proof fn lemma_commit_leader(self, round: Round, gc_depth: Round)
        requires
            self.wf(),
            self.can_commit(round),
        ensures
            round <= LAST_ROUND,
            !self.commits.committed.contains(round) ==> self.unqueue(round).close(
                round,
            ).settle_account(round).wf(),
            self.commit_leader(round, gc_depth).wf(),
            self.advances(self.commit_leader(round, gc_depth)),
            self.steadies(self.commit_leader(round, gc_depth)),
            self.decided_once() && self.commits.committed.contains(0) ==> self.commit_leader(
                round,
                gc_depth,
            ).attentive(),
    {
        let after = self.commit_leader(round, gc_depth);
        self.lemma_commit_in_turn(round);
        assert(self.settled(self.commits.pending[round]));
        if self.commits.committed.contains(round) {
            assert(after.placed());
            assert(after.closed_paths());
            assert(after.tracked_leaders());
        } else {
            let closed = self.unqueue(round).close(round);
            let settled = closed.settle_account(round);
            let sequence = closed.batch(round, self.commits.pending[round], gc_depth);
            assert(settled.placed());
            assert(settled.closed_paths());
            assert(settled.tracked_leaders());
            settled.lemma_update(sequence, gc_depth);
            let updated = settled.update(sequence, gc_depth);
            assert(after.placed());
            assert(after.closed_paths());
            assert(after.tracked_leaders());
            assert forall|x: Certificate| self.settled(x) implies #[trigger] after.settled(x) by {
                assert(settled.settled(x));
                assert(updated.settled(x));
            }
            lemma_raise(settled.commits.last_committed, sequence);
            if self.decided_once() && self.commits.committed.contains(0) {
                let shut = StateView {
                    commits: CommitView {
                        committed: self.commits.committed.insert(round),
                        ..self.unqueue(round).commits
                    },
                    ..self.unqueue(round)
                };
                shut.lemma_wake_lowest();
                assert(closed == shut.wake_lowest());
                assert(settled.attentive());
            }
            assert forall|j: int| 0 <= j < sequence.len() implies self.above_mark(
                #[trigger] sequence[j],
            ) && !after.above_mark(sequence[j]) by {
                closed.lemma_batch(round, self.commits.pending[round], gc_depth, j);
            }
        }
    }

    // ----- Skip -----

    /// Skips a leader that no rule has decided.
    pub open spec fn skip_leader(self, round: Round) -> StateView {
        if self.commits.rules.contains_key(round) || self.commits.committed.contains(round) {
            self
        } else {
            let dismissed = self.dismiss(round);
            let marked = StateView {
                commits: CommitView {
                    dirty_leaders: self.commits.dirty_leaders.remove(round),
                    ..self.commits
                },
                ..dismissed
            }.mark_skipped(round);
            if self.commits.skipped.contains(round) {
                marked
            } else {
                StateView {
                    commits: CommitView {
                        rules: marked.commits.rules.insert(round, 3),
                        ..marked.commits
                    },
                    ..marked
                }
            }
        }
    }

    /// A skip keeps the state well-formed and advances it.
    pub proof fn lemma_skip_leader(self, round: Round)
        requires
            self.wf(),
        ensures
            self.skip_leader(round).wf(),
            self.advances(self.skip_leader(round)),
            self.calm(self.skip_leader(round)),
            self.keeps_homes(self.skip_leader(round)),
            !self.commits.pending.contains_key(round) ==> self.keeps(self.skip_leader(round)),
    {
        let after = self.skip_leader(round);
        lemma_in_turn(
            self.commits.committed,
            self.commits.skipped,
            self.commits.committed,
            self.commits.skipped.insert(round),
        );
        assert(after.placed());
        assert(after.closed_paths());
        assert(after.tracked_leaders());
        if self.attentive() && !self.commits.pending.contains_key(round)
            && !self.commits.skipped.contains(round) {
            let barred = StateView {
                commits: CommitView {
                    skipped: self.commits.skipped.insert(round),
                    dirty_leaders: self.commits.dirty_leaders.remove(round),
                    ..self.commits
                },
                ..self.dismiss(round)
            };
            if !self.commits.committed.contains(round) {
                barred.lemma_wake_lowest();
            }
        }
        assert(self.commits.skipped.contains(round) ==> self.commits.skipped.insert(round)
            =~= self.commits.skipped);
    }
}

impl Consensus {
    /// Stages an unresolved leader for its commit under a rule.
    pub fn stage_leader_commit(
        &self,
        leader: Certificate,
        rule: u8,
        now: Time,
        state: &mut State,
    )
        requires
            self.wf(),
            old(state)@.wf(),
            old(state)@.settled(leader),
        ensures
            final(state)@ == old(state)@.stage(leader, rule, self.gc_depth, now),
            final(state)@.wf(),
            old(state)@.advances(final(state)@),
            old(state)@.keeps_given(leader, final(state)@),
    {
        let ghost start = state@;
        let round = leader.round();
        proof {
            start.lemma_stage(leader, rule, self.gc_depth, now);
            start.lemma_stage_keeps(leader, rule, self.gc_depth, now);
        }
        if state.commits.committed.contains(&round) || state.commits.skipped.contains(&round)
            || state.commits.pending.contains_key(&round) || state.commits.rules.contains_key(
            &round,
        ) {
            return ;
        }
        state.force_observed_history_to_dag(leader.clone(), round);
        state.fallback.stack.remove(&round);
        state.fallback.recovery.remove(&round);
        state.fallback.missing_requests.remove(&round);
        proof {
            start.lemma_force_only(leader, round);
        }
        state.record_rule_ready(round, now.wall_ms);
        let ghost forced = state@;
        let ordered = self.order_dag(&leader, state);
        let ghost orders = state.commits.order@;
        state.commits.rules.insert(round, rule);
        state.commits.order.insert(round, ordered);
        state.commits.pending.insert(round, leader);
        proof {
            assert(state.commits.order@.map_values(|v: Vec<Certificate>| v@) =~= orders.map_values(
                |v: Vec<Certificate>| v@,
            ).insert(round, ordered@));
            assert(state@ =~= forced.enqueue(
                round,
                leader,
                rule,
                forced.order_dag(leader, self.gc_depth),
            ));
        }
        state.wake_pending(round);
    }

    /// Skips a leader that no rule has decided.
    pub fn mark_rule_three_skipped(&self, round: Round, state: &mut State)
        requires
            old(state)@.wf(),
        ensures
            final(state)@ == old(state)@.skip_leader(round),
            final(state)@.wf(),
            old(state)@.advances(final(state)@),
            old(state)@.keeps_homes(final(state)@),
            !old(state)@.commits.pending.contains_key(round) ==> old(state)@.keeps(final(state)@),
    {
        let ghost start = state@;
        proof {
            start.lemma_skip_leader(round);
        }
        if state.commits.rules.contains_key(&round) || state.commits.committed.contains(&round) {
            return ;
        }
        state.fallback.stack.remove(&round);
        state.fallback.recovery.remove(&round);
        state.fallback.missing_requests.remove(&round);
        state.commits.dirty_leaders.remove(&round);
        if state.mark_skipped(round) {
            state.commits.rules.insert(round, 3);
        }
    }

    /// What is committed with a leader.
    fn take_batch(&self, round: Round, leader: &Certificate, state: &mut State) -> (result: Vec<
        Certificate,
    >)
        ensures
            result@ == old(state)@.batch(round, *leader, self.gc_depth),
            final(state)@ == (StateView {
                commits: CommitView {
                    order: old(state)@.commits.order.remove(round),
                    ..old(state)@.commits
                },
                ..old(state)@
            }),
    {
        let ghost start = state@;
        let ghost orders = state.commits.order@;
        let taken = state.commits.order.remove(&round);
        proof {
            assert(state.commits.order@.map_values(|v: Vec<Certificate>| v@) =~= orders.map_values(
                |v: Vec<Certificate>| v@,
            ).remove(round));
            assert(state@ =~= (StateView {
                commits: CommitView {
                    order: start.commits.order.remove(round),
                    ..start.commits
                },
                ..start
            }));
        }
        let prepared = match taken {
            Some(prepared) => prepared,
            None => {
                let ordered = self.order_dag(leader, state);
                proof {
                    broadcast use group_ordered;

                    state@.lemma_order_local(start, *leader, self.gc_depth);
                }
                ordered
            },
        };
        let ghost kept = |c: Certificate| start.above_mark(c);
        let ghost all = prepared@;
        let mut result: Vec<Certificate> = Vec::new();
        let mut i: usize = 0;
        proof {
            reveal(Seq::filter);
            assert(all.take(0).filter(kept) =~= Seq::empty());
        }
        while i < prepared.len()
            invariant
                i <= prepared@.len(),
                all == prepared@,
                kept == (|c: Certificate| start.above_mark(c)),
                state@.commits.last_committed == start.commits.last_committed,
                result@ == all.take(i as int).filter(kept),
            decreases prepared@.len() - i,
        {
            proof {
                lemma_filter_take(all, kept, i as int);
            }
            if state.is_above_mark(&prepared[i]) {
                result.push(prepared[i].clone());
            }
            i += 1;
        }
        proof {
            assert(all.take(all.len() as int) =~= all);
        }
        result
    }

    /// Commits all leaders that are ready, the earliest first, and those that
    /// become ready by it.
    pub fn drain_ready_leaders(&self, state: &mut State)
        requires
            old(state)@.wf(),
        ensures
            final(state)@ == old(state)@.drain(self.gc_depth),
            final(state)@.wf(),
            final(state)@.commits.ready == Set::<Round>::empty(),
            old(state)@.advances(final(state)@),
            old(state)@.calm(final(state)@),
            old(state)@.keeps(final(state)@),
            final(state)@.fallback.stack.subset_of(old(state)@.fallback.stack),
    {
        broadcast use group_ordered;

        let ghost start = state@;
        loop
            invariant
                state@.wf(),
                state@.drain(self.gc_depth) == start.drain(self.gc_depth),
                start.advances(state@),
                start.calm(state@),
                start.keeps(state@),
                state@.fallback.stack.subset_of(start.fallback.stack),
            ensures
                state@.wf(),
                state@ == start.drain(self.gc_depth),
                start.advances(state@),
                start.calm(state@),
                start.keeps(state@),
                state@.commits.ready == Set::<Round>::empty(),
                state@.fallback.stack.subset_of(start.fallback.stack),
            decreases state@.commits.pending.dom().len(), state@.commits.ready.len(),
        {
            broadcast use group_ordered;

            let ghost before = state@;
            let round = match state.commits.ready.first() {
                Some(round) => round,
                None => {
                    break ;
                },
            };
            state.commits.ready.remove(&round);
            let ghost next = state@;
            proof {
                assert(next =~= before.unready(round));
                assert(next.placed());
                assert(next.closed_paths());
                assert(next.tracked_leaders());
                assert(before.advances(next));
                start.lemma_advances(before, next);
                before.lemma_try_commit(round, self.gc_depth);
                start.lemma_keeps(before, before.try_commit(round, self.gc_depth));
            }
            let leader = match state.commits.pending.get(&round) {
                Some(leader) => leader.clone(),
                None => {
                    continue ;
                },
            };
            if !state.predecessor_resolved(round) || !state.graph.dag_digests.contains(
                &leader.digest(),
            ) {
                continue ;
            }
            proof {
                next.lemma_commit_leader(round, self.gc_depth);
                start.lemma_advances(next, next.commit_leader(round, self.gc_depth));
                assert(next.commit_leader(round, self.gc_depth).commits.pending.dom()
                    =~= next.commits.pending.dom().remove(round));
            }
            state.commits.pending.remove(&round);
            state.fallback.stack.remove(&round);
            proof {
                assert(state@ =~= next.unqueue(round));
            }
            if !state.commits.committed.insert(round) {
                proof {
                    assert(state@ =~= next.unqueue(round));
                }
                continue ;
            }
            proof {
                next.lemma_commit_in_turn(round);
            }
            state.wake_lowest();
            let ghost closed = state@;
            proof {
                assert(closed == next.unqueue(round).close(round));
            }
            let sequence = self.take_batch(round, &leader, state);
            state.commits.rules.remove(&round);
            state.commits.ready_at.remove(&round);
            proof {
                assert(state@ =~= closed.settle_account(round));
            }
            state.update(&sequence, self.gc_depth);
            let ghost updated = state@;
            let ghost sent = state.commits.outbox@;
            state.commits.outbox.push(sequence);
            proof {
                assert(state.commits.outbox@.map_values(|v: Vec<Certificate>| v@)
                    =~= sent.map_values(|v: Vec<Certificate>| v@).push(sequence@));
                assert(state@ =~= updated.emit(sequence@));
                assert(state@ == next.commit_leader(round, self.gc_depth));
            }
        }
    }
}

} // verus!
