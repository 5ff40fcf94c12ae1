//! What a whole finalization does to the leaders of a lane.
use crate::consensus::commit::Time;
use crate::consensus::model::{lane_of, FallbackDecision, StateView};
use crate::consensus::rules::Consensus;
use crate::ordered::in_order;
use crate::types::{Certificate, PublicKey, Round, LAST_ROUND};
use vstd::prelude::*;

verus! {

impl StateView {
    /// All unresolved leaders of a lane below `limit` await finalization.
    pub open spec fn stacks_all(self, lane: Round, limit: Round) -> bool {
        forall|r: Round|
            0 < r < limit && lane_of(r) == lane && self.unresolved(r)
                ==> #[trigger] self.fallback.stack.contains(r)
    }

    /// Whether the step to `after` stages the unresolved leader of `round` for
    /// its commit.
    pub open spec fn stages(self, after: StateView, round: Round) -> bool {
        self.unresolved(round) && after.commits.pending.contains_key(round)
    }

    /// Only leaders of the lane below `limit` are resolved, the newest first:
    /// above a resolved one none is left open.
    pub open spec fn resolves_downward(self, after: StateView, lane: Round, limit: Round) -> bool {
        &&& forall|r: Round| !self.unresolved(r) ==> !#[trigger] after.unresolved(r)
        &&& forall|r: Round|
            self.unresolved(r) && !#[trigger] after.unresolved(r) ==> r < limit && lane_of(r)
                == lane
        &&& forall|r: Round, q: Round|
            #![trigger after.unresolved(r), after.unresolved(q)]
            self.unresolved(r) && !after.unresolved(r) && r < q < limit && lane_of(q) == lane
                ==> !after.unresolved(q)
    }

    /// The lowest leader that is staged becomes the anchor of the lane. If none
    /// is, the anchor stays.
    pub open spec fn lowers_anchor(self, after: StateView, lane: Round) -> bool {
        &&& forall|r: Round| #[trigger]
            self.commits.pending.contains_key(r) ==> after.commits.pending.contains_key(r)
        &&& forall|r: Round| #[trigger]
            after.commits.pending.contains_key(r) ==> self.commits.pending.contains_key(r)
                || self.unresolved(r)
        &&& {
            ||| after.fallback.anchors == self.fallback.anchors && forall|r: Round|
                !#[trigger] self.stages(after, r)
            ||| after.fallback.anchors.contains_key(lane) && self.stages(
                after,
                after.fallback.anchors[lane],
            ) && after.fallback.anchors == self.fallback.anchors.insert(
                lane,
                after.fallback.anchors[lane],
            ) && forall|r: Round| #[trigger]
                self.stages(after, r) ==> after.fallback.anchors[lane] <= r
        }
    }

    /// Where a leader of a lane awaits finalization, one is the newest.
    pub proof fn lemma_newest(self, lane: Round, limit: Round, round: Round)
        requires
            self.awaits(lane, limit, round),
        ensures
            exists|t: Round| self.is_newest(lane, limit, t),
        decreases limit - round,
    {
        if !self.is_newest(lane, limit, round) {
            let later = choose|r: Round| #[trigger] self.awaits(lane, limit, r) && r > round;
            self.lemma_newest(lane, limit, later);
        }
    }

    /// A step that resolves at most the leader of `target`, the newest of its
    /// lane, and then one that resolves the leaders below make one.
    proof fn lemma_resolves_on(
        self,
        next: StateView,
        after: StateView,
        lane: Round,
        limit: Round,
        target: Round,
    )
        requires
            target < limit,
            lane_of(target) == lane,
            forall|r: Round|
                r != target ==> self.unresolved(r) == #[trigger] next.unresolved(r),
            !next.unresolved(target),
            forall|r: Round|
                target < r < limit && lane_of(r) == lane ==> !#[trigger] self.unresolved(r),
            next.resolves_downward(after, lane, target),
        ensures
            self.resolves_downward(after, lane, limit),
    {
        assert forall|r: Round| !self.unresolved(r) implies !#[trigger] after.unresolved(r) by {
            assert(!next.unresolved(r));
        }
        assert forall|r: Round|
            self.unresolved(r) && !#[trigger] after.unresolved(r) implies r < limit && lane_of(r)
            == lane by {
            if r != target {
                assert(next.unresolved(r));
            }
        }
        assert forall|r: Round, q: Round|
            #![trigger after.unresolved(r), after.unresolved(q)]
            self.unresolved(r) && !after.unresolved(r) && r < q < limit && lane_of(q)
                == lane implies !after.unresolved(q) by {
            if q > target {
                assert(!self.unresolved(q));
                assert(!next.unresolved(q));
            } else if q == target {
                assert(!next.unresolved(q));
            } else {
                assert(next.unresolved(r));
            }
        }
    }
}

impl Consensus {
    /// Resolving the leaders of a lane goes downward, and the anchor follows. No
    /// slot moves, none is committed, and only open leaders below `limit` are
    /// skipped, for good.
    pub proof fn lemma_resolve(&self, s: StateView, anchor: Certificate, limit: Round, now: Time)
        requires
            s.wf(),
            s.settled(anchor),
            limit <= anchor.round(),
            s.stacks_all(lane_of(anchor.round()), limit),
        ensures
            self.resolve(s, anchor, limit, now).wf(),
            s.resolves_downward(
                self.resolve(s, anchor, limit, now),
                lane_of(anchor.round()),
                limit,
            ),
            s.lowers_anchor(self.resolve(s, anchor, limit, now), lane_of(anchor.round())),
            self.resolve(s, anchor, limit, now).graph.homes == s.graph.homes,
            self.resolve(s, anchor, limit, now).graph.grade_two == s.graph.grade_two,
            forall|r: Round| #[trigger]
                self.resolve(s, anchor, limit, now).commits.skipped.contains(r)
                    ==> s.commits.skipped.contains(r) || (s.unresolved(r) && r < limit),
            s.commits.skipped.subset_of(self.resolve(s, anchor, limit, now).commits.skipped),
            self.resolve(s, anchor, limit, now).commits.committed == s.commits.committed,
            self.resolve(s, anchor, limit, now).commits.highest_advanced_round
                == s.commits.highest_advanced_round,
            self.resolve(s, anchor, limit, now).fallback.dirty_anchors.subset_of(
                s.fallback.dirty_anchors,
            ),
            forall|r: Round| #[trigger]
                s.resolved(r) ==> self.resolve(s, anchor, limit, now).resolved(r),
        decreases limit,
    {
        let lane = lane_of(anchor.round());
        let after = self.resolve(s, anchor, limit, now);
        if exists|t: Round| s.is_newest(lane, limit, t) {
            let target = choose|t: Round| s.is_newest(lane, limit, t);
            assert(s.awaits(lane, limit, target));
            assert forall|r: Round| target < r < limit && lane_of(r) == lane implies !(
            #[trigger] s.unresolved(r)) by {
                if s.unresolved(r) {
                    assert(s.fallback.stack.contains(r));
                    assert(s.awaits(lane, limit, r));
                }
            }
            if !s.unresolved(target) {
                let next = s.unstack(target);
                s.lemma_same_graph(next);
                self.lemma_resolve(next, anchor, target, now);
                s.lemma_resolves_on(next, after, lane, limit, target);
                s.lemma_anchor_kept(next, after, lane, target);
            } else {
                let leader = self.sighted(s, target);
                let history = s.history_of(anchor);
                let looked = s.snapshot(anchor);
                s.lemma_snapshot(anchor);
                self.lemma_sighted(s, target);
                if !history.complete {
                    self.lemma_request(looked, target, now);
                } else {
                    let commit = self.decides(looked, anchor, leader, target, history);
                    let decided = looked.remember(
                        anchor.round(),
                        target,
                        FallbackDecision { version: history.version, commit },
                    );
                    looked.lemma_same_graph(decided);
                    self.lemma_request(decided, target, now);
                    if !commit {
                        let sought = if leader is None && history.by_round.len() > 0 {
                            self.request(decided, target, now)
                        } else {
                            decided
                        };
                        let next = sought.skip_leader(target);
                        sought.lemma_skip_leader(target);
                        assert(next.settled(anchor));
                        self.lemma_resolve(next, anchor, target, now);
                        s.lemma_resolves_on(next, after, lane, limit, target);
                        s.lemma_anchor_kept(next, after, lane, target);
                    } else if leader is Some {
                        let block = leader->0;
                        let staged = decided.stage(block, 3, self.gc_depth, now);
                        let next = staged.reanchor(target);
                        assert(decided.settled(block));
                        decided.lemma_stage(block, 3, self.gc_depth, now);
                        decided.lemma_force_only(block, target);
                        decided.lemma_admission_grades(seq![block], Set::empty(), target);
                        assert(target <= LAST_ROUND);
                        staged.lemma_same_graph(next);
                        assert(staged.settled(block));
                        self.lemma_resolve(next, block, target, now);
                        s.lemma_resolves_on(next, after, lane, limit, target);
                        s.lemma_anchor_taken(next, after, lane, target);
                    }
                }
            }
        } else {
            assert forall|r: Round| 0 < r < limit && lane_of(r) == lane implies !(
            #[trigger] s.unresolved(r)) by {
                if s.unresolved(r) {
                    assert(s.fallback.stack.contains(r));
                    s.lemma_newest(lane, limit, r);
                }
            }
        }
        assert forall|r: Round| #[trigger] s.resolved(r) implies after.resolved(r) by {
            assert(!s.unresolved(r));
            assert(!after.unresolved(r));
            assert(after.commits.rules.contains_key(r) ==> after.resolved(r));
        }
    }

    /// What has been asked for stays so while leaders are resolved.
    pub proof fn lemma_requests_stay(
        &self,
        s: StateView,
        anchor: Certificate,
        limit: Round,
        now: Time,
        x: (Round, PublicKey),
    )
        requires
            s.wf(),
            s.settled(anchor),
            limit <= anchor.round(),
            s.commits.requests.contains(x),
        ensures
            self.resolve(s, anchor, limit, now).commits.requests.contains(x),
        decreases limit,
    {
        let lane = lane_of(anchor.round());
        if exists|t: Round| s.is_newest(lane, limit, t) {
            let target = choose|t: Round| s.is_newest(lane, limit, t);
            assert(s.awaits(lane, limit, target));
            if !s.unresolved(target) {
                let next = s.unstack(target);
                s.lemma_same_graph(next);
                self.lemma_requests_stay(next, anchor, target, now, x);
            } else {
                let leader = self.sighted(s, target);
                let history = s.history_of(anchor);
                let looked = s.snapshot(anchor);
                s.lemma_snapshot(anchor);
                self.lemma_sighted(s, target);
                let commit = self.decides(looked, anchor, leader, target, history);
                let decided = looked.remember(
                    anchor.round(),
                    target,
                    FallbackDecision { version: history.version, commit },
                );
                looked.lemma_same_graph(decided);
                self.lemma_request(decided, target, now);
                assert forall|c: StateView| c.commits.requests == s.commits.requests implies (
                #[trigger] self.request(c, target, now)).commits.requests.contains(x) by {
                    let q = s.commits.requests;
                    let i = choose|i: int| 0 <= i < q.len() && q[i] == x;
                    assert(q.push((target, self.lead(target)))[i] == x);
                }
                if !history.complete {
                } else if !commit {
                    let sought = if leader is None && history.by_round.len() > 0 {
                        self.request(decided, target, now)
                    } else {
                        decided
                    };
                    let next = sought.skip_leader(target);
                    sought.lemma_skip_leader(target);
                    assert(sought.commits.requests.contains(x));
                    assert(next.commits.requests == sought.commits.requests);
                    self.lemma_requests_stay(next, anchor, target, now, x);
                } else if leader is Some {
                    let block = leader->0;
                    let staged = decided.stage(block, 3, self.gc_depth, now);
                    let next = staged.reanchor(target);
                    assert(decided.settled(block));
                    decided.lemma_stage(block, 3, self.gc_depth, now);
                    decided.lemma_force_only(block, target);
                    assert(target <= LAST_ROUND);
                    staged.lemma_same_graph(next);
                    assert(next.commits.requests == s.commits.requests);
                    self.lemma_requests_stay(next, block, target, now, x);
                }
            }
        }
    }

    /// A finalization resolves leaders of the lane below its anchor alone, the
    /// newest first: where it skips or stages a leader, every leader of the lane
    /// above, up to the anchor, is committed, skipped or pending. The lowest
    /// leader that it stages under rule 3 becomes the anchor of the lane; if it
    /// stages none, the anchor stays, as a skip leaves it. Before it ends, the
    /// leaders that are ready by it are committed.
    pub proof fn law_finalization_goes_downward(
        &self,
        s: StateView,
        anchor_round: Round,
        now: Time,
        round: Round,
        above: Round,
    )
        requires
            s.wf(),
            self.sighted(s, anchor_round) is Some,
            s.is_anchor(anchor_round),
            lane_of(above) == lane_of(anchor_round),
            round < above < anchor_round,
        ensures
            ({
                let lane = lane_of(anchor_round);
                let anchor = self.sighted(s, anchor_round)->0;
                let staged = self.resolve(s.stack_lane(anchor_round), anchor, anchor_round, now);
                let after = self.finalize(s, anchor_round, now);
                &&& after == staged.drain(self.gc_depth)
                &&& s.unresolved(round) && !after.unresolved(round) ==> after.resolved(above)
                    && lane_of(round) == lane
                &&& after.fallback.anchors == staged.fallback.anchors
                &&& {
                    ||| after.fallback.anchors == s.fallback.anchors && forall|r: Round|
                        !#[trigger] s.stages(staged, r)
                    ||| after.fallback.anchors.contains_key(lane) && s.stages(
                        staged,
                        after.fallback.anchors[lane],
                    ) && forall|r: Round| #[trigger]
                        s.stages(staged, r) ==> after.fallback.anchors[lane] <= r
                }
            }),
    {
        let lane = lane_of(anchor_round);
        let anchor = self.sighted(s, anchor_round)->0;
        let stacked = s.stack_lane(anchor_round);
        let staged = self.resolve(stacked, anchor, anchor_round, now);
        let after = staged.drain(self.gc_depth);
        self.lemma_sighted(s, anchor_round);
        s.lemma_same_graph(stacked);
        assert forall|r: Round| s.unresolved(r) == #[trigger] stacked.unresolved(r) by {}
        assert(stacked.stacks_all(lane, anchor_round));
        self.lemma_resolve(stacked, anchor, anchor_round, now);
        staged.lemma_drain(self.gc_depth);
        assert forall|r: Round| s.stages(staged, r) == #[trigger] stacked.stages(staged, r) by {}
        if s.unresolved(round) && !after.unresolved(round) {
            assert(stacked.unresolved(round));
            assert(after.commits.rules.contains_key(round) ==> after.resolved(round));
            assert(after.resolved(round));
            assert(staged.resolved(round));
            assert(!staged.unresolved(round));
            assert(!staged.unresolved(above));
            assert(staged.commits.rules.contains_key(above) ==> staged.resolved(above));
            assert(staged.resolved(above));
            assert(after.resolved(above));
        }
        assert forall|r: Round| #[trigger] s.stages(staged, r) implies stacked.stages(
            staged,
            r,
        ) by {}
        if !(forall|r: Round| !#[trigger] stacked.stages(staged, r)) {
            let low = after.fallback.anchors[lane];
            assert(stacked.stages(staged, low));
            assert(s.stages(staged, low));
        }
    }
}

impl StateView {
    /// Steps that stage nothing leave the anchor to those that follow.
    proof fn lemma_anchor_kept(
        self,
        next: StateView,
        after: StateView,
        lane: Round,
        target: Round,
    )
        requires
            next.commits.pending == self.commits.pending,
            next.fallback.anchors == self.fallback.anchors,
            forall|r: Round|
                r != target ==> self.unresolved(r) == #[trigger] next.unresolved(r),
            !next.unresolved(target),
            next.lowers_anchor(after, lane),
        ensures
            self.lowers_anchor(after, lane),
    {
        assert forall|r: Round| self.stages(after, r) == #[trigger] next.stages(after, r) by {
            if r == target && self.stages(after, r) {
                assert(after.commits.pending.contains_key(r));
                assert(next.commits.pending.contains_key(r));
            }
            if r != target {
                assert(self.unresolved(r) == next.unresolved(r));
            }
        }
        assert forall|r: Round| #[trigger]
            after.commits.pending.contains_key(r) implies self.commits.pending.contains_key(r)
            || self.unresolved(r) by {
            if next.unresolved(r) {
                assert(r != target);
            }
        }
        assert forall|r: Round| #[trigger] self.stages(after, r) implies next.stages(after, r) by {}
    }

    /// A staged leader becomes the anchor, until one below it is staged.
    proof fn lemma_anchor_taken(
        self,
        next: StateView,
        after: StateView,
        lane: Round,
        target: Round,
    )
        requires
            self.unresolved(target),
            next.commits.pending.dom() == self.commits.pending.dom().insert(target),
            next.fallback.anchors == self.fallback.anchors.insert(lane, target),
            forall|r: Round|
                r != target ==> self.unresolved(r) == #[trigger] next.unresolved(r),
            next.lowers_anchor(after, lane),
            next.resolves_downward(after, lane, target),
        ensures
            self.lowers_anchor(after, lane),
    {
        assert(next.commits.pending.dom().contains(target));
        assert(next.commits.pending.contains_key(target));
        assert(!next.unresolved(target));
        assert(after.commits.pending.contains_key(target));
        assert(self.stages(after, target));
        assert forall|r: Round| #[trigger]
            self.commits.pending.contains_key(r) implies after.commits.pending.contains_key(r) by {
            assert(next.commits.pending.dom().contains(r));
            assert(next.commits.pending.contains_key(r));
        }
        assert forall|r: Round| #[trigger]
            after.commits.pending.contains_key(r) implies self.commits.pending.contains_key(r)
            || self.unresolved(r) by {
            if next.commits.pending.contains_key(r) {
                assert(next.commits.pending.dom().contains(r));
            } else if r != target {
                assert(next.unresolved(r));
            }
        }
        assert forall|r: Round| #[trigger]
            self.stages(after, r) implies r == target || next.stages(after, r) by {
            if r != target {
                assert(next.unresolved(r));
            }
        }
        assert forall|r: Round| #[trigger] next.stages(after, r) implies r < target by {
            assert(next.unresolved(r) && !after.unresolved(r));
        }
        let low = after.fallback.anchors[lane];
        if forall|r: Round| !#[trigger] next.stages(after, r) {
            assert(after.fallback.anchors == next.fallback.anchors);
        } else {
            assert(next.stages(after, low));
            assert(self.stages(after, low));
        }
        assert(after.fallback.anchors =~= self.fallback.anchors.insert(lane, low));
    }

    /// Committing what is ready keeps the state well-formed, leaves the anchors
    /// and the slots alone, skips no leader, keeps what is resolved so and
    /// resolves nothing else.
    pub proof fn lemma_drain(self, gc_depth: Round)
        requires
            self.wf(),
        ensures
            self.drain(gc_depth).wf(),
            self.drain(gc_depth).fallback.anchors == self.fallback.anchors,
            self.drain(gc_depth).graph.homes == self.graph.homes,
            self.drain(gc_depth).graph.grade_two == self.graph.grade_two,
            self.drain(gc_depth).commits.skipped == self.commits.skipped,
            self.drain(gc_depth).commits.highest_advanced_round
                == self.commits.highest_advanced_round,
            self.drain(gc_depth).fallback.dirty_anchors.subset_of(self.fallback.dirty_anchors),
            forall|r: Round| #[trigger]
                self.drain(gc_depth).resolved(r) ==> self.resolved(r),
            forall|r: Round|
                self.resolved(r) ==> #[trigger] self.drain(gc_depth).resolved(r),
        decreases self.commits.pending.dom().len(), self.commits.ready.len(),
    {
        if self.commits.ready.len() > 0 {
            let round = in_order(self.commits.ready)[0];
            let next = self.unready(round);
            self.lemma_first_ready(gc_depth);
            self.lemma_unready(round);
            assert forall|r: Round| self.resolved(r) == #[trigger] next.resolved(r) by {}
            if next.can_commit(round) {
                let done = next.commit_leader(round, gc_depth);
                next.lemma_commit_leader(round, gc_depth);
                assert forall|r: Round| next.resolved(r) == #[trigger] done.resolved(r) by {}
                done.lemma_drain(gc_depth);
            } else {
                next.lemma_drain(gc_depth);
            }
        }
    }
}

} // verus!
