//! When the commit rules commit, in terms of the blocks and their edges.
use crate::consensus::commit::Time;
use crate::consensus::messages::{ConsensusMessage, Stage};
use crate::consensus::model::{lane_of, GraphView, StateView};
use crate::consensus::rules::Consensus;
use crate::ordered::{image, in_order, lemma_in_order_of, Key};
use crate::types::{Certificate, Digest, PublicKey, Round, LAST_ROUND};
use vstd::prelude::*;

verus! {

impl GraphView {
    /// Whether a strong edge leads from a block to an observed one that
    /// references `target` virtually.
    pub open spec fn relays(self, c: Certificate, target: Digest) -> bool {
        exists|p: Digest|
            self.observed.contains_key(p) && #[trigger] c.header.parents@.contains(p)
                && self.observed[p].header.virtual_edges@.contains(target)
    }
}

impl StateView {
    /// What is resolved stays so, and what has grade 2 keeps it.
    pub open spec fn retains(self, after: StateView) -> bool {
        &&& forall|q: Round| #[trigger] self.resolved(q) ==> after.resolved(q)
        &&& self.graph.grade_two.subset_of(after.graph.grade_two)
    }

    proof fn lemma_retains(self, midway: StateView, after: StateView)
        requires
            self.retains(midway),
            midway.retains(after),
        ensures
            self.retains(after),
    {
        assert forall|q: Round| #[trigger] self.resolved(q) implies after.resolved(q) by {
            assert(midway.resolved(q));
        }
    }

    proof fn lemma_relays(self, c: Certificate, target: Digest)
        ensures
            self.two_hops(c, target) == self.graph.relays(c, target),
    {
        if self.two_hops(c, target) {
            let p = choose|p: Digest| #[trigger]
                c.header.parents@.contains(p) && self.graph.observed.contains_key(p)
                    && self.graph.observed[p].header.virtual_edges@.contains(target);
            assert(c.header.parents@.contains(p));
        }
    }
}

impl Consensus {
    // ----- What a rule does to its leader -----

    /// A finalization keeps the state well-formed, moves no slot and leaves what
    /// is resolved so.
    proof fn lemma_finalize(&self, s: StateView, anchor_round: Round, now: Time)
        requires
            s.wf(),
            s.is_anchor(anchor_round),
        ensures
            self.finalize(s, anchor_round, now).wf(),
            self.finalize(s, anchor_round, now).graph.homes == s.graph.homes,
            self.finalize(s, anchor_round, now).graph.grade_two == s.graph.grade_two,
            self.finalize(s, anchor_round, now).commits.highest_advanced_round
                == s.commits.highest_advanced_round,
            self.finalize(s, anchor_round, now).fallback.dirty_anchors.subset_of(
                s.fallback.dirty_anchors,
            ),
            forall|l: Round| #[trigger]
                s.fallback.anchors.contains_key(l) ==> self.finalize(
                    s,
                    anchor_round,
                    now,
                ).fallback.anchors.contains_key(l),
            forall|r: Round| #[trigger]
                s.resolved(r) ==> self.finalize(s, anchor_round, now).resolved(r),
    {
        if self.sighted(s, anchor_round) is Some {
            let anchor = self.sighted(s, anchor_round)->0;
            let stacked = s.stack_lane(anchor_round);
            let staged = self.resolve(stacked, anchor, anchor_round, now);
            self.lemma_sighted(s, anchor_round);
            s.lemma_same_graph(stacked);
            assert forall|r: Round| s.unresolved(r) == #[trigger] stacked.unresolved(r) by {}
            assert(stacked.stacks_all(lane_of(anchor_round), anchor_round));
            self.lemma_resolve(stacked, anchor, anchor_round, now);
            staged.lemma_drain(self.gc_depth);
            assert forall|r: Round| #[trigger] s.resolved(r) implies staged.drain(
                self.gc_depth,
            ).resolved(r) by {
                assert(stacked.resolved(r));
                assert(staged.resolved(r));
            }
        }
    }

    /// So does the evaluation of several anchors. Of as many as are left none
    /// stays.
    pub proof fn lemma_evaluate(&self, s: StateView, fuel: nat, now: Time)
        requires
            s.wf(),
        ensures
            self.evaluate_anchors(s, fuel, now).wf(),
            self.evaluate_anchors(s, fuel, now).graph.homes == s.graph.homes,
            self.evaluate_anchors(s, fuel, now).graph.grade_two == s.graph.grade_two,
            self.evaluate_anchors(s, fuel, now).commits.highest_advanced_round
                == s.commits.highest_advanced_round,
            self.evaluate_anchors(s, fuel, now).fallback.dirty_anchors.subset_of(
                s.fallback.dirty_anchors,
            ),
            s.fallback.dirty_anchors.finite() && s.fallback.dirty_anchors.len() <= fuel
                ==> self.evaluate_anchors(s, fuel, now).fallback.dirty_anchors == Set::<
                Round,
            >::empty(),
            forall|l: Round| #[trigger]
                s.fallback.anchors.contains_key(l) ==> self.evaluate_anchors(
                    s,
                    fuel,
                    now,
                ).fallback.anchors.contains_key(l),
            forall|r: Round| #[trigger]
                s.resolved(r) ==> self.evaluate_anchors(s, fuel, now).resolved(r),
        decreases fuel,
    {
        if fuel > 0 && s.fallback.dirty_anchors.len() > 0 {
            let anchor = in_order(s.fallback.dirty_anchors)[0];
            let taken = s.take_anchor(anchor);
            s.lemma_same_graph(taken);
            let next = if taken.is_anchor(anchor) {
                self.finalize(taken, anchor, now)
            } else {
                taken
            };
            if taken.is_anchor(anchor) {
                self.lemma_finalize(taken, anchor, now);
            }
            if s.fallback.dirty_anchors.finite() {
                lemma_in_order_of(s.fallback.dirty_anchors);
                let order = in_order(s.fallback.dirty_anchors);
                if order.len() == 0 {
                    assert(order.to_set() =~= Set::empty());
                }
                assert(order.to_set().contains(order[0]));
                vstd::set_lib::lemma_len_subset(
                    next.fallback.dirty_anchors,
                    taken.fallback.dirty_anchors,
                );
            }
            self.lemma_evaluate(next, (fuel - 1) as nat, now);
            assert forall|r: Round| #[trigger] s.resolved(r) implies self.evaluate_anchors(
                s,
                fuel,
                now,
            ).resolved(r) by {
                assert(taken.resolved(r));
                assert(next.resolved(r));
            }
        }
    }

    /// The earliest anchor is evaluated first.
    pub proof fn law_earliest_anchor_comes_first(&self, s: StateView, now: Time, earliest: Round)
        requires
            s.wf(),
            s.fallback.dirty_anchors.finite(),
            s.fallback.dirty_anchors.contains(earliest),
            forall|r: Round| #[trigger] s.fallback.dirty_anchors.contains(r) ==> earliest <= r,
        ensures
            !self.evaluate_anchors(s, 1, now).fallback.dirty_anchors.contains(earliest),
    {
        let order = in_order(s.fallback.dirty_anchors);
        lemma_in_order_of(s.fallback.dirty_anchors);
        assert(order.to_set().contains(earliest));
        let i = choose|i: int| 0 <= i < order.len() && order[i] == earliest;
        assert(order.to_set().contains(order[0]));
        if i > 0 {
            assert(order[0].before(order[i]));
        }
        assert(order[0] == earliest);
        let taken = s.take_anchor(earliest);
        s.lemma_same_graph(taken);
        if taken.is_anchor(earliest) {
            self.lemma_finalize(taken, earliest, now);
        }
        reveal_with_fuel(Consensus::evaluate_anchors, 2);
    }

    /// Once a leader is queued it is committed, skipped or pending. No grade is
    /// granted by it.
    pub proof fn law_queued_leader_is_resolved(
        &self,
        s: StateView,
        leader: Certificate,
        rule: u8,
        now: Time,
    )
        requires
            s.wf(),
            s.settled(leader),
        ensures
            self.queue(s, leader, rule, now).wf(),
            self.queue(s, leader, rule, now).graph.grade_two == s.graph.grade_two,
            forall|r: Round| #[trigger]
                s.resolved(r) ==> self.queue(s, leader, rule, now).resolved(r),
            ({
                let after = self.queue(s, leader, rule, now);
                ||| after.commits.committed.contains(leader.round())
                ||| after.commits.skipped.contains(leader.round())
                ||| after.commits.pending.contains_key(leader.round())
            }),
    {
        let round = leader.round();
        if !(s.commits.committed.contains(round) || s.commits.skipped.contains(round)
            || s.commits.rules.contains_key(round)) {
            let forced = s.force(leader, round);
            let raised = forced.raise_anchor(round);
            let marked = raised.mark_anchor_dirty(raised.fallback.anchors[lane_of(round)]);
            let ready = if rule == 1 || rule == 2 {
                self.evaluate_dirty(marked, now)
            } else {
                s
            };
            if rule == 1 || rule == 2 {
                s.lemma_force(leader, round);
                s.lemma_force_only(leader, round);
                s.lemma_admission_grades(seq![leader], Set::empty(), round);
                assert(forced.tracked_leaders());
                assert(forced.graph.homes.contains_key(leader.digest()));
                forced.lemma_same_graph(marked);
                self.lemma_evaluate(marked, marked.fallback.dirty_anchors.len(), now);
            }
            assert(ready.wf() && ready.settled(leader));
            assert forall|r: Round| #[trigger] s.resolved(r) implies ready.resolved(r) by {
                if rule == 1 || rule == 2 {
                    assert(forced.resolved(r));
                    assert(marked.resolved(r));
                }
            }
            if ready.unresolved(round) {
                ready.lemma_stage(leader, rule, self.gc_depth, now);
                ready.lemma_admission_grades(seq![leader], Set::empty(), round);
                let staged = ready.stage(leader, rule, self.gc_depth, now);
                staged.lemma_drain(self.gc_depth);
                assert(staged.resolved(round));
                assert(staged.drain(self.gc_depth).resolved(round));
                assert forall|r: Round| #[trigger] s.resolved(r) implies staged.drain(
                    self.gc_depth,
                ).resolved(r) by {
                    assert(ready.resolved(r));
                    assert(staged.resolved(r));
                }
            } else {
                assert(ready.commits.rules.contains_key(round) ==> ready.resolved(round));
            }
        } else {
            assert(s.commits.rules.contains_key(round) ==> s.resolved(round));
        }
    }

    // ----- Rule 1 -----

    /// Rule 1 with the blocks of round `r` changes the state only if more than
    /// two thirds of the stake stand behind the leader of the round before,
    /// by observed blocks of `r` that hold a strong edge to its block, or a third
    /// by such blocks that have been in the Dag. The leader was open, and rule 1
    /// was not withheld from it.
    pub proof fn law_rule_one_needs_support(
        &self,
        s: StateView,
        r: Round,
        now: Time,
        entered: Set<Digest>,
    )
        requires
            s.graph.exact_support(),
            s.graph.dag_support(entered),
            self.rule_one(s, r, now) != s,
        ensures
            r >= 2,
            self.sighted(s, (r - 1) as Round) is Some,
            !s.commits.committed.contains((r - 1) as Round),
            !s.commits.skipped.contains((r - 1) as Round),
            !s.commits.pending.contains_key((r - 1) as Round),
            !self.schedule.adversarial@.contains((r - 1) as Round),
            !self.schedule.deferred@.contains((r - 1) as Round),
            ({
                let d = (self.sighted(s, (r - 1) as Round)->0).digest();
                ||| self.committee.holds_two_thirds(
                    Set::new(|a: PublicKey| s.graph.backs(r, d, a)),
                )
                ||| self.committee.holds_third(
                    Set::new(|a: PublicKey| s.graph.backs_among(entered, r, d, a)),
                )
            }),
    {
        let d = (self.sighted(s, (r - 1) as Round)->0).digest();
        let observed = image(s.graph.observed_direct_support, (r, d));
        let in_dag = image(s.graph.dag_direct_support, (r, d));
        let backers = Set::new(|a: PublicKey| s.graph.backs(r, d, a));
        let dag_backers = Set::new(|a: PublicKey| s.graph.backs_among(entered, r, d, a));
        assert forall|a: PublicKey| observed.contains(a) implies backers.contains(a) by {
            assert(s.graph.observed_direct_support.contains(((r, d), a)));
        }
        assert forall|a: PublicKey| in_dag.contains(a) implies dag_backers.contains(a) by {
            assert(s.graph.dag_direct_support.contains(((r, d), a)));
        }
        self.committee.lemma_weight_monotone(observed, backers);
        self.committee.lemma_weight_monotone(in_dag, dag_backers);
        self.committee.law_thresholds(observed);
        self.committee.law_thresholds(in_dag);
    }

    /// Rule 1 with the blocks of round `r` resolves the open leader of the round
    /// before, unless it is withheld, as soon as more than two thirds of the
    /// stake stand behind it by observed blocks of `r` that hold a strong edge
    /// to its block, or a third by such blocks of the Dag.
    pub proof fn law_rule_one_commits(
        &self,
        s: StateView,
        r: Round,
        now: Time,
        entered: Set<Digest>,
    )
        requires
            s.wf(),
            s.graph.exact_support(),
            s.graph.dag_support(entered),
            r >= 2,
            s.unresolved((r - 1) as Round),
            !self.schedule.adversarial@.contains((r - 1) as Round),
            !self.schedule.deferred@.contains((r - 1) as Round),
            self.sighted(s, (r - 1) as Round) is Some,
            ({
                let d = (self.sighted(s, (r - 1) as Round)->0).digest();
                ||| self.committee.holds_two_thirds(
                    Set::new(|a: PublicKey| s.graph.backs(r, d, a)),
                )
                ||| self.committee.holds_third(
                    Set::new(|a: PublicKey| s.graph.backs_among(s.graph.dag_digests, r, d, a)),
                )
            }),
        ensures
            ({
                let after = self.rule_one(s, r, now);
                &&& after.resolved((r - 1) as Round)
                &&& after != s
            }),
    {
        let leader_round = (r - 1) as Round;
        let leader = self.sighted(s, leader_round)->0;
        let d = leader.digest();
        let observed = image(s.graph.observed_direct_support, (r, d));
        let in_dag = image(s.graph.dag_direct_support, (r, d));
        let backers = Set::new(|a: PublicKey| s.graph.backs(r, d, a));
        let dag_backers = Set::new(
            |a: PublicKey| s.graph.backs_among(s.graph.dag_digests, r, d, a),
        );
        assert forall|a: PublicKey| backers.contains(a) implies observed.contains(a) by {
            assert(s.graph.observed_direct_support.contains(((r, d), a)));
        }
        assert forall|a: PublicKey| dag_backers.contains(a) implies in_dag.contains(a) by {
            assert(s.graph.dag_direct_support.contains(((r, d), a)));
        }
        self.committee.lemma_weight_monotone(backers, observed);
        self.committee.lemma_weight_monotone(dag_backers, in_dag);
        self.committee.law_thresholds(observed);
        self.committee.law_thresholds(in_dag);
        self.lemma_sighted(s, leader_round);
        let forced = s.force(leader, leader_round);
        s.lemma_force(leader, leader_round);
        s.lemma_force_only(leader, leader_round);
        assert(forced.settled(leader));
        self.law_queued_leader_is_resolved(forced, leader, 1, now);
    }

    // ----- Rule 2 -----

    /// Rule 2 with the blocks of round `q` changes the state only if the open
    /// leader two rounds before is delivered, and more than two thirds of the
    /// stake stand behind it by observed blocks of `q` with a strong path to its
    /// block, or a third by such blocks that have been in the Dag, or more than
    /// two thirds by Dag blocks of `q` with such a path, or with a strong edge
    /// to a block that references it virtually.
    pub proof fn law_rule_two_needs_support(
        &self,
        s: StateView,
        q: Round,
        now: Time,
        entered: Set<Digest>,
    )
        requires
            s.graph.exact_support(),
            s.graph.dag_support(entered),
            self.rule_two(s, q, now) != s,
        ensures
            q >= 3,
            self.delivered(s, (q - 2) as Round) is Some,
            !s.commits.committed.contains((q - 2) as Round),
            !s.commits.skipped.contains((q - 2) as Round),
            !s.commits.pending.contains_key((q - 2) as Round),
            !self.schedule.adversarial@.contains((q - 2) as Round),
            ({
                let d = (self.delivered(s, (q - 2) as Round)->0).digest();
                ||| self.committee.holds_two_thirds(
                    Set::new(|a: PublicKey| s.graph.supports(q, d, a)),
                )
                ||| self.committee.holds_third(
                    Set::new(|a: PublicKey| s.graph.supports_among(entered, q, d, a)),
                )
                ||| self.committee.holds_two_thirds(
                    Set::new(
                        |a: PublicKey|
                            s.graph.dag.contains_key((q, a)) && (s.graph.supports_among(
                                entered,
                                q,
                                d,
                                a,
                            ) || s.graph.relays(s.graph.dag[(q, a)], d)),
                    ),
                )
            }),
    {
        let d = (self.delivered(s, (q - 2) as Round)->0).digest();
        let observed = image(s.graph.observed_strong_support, (q, d));
        let in_dag = image(s.graph.dag_strong_support, (q, d));
        let either = s.strong_or_virtual(q, d);
        let all = Set::new(|a: PublicKey| s.graph.supports(q, d, a));
        let dag_all = Set::new(|a: PublicKey| s.graph.supports_among(entered, q, d, a));
        let dag_either = Set::new(
            |a: PublicKey|
                s.graph.dag.contains_key((q, a)) && (s.graph.supports_among(entered, q, d, a)
                    || s.graph.relays(s.graph.dag[(q, a)], d)),
        );
        assert forall|a: PublicKey| observed.contains(a) implies all.contains(a) by {
            assert(s.graph.observed_strong_support.contains(((q, d), a)));
        }
        assert forall|a: PublicKey| in_dag.contains(a) implies dag_all.contains(a) by {
            assert(s.graph.dag_strong_support.contains(((q, d), a)));
        }
        assert forall|a: PublicKey| either.contains(a) implies dag_either.contains(a) by {
            if s.graph.dag_strong_support.contains(((q, d), a)) {
            } else {
                assert(s.two_hops(s.graph.dag[(q, a)], d));
                s.lemma_relays(s.graph.dag[(q, a)], d);
            }
        }
        self.committee.lemma_weight_monotone(observed, all);
        self.committee.lemma_weight_monotone(in_dag, dag_all);
        self.committee.lemma_weight_monotone(either, dag_either);
        self.committee.law_thresholds(observed);
        self.committee.law_thresholds(in_dag);
        self.committee.law_thresholds(either);
    }

    /// Rule 2 with the blocks of round `q` resolves the open and delivered
    /// leader two rounds before, unless it is withheld, as soon as more than two
    /// thirds of the stake stand behind it by observed blocks of `q` with a
    /// strong path to its block, or a third by such blocks of the Dag, or more
    /// than two thirds by Dag blocks of `q` with such a path, or with a strong
    /// edge to a block that references it virtually. The last grants its block
    /// grade 2.
    pub proof fn law_rule_two_commits(
        &self,
        s: StateView,
        q: Round,
        now: Time,
        entered: Set<Digest>,
    )
        requires
            s.wf(),
            s.graph.exact_support(),
            s.graph.dag_support(entered),
            q >= 3,
            s.unresolved((q - 2) as Round),
            !self.schedule.adversarial@.contains((q - 2) as Round),
            self.delivered(s, (q - 2) as Round) is Some,
            ({
                let d = (self.delivered(s, (q - 2) as Round)->0).digest();
                ||| self.committee.holds_two_thirds(
                    Set::new(|a: PublicKey| s.graph.supports(q, d, a)),
                )
                ||| self.committee.holds_third(
                    Set::new(|a: PublicKey| s.graph.supports_among(s.graph.dag_digests, q, d, a)),
                )
                ||| self.committee.holds_two_thirds(
                    Set::new(
                        |a: PublicKey|
                            s.graph.dag.contains_key((q, a)) && (s.graph.strong_ancestors.contains(
                                (s.graph.dag[(q, a)].digest(), d),
                            ) || s.graph.relays(s.graph.dag[(q, a)], d)),
                    ),
                )
            }),
        ensures
            ({
                let after = self.rule_two(s, q, now);
                let d = (self.delivered(s, (q - 2) as Round)->0).digest();
                &&& after.resolved((q - 2) as Round)
                &&& after != s
                &&& self.committee.holds_two_thirds(
                    Set::new(
                        |a: PublicKey|
                            s.graph.dag.contains_key((q, a)) && (s.graph.strong_ancestors.contains(
                                (s.graph.dag[(q, a)].digest(), d),
                            ) || s.graph.relays(s.graph.dag[(q, a)], d)),
                    ),
                ) ==> after.graph.grade_two.contains(d)
            }),
    {
        let leader_round = (q - 2) as Round;
        let leader = self.delivered(s, leader_round)->0;
        let d = leader.digest();
        let observed = image(s.graph.observed_strong_support, (q, d));
        let in_dag = image(s.graph.dag_strong_support, (q, d));
        let either = s.strong_or_virtual(q, d);
        let all = Set::new(|a: PublicKey| s.graph.supports(q, d, a));
        let dag_all = Set::new(
            |a: PublicKey| s.graph.supports_among(s.graph.dag_digests, q, d, a),
        );
        let dag_either = Set::new(
            |a: PublicKey|
                s.graph.dag.contains_key((q, a)) && (s.graph.strong_ancestors.contains(
                    (s.graph.dag[(q, a)].digest(), d),
                ) || s.graph.relays(s.graph.dag[(q, a)], d)),
        );
        assert forall|a: PublicKey| all.contains(a) implies observed.contains(a) by {
            assert(s.graph.observed_strong_support.contains(((q, d), a)));
        }
        assert forall|a: PublicKey| dag_all.contains(a) implies in_dag.contains(a) by {
            assert(s.graph.dag_strong_support.contains(((q, d), a)));
        }
        assert forall|a: PublicKey| dag_either.contains(a) implies either.contains(a) by {
            let block = s.graph.dag[(q, a)];
            s.lemma_relays(block, d);
            if s.graph.strong_ancestors.contains((block.digest(), d)) {
                assert(s.graph.dag_by_digest.contains_key(block.digest()));
                assert(s.graph.dag_digests.contains(block.digest()));
                assert(s.graph.observed.contains_key(block.digest()));
                assert(s.settled(s.graph.observed[block.digest()]));
                assert(s.graph.supports_among(s.graph.dag_digests, q, d, a));
                assert(s.graph.dag_strong_support.contains(((q, d), a)));
            }
        }
        self.committee.lemma_weight_monotone(all, observed);
        self.committee.lemma_weight_monotone(dag_all, in_dag);
        self.committee.lemma_weight_monotone(dag_either, either);
        self.committee.law_thresholds(observed);
        self.committee.law_thresholds(in_dag);
        self.committee.law_thresholds(either);
        self.lemma_sighted(s, leader_round);
        let marked = s.mark_grade_two(d);
        let promoted = marked.promote_ready().0;
        assert(marked.placed());
        assert(marked.closed_paths());
        assert(marked.tracked_leaders());
        marked.lemma_promote_ready();
        marked.lemma_promote_ready_only();
        marked.law_promotion_needs_grade_two();
        assert(promoted.settled(leader));
        self.law_queued_leader_is_resolved(promoted, leader, 2, now);
        self.law_queued_leader_is_resolved(s, leader, 2, now);
    }

    // ----- When the rules are applied -----

    /// A rule that changes the state resolves its leader, and what is resolved
    /// stays so.
    proof fn lemma_rules_resolve(&self, s: StateView, r: Round, now: Time)
        requires
            s.wf(),
        ensures
            self.rule_one(s, r, now).wf(),
            self.rule_two(s, r, now).wf(),
            self.rule_one(s, r, now) != s ==> r >= 2 && self.rule_one(s, r, now).resolved(
                (r - 1) as Round,
            ),
            self.rule_two(s, r, now) != s ==> r >= 3 && self.rule_two(s, r, now).resolved(
                (r - 2) as Round,
            ),
            forall|q: Round| #[trigger] s.resolved(q) ==> self.rule_one(s, r, now).resolved(q),
            forall|q: Round| #[trigger] s.resolved(q) ==> self.rule_two(s, r, now).resolved(q),
            self.rule_one(s, r, now).graph.grade_two == s.graph.grade_two,
            s.graph.grade_two.subset_of(self.rule_two(s, r, now).graph.grade_two),
    {
        if self.rule_one(s, r, now) != s {
            let leader_round = (r - 1) as Round;
            let leader = self.sighted(s, leader_round)->0;
            let forced = s.force(leader, leader_round);
            self.lemma_sighted(s, leader_round);
            s.lemma_force(leader, leader_round);
            s.lemma_force_only(leader, leader_round);
            s.lemma_admission_grades(seq![leader], Set::empty(), leader_round);
            assert(forced.settled(leader));
            self.law_queued_leader_is_resolved(forced, leader, 1, now);
            assert forall|q: Round| #[trigger] s.resolved(q) implies self.rule_one(
                s,
                r,
                now,
            ).resolved(q) by {
                assert(forced.resolved(q));
            }
        }
        if self.rule_two(s, r, now) != s {
            let leader_round = (r - 2) as Round;
            let leader = self.delivered(s, leader_round)->0;
            let marked = s.mark_grade_two(leader.digest());
            let promoted = marked.promote_ready().0;
            self.lemma_sighted(s, leader_round);
            assert(marked.placed());
            assert(marked.closed_paths());
            assert(marked.tracked_leaders());
            marked.lemma_promote_ready();
            marked.lemma_promote_ready_only();
            marked.law_promotion_needs_grade_two();
            assert(promoted.settled(leader));
            self.law_queued_leader_is_resolved(promoted, leader, 2, now);
            self.law_queued_leader_is_resolved(s, leader, 2, now);
            assert forall|q: Round| #[trigger] s.resolved(q) implies self.rule_two(
                s,
                r,
                now,
            ).resolved(q) by {
                assert(promoted.resolved(q));
            }
        }
    }

    /// The checks of a round apply rule 1 to the leader of the round before and
    /// rule 2 to the one before that: where a rule can commit, its leader is
    /// resolved afterwards.
    pub proof fn law_checks_apply_both_rules(&self, s: StateView, round: Round, now: Time)
        requires
            s.wf(),
        ensures
            ({
                let reached = s.reach_round(round);
                let after = self.check_round(s, round, now);
                &&& after.commits.highest_advanced_round == self.rule_two(
                    self.rule_one(reached, round, now),
                    round,
                    now,
                ).commits.highest_advanced_round
                &&& self.rule_one(reached, round, now) != reached ==> after.resolved(
                    (round - 1) as Round,
                )
                &&& self.rule_one(reached, round, now) == reached && self.rule_two(
                    reached,
                    round,
                    now,
                ) != reached ==> after.resolved((round - 2) as Round)
                &&& forall|q: Round| #[trigger] s.resolved(q) ==> after.resolved(q)
            }),
    {
        let reached = s.reach_round(round);
        let once = self.rule_one(reached, round, now);
        let twice = self.rule_two(once, round, now);
        let after = self.check_round(s, round, now);
        s.lemma_same_graph(reached);
        self.lemma_rules_resolve(reached, round, now);
        self.lemma_rules_resolve(once, round, now);
        assert(after.commits == twice.commits);
        if once != reached {
            assert(once.resolved((round - 1) as Round));
            assert(twice.resolved((round - 1) as Round));
        }
        assert forall|q: Round| #[trigger] s.resolved(q) implies after.resolved(q) by {
            assert(reached.resolved(q));
            assert(once.resolved(q));
            assert(twice.resolved(q));
        }
    }

    /// A leader that is evaluated again is resolved if rule 1 can commit it by
    /// the blocks of the round after it, or rule 2 by those of the round after
    /// that.
    pub proof fn law_evaluation_applies_both_rules(&self, s: StateView, round: Round, now: Time)
        requires
            s.wf(),
            s.unresolved(round),
            0 < round < Round::MAX - 1,
        ensures
            self.rule_one(s, (round + 1) as Round, now) != s || self.rule_two(
                s,
                (round + 2) as Round,
                now,
            ) != s ==> self.judge(s, round, now).resolved(round),
            self.rule_one(s, (round + 1) as Round, now) == s && self.rule_two(
                s,
                (round + 2) as Round,
                now,
            ) == s ==> self.judge(s, round, now) == s,
    {
        let once = self.rule_one(s, (round + 1) as Round, now);
        self.lemma_rules_resolve(s, (round + 1) as Round, now);
        self.lemma_rules_resolve(s, (round + 2) as Round, now);
        self.lemma_rules_resolve(once, (round + 2) as Round, now);
        if once != s {
            assert(once.resolved(round));
        }
    }

    /// The evaluation of leaders in turn takes nothing back.
    proof fn lemma_judged(&self, s: StateView, rounds: Seq<Round>, now: Time)
        requires
            s.wf(),
        ensures
            self.judge_each(s, rounds, now).wf(),
            s.retains(self.judge_each(s, rounds, now)),
        decreases rounds.len(),
    {
        if rounds.len() > 0 {
            let before = self.judge_each(s, rounds.drop_last(), now);
            let round = rounds.last();
            let once = self.rule_one(before, (round + 1) as Round, now);
            self.lemma_judged(s, rounds.drop_last(), now);
            self.lemma_rules_resolve(before, (round + 1) as Round, now);
            self.lemma_rules_resolve(once, (round + 2) as Round, now);
            s.lemma_retains(before, once);
            s.lemma_retains(once, self.rule_two(once, (round + 2) as Round, now));
        }
    }

    proof fn lemma_passed(&self, s: StateView, n: nat, now: Time)
        requires
            s.wf(),
        ensures
            self.passes(s, n, now).wf(),
            s.retains(self.passes(s, n, now)),
        decreases n,
    {
        if n > 0 {
            let before = self.passes(s, (n - 1) as nat, now);
            let cleared = before.clear_leaders();
            let judged = self.judge_each(cleared, in_order(before.commits.dirty_leaders), now);
            self.lemma_passed(s, (n - 1) as nat, now);
            before.lemma_same_graph(cleared);
            self.lemma_judged(cleared, in_order(before.commits.dirty_leaders), now);
            self.lemma_evaluate(judged, judged.fallback.dirty_anchors.len(), now);
            s.lemma_retains(before, cleared);
            s.lemma_retains(cleared, judged);
            s.lemma_retains(judged, self.evaluate_dirty(judged, now));
        }
    }

    proof fn lemma_ruled_one(&self, s: StateView, rounds: Seq<Round>, now: Time)
        requires
            s.wf(),
        ensures
            self.rule_one_each(s, rounds, now).wf(),
            s.retains(self.rule_one_each(s, rounds, now)),
        decreases rounds.len(),
    {
        if rounds.len() > 0 {
            let before = self.rule_one_each(s, rounds.drop_last(), now);
            self.lemma_ruled_one(s, rounds.drop_last(), now);
            self.lemma_rules_resolve(before, rounds.last(), now);
            s.lemma_retains(before, self.rule_one(before, rounds.last(), now));
        }
    }

    proof fn lemma_ruled_two(&self, s: StateView, rounds: Seq<Round>, now: Time)
        requires
            s.wf(),
        ensures
            self.rule_two_each(s, rounds, now).wf(),
            s.retains(self.rule_two_each(s, rounds, now)),
        decreases rounds.len(),
    {
        if rounds.len() > 0 {
            let before = self.rule_two_each(s, rounds.drop_last(), now);
            self.lemma_ruled_two(s, rounds.drop_last(), now);
            self.lemma_rules_resolve(before, rounds.last(), now);
            s.lemma_retains(before, self.rule_two(before, rounds.last(), now));
        }
    }

    /// What follows from a block takes nothing back: no leader is open again, and
    /// no block loses grade 2.
    pub proof fn law_reaction_takes_nothing_back(
        &self,
        s: StateView,
        c: Certificate,
        first: bool,
        promoted: Seq<Certificate>,
        now: Time,
    )
        requires
            s.wf(),
        ensures
            s.retains(self.react(s, c, first, promoted, now)),
    {
        let ones = in_order(self.rule_one_rounds(s, c, first, promoted));
        let twos = in_order(Self::rule_two_rounds(c, first, promoted));
        let once = self.rule_one_each(s, ones, now);
        let twice = self.rule_two_each(once, twos, now);
        let n = choose|n: nat| self.takes(twice, n, now);
        self.lemma_ruled_one(s, ones, now);
        self.lemma_ruled_two(once, twos, now);
        self.lemma_passed(twice, n, now);
        s.lemma_retains(once, twice);
        s.lemma_retains(twice, self.passes(twice, n, now));
    }

    /// A block that is delivered at grade 2 has it when the message is handled.
    pub proof fn law_grade_two_message_grants_grade_two(
        &self,
        s: StateView,
        c: Certificate,
        now: Time,
    )
        requires
            s.wf(),
            s.admissible(c),
            s.owners_of(c.digest()).finite(),
        ensures
            self.handled(s, ConsensusMessage::GradeTwo(c), now).graph.grade_two.contains(
                c.digest(),
            ),
            s.graph.grade_two.subset_of(
                self.handled(s, ConsensusMessage::GradeTwo(c), now).graph.grade_two,
            ),
    {
        let (taken, promoted) = s.take_in(c, Stage::GradeTwo);
        let dirty = s.dirtied_by(c, Stage::GradeTwo);
        let seen = s.observe(c);
        let marked = seen.mark_grade_two(c.digest());
        s.law_stages_grant_grades(c, Stage::GradeTwo);
        s.lemma_observe(c);
        assert(marked.placed());
        assert(marked.closed_paths());
        assert(marked.tracked_leaders());
        marked.lemma_promote_ready();
        s.lemma_dirties_bounded(c, Stage::GradeTwo);
        self.lemma_absorbed(taken, c, dirty);
        self.law_reaction_takes_nothing_back(
            self.absorb(taken, c, dirty),
            c,
            !s.graph.observed.contains_key(c.digest()),
            promoted,
            now,
        );
    }

    proof fn lemma_absorbed(&self, s: StateView, c: Certificate, dirty: Set<Round>)
        requires
            s.wf(),
            c.round() <= LAST_ROUND,
            forall|q: Round| #[trigger] dirty.contains(q) ==> q <= LAST_ROUND,
        ensures
            self.absorb(s, c, dirty).wf(),
            self.absorb(s, c, dirty).graph.grade_two == s.graph.grade_two,
    {
        let refreshed = self.refreshed(s, dirty);
        let marked = refreshed.mark_leaders(dirty);
        let greeted = if c.origin() == self.lead(c.round()) {
            marked.greet_leader(c.round())
        } else {
            marked
        };
        let promoted = self.promote_pending(greeted, c.round());
        s.lemma_same_graph(greeted);
        if self.sighted(greeted, c.round()) is Some {
            let leader = self.sighted(greeted, c.round())->0;
            let forced = greeted.force(leader, c.round());
            self.lemma_sighted(greeted, c.round());
            greeted.lemma_force(leader, c.round());
            greeted.lemma_force_only(leader, c.round());
            greeted.lemma_admission_grades(seq![leader], Set::empty(), c.round());
            if promoted != greeted {
                forced.lemma_same_graph(promoted);
            }
        }
        promoted.lemma_same_graph(self.absorb(s, c, dirty));
    }

    /// Behind any two leaders that observed blocks commit, at one node or at
    /// two, stands an honest author that supports both: their supporters have
    /// one in common, if less than a third of the stake is faulty.
    pub proof fn law_observed_commits_share_an_honest_author(
        &self,
        one: Set<PublicKey>,
        other: Set<PublicKey>,
        faulty: Set<PublicKey>,
    )
        requires
            self.committee.holds_two_thirds(one),
            self.committee.holds_two_thirds(other),
            !self.committee.holds_third(faulty),
        ensures
            exists|a: PublicKey| #[trigger]
                one.contains(a) && other.contains(a) && !faulty.contains(a),
    {
        self.committee.law_thresholds(one);
        self.committee.law_thresholds(other);
        self.committee.law_thresholds(faulty);
        self.committee.law_quorums_intersect(one, other);
        self.committee.law_some_sender_is_honest(one.intersect(other), faulty);
        let a = choose|a: PublicKey| #[trigger]
            one.intersect(other).contains(a) && !faulty.contains(a);
        assert(one.contains(a) && other.contains(a));
    }
}

} // verus!
