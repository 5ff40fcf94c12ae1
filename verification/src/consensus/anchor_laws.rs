//! Anchors, lanes and the leaders that lag behind.
use crate::consensus::commit::Time;
use crate::consensus::model::{decided, lane_of, StateView};
use crate::consensus::rules::Consensus;
use crate::ordered::{image, in_order, lemma_in_order_of};
use crate::types::{Certificate, Digest, Round, Slot, LAST_ROUND};
use vstd::prelude::*;

verus! {

/// There are three lanes, and the rounds take turns in them.
pub proof fn law_rounds_take_turns_in_lanes(a: Round, b: Round)
    ensures
        lane_of(a) < 3,
        a <= b ==> (lane_of(a) == lane_of(b) <==> (b - a) % 3 == 0),
{
}

impl StateView {
    /// The anchor of a lane is the latest leader that rose to it, and other
    /// lanes keep theirs.
    pub proof fn law_anchor_is_the_latest(self, round: Round, lane: Round)
        ensures
            ({
                let after = self.raise_anchor(round).fallback.anchors;
                let before = self.fallback.anchors;
                &&& after.contains_key(lane_of(round))
                &&& after[lane_of(round)] >= round
                &&& before.contains_key(lane_of(round)) ==> after[lane_of(round)]
                    >= before[lane_of(round)]
                &&& after[lane_of(round)] == round || (before.contains_key(lane_of(round))
                    && after[lane_of(round)] == before[lane_of(round)])
                &&& lane != lane_of(round) ==> (after.contains_key(lane) <==> before.contains_key(
                    lane,
                ))
                &&& lane != lane_of(round) && before.contains_key(lane) ==> after[lane]
                    == before[lane]
            }),
    {
    }

    /// A leader that is staged waits for its commit with its block in the Dag,
    /// under the rule that it met. If every leader before is committed or
    /// skipped, it is ready. The time at which it first met a rule stays.
    pub proof fn law_staged_leader_waits(
        self,
        leader: Certificate,
        rule: u8,
        gc_depth: Round,
        now: Time,
    )
        requires
            self.wf(),
            self.settled(leader),
            !self.commits.committed.contains(leader.round()),
            !self.commits.skipped.contains(leader.round()),
            !self.commits.pending.contains_key(leader.round()),
            !self.commits.rules.contains_key(leader.round()),
        ensures
            ({
                let after = self.stage(leader, rule, gc_depth, now);
                let round = leader.round();
                &&& after.commits.pending.contains_key(round)
                &&& after.commits.pending[round] == leader
                &&& after.commits.rules.contains_key(round) && after.commits.rules[round] == rule
                &&& after.commits.order.contains_key(round)
                &&& after.graph.dag_digests.contains(leader.digest())
                &&& !after.fallback.stack.contains(round)
                &&& !after.fallback.recovery.contains(round)
                &&& round > 0 && (forall|q: Round|
                    0 < q < round ==> #[trigger] self.commits.committed.contains(q)
                        || self.commits.skipped.contains(q)) ==> after.commits.ready.contains(round)
                &&& after.commits.ready_at.contains_key(round)
                &&& after.commits.ready_at[round] == (if self.commits.ready_at.contains_key(
                    round,
                ) {
                    self.commits.ready_at[round]
                } else {
                    now.wall_ms
                })
            }),
    {
        let round = leader.round();
        let after = self.stage(leader, rule, gc_depth, now);
        let forced = self.force(leader, round);
        self.lemma_force(leader, round);
        self.lemma_force_only(leader, round);
        self.lemma_forced_in_dag(leader, round);
        if round > 0 && (forall|q: Round|
            0 < q < round ==> #[trigger] self.commits.committed.contains(q)
                || self.commits.skipped.contains(q)) {
            assert forall|q: Round| 0 < q < round implies #[trigger] decided(
                self.commits.committed,
                self.commits.skipped,
                q,
            ) by {
                assert(self.commits.committed.contains(q) || self.commits.skipped.contains(q));
            }
        }
    }

    /// An admitted block is in the Dag, and no Dag block leaves by an admission.
    pub proof fn lemma_forced_in_dag(self, root: Certificate, owner: Round)
        requires
            self.keyed(),
        ensures
            self.force(root, owner).graph.dag_digests.contains(root.digest()),
            self.graph.dag_digests.subset_of(self.force(root, owner).graph.dag_digests),
    {
        let pending = seq![root];
        let next = self.admit_one(root, owner);
        let stack = pending.drop_last() + self.loose_ancestors(root);
        let visited = Set::<Digest>::empty().insert(root.digest());
        self.lemma_admit_step(pending, Set::empty(), owner);
        assert(pending.last() == root);
        assert(self.force(root, owner) == next.admit_all(stack, visited, owner));
        next.lemma_admission_stays(stack, visited, owner);
    }

    /// Admissions leave the Dag blocks where they are.
    proof fn lemma_admission_stays(
        self,
        pending: Seq<Certificate>,
        visited: Set<Digest>,
        owner: Round,
    )
        requires
            self.keyed(),
        ensures
            self.graph.dag_digests.subset_of(
                self.admit_all(pending, visited, owner).graph.dag_digests,
            ),
        decreases self.to_visit(pending, visited).len(), pending.len(),
    {
        if pending.len() > 0 {
            let c = pending.last();
            self.lemma_admit_step(pending, visited, owner);
            if visited.contains(c.digest()) {
                self.lemma_admission_stays(pending.drop_last(), visited, owner);
            } else {
                self.admit_one(c, owner).lemma_admission_stays(
                    pending.drop_last() + self.loose_ancestors(c),
                    visited.insert(c.digest()),
                    owner,
                );
            }
        }
    }

    /// With a leader, all of its prepared history is handed out that lies above
    /// the last committed block of its author, and nothing else.
    pub proof fn law_commit_hands_out_the_open_history(self, round: Round, gc_depth: Round)
        requires
            self.commits.pending.contains_key(round),
            self.commits.order.contains_key(round),
            !self.commits.committed.contains(round),
        ensures
            ({
                let after = self.commit_leader(round, gc_depth);
                let marks = self.commits.last_committed;
                &&& after.commits.outbox.len() == self.commits.outbox.len() + 1
                &&& after.commits.outbox.drop_last() == self.commits.outbox
                &&& forall|c: Certificate| #[trigger]
                    after.commits.outbox.last().contains(c)
                        <==> self.commits.order[round].contains(c) && !(marks.contains_key(
                        c.origin(),
                    ) && c.round() <= marks[c.origin()])
                &&& after.commits.committed == self.commits.committed.insert(round)
                &&& !after.commits.pending.contains_key(round)
                &&& !after.commits.order.contains_key(round)
            }),
    {
        let after = self.commit_leader(round, gc_depth);
        let closed = self.unqueue(round).close(round);
        let open = |c: Certificate| closed.above_mark(c);
        let prepared = self.commits.order[round];
        let out = after.commits.outbox.last();
        assert(out == prepared.filter(open));
        assert(after.commits.outbox.drop_last() =~= self.commits.outbox);
        assert forall|c: Certificate| #[trigger] out.contains(c) <==> prepared.contains(c) && open(
            c,
        ) by {
            if out.contains(c) {
                prepared.lemma_filter_contains_rev(open, c);
                let k = choose|k: int| 0 <= k < out.len() && out[k] == c;
                prepared.lemma_filter_pred(open, k);
            }
            if prepared.contains(c) && open(c) {
                let i = choose|i: int| 0 <= i < prepared.len() && prepared[i] == c;
                prepared.lemma_filter_contains(open, i);
            }
        }
    }

    /// An active anchor that is to be evaluated again is so at the current
    /// evidence. Other rounds are left alone.
    pub proof fn law_marked_anchor_is_current(self, round: Round, other: Round)
        ensures
            ({
                let after = self.mark_anchor_dirty(round);
                let active = self.fallback.anchors.contains_key(lane_of(round))
                    && self.fallback.anchors[lane_of(round)] == round;
                &&& active ==> after.fallback.dirty_anchors.contains(round) && after.version_of(
                    round,
                ) == self.fallback.evidence_version
                &&& !active ==> after == self
                &&& other != round ==> (after.fallback.dirty_anchors.contains(other)
                    <==> self.fallback.dirty_anchors.contains(other)) && after.version_of(other)
                    == self.version_of(other)
            }),
    {
    }

    /// What an admitted block depends on and nobody has seen is waited for.
    pub proof fn law_unseen_history_is_waited_for(self, root: Certificate, owner: Round, d: Digest)
        requires
            self.keyed(),
            root.header.depends_on(d),
            !self.graph.dag_digests.contains(d),
            !self.graph.observed.contains_key(d),
        ensures
            self.force(root, owner).fallback.forced_waiters.contains((d, owner)),
    {
        let pending = seq![root];
        let next = self.admit_one(root, owner);
        let stack = pending.drop_last() + self.loose_ancestors(root);
        let visited = Set::<Digest>::empty().insert(root.digest());
        self.lemma_admit_step(pending, Set::empty(), owner);
        assert(pending.last() == root);
        assert(next.fallback.forced_waiters.contains((d, owner)));
        next.lemma_waiters_stay(stack, visited, owner);
    }

    proof fn lemma_waiters_stay(
        self,
        pending: Seq<Certificate>,
        visited: Set<Digest>,
        owner: Round,
    )
        requires
            self.keyed(),
        ensures
            self.fallback.forced_waiters.subset_of(
                self.admit_all(pending, visited, owner).fallback.forced_waiters,
            ),
        decreases self.to_visit(pending, visited).len(), pending.len(),
    {
        if pending.len() > 0 {
            let c = pending.last();
            self.lemma_admit_step(pending, visited, owner);
            if visited.contains(c.digest()) {
                self.lemma_waiters_stay(pending.drop_last(), visited, owner);
            } else {
                self.admit_one(c, owner).lemma_waiters_stay(
                    pending.drop_last() + self.loose_ancestors(c),
                    visited.insert(c.digest()),
                    owner,
                );
            }
        }
    }

    /// A block that a leader waits for enters the Dag as soon as it is observed,
    /// at whatever stage.
    pub proof fn law_awaited_block_is_admitted(self, c: Certificate, owner: Round)
        requires
            self.wf(),
            self.admissible(c),
            !self.graph.observed.contains_key(c.digest()),
            self.fallback.forced_waiters.contains((c.digest(), owner)),
            image(self.fallback.forced_waiters, c.digest()).finite(),
        ensures
            self.observe(c).graph.dag_digests.contains(c.digest()),
    {
        let learned = self.learn(c);
        let released = learned.release(c.digest());
        let waiting = learned.owners_of(c.digest());
        let owners = in_order(waiting);
        self.lemma_learn(c);
        assert(learned.fallback.forced_waiters == self.fallback.forced_waiters);
        lemma_in_order_of(waiting);
        assert(waiting.contains(owner));
        assert(owners.to_set().contains(owner));
        assert(owners.len() > 0);
        released.lemma_admissions_evidence(c, owners.drop_last());
        released.force_for(c, owners.drop_last()).lemma_forced_in_dag(c, owners.last());
    }

    /// An admission leaves no leader that is to be evaluated out.
    pub proof fn lemma_dirties_stay(
        self,
        pending: Seq<Certificate>,
        visited: Set<Digest>,
        owner: Round,
    )
        requires
            self.keyed(),
        ensures
            self.commits.dirty_leaders.subset_of(
                self.admit_all(pending, visited, owner).commits.dirty_leaders,
            ),
        decreases self.to_visit(pending, visited).len(), pending.len(),
    {
        if pending.len() > 0 {
            let c = pending.last();
            self.lemma_admit_step(pending, visited, owner);
            if visited.contains(c.digest()) {
                self.lemma_dirties_stay(pending.drop_last(), visited, owner);
            } else {
                self.admit_one(c, owner).lemma_dirties_stay(
                    pending.drop_last() + self.loose_ancestors(c),
                    visited.insert(c.digest()),
                    owner,
                );
            }
        }
    }

    /// The arrival of the block of a leader has the leader and the anchor of its
    /// lane evaluated again.
    pub proof fn law_arrival_is_noticed(self, round: Round)
        requires
            self.wf(),
        ensures
            self.greet_leader(round).commits.dirty_leaders.contains(round),
            forall|a: Round| #[trigger]
                self.fallback.anchors.contains_key(a) && (round - a) % 3 == 0 && a < 3
                    ==> self.greet_leader(round).fallback.dirty_anchors.contains(
                    self.fallback.anchors[a],
                ),
    {
        assert forall|a: Round| #[trigger]
            self.fallback.anchors.contains_key(a) && (round - a) % 3 == 0 && a
                < 3 implies self.greet_leader(round).fallback.dirty_anchors.contains(
            self.fallback.anchors[a],
        ) by {
            assert(lane_of(round) == a);
            assert(lane_of(self.fallback.anchors[a]) == a);
        }
    }
}

impl Consensus {
    /// When the checks of a round have run, the leader three rounds before it
    /// awaits finalization unless it is resolved, and the anchor of its lane is
    /// evaluated again if it just fell back.
    pub proof fn law_lagging_leader_falls_back(&self, s: StateView, round: Round, now: Time)
        requires
            round >= 4,
        ensures
            ({
                let judged = self.rule_two(
                    self.rule_one(s.reach_round(round), round, now),
                    round,
                    now,
                );
                let after = self.check_round(s, round, now);
                let late = (round - 3) as Round;
                &&& after.unresolved(late) ==> after.fallback.stack.contains(late)
                &&& forall|r: Round|
                    r != late ==> (#[trigger] after.fallback.stack.contains(r)
                        <==> judged.fallback.stack.contains(r))
                &&& after.unresolved(late) && !judged.fallback.stack.contains(late)
                    && judged.is_anchor(judged.fallback.anchors[lane_of(late)])
                    && judged.fallback.anchors.contains_key(lane_of(late))
                    ==> after.fallback.dirty_anchors.contains(
                    judged.fallback.anchors[lane_of(late)],
                )
                &&& after.commits == judged.commits
                &&& after.graph == judged.graph
            }),
    {
    }

    /// The evaluation of the anchors leaves none to be evaluated.
    pub proof fn law_evaluation_leaves_no_anchor(&self, s: StateView, now: Time)
        requires
            s.wf(),
            s.fallback.dirty_anchors.finite(),
        ensures
            self.evaluate_dirty(s, now).fallback.dirty_anchors == Set::<Round>::empty(),
    {
        self.lemma_evaluate(s, s.fallback.dirty_anchors.len(), now);
    }

    /// By rule 3 every lane that has an anchor is evaluated, and no other round.
    pub proof fn law_rule_three_evaluates_every_lane(&self, s: StateView, now: Time)
        requires
            s.wf(),
        ensures
            ({
                let marked = s.mark_anchors_dirty(Self::active(s));
                &&& self.rule_three(s, now) == self.evaluate_dirty(marked, now)
                &&& forall|l: Round| #[trigger]
                    s.fallback.anchors.contains_key(l) ==> marked.fallback.dirty_anchors.contains(
                        s.fallback.anchors[l],
                    ) && marked.version_of(s.fallback.anchors[l]) == s.fallback.evidence_version
                &&& forall|r: Round| #[trigger]
                    marked.fallback.dirty_anchors.contains(r) ==> s.fallback.dirty_anchors.contains(
                        r,
                    ) || (s.fallback.anchors.contains_key(lane_of(r))
                        && s.fallback.anchors[lane_of(r)] == r)
            }),
    {
        let marked = s.mark_anchors_dirty(Self::active(s));
        assert forall|l: Round| #[trigger] s.fallback.anchors.contains_key(
            l,
        ) implies marked.fallback.dirty_anchors.contains(s.fallback.anchors[l])
            && marked.version_of(s.fallback.anchors[l]) == s.fallback.evidence_version by {
            let a = s.fallback.anchors[l];
            assert(lane_of(a) == l);
            assert(s.is_anchor(a));
        }
    }

    /// A leader that meets rule 1 or 2 gives its lane an anchor.
    pub proof fn law_queued_leader_anchors_its_lane(
        &self,
        s: StateView,
        leader: Certificate,
        rule: u8,
        now: Time,
    )
        requires
            s.wf(),
            s.settled(leader),
            s.unresolved(leader.round()),
            rule == 1 || rule == 2,
        ensures
            self.queue(s, leader, rule, now).fallback.anchors.contains_key(
                lane_of(leader.round()),
            ),
    {
        let round = leader.round();
        let forced = s.force(leader, round);
        let raised = forced.raise_anchor(round);
        let marked = raised.mark_anchor_dirty(raised.fallback.anchors[lane_of(round)]);
        s.lemma_force(leader, round);
        s.lemma_force_only(leader, round);
        assert(forced.tracked_leaders());
        assert(forced.graph.homes.contains_key(leader.digest()));
        forced.lemma_same_graph(marked);
        self.lemma_evaluate(marked, marked.fallback.dirty_anchors.len(), now);
        let ready = self.evaluate_dirty(marked, now);
        assert(marked.fallback.anchors.contains_key(lane_of(round)));
        assert(ready.fallback.anchors.contains_key(lane_of(round)));
        if ready.unresolved(round) {
            ready.lemma_stage(leader, rule, self.gc_depth, now);
            let staged = ready.stage(leader, rule, self.gc_depth, now);
            ready.lemma_force_only(leader, round);
            staged.lemma_drain(self.gc_depth);
        }
    }

    // ----- Leaders -----

    /// The block that stands for the leader of a round is one of its slot. It is
    /// that of the Dag before that of VDag, and that before one merely observed.
    pub proof fn law_leader_block(&self, s: StateView, round: Round)
        requires
            s.wf(),
        ensures
            ({
                let slot: Slot = (round, self.lead(round));
                let found = self.sighted(s, round);
                &&& found is Some ==> (found->0).round() == round && (found->0).origin()
                    == self.lead(round)
                &&& s.graph.dag.contains_key(slot) ==> found == Some(s.graph.dag[slot])
                    && self.delivered(s, round) == found && self.spec_leader(s, round) == found
                &&& !s.graph.dag.contains_key(slot) ==> self.spec_leader(s, round) is None
                &&& !s.graph.dag.contains_key(slot) && s.graph.vdag.contains_key(slot) ==> found
                    == Some(s.graph.vdag[slot]) && self.delivered(s, round) == found
                &&& !s.graph.dag.contains_key(slot) && !s.graph.vdag.contains_key(slot)
                    ==> self.delivered(s, round) is None
                &&& s.graph.observed_by_round.contains_key(slot) && s.graph.observed.contains_key(
                    s.graph.observed_by_round[slot],
                ) ==> found is Some
            }),
    {
        self.lemma_sighted(s, round);
    }

    /// By turns, every authority leads as often as any other; with a fixed
    /// leader, the first by key leads every round.
    pub proof fn law_election(&self, a: Round, b: Round)
        requires
            self.wf(),
            a <= b,
        ensures
            self.election is Fixed ==> self.lead(a) == self.committee.members()[0],
            self.election is RoundRobin && (b - a) % (self.committee.members().len() as int) == 0
                ==> self.lead(a) == self.lead(b),
            self.election is RoundRobin && a < self.committee.members().len() ==> self.lead(a)
                == self.committee.members()[a as int],
    {
        let n = self.committee.members().len() as int;
        if self.election is RoundRobin && (b - a) % n == 0 {
            vstd::arithmetic::div_mod::lemma_add_mod_noop(a as int, b - a, n);
            vstd::arithmetic::div_mod::lemma_mod_twice(a as int, n);
        }
        if a < n {
            vstd::arithmetic::div_mod::lemma_small_mod(a as nat, n as nat);
        }
    }

    // ----- Leaders that wait -----

    /// The block of a leader that is pending or sought enters the Dag as soon as
    /// it is seen, and is not asked for any more.
    pub proof fn law_seen_leader_enters_the_dag(&self, s: StateView, round: Round)
        requires
            s.wf(),
            s.commits.pending.contains_key(round) || s.fallback.recovery.contains(round),
            self.sighted(s, round) is Some,
        ensures
            self.promote_pending(s, round).graph.dag_digests.contains(
                (self.sighted(s, round)->0).digest(),
            ),
            !self.promote_pending(s, round).fallback.missing_requests.contains_key(round),
    {
        let leader = self.sighted(s, round)->0;
        s.lemma_forced_in_dag(leader, round);
    }

    /// Once a block is taken in, the leaders that it may decide are evaluated
    /// again, and the pending ones among them get their history in order anew.
    /// If it is the block of a leader, that leader is evaluated too, and the
    /// anchor of its lane.
    pub proof fn law_taken_block_is_followed_up(
        &self,
        s: StateView,
        c: Certificate,
        dirty: Set<Round>,
        r: Round,
    )
        requires
            s.wf(),
            c.round() <= LAST_ROUND,
            forall|q: Round| #[trigger] dirty.contains(q) ==> q <= LAST_ROUND,
        ensures
            ({
                let after = self.absorb(s, c, dirty);
                let lane = lane_of(c.round());
                &&& s.commits.dirty_leaders.union(dirty).subset_of(after.commits.dirty_leaders)
                &&& c.origin() == self.lead(c.round()) ==> after.commits.dirty_leaders.contains(
                    c.round(),
                )
                &&& c.origin() == self.lead(c.round()) && s.fallback.anchors.contains_key(lane)
                    ==> after.fallback.dirty_anchors.contains(s.fallback.anchors[lane])
                &&& dirty.contains(r) && s.commits.pending.contains_key(r)
                    ==> after.commits.order.contains_key(r) && after.commits.order[r]
                    == s.order_dag(s.commits.pending[r], self.gc_depth)
                &&& !dirty.contains(r) && s.commits.order.contains_key(r)
                    ==> after.commits.order.contains_key(r) && after.commits.order[r]
                    == s.commits.order[r]
                &&& after.commits.leaders.contains_key(c.round())
                &&& after.commits.leaders[c.round()] == self.committee.turn(c.round() as int)
            }),
    {
        let refreshed = self.refreshed(s, dirty);
        let marked = refreshed.mark_leaders(dirty);
        let greeted = if c.origin() == self.lead(c.round()) {
            marked.greet_leader(c.round())
        } else {
            marked
        };
        let promoted = self.promote_pending(greeted, c.round());
        s.lemma_same_graph(greeted);
        if c.origin() == self.lead(c.round()) && s.fallback.anchors.contains_key(
            lane_of(c.round()),
        ) {
            assert(lane_of(s.fallback.anchors[lane_of(c.round())]) == lane_of(c.round()));
            assert(greeted.fallback.dirty_anchors.contains(
                s.fallback.anchors[lane_of(c.round())],
            ));
        }
        if self.sighted(greeted, c.round()) is Some {
            let leader = self.sighted(greeted, c.round())->0;
            self.lemma_sighted(greeted, c.round());
            greeted.lemma_force_only(leader, c.round());
            greeted.lemma_dirties_stay(seq![leader], Set::empty(), c.round());
        }
        assert(greeted.commits.dirty_leaders.subset_of(promoted.commits.dirty_leaders));
    }

    /// Just the pending leaders are reported that have an open leader before
    /// them or whose block is not in the Dag.
    pub proof fn law_blockers_are_reported(s: StateView, round: Round)
        requires
            s.wf(),
            round > 0,
        ensures
            (exists|i: int|
                0 <= i < Self::blockers(s).len() && (#[trigger] Self::blockers(s)[i]).round
                    == round) <==> s.commits.pending.contains_key(round) && !((forall|q: Round|
                0 < q < round ==> #[trigger] decided(
                    s.commits.committed,
                    s.commits.skipped,
                    q,
                )) && s.graph.dag_digests.contains(s.commits.pending[round].digest())),
            forall|i: int|
                0 <= i < Self::blockers(s).len() ==> {
                    let b = #[trigger] Self::blockers(s)[i];
                    &&& s.commits.pending.contains_key(b.round)
                    &&& b.in_dag == s.graph.dag_digests.contains(
                        s.commits.pending[b.round].digest(),
                    )
                    &&& !(b.predecessor_ready && b.in_dag)
                },
    {
        let rounds = in_order(s.commits.pending.dom());
        let blocked = |r: Round| !s.can_commit(r);
        let kept = rounds.filter(blocked);
        let report = |r: Round| Self::blocker(s, r);
        let all = Self::blockers(s);
        lemma_in_order_of(s.commits.pending.dom());
        assert(all == kept.map_values(report));
        assert forall|i: int| 0 <= i < all.len() implies {
            let b = #[trigger] all[i];
            &&& s.commits.pending.contains_key(b.round)
            &&& b.in_dag == s.graph.dag_digests.contains(s.commits.pending[b.round].digest())
            &&& !(b.predecessor_ready && b.in_dag)
        } by {
            rounds.lemma_filter_pred(blocked, i);
            assert(kept.contains(kept[i]));
            rounds.lemma_filter_contains_rev(blocked, kept[i]);
            assert(rounds.to_set().contains(kept[i]));
        }
        let open = s.commits.pending.contains_key(round) && !s.can_commit(round);
        if open {
            assert(rounds.to_set().contains(round));
            let i = choose|i: int| 0 <= i < rounds.len() && rounds[i] == round;
            rounds.lemma_filter_contains(blocked, i);
            let k = choose|k: int| 0 <= k < kept.len() && kept[k] == round;
            assert(all[k].round == round);
        }
        if exists|i: int| 0 <= i < all.len() && (#[trigger] all[i]).round == round {
            let i = choose|i: int| 0 <= i < all.len() && (#[trigger] all[i]).round == round;
            rounds.lemma_filter_pred(blocked, i);
            assert(all[i].round == kept[i]);
            assert(open);
        }
    }
}

} // verus!
