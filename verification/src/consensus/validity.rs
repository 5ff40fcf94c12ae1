//! Every step keeps the state well-formed.
use crate::consensus::model::{
    decided, decided_below, heeded, lane_of, CommitView, FallbackView, StateView,
};
use crate::ordered::{in_order, lemma_in_order_of, Key};
use crate::types::{Certificate, Digest, PublicKey, Round, LAST_ROUND};
use vstd::prelude::*;

verus! {

impl StateView {
    /// What leaves the blocks alone and tracks leaders rightly keeps the state
    /// well-formed.
    pub proof fn lemma_same_graph(self, after: StateView)
        requires
            self.wf(),
            after.graph == self.graph,
            after.commits.pending.dom().finite(),
            after.commits.ready.finite(),
            after.commits.last_committed != Map::<PublicKey, Round>::empty(),
            forall|r: Round| #[trigger]
                after.commits.pending.contains_key(r) ==> after.commits.pending[r].round() == r
                    && self.settled(after.commits.pending[r]),
            forall|r: Round| #[trigger]
                after.commits.dirty_leaders.contains(r) ==> r <= LAST_ROUND,
            forall|r: Round| #[trigger]
                after.commits.rules.contains_key(r) ==> after.commits.pending.contains_key(r)
                    || after.commits.skipped.contains(r) || after.commits.committed.contains(r),
            forall|l: Round| #[trigger]
                after.fallback.anchors.contains_key(l) ==> lane_of(after.fallback.anchors[l]) == l
                    && after.fallback.anchors[l] <= LAST_ROUND,
            forall|p: (Digest, Round)| #[trigger]
                after.fallback.forced_waiters.contains(p) ==> p.1 <= LAST_ROUND,
            after.consecutive(),
        ensures
            after.wf(),
            self.keeps_homes(after),
    {
        assert(after.placed());
        assert(after.closed_paths());
        assert(after.tracked_leaders());
    }

    /// Every block that is settled in `self` is settled in `after`.
    pub open spec fn keeps_homes(self, after: StateView) -> bool {
        forall|c: Certificate| self.settled(c) ==> #[trigger] after.settled(c)
    }

    /// A leader is not both committed and skipped, and none of either waits for
    /// its commit.
    pub open spec fn decided_once(self) -> bool {
        &&& self.commits.committed.disjoint(self.commits.skipped)
        &&& self.commits.pending.dom().disjoint(self.commits.committed)
        &&& self.commits.pending.dom().disjoint(self.commits.skipped)
    }

    /// Every pending leader that can be committed is among the ready ones.
    pub open spec fn heeds(self) -> bool {
        heeded(
            self.commits.pending,
            self.commits.committed,
            self.commits.skipped,
            self.graph.dag_digests,
            self.commits.ready,
        )
    }

    /// Leaders are decided once, the genesis round among them, and every pending
    /// leader that can be committed is among the ready ones.
    pub open spec fn attentive(self) -> bool {
        &&& self.decided_once()
        &&& self.commits.committed.contains(0)
        &&& self.heeds()
    }

    /// What `after` has handed out beyond `self` lay above the watermarks
    /// before and lies below them now. Of one author it is in strictly rising
    /// rounds from sequence to sequence.
    pub open spec fn delivers(self, after: StateView) -> bool {
        let sent = self.commits.outbox;
        let out = after.commits.outbox;
        &&& sent.len() <= out.len()
        &&& forall|i: int| 0 <= i < sent.len() ==> #[trigger] out[i] == sent[i]
        &&& forall|i: int, j: int|
            #![trigger out[i][j]]
            sent.len() <= i < out.len() && 0 <= j < out[i].len() ==> self.above_mark(out[i][j])
                && !after.above_mark(out[i][j])
        &&& forall|i: int, j: int, k: int, l: int|
            #![trigger out[i][j], out[k][l]]
            sent.len() <= i < k < out.len() && 0 <= j < out[i].len() && 0 <= l < out[k].len()
                && out[i][j].origin() == out[k][l].origin() ==> out[i][j].round()
                < out[k][l].round()
    }

    /// Decisions on leaders are final, watermarks and rounds never fall, and no
    /// block is handed out twice.
    pub open spec fn continues(self, after: StateView) -> bool {
        &&& self.commits.committed.subset_of(after.commits.committed)
        &&& self.commits.skipped.subset_of(after.commits.skipped)
        &&& self.commits.highest_advanced_round <= after.commits.highest_advanced_round
        &&& forall|k: PublicKey| #[trigger]
            self.commits.last_committed.contains_key(k) ==> after.commits.last_committed.contains_key(
                k,
            ) && self.commits.last_committed[k] <= after.commits.last_committed[k]
        &&& self.decided_once() ==> after.decided_once()
        &&& self.delivers(after)
    }

    /// What holds between the states before and after every part of a step.
    pub open spec fn steadies(self, after: StateView) -> bool {
        &&& self.keeps_homes(after)
        &&& self.continues(after)
    }

    /// What holds between the states before and after every step.
    pub open spec fn carries(self, after: StateView) -> bool {
        &&& self.steadies(after)
        &&& self.attentive() ==> after.attentive()
    }

    /// What holds between the states before and after every step that takes in
    /// no block.
    pub open spec fn keeps(self, after: StateView) -> bool {
        &&& self.carries(after)
        &&& forall|height: spec_fn(Digest) -> int| #[trigger] self.tidies(after, height)
    }

    /// Two steps make one.
    pub proof fn lemma_keeps(self, midway: StateView, after: StateView)
        requires
            self.keeps(midway),
            midway.keeps(after),
        ensures
            self.keeps(after),
    {
        self.lemma_carries(midway, after);
        assert forall|height: spec_fn(Digest) -> int| #[trigger] self.tidies(after, height) by {
            assert(self.tidies(midway, height));
            assert(midway.tidies(after, height));
            self.lemma_tidies(midway, after, height);
        }
    }

    /// Two steps make one.
    pub proof fn lemma_carries(self, midway: StateView, after: StateView)
        requires
            self.carries(midway),
            midway.carries(after),
        ensures
            self.carries(after),
    {
        self.lemma_steadies(midway, after);
    }

    /// Two parts of a step make one.
    pub proof fn lemma_steadies(self, midway: StateView, after: StateView)
        requires
            self.steadies(midway),
            midway.steadies(after),
        ensures
            self.steadies(after),
    {
        assert forall|c: Certificate| self.settled(c) implies #[trigger] after.settled(c) by {
            assert(midway.settled(c));
        }
        let sent = self.commits.outbox;
        let mid = midway.commits.outbox;
        let out = after.commits.outbox;
        assert forall|i: int| 0 <= i < sent.len() implies #[trigger] out[i] == sent[i] by {
            assert(mid[i] == sent[i]);
        }
        assert forall|i: int, j: int|
            #![trigger out[i][j]]
            sent.len() <= i < out.len() && 0 <= j < out[i].len() implies self.above_mark(out[i][j])
            && !after.above_mark(out[i][j]) by {
            if i < mid.len() {
                assert(out[i] == mid[i]);
                assert(mid[i][j] == out[i][j]);
            }
        }
        assert forall|i: int, j: int, k: int, l: int|
            #![trigger out[i][j], out[k][l]]
            sent.len() <= i < k < out.len() && 0 <= j < out[i].len() && 0 <= l < out[k].len()
                && out[i][j].origin() == out[k][l].origin() implies out[i][j].round()
            < out[k][l].round() by {
            if i < mid.len() {
                assert(out[i] == mid[i]);
                assert(mid[i][j] == out[i][j]);
                if k < mid.len() {
                    assert(out[k] == mid[k]);
                    assert(mid[k][l] == out[k][l]);
                }
            }
        }
    }

    /// Whichever leader has nothing open before it is the lowest that is pending,
    /// so it is woken.
    pub proof fn lemma_wake_lowest(self)
        requires
            self.commits.pending.dom().finite(),
            self.decided_once(),
            self.commits.committed.contains(0),
        ensures
            self.wake_lowest().heeds(),
    {
        reveal(heeded);
        let after = self.wake_lowest();
        assert forall|r: Round| #[trigger]
            after.commits.pending.contains_key(r) && r > 0 && decided_below(
                after.commits.committed,
                after.commits.skipped,
                r,
            ) && after.graph.dag_digests.contains(
                after.commits.pending[r].digest(),
            ) implies after.commits.ready.contains(r) by {
            let dom = self.commits.pending.dom();
            assert(dom.contains(r));
            lemma_in_order_of(dom);
            let order = in_order(dom);
            assert(order.to_set().contains(r));
            let i = choose|i: int| 0 <= i < order.len() && order[i] == r;
            let lowest = order[0];
            assert(order.to_set().contains(lowest));
            if i > 0 {
                assert(lowest.before(r));
                assert(lowest != 0);
                assert(decided(self.commits.committed, self.commits.skipped, lowest));
            }
        }
    }

    /// A promotion keeps the state well-formed.
    pub proof fn lemma_promote(self, c: Certificate)
        requires
            self.wf(),
            self.admissible(c),
        ensures
            self.promote(c).wf(),
            self.promote(c).settled(c),
            self.carries(self.promote(c)),
    {
        let after = self.promote(c);
        assert(after.placed()) by {
            assert(after.graph.dag_digests =~= after.graph.dag_by_digest.dom());
        }
        if self.heeds() {
            reveal(heeded);
            assert forall|r: Round| #[trigger]
                after.commits.pending.contains_key(r) && r > 0 && decided_below(
                    after.commits.committed,
                    after.commits.skipped,
                    r,
                ) && after.graph.dag_digests.contains(
                    after.commits.pending[r].digest(),
                ) implies after.commits.ready.contains(r) by {
                let leader = self.commits.pending[r];
                assert(self.commits.pending.contains_key(r));
                assert(self.settled(leader) && leader.round() == r);
                if leader.digest() == c.digest() {
                    assert(c.round() == r);
                }
            }
            assert(after.heeds());
        }
        assert(after.tracked_leaders());
        assert(after.closed_paths());
    }

    /// An admission of one block keeps the state well-formed.
    pub proof fn lemma_admit_one(self, c: Certificate, owner: Round)
        requires
            self.wf(),
            self.admissible(c),
            owner <= LAST_ROUND,
        ensures
            self.admit_one(c, owner).wf(),
            self.graph.dag_digests.contains(c.digest()) || self.admit_one(c, owner).settled(c),
            self.carries(self.admit_one(c, owner)),
    {
        let waiting = StateView {
            fallback: self.admit_one(c, owner).fallback,
            ..self
        };
        assert(waiting.placed());
        assert(waiting.closed_paths());
        assert(waiting.tracked_leaders());
        assert(waiting.wf());
        if !self.graph.dag_digests.contains(c.digest()) {
            waiting.lemma_promote(c);
            assert forall|x: Certificate| self.settled(x) implies #[trigger] waiting.promote(
                c,
            ).settled(x) by {
                assert(waiting.settled(x));
            }
        }
    }

    /// An admission keeps the state well-formed.
    pub proof fn lemma_admit_all(
        self,
        pending: Seq<Certificate>,
        visited: Set<Digest>,
        owner: Round,
    )
        requires
            self.wf(),
            owner <= LAST_ROUND,
            forall|i: int| 0 <= i < pending.len() ==> self.settled(#[trigger] pending[i]),
        ensures
            self.admit_all(pending, visited, owner).wf(),
            self.carries(self.admit_all(pending, visited, owner)),
        decreases self.to_visit(pending, visited).len(), pending.len(),
    {
        if pending.len() > 0 {
            let c = pending.last();
            self.lemma_admit_step(pending, visited, owner);
            if visited.contains(c.digest()) {
                self.lemma_admit_all(pending.drop_last(), visited, owner);
            } else {
                let next = self.admit_one(c, owner);
                let stack = pending.drop_last() + self.loose_ancestors(c);
                assert(self.settled(pending[pending.len() - 1]));
                self.lemma_admit_one(c, owner);
                assert forall|i: int| 0 <= i < stack.len() implies next.settled(
                    #[trigger] stack[i],
                ) by {
                    if i < pending.len() - 1 {
                        assert(self.settled(pending[i]));
                    } else {
                        self.lemma_loose_ancestors(c, i - (pending.len() - 1));
                    }
                    assert(self.settled(stack[i]));
                }
                next.lemma_admit_all(stack, visited.insert(c.digest()), owner);
                let done = next.admit_all(stack, visited.insert(c.digest()), owner);
                assert forall|x: Certificate| self.settled(x) implies #[trigger] done.settled(
                    x,
                ) by {
                    assert(next.settled(x));
                }
            }
        }
    }

    /// Admitting a block with its history keeps the state well-formed.
    pub proof fn lemma_force(self, root: Certificate, owner: Round)
        requires
            self.wf(),
            self.admissible(root),
            owner <= LAST_ROUND,
        ensures
            self.force(root, owner).wf(),
            self.carries(self.force(root, owner)),
            self.force(root, owner).admissible(root),
    {
        let pending = seq![root];
        let next = self.admit_one(root, owner);
        let stack = pending.drop_last() + self.loose_ancestors(root);
        self.lemma_admit_step(pending, Set::empty(), owner);
        self.lemma_admit_one(root, owner);
        assert forall|i: int| 0 <= i < stack.len() implies next.settled(#[trigger] stack[i]) by {
            self.lemma_loose_ancestors(root, i);
            assert(self.settled(stack[i]));
        }
        next.lemma_admit_all(stack, Set::empty().insert(root.digest()), owner);
        let done = self.force(root, owner);
        assert(done == next.admit_all(stack, Set::empty().insert(root.digest()), owner));
        assert forall|x: Certificate| self.settled(x) implies #[trigger] done.settled(x) by {
            assert(next.settled(x));
        }
        if self.graph.dag_digests.contains(root.digest()) {
            assert(self.settled(self.graph.dag_by_digest[root.digest()]));
            assert(self.settled(root));
        }
        assert(next.settled(root));
        assert(done.settled(root));
    }

    /// Admitting a block for several leaders keeps the state well-formed.
    pub proof fn lemma_force_for(self, root: Certificate, owners: Seq<Round>)
        requires
            self.wf(),
            self.admissible(root),
            forall|i: int| 0 <= i < owners.len() ==> #[trigger] owners[i] <= LAST_ROUND,
        ensures
            self.force_for(root, owners).wf(),
            self.carries(self.force_for(root, owners)),
            self.force_for(root, owners).admissible(root),
        decreases owners.len(),
    {
        if owners.len() > 0 {
            let before = self.force_for(root, owners.drop_last());
            self.lemma_force_for(root, owners.drop_last());
            before.lemma_force(root, owners.last());
            let after = self.force_for(root, owners);
            assert forall|x: Certificate| self.settled(x) implies #[trigger] after.settled(x) by {
                assert(before.settled(x));
            }
        }
    }

    /// Learning of a block keeps the state well-formed.
    pub proof fn lemma_learn(self, c: Certificate)
        requires
            self.wf(),
            self.admissible(c),
        ensures
            self.record(c).wf(),
            self.learn(c).wf(),
            self.learn(c).release(c.digest()).wf(),
            self.learn(c).release(c.digest()).admissible(c),
            self.learn(c).fallback.forced_waiters == self.fallback.forced_waiters,
            self.carries(self.learn(c).release(c.digest())),
    {
        let recorded = self.record(c);
        let woken = recorded.revise().wake_users(set![c.digest()]);
        let learned = self.learn(c);
        assert(recorded.placed());
        assert(recorded.tracked_leaders());
        assert(recorded.closed_paths());
        assert(woken.closed_paths());
        woken.lemma_add_edges(c.content());
        woken.add_edges(c.content()).lemma_propagate_closes(
            c.digest(),
            woken.inherited(c.content()),
        );
        assert(learned.closed_paths());
        assert(learned.placed());
        assert(learned.tracked_leaders());
    }

    /// An observation keeps the state well-formed.
    pub proof fn lemma_observe(self, c: Certificate)
        requires
            self.wf(),
            self.admissible(c),
            self.owners_of(c.digest()).finite(),
        ensures
            self.observe(c).wf(),
            self.carries(self.observe(c)),
    {
        self.lemma_learn(c);
        if !self.graph.observed.contains_key(c.digest()) {
            let learned = self.learn(c);
            let released = learned.release(c.digest());
            let owners = in_order(learned.owners_of(c.digest()));
            lemma_in_order_of(learned.owners_of(c.digest()));
            assert forall|i: int| 0 <= i < owners.len() implies #[trigger] owners[i] <= LAST_ROUND by {
                assert(owners.to_set().contains(owners[i]));
                assert(self.fallback.forced_waiters.contains((c.digest(), owners[i])));
            }
            released.lemma_force_for(c, owners);
            let after = self.observe(c);
            assert forall|x: Certificate| self.settled(x) implies #[trigger] after.settled(x) by {
                assert(released.settled(x));
            }
        }
    }

    /// Entering VDag keeps the state well-formed.
    pub proof fn lemma_enter_vdag(self, c: Certificate)
        requires
            self.wf(),
            self.admissible(c),
            !self.graph.dag_digests.contains(c.digest()),
        ensures
            self.enter_vdag(c).wf(),
            self.enter_vdag(c).admissible(c),
            self.enter_vdag(c).fallback == self.fallback,
            self.carries(self.enter_vdag(c)),
    {
        let after = self.enter_vdag(c);
        assert(after.placed());
        assert(after.closed_paths());
        assert(after.tracked_leaders());
    }

    /// Delivering grade 2 keeps the state well-formed.
    pub proof fn lemma_mark_grade_two(self, digest: Digest)
        requires
            self.wf(),
        ensures
            self.mark_grade_two(digest).wf(),
            self.carries(self.mark_grade_two(digest)),
    {
        let after = self.mark_grade_two(digest);
        assert(after.placed());
        assert(after.closed_paths());
        assert(after.tracked_leaders());
    }

    /// Working off the promotion queue keeps the state well-formed.
    pub proof fn lemma_promote_ready(self)
        requires
            self.wf(),
        ensures
            self.promote_ready().0.wf(),
            self.carries(self.promote_ready().0),
            self.promote_ready().0.graph.promotion_queue.len() == 0,
            forall|i: int|
                0 <= i < self.promote_ready().1.len() ==> self.settled(
                    #[trigger] self.promote_ready().1[i],
                ),
        decreases self.outside().len(), self.graph.promotion_queue.len(),
    {
        if self.graph.promotion_queue.len() > 0 {
            let d = self.graph.promotion_queue[0];
            let rest = self.dequeue();
            self.lemma_promote_step();
            assert(rest.placed());
            assert(rest.closed_paths());
            assert(rest.tracked_leaders());
            if self.promotable(d) {
                let c = self.graph.observed[d];
                assert(rest.settled(rest.graph.observed[d]));
                rest.lemma_promote(c);
                let next = rest.promote_queued(d);
                assert(next.placed());
                assert(next.closed_paths());
                assert(next.tracked_leaders());
                next.lemma_promote_ready();
                let after = self.promote_ready().0;
                assert forall|x: Certificate| self.settled(x) implies #[trigger] after.settled(
                    x,
                ) by {
                    assert(rest.settled(x));
                    assert(rest.promote(c).settled(x));
                    assert(next.settled(x));
                }
                let others = next.promote_ready().1;
                let all = self.promote_ready().1;
                assert forall|i: int| 0 <= i < all.len() implies self.settled(
                    #[trigger] all[i],
                ) by {
                    if i > 0 {
                        assert(all[i] == others[i - 1]);
                        assert(next.settled(others[i - 1]));
                    }
                }
            } else {
                rest.lemma_promote_ready();
                let after = self.promote_ready().0;
                assert forall|x: Certificate| self.settled(x) implies #[trigger] after.settled(
                    x,
                ) by {
                    assert(rest.settled(x));
                }
                let all = self.promote_ready().1;
                assert forall|i: int| 0 <= i < all.len() implies self.settled(
                    #[trigger] all[i],
                ) by {
                    assert(rest.settled(rest.promote_ready().1[i]));
                }
            }
        }
    }

    // ----- What an admission leaves alone -----

    /// Only blocks, the leaders that wait for them, the leaders to evaluate
    /// again and the leaders that are ready differ.
    pub open spec fn admits_only(self, after: StateView) -> bool {
        &&& after.fallback == (FallbackView {
            forced_waiters: after.fallback.forced_waiters,
            ..self.fallback
        })
        &&& after.commits == (CommitView {
            dirty_leaders: after.commits.dirty_leaders,
            ready: after.commits.ready,
            ..self.commits
        })
    }

    /// An admission leaves the rest of the state alone, and puts no block into
    /// another slot.
    pub proof fn lemma_admits_only(
        self,
        pending: Seq<Certificate>,
        visited: Set<Digest>,
        owner: Round,
    )
        requires
            self.wf(),
            owner <= LAST_ROUND,
            forall|i: int| 0 <= i < pending.len() ==> self.settled(#[trigger] pending[i]),
        ensures
            self.admits_only(self.admit_all(pending, visited, owner)),
            self.admit_all(pending, visited, owner).graph.homes == self.graph.homes,
        decreases self.to_visit(pending, visited).len(), pending.len(),
    {
        if pending.len() > 0 {
            let c = pending.last();
            self.lemma_admit_step(pending, visited, owner);
            if visited.contains(c.digest()) {
                self.lemma_admits_only(pending.drop_last(), visited, owner);
            } else {
                let next = self.admit_one(c, owner);
                let stack = pending.drop_last() + self.loose_ancestors(c);
                assert(self.settled(pending[pending.len() - 1]));
                self.lemma_admit_one(c, owner);
                assert forall|i: int| 0 <= i < stack.len() implies next.settled(
                    #[trigger] stack[i],
                ) by {
                    if i < pending.len() - 1 {
                        assert(self.settled(pending[i]));
                    } else {
                        self.lemma_loose_ancestors(c, i - (pending.len() - 1));
                    }
                    assert(self.settled(stack[i]));
                }
                assert(next.graph.homes =~= self.graph.homes);
                next.lemma_admits_only(stack, visited.insert(c.digest()), owner);
            }
        }
    }

    /// Admitting a settled block leaves the rest of the state alone.
    pub proof fn lemma_force_only(self, root: Certificate, owner: Round)
        requires
            self.wf(),
            self.settled(root),
            owner <= LAST_ROUND,
        ensures
            self.admits_only(self.force(root, owner)),
            self.force(root, owner).graph.homes == self.graph.homes,
    {
        assert forall|i: int| 0 <= i < seq![root].len() implies self.settled(
            #[trigger] seq![root][i],
        ) by {}
        self.lemma_admits_only(seq![root], Set::empty(), owner);
    }

    /// Working off the promotion queue leaves the rest of the state alone.
    pub proof fn lemma_promote_ready_only(self)
        requires
            self.wf(),
        ensures
            self.admits_only(self.promote_ready().0),
            self.promote_ready().0.graph.homes == self.graph.homes,
        decreases self.outside().len(), self.graph.promotion_queue.len(),
    {
        if self.graph.promotion_queue.len() > 0 {
            let d = self.graph.promotion_queue[0];
            let rest = self.dequeue();
            self.lemma_promote_step();
            assert(rest.placed());
            assert(rest.closed_paths());
            assert(rest.tracked_leaders());
            if self.promotable(d) {
                let c = self.graph.observed[d];
                assert(rest.settled(rest.graph.observed[d]));
                rest.lemma_promote(c);
                let next = rest.promote_queued(d);
                assert(next.placed());
                assert(next.closed_paths());
                assert(next.tracked_leaders());
                assert(next.graph.homes =~= self.graph.homes);
                next.lemma_promote_ready_only();
            } else {
                rest.lemma_promote_ready_only();
            }
        }
    }
}

} // verus!
