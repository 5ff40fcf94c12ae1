//! No sequence that is handed out holds a block twice, if no block refers back to
//! itself.
use crate::consensus::commit::Time;
use crate::consensus::model::{heeded, StateView};
use crate::consensus::order_laws::{distinct, lemma_filter_distinct};
use crate::consensus::paths::{lemma_reaches_on, lemma_reaches_root, lemma_reaches_within};
use crate::consensus::rules::Consensus;
use crate::ordered::{in_order, lemma_in_order_of};
use crate::types::{Certificate, Digest, Round, Slot, LAST_ROUND};
use vstd::prelude::*;

verus! {

/// Whether the strong and weak edges of a block lead down in `height`. Where
/// they do of all blocks, no block refers back to itself.
pub open spec fn grounded(height: spec_fn(Digest) -> int, c: Certificate) -> bool {
    forall|d: Digest| #[trigger] c.header.depends_on(d) ==> height(d) < height(c.digest())
}

/// A sequence holds no block twice, and every block in the slot that its digest
/// stands for.
pub open spec fn sequenced(homes: Map<Digest, Slot>, s: Seq<Certificate>) -> bool {
    &&& distinct(s)
    &&& forall|i: int|
        0 <= i < s.len() ==> homes.contains_key((#[trigger] s[i]).digest())
            && homes[s[i].digest()] == s[i].slot()
}

/// The edges of all blocks lead down in `height`, and no prepared sequence holds
/// a block twice.
#[verifier::opaque]
pub open spec fn tidily(
    height: spec_fn(Digest) -> int,
    homes: Map<Digest, Slot>,
    observed: Map<Digest, Certificate>,
    dag_by_digest: Map<Digest, Certificate>,
    dag: Map<Slot, Certificate>,
    vdag: Map<Slot, Certificate>,
    pending: Map<Round, Certificate>,
    order: Map<Round, Seq<Certificate>>,
) -> bool {
    &&& forall|d: Digest| #[trigger] observed.contains_key(d) ==> grounded(height, observed[d])
    &&& forall|d: Digest| #[trigger]
        dag_by_digest.contains_key(d) ==> grounded(height, dag_by_digest[d])
    &&& forall|s: Slot| #[trigger] dag.contains_key(s) ==> grounded(height, dag[s])
    &&& forall|s: Slot| #[trigger] vdag.contains_key(s) ==> grounded(height, vdag[s])
    &&& forall|r: Round| #[trigger] pending.contains_key(r) ==> grounded(height, pending[r])
    &&& forall|r: Round| #[trigger] order.contains_key(r) ==> sequenced(homes, order[r])
}

impl StateView {
    /// The edges of all blocks lead down in `height`, and no prepared sequence
    /// holds a block twice.
    pub open spec fn tidy(self, height: spec_fn(Digest) -> int) -> bool {
        tidily(
            height,
            self.graph.homes,
            self.graph.observed,
            self.graph.dag_by_digest,
            self.graph.dag,
            self.graph.vdag,
            self.commits.pending,
            self.commits.order,
        )
    }

    /// A step from a tidy state leads to a tidy state, and no sequence that it
    /// hands out holds a block twice.
    pub open spec fn tidies(self, after: StateView, height: spec_fn(Digest) -> int) -> bool {
        self.tidy(height) ==> {
            &&& after.tidy(height)
            &&& forall|i: int|
                self.commits.outbox.len() <= i < after.commits.outbox.len() ==> sequenced(
                    after.graph.homes,
                    #[trigger] after.commits.outbox[i],
                )
        }
    }

    /// The edges of what a tidy state holds lead down.
    pub proof fn lemma_held(self, height: spec_fn(Digest) -> int)
        requires
            self.tidy(height),
        ensures
            forall|d: Digest| #[trigger]
                self.graph.observed.contains_key(d) ==> grounded(height, self.graph.observed[d]),
            forall|s: Slot| #[trigger]
                self.graph.dag.contains_key(s) ==> grounded(height, self.graph.dag[s]),
            forall|s: Slot| #[trigger]
                self.graph.vdag.contains_key(s) ==> grounded(height, self.graph.vdag[s]),
            forall|r: Round| #[trigger]
                self.commits.pending.contains_key(r) ==> grounded(height, self.commits.pending[r]),
    {
        reveal(tidily);
    }

    // ----- Blocks -----

    /// Where the slots of the blocks stay, prepared sequences stay right.
    proof fn lemma_still_sequenced(self, homes: Map<Digest, Slot>, height: spec_fn(Digest) -> int)
        requires
            self.tidy(height),
            forall|d: Digest| #[trigger]
                self.graph.homes.contains_key(d) ==> homes.contains_key(d) && homes[d]
                    == self.graph.homes[d],
        ensures
            forall|r: Round| #[trigger]
                self.commits.order.contains_key(r) ==> sequenced(homes, self.commits.order[r]),
    {
        reveal(tidily);
        assert forall|r: Round| #[trigger] self.commits.order.contains_key(r) implies sequenced(
            homes,
            self.commits.order[r],
        ) by {
            let s = self.commits.order[r];
            assert forall|i: int| 0 <= i < s.len() implies homes.contains_key(
                (#[trigger] s[i]).digest(),
            ) && homes[s[i].digest()] == s[i].slot() by {
                assert(self.graph.homes.contains_key(s[i].digest()));
            }
        }
    }

    /// Promoting a block whose edges lead down leaves the state tidy.
    proof fn lemma_promote_tidies(self, c: Certificate, height: spec_fn(Digest) -> int)
        requires
            self.tidy(height),
            self.admissible(c),
            grounded(height, c),
        ensures
            self.promote(c).tidy(height),
            self.promote(c).commits.outbox == self.commits.outbox,
    {
        self.lemma_still_sequenced(self.promote(c).graph.homes, height);
        reveal(tidily);
    }

    /// Admitting a block whose edges lead down leaves the state tidy.
    proof fn lemma_admit_one_tidies(
        self,
        c: Certificate,
        owner: Round,
        height: spec_fn(Digest) -> int,
    )
        requires
            self.tidy(height),
            self.admissible(c),
            grounded(height, c),
        ensures
            self.admit_one(c, owner).tidy(height),
            self.admit_one(c, owner).commits.outbox == self.commits.outbox,
    {
        let waiting = self.await_unseen(c, owner);
        if !self.graph.dag_digests.contains(c.digest()) {
            waiting.lemma_promote_tidies(c, height);
        }
    }

    /// Admitting settled blocks whose edges lead down leaves the state tidy.
    proof fn lemma_admit_all_tidies(
        self,
        pending: Seq<Certificate>,
        visited: Set<Digest>,
        owner: Round,
        height: spec_fn(Digest) -> int,
    )
        requires
            self.wf(),
            self.tidy(height),
            owner <= LAST_ROUND,
            forall|i: int|
                0 <= i < pending.len() ==> self.settled(#[trigger] pending[i]) && grounded(
                    height,
                    pending[i],
                ),
        ensures
            self.admit_all(pending, visited, owner).tidy(height),
            self.admit_all(pending, visited, owner).commits.outbox == self.commits.outbox,
        decreases self.to_visit(pending, visited).len(), pending.len(),
    {
        if pending.len() > 0 {
            let c = pending.last();
            self.lemma_admit_step(pending, visited, owner);
            if visited.contains(c.digest()) {
                self.lemma_admit_all_tidies(pending.drop_last(), visited, owner, height);
            } else {
                let next = self.admit_one(c, owner);
                let stack = pending.drop_last() + self.loose_ancestors(c);
                assert(self.settled(pending[pending.len() - 1]));
                self.lemma_admit_one(c, owner);
                self.lemma_admit_one_tidies(c, owner, height);
                self.lemma_held(height);
                assert forall|i: int| 0 <= i < stack.len() implies next.settled(
                    #[trigger] stack[i],
                ) && grounded(height, stack[i]) by {
                    if i < pending.len() - 1 {
                        assert(stack[i] == pending[i]);
                    } else {
                        self.lemma_loose_ancestors(c, i - (pending.len() - 1));
                    }
                    assert(self.settled(stack[i]));
                }
                next.lemma_admit_all_tidies(stack, visited.insert(c.digest()), owner, height);
            }
        }
    }

    /// Admitting a block whose edges lead down with its history leaves the state
    /// tidy.
    proof fn lemma_force_tidies(
        self,
        root: Certificate,
        owner: Round,
        height: spec_fn(Digest) -> int,
    )
        requires
            self.wf(),
            self.admissible(root),
            owner <= LAST_ROUND,
            grounded(height, root),
        ensures
            self.tidies(self.force(root, owner), height),
            self.tidy(height) ==> self.force(root, owner).commits.outbox == self.commits.outbox,
    {
        if self.tidy(height) {
            let pending = seq![root];
            let next = self.admit_one(root, owner);
            let stack = pending.drop_last() + self.loose_ancestors(root);
            self.lemma_admit_step(pending, Set::empty(), owner);
            self.lemma_admit_one(root, owner);
            self.lemma_admit_one_tidies(root, owner, height);
            self.lemma_held(height);
            assert forall|i: int| 0 <= i < stack.len() implies next.settled(#[trigger] stack[i])
                && grounded(height, stack[i]) by {
                self.lemma_loose_ancestors(root, i);
                assert(self.settled(stack[i]));
            }
            next.lemma_admit_all_tidies(stack, Set::empty().insert(root.digest()), owner, height);
        }
    }

    /// Admitting a block whose edges lead down for several leaders leaves the
    /// state tidy.
    proof fn lemma_force_for_tidies(
        self,
        root: Certificate,
        owners: Seq<Round>,
        height: spec_fn(Digest) -> int,
    )
        requires
            self.wf(),
            self.admissible(root),
            forall|i: int| 0 <= i < owners.len() ==> #[trigger] owners[i] <= LAST_ROUND,
            self.tidy(height),
            grounded(height, root),
        ensures
            self.force_for(root, owners).tidy(height),
            self.force_for(root, owners).commits.outbox == self.commits.outbox,
        decreases owners.len(),
    {
        if owners.len() > 0 {
            let before = self.force_for(root, owners.drop_last());
            self.lemma_force_for(root, owners.drop_last());
            self.lemma_force_for_tidies(root, owners.drop_last(), height);
            before.lemma_force_tidies(root, owners.last(), height);
        }
    }

    /// Observing a block whose edges lead down leaves the state tidy.
    proof fn lemma_observe_tidies(self, c: Certificate, height: spec_fn(Digest) -> int)
        requires
            self.wf(),
            self.admissible(c),
            self.owners_of(c.digest()).finite(),
            grounded(height, c),
        ensures
            self.tidies(self.observe(c), height),
    {
        if self.tidy(height) {
            self.lemma_learn(c);
            self.lemma_still_sequenced(self.record(c).graph.homes, height);
            assert(self.record(c).tidy(height)) by {
                reveal(tidily);
            }
            if !self.graph.observed.contains_key(c.digest()) {
                let learned = self.learn(c);
                let released = learned.release(c.digest());
                let owners = in_order(learned.owners_of(c.digest()));
                lemma_in_order_of(learned.owners_of(c.digest()));
                assert forall|i: int| 0 <= i < owners.len() implies #[trigger] owners[i]
                    <= LAST_ROUND by {
                    assert(owners.to_set().contains(owners[i]));
                    assert(self.fallback.forced_waiters.contains((c.digest(), owners[i])));
                }
                assert(released.tidy(height));
                released.lemma_force_for_tidies(c, owners, height);
            }
        }
    }

    /// Delivering a block whose edges lead down at grade 1 leaves the state tidy.
    proof fn lemma_grade_one_tidies(self, c: Certificate, height: spec_fn(Digest) -> int)
        requires
            self.wf(),
            self.admissible(c),
            self.owners_of(c.digest()).finite(),
            grounded(height, c),
        ensures
            self.tidies(self.insert_grade_one(c), height),
    {
        if self.tidy(height) && !self.graph.dag_digests.contains(c.digest()) {
            let entered = self.enter_vdag(c);
            self.lemma_enter_vdag(c);
            self.lemma_still_sequenced(entered.graph.homes, height);
            assert(entered.tidy(height)) by {
                reveal(tidily);
            }
            assert(entered.owners_of(c.digest()) == self.owners_of(c.digest()));
            entered.lemma_observe_tidies(c, height);
        }
    }

    /// Working off the promotion queue leaves the state tidy.
    proof fn lemma_promote_ready_tidies(self, height: spec_fn(Digest) -> int)
        requires
            self.wf(),
        ensures
            self.tidies(self.promote_ready().0, height),
            self.tidy(height) ==> self.promote_ready().0.commits.outbox == self.commits.outbox,
        decreases self.outside().len(), self.graph.promotion_queue.len(),
    {
        if self.tidy(height) && self.graph.promotion_queue.len() > 0 {
            let d = self.graph.promotion_queue[0];
            let rest = self.dequeue();
            self.lemma_promote_step();
            assert(rest.placed());
            assert(rest.closed_paths());
            assert(rest.tracked_leaders());
            if self.promotable(d) {
                let c = self.graph.observed[d];
                assert(rest.settled(rest.graph.observed[d]));
                rest.lemma_promote(c);
                self.lemma_held(height);
                rest.lemma_promote_tidies(c, height);
                let next = rest.promote_queued(d);
                assert(next.placed());
                assert(next.closed_paths());
                assert(next.tracked_leaders());
                next.lemma_promote_ready_tidies(height);
            } else {
                rest.lemma_promote_ready_tidies(height);
            }
        }
    }

    /// Garbage collection leaves the state tidy.
    proof fn lemma_update_tidies(
        self,
        sequence: Seq<Certificate>,
        gc_depth: Round,
        height: spec_fn(Digest) -> int,
    )
        ensures
            self.tidies(self.update(sequence, gc_depth), height),
    {
        reveal(tidily);
    }

    // ----- Sequences -----

    /// The Dag is finite, as all of it has been observed.
    proof fn lemma_dag_finite(self)
        requires
            self.wf(),
        ensures
            self.graph.dag_by_digest.dom().finite(),
    {
        assert(self.graph.dag_by_digest.dom().subset_of(self.graph.observed.dom()));
        vstd::set_lib::lemma_set_subset_finite(
            self.graph.observed.dom(),
            self.graph.dag_by_digest.dom(),
        );
    }

    /// The committed order of a leader of a tidy state holds no block twice.
    pub proof fn lemma_order_distinct(
        self,
        leader: Certificate,
        gc_depth: Round,
        height: spec_fn(Digest) -> int,
    )
        requires
            self.wf(),
            self.tidy(height),
            self.settled(leader),
            grounded(height, leader),
        ensures
            sequenced(self.graph.homes, self.order_dag(leader, gc_depth)),
    {
        let homes = self.graph.homes;
        let top = height(leader.digest());
        let below = Set::new(|d: Digest| self.uncommitted(d) && height(d) < top);
        let roots = self.open_dependencies(leader);
        let edges = self.open_edges();
        self.lemma_dag_finite();
        assert forall|v: Digest, d: Digest|
            #![trigger below.contains(v), edges(v).contains(d)]
            below.contains(v) && edges(v).contains(d) implies below.contains(d) by {
            reveal(tidily);
            let c = self.graph.dag_by_digest[v];
            assert(c.digest() == v);
            assert(grounded(height, c));
            assert(c.header.depends_on(d));
        }
        assert forall|d: Digest| #[trigger] roots.contains(d) implies below.contains(d) by {
            assert(leader.header.depends_on(d));
        }
        if self.open_history(leader).contains(leader.digest()) {
            lemma_reaches_within(roots, edges, below, leader.digest());
        }
        self.law_order_is_the_open_history(leader, gc_depth);
        let out = self.order_dag(leader, gc_depth);
        assert forall|i: int| 0 <= i < out.len() implies homes.contains_key(
            (#[trigger] out[i]).digest(),
        ) && homes[out[i].digest()] == out[i].slot() by {
            assert(out.contains(out[i]));
            if out[i] != leader {
                assert(self.drawn(out[i]));
                assert(self.settled(self.graph.dag_by_digest[out[i].digest()]));
            }
        }
    }

    /// Staging a leader whose edges lead down leaves the state tidy.
    proof fn lemma_stage_tidies(
        self,
        leader: Certificate,
        rule: u8,
        gc_depth: Round,
        now: Time,
        height: spec_fn(Digest) -> int,
    )
        requires
            self.wf(),
            self.settled(leader),
            grounded(height, leader),
        ensures
            self.tidies(self.stage(leader, rule, gc_depth, now), height),
    {
        let round = leader.round();
        if self.tidy(height) && self.unresolved(round) {
            self.lemma_force(leader, round);
            self.lemma_force_only(leader, round);
            self.lemma_force_tidies(leader, round, height);
            let forced = self.force(leader, round).dismiss(round).note_ready(round, now.wall_ms);
            self.force(leader, round).lemma_same_graph(forced);
            forced.lemma_order_distinct(leader, gc_depth, height);
            let after = self.stage(leader, rule, gc_depth, now);
            assert(after.tidy(height)) by {
                reveal(tidily);
            }
        }
    }

    /// A commit leaves the state tidy and hands out no block twice.
    proof fn lemma_commit_tidies(
        self,
        round: Round,
        gc_depth: Round,
        height: spec_fn(Digest) -> int,
    )
        requires
            self.wf(),
            self.can_commit(round),
        ensures
            self.tidies(self.commit_leader(round, gc_depth), height),
    {
        let after = self.commit_leader(round, gc_depth);
        if self.tidy(height) {
            let opened = self.unqueue(round);
            assert(opened.tidy(height)) by {
                reveal(tidily);
            }
            if !self.commits.committed.contains(round) {
                let leader = self.commits.pending[round];
                let closed = opened.close(round);
                let settled = closed.settle_account(round);
                let prepared = if closed.commits.order.contains_key(round) {
                    closed.commits.order[round]
                } else {
                    closed.order_dag(leader, gc_depth)
                };
                let sequence = closed.batch(round, leader, gc_depth);
                self.lemma_held(height);
                self.lemma_commit_in_turn(round);
                assert(self.settled(leader));
                assert(sequenced(self.graph.homes, prepared)) by {
                    if closed.commits.order.contains_key(round) {
                        reveal(tidily);
                    } else {
                        self.lemma_same_graph(closed);
                        closed.lemma_order_distinct(leader, gc_depth, height);
                    }
                }
                let above = |c: Certificate| closed.above_mark(c);
                lemma_filter_distinct(prepared, above);
                assert forall|i: int| 0 <= i < sequence.len() implies self.settled(
                    #[trigger] sequence[i],
                ) by {
                    assert(sequence.contains(sequence[i]));
                    prepared.lemma_filter_contains_rev(above, sequence[i]);
                }
                assert(settled.tidy(height)) by {
                    reveal(tidily);
                }
                settled.lemma_update_tidies(sequence, gc_depth, height);
                assert(after.commits.outbox == self.commits.outbox.push(sequence));
            }
        }
    }

    // ----- Steps -----

    /// The edges of a block lead down wherever those of the state do.
    pub open spec fn holds(self, c: Certificate) -> bool {
        forall|height: spec_fn(Digest) -> int| #[trigger]
            self.tidy(height) ==> grounded(height, c)
    }

    /// What holds between the states before and after a step that takes in a
    /// block: a tidy state stays tidy if the edges of the block lead down.
    pub open spec fn keeps_given(self, c: Certificate, after: StateView) -> bool {
        &&& self.carries(after)
        &&& forall|height: spec_fn(Digest) -> int|
            grounded(height, c) ==> #[trigger] self.tidies(after, height)
    }

    /// Two steps make one.
    pub proof fn lemma_tidies(
        self,
        midway: StateView,
        after: StateView,
        height: spec_fn(Digest) -> int,
    )
        requires
            midway.carries(after),
            self.carries(midway),
            self.tidies(midway, height),
            midway.tidies(after, height),
        ensures
            self.tidies(after, height),
    {
        if self.tidy(height) {
            let sent = self.commits.outbox;
            let mid = midway.commits.outbox;
            let out = after.commits.outbox;
            assert forall|i: int| sent.len() <= i < out.len() implies sequenced(
                after.graph.homes,
                #[trigger] out[i],
            ) by {
                if i < mid.len() {
                    assert(out[i] == mid[i]);
                    assert forall|j: int| 0 <= j < out[i].len() implies after.settled(
                        #[trigger] out[i][j],
                    ) by {
                        assert(midway.settled(mid[i][j]));
                    }
                }
            }
        }
    }

    /// Two steps that take in a block make one.
    pub proof fn lemma_keeps_given(self, c: Certificate, midway: StateView, after: StateView)
        requires
            self.keeps_given(c, midway),
            midway.keeps_given(c, after),
        ensures
            self.keeps_given(c, after),
    {
        self.lemma_carries(midway, after);
        assert forall|height: spec_fn(Digest) -> int| grounded(height, c) implies #[trigger] self.tidies(
            after,
            height,
        ) by {
            assert(self.tidies(midway, height));
            assert(midway.tidies(after, height));
            self.lemma_tidies(midway, after, height);
        }
    }

    /// A block that the state holds is as good as none.
    pub proof fn lemma_keeps_held(self, c: Certificate, after: StateView)
        requires
            self.holds(c),
            self.keeps_given(c, after),
        ensures
            self.keeps(after),
    {
        assert forall|height: spec_fn(Digest) -> int| #[trigger] self.tidies(after, height) by {
            if self.tidy(height) {
                assert(grounded(height, c));
            }
        }
    }

    /// Admitting a block with its history.
    pub proof fn lemma_force_keeps(self, root: Certificate, owner: Round)
        requires
            self.wf(),
            self.admissible(root),
            owner <= LAST_ROUND,
        ensures
            self.keeps_given(root, self.force(root, owner)),
    {
        self.lemma_force(root, owner);
        assert forall|height: spec_fn(Digest) -> int|
            grounded(height, root) implies #[trigger] self.tidies(
            self.force(root, owner),
            height,
        ) by {
            self.lemma_force_tidies(root, owner, height);
        }
    }

    /// Observing a block.
    pub proof fn lemma_observe_keeps(self, c: Certificate)
        requires
            self.wf(),
            self.admissible(c),
            self.owners_of(c.digest()).finite(),
        ensures
            self.keeps_given(c, self.observe(c)),
    {
        self.lemma_observe(c);
        assert forall|height: spec_fn(Digest) -> int|
            grounded(height, c) implies #[trigger] self.tidies(self.observe(c), height) by {
            self.lemma_observe_tidies(c, height);
        }
    }

    /// Delivering a block at grade 1.
    pub proof fn lemma_grade_one_keeps(self, c: Certificate)
        requires
            self.wf(),
            self.admissible(c),
            self.owners_of(c.digest()).finite(),
        ensures
            self.keeps_given(c, self.insert_grade_one(c)),
    {
        if !self.graph.dag_digests.contains(c.digest()) {
            let entered = self.enter_vdag(c);
            self.lemma_enter_vdag(c);
            assert(entered.owners_of(c.digest()) == self.owners_of(c.digest()));
            entered.lemma_observe(c);
            self.lemma_carries(entered, self.insert_grade_one(c));
        }
        assert forall|height: spec_fn(Digest) -> int|
            grounded(height, c) implies #[trigger] self.tidies(self.insert_grade_one(c), height) by {
            self.lemma_grade_one_tidies(c, height);
        }
    }

    /// Working off the promotion queue.
    pub proof fn lemma_promote_ready_keeps(self)
        requires
            self.wf(),
        ensures
            self.keeps(self.promote_ready().0),
    {
        self.lemma_promote_ready();
        assert forall|height: spec_fn(Digest) -> int| #[trigger]
            self.tidies(self.promote_ready().0, height) by {
            self.lemma_promote_ready_tidies(height);
        }
    }

    /// Garbage collection.
    pub proof fn lemma_update_keeps(self, sequence: Seq<Certificate>, gc_depth: Round)
        requires
            self.wf(),
        ensures
            self.keeps(self.update(sequence, gc_depth)),
    {
        self.lemma_update(sequence, gc_depth);
        assert forall|height: spec_fn(Digest) -> int| #[trigger]
            self.tidies(self.update(sequence, gc_depth), height) by {
            self.lemma_update_tidies(sequence, gc_depth, height);
        }
    }

    /// Staging a leader.
    pub proof fn lemma_stage_keeps(self, leader: Certificate, rule: u8, gc_depth: Round, now: Time)
        requires
            self.wf(),
            self.settled(leader),
        ensures
            self.keeps_given(leader, self.stage(leader, rule, gc_depth, now)),
    {
        self.lemma_stage(leader, rule, gc_depth, now);
        assert forall|height: spec_fn(Digest) -> int|
            grounded(height, leader) implies #[trigger] self.tidies(
            self.stage(leader, rule, gc_depth, now),
            height,
        ) by {
            self.lemma_stage_tidies(leader, rule, gc_depth, now, height);
        }
    }

    /// The state once a ready leader is committed, if it can be, and no longer
    /// taken for ready.
    pub open spec fn try_commit(self, round: Round, gc_depth: Round) -> StateView {
        let next = self.unready(round);
        if next.can_commit(round) {
            next.commit_leader(round, gc_depth)
        } else {
            next
        }
    }

    /// Trying to commit a ready leader.
    pub proof fn lemma_try_commit(self, round: Round, gc_depth: Round)
        requires
            self.wf(),
        ensures
            self.unready(round).wf(),
            self.try_commit(round, gc_depth).wf(),
            self.keeps(self.try_commit(round, gc_depth)),
    {
        let next = self.unready(round);
        let after = self.try_commit(round, gc_depth);
        self.lemma_unready(round);
        assert(self.steadies(next));
        if next.can_commit(round) {
            next.lemma_commit_leader(round, gc_depth);
            self.lemma_steadies(next, after);
            assert forall|height: spec_fn(Digest) -> int| #[trigger] self.tidies(after, height) by {
                next.lemma_commit_tidies(round, gc_depth, height);
                assert(self.tidy(height) == next.tidy(height));
            }
        } else {
            assert(self.heeds() ==> next.heeds()) by {
                reveal(heeded);
            }
        }
    }

    // ----- Laws -----

    /// Of all blocks that a step from a tidy state hands out, no two have the
    /// same digest.
    pub proof fn law_no_digest_is_handed_out_twice(
        self,
        after: StateView,
        height: spec_fn(Digest) -> int,
        i: int,
        j: int,
        k: int,
        l: int,
    )
        requires
            self.tidy(height),
            self.carries(after),
            self.tidies(after, height),
            self.commits.outbox.len() <= i <= k < after.commits.outbox.len(),
            0 <= j < after.commits.outbox[i].len(),
            0 <= l < after.commits.outbox[k].len(),
            i < k || j < l,
        ensures
            after.commits.outbox[i][j].digest() != after.commits.outbox[k][l].digest(),
    {
        if i < k {
            self.law_no_block_is_committed_twice(after, i, j, k, l);
        } else {
            self.law_no_block_is_twice_in_a_sequence(after, height, i, j, l);
        }
    }

    /// What has been handed out in one step from a tidy state is not handed out
    /// in a later one under its digest, whatever was taken away in between.
    pub proof fn law_no_digest_is_handed_out_again(
        self,
        midway: StateView,
        cleared: StateView,
        after: StateView,
        height: spec_fn(Digest) -> int,
        i: int,
        j: int,
        k: int,
        l: int,
    )
        requires
            self.tidy(height),
            self.carries(midway),
            self.tidies(midway, height),
            cleared.tidy(height),
            cleared.graph.homes == midway.graph.homes,
            cleared.commits.last_committed == midway.commits.last_committed,
            cleared.carries(after),
            cleared.tidies(after, height),
            self.commits.outbox.len() <= i < midway.commits.outbox.len(),
            0 <= j < midway.commits.outbox[i].len(),
            cleared.commits.outbox.len() <= k < after.commits.outbox.len(),
            0 <= l < after.commits.outbox[k].len(),
        ensures
            midway.commits.outbox[i][j].digest() != after.commits.outbox[k][l].digest(),
    {
        self.law_no_block_is_committed_again(midway, cleared, after, i, j, k, l);
        let c = midway.commits.outbox[i][j];
        assert(midway.settled(c));
        assert(cleared.settled(c));
        assert(after.settled(c));
        assert(after.settled(after.commits.outbox[k][l]));
    }

    /// No sequence that a step from a tidy state hands out holds a block twice.
    pub proof fn law_no_block_is_twice_in_a_sequence(
        self,
        after: StateView,
        height: spec_fn(Digest) -> int,
        i: int,
        j: int,
        k: int,
    )
        requires
            self.tidy(height),
            self.tidies(after, height),
            self.commits.outbox.len() <= i < after.commits.outbox.len(),
            0 <= j < k < after.commits.outbox[i].len(),
        ensures
            after.tidy(height),
            after.commits.outbox[i][j].digest() != after.commits.outbox[i][k].digest(),
    {
    }

    // ----- Leaders apart from their history -----

    /// No pending leader lies in its own uncommitted history.
    pub open spec fn leaders_apart(self) -> bool {
        forall|r: Round| #[trigger]
            self.commits.pending.contains_key(r) ==> !self.open_history(
                self.commits.pending[r],
            ).contains(self.commits.pending[r].digest())
    }

    /// No prepared sequence holds a block twice.
    pub open spec fn prepares_once(self) -> bool {
        forall|r: Round| #[trigger]
            self.commits.order.contains_key(r) ==> distinct(self.commits.order[r])
    }

    /// The Dag has shrunk and the watermarks have risen, if they changed.
    pub open spec fn shrinks_to(self, after: StateView) -> bool {
        &&& forall|e: Digest| #[trigger]
            after.graph.dag_by_digest.contains_key(e) ==> self.graph.dag_by_digest.contains_key(e)
                && after.graph.dag_by_digest[e] == self.graph.dag_by_digest[e]
        &&& forall|c: Certificate| after.above_mark(c) ==> #[trigger] self.above_mark(c)
    }

    /// Where the Dag shrinks and the watermarks rise, histories shrink.
    proof fn lemma_history_shrinks(self, after: StateView, leader: Certificate, d: Digest)
        requires
            self.shrinks_to(after),
            after.open_history(leader).contains(d),
        ensures
            self.open_history(leader).contains(d),
    {
        let within = self.open_history(leader);
        let roots = after.open_dependencies(leader);
        assert forall|e: Digest| #[trigger] roots.contains(e) implies within.contains(e) by {
            assert(after.uncommitted(e));
            assert(self.open_dependencies(leader).contains(e));
            lemma_reaches_root(self.open_dependencies(leader), self.open_edges(), e);
        }
        assert forall|v: Digest, e: Digest|
            #![trigger within.contains(v), after.open_edges()(v).contains(e)]
            within.contains(v) && after.open_edges()(v).contains(e) implies within.contains(e) by {
            assert(after.uncommitted(e));
            assert(after.graph.dag_by_digest.contains_key(v));
            assert(self.open_edges()(v).contains(e));
            lemma_reaches_on(self.open_dependencies(leader), self.open_edges(), v, e);
        }
        lemma_reaches_within(roots, after.open_edges(), within, d);
    }

    /// Leaders stay apart from their histories where these shrink.
    proof fn lemma_stay_apart(self, after: StateView)
        requires
            self.leaders_apart(),
            self.shrinks_to(after),
            after.commits.pending.submap_of(self.commits.pending),
        ensures
            after.leaders_apart(),
    {
        assert forall|r: Round| #[trigger]
            after.commits.pending.contains_key(r) implies !after.open_history(
            after.commits.pending[r],
        ).contains(after.commits.pending[r].digest()) by {
            let leader = after.commits.pending[r];
            assert(after.commits.pending.dom().contains(r));
            assert(self.commits.pending.contains_key(r));
            if after.open_history(leader).contains(leader.digest()) {
                self.lemma_history_shrinks(after, leader, leader.digest());
            }
        }
    }

    /// A commit hands out no block twice if the leader lies apart from its
    /// history.
    proof fn lemma_commit_once(self, round: Round, gc_depth: Round)
        requires
            self.wf(),
            self.can_commit(round),
            self.leaders_apart(),
            self.prepares_once(),
        ensures
            self.commit_leader(round, gc_depth).leaders_apart(),
            self.commit_leader(round, gc_depth).prepares_once(),
            forall|i: int|
                self.commits.outbox.len() <= i < self.commit_leader(
                    round,
                    gc_depth,
                ).commits.outbox.len() ==> distinct(
                    #[trigger] self.commit_leader(round, gc_depth).commits.outbox[i],
                ),
    {
        let after = self.commit_leader(round, gc_depth);
        self.lemma_commit_leader(round, gc_depth);
        assert(self.shrinks_to(after)) by {
            assert forall|c: Certificate| after.above_mark(c) implies #[trigger] self.above_mark(c) by {
                if self.commits.last_committed.contains_key(c.origin()) {
                    assert(after.commits.last_committed.contains_key(c.origin()));
                }
            }
        }
        assert(after.commits.pending =~= self.commits.pending.remove(round));
        self.lemma_stay_apart(after);
        if !self.commits.committed.contains(round) {
            let leader = self.commits.pending[round];
            let closed = self.unqueue(round).close(round);
            let prepared = if closed.commits.order.contains_key(round) {
                closed.commits.order[round]
            } else {
                closed.order_dag(leader, gc_depth)
            };
            assert(distinct(prepared)) by {
                if closed.commits.order.contains_key(round) {
                    assert(self.commits.order.contains_key(round));
                } else {
                    self.lemma_commit_in_turn(round);
                    self.lemma_same_graph(closed);
                    closed.lemma_dag_finite();
                    if closed.open_history(leader).contains(leader.digest()) {
                        self.lemma_history_shrinks(closed, leader, leader.digest());
                    }
                    closed.law_order_is_the_open_history(leader, gc_depth);
                }
            }
            lemma_filter_distinct(prepared, |c: Certificate| closed.above_mark(c));
            assert(after.commits.outbox == self.commits.outbox.push(
                closed.batch(round, leader, gc_depth),
            ));
            assert forall|r: Round| #[trigger] after.commits.order.contains_key(r) implies distinct(
                after.commits.order[r],
            ) by {
                assert(self.commits.order.contains_key(r));
            }
        }
    }

    /// Committing all leaders that are ready hands out no block twice in one
    /// sequence, if no pending leader lies in its own uncommitted history and
    /// the prepared sequences hold no block twice. Both stay so.
    pub proof fn law_drain_hands_out_no_block_twice(self, gc_depth: Round)
        requires
            self.wf(),
            self.leaders_apart(),
            self.prepares_once(),
        ensures
            self.drain(gc_depth).leaders_apart(),
            self.drain(gc_depth).prepares_once(),
            forall|i: int|
                self.commits.outbox.len() <= i < self.drain(gc_depth).commits.outbox.len()
                    ==> distinct(#[trigger] self.drain(gc_depth).commits.outbox[i]),
            self.carries(self.drain(gc_depth)),
        decreases self.commits.pending.dom().len(), self.commits.ready.len(),
    {
        let after = self.drain(gc_depth);
        if self.commits.ready.len() > 0 {
            let round = in_order(self.commits.ready)[0];
            let next = self.unready(round);
            self.lemma_first_ready(gc_depth);
            self.lemma_unready(round);
            assert(self.shrinks_to(next));
            self.lemma_stay_apart(next);
            self.lemma_try_commit(round, gc_depth);
            if next.can_commit(round) {
                let done = next.commit_leader(round, gc_depth);
                next.lemma_commit_once(round, gc_depth);
                done.law_drain_hands_out_no_block_twice(gc_depth);
                self.lemma_carries(done, after);
                assert forall|i: int|
                    self.commits.outbox.len() <= i < after.commits.outbox.len() implies distinct(
                    #[trigger] after.commits.outbox[i],
                ) by {
                    if i < done.commits.outbox.len() {
                        assert(after.commits.outbox[i] == done.commits.outbox[i]);
                    }
                }
            } else {
                next.law_drain_hands_out_no_block_twice(gc_depth);
                self.lemma_carries(next, after);
            }
        }
    }

    /// Staging a leader prepares a sequence without repetition, if no pending
    /// leader lies in its own uncommitted history afterwards.
    pub proof fn law_staging_prepares_no_block_twice(
        self,
        leader: Certificate,
        rule: u8,
        gc_depth: Round,
        now: Time,
    )
        requires
            self.wf(),
            self.settled(leader),
            self.prepares_once(),
            self.stage(leader, rule, gc_depth, now).leaders_apart(),
        ensures
            self.stage(leader, rule, gc_depth, now).prepares_once(),
    {
        let round = leader.round();
        if self.unresolved(round) {
            let after = self.stage(leader, rule, gc_depth, now);
            self.lemma_force(leader, round);
            self.lemma_force_only(leader, round);
            let forced = self.force(leader, round).dismiss(round).note_ready(round, now.wall_ms);
            self.force(leader, round).lemma_same_graph(forced);
            forced.lemma_dag_finite();
            assert(after.commits.pending.contains_key(round));
            assert(after.shrinks_to(forced));
            if forced.open_history(leader).contains(leader.digest()) {
                after.lemma_history_shrinks(forced, leader, leader.digest());
            }
            forced.law_order_is_the_open_history(leader, gc_depth);
            assert forall|r: Round| #[trigger] after.commits.order.contains_key(r) implies distinct(
                after.commits.order[r],
            ) by {
                if r != round {
                    assert(self.commits.order.contains_key(r));
                }
            }
        }
    }

    /// A node that knows only genesis blocks, which have no edges, is tidy.
    pub proof fn law_start_is_tidy(genesis: Seq<Certificate>, height: spec_fn(Digest) -> int)
        requires
            forall|i: int, d: Digest|
                0 <= i < genesis.len() ==> !#[trigger] genesis[i].header.depends_on(d),
        ensures
            Self::initial(genesis).tidy(height),
            Self::initial(genesis).commits.order == Map::<Round, Seq<Certificate>>::empty(),
        decreases genesis.len(),
    {
        reveal(tidily);
        if genesis.len() > 0 {
            let front = genesis.drop_last();
            assert forall|i: int, d: Digest| 0 <= i < front.len() implies !(
            #[trigger] front[i].header.depends_on(d)) by {
                assert(!genesis[i].header.depends_on(d));
            }
            Self::law_start_is_tidy(front, height);
            let c = genesis.last();
            assert(grounded(height, c)) by {
                assert(genesis[genesis.len() - 1] == c);
            }
        }
    }
}

impl Consensus {
    /// A tidy state holds its sighted leaders.
    pub proof fn lemma_sighted_held(&self, s: StateView, round: Round)
        requires
            s.wf(),
        ensures
            self.sighted(s, round) is Some ==> s.holds(self.sighted(s, round)->0),
    {
        if self.sighted(s, round) is Some {
            let c = self.sighted(s, round)->0;
            assert forall|height: spec_fn(Digest) -> int| #[trigger] s.tidy(height) implies grounded(
                height,
                c,
            ) by {
                s.lemma_held(height);
            }
        }
    }

    /// Putting histories in order anew prepares no sequence with a repetition, if
    /// no pending leader lies in its own uncommitted history.
    pub proof fn law_refresh_prepares_no_block_twice(&self, s: StateView, rounds: Set<Round>)
        requires
            s.wf(),
            s.leaders_apart(),
            s.prepares_once(),
        ensures
            self.refreshed(s, rounds).leaders_apart(),
            self.refreshed(s, rounds).prepares_once(),
    {
        let after = self.refreshed(s, rounds);
        s.lemma_dag_finite();
        assert(s.shrinks_to(after));
        s.lemma_stay_apart(after);
        assert forall|r: Round| #[trigger] after.commits.order.contains_key(r) implies distinct(
            after.commits.order[r],
        ) by {
            if rounds.contains(r) && s.commits.pending.contains_key(r) {
                s.law_order_is_the_open_history(s.commits.pending[r], self.gc_depth);
            } else {
                assert(s.commits.order.contains_key(r));
            }
        }
    }

    /// Putting histories in order anew.
    pub proof fn lemma_refreshed_keeps(&self, s: StateView, rounds: Set<Round>)
        requires
            s.wf(),
        ensures
            s.keeps(self.refreshed(s, rounds)),
    {
        assert forall|height: spec_fn(Digest) -> int| #[trigger]
            s.tidies(self.refreshed(s, rounds), height) by {
            self.lemma_refreshed_tidies(s, rounds, height);
        }
    }

    /// Putting histories in order anew leaves the state tidy.
    proof fn lemma_refreshed_tidies(
        &self,
        s: StateView,
        rounds: Set<Round>,
        height: spec_fn(Digest) -> int,
    )
        requires
            s.wf(),
        ensures
            s.tidies(self.refreshed(s, rounds), height),
    {
        if s.tidy(height) {
            let after = self.refreshed(s, rounds);
            s.lemma_held(height);
            assert forall|r: Round| #[trigger] after.commits.order.contains_key(r) implies sequenced(
                s.graph.homes,
                after.commits.order[r],
            ) by {
                if rounds.contains(r) && s.commits.pending.contains_key(r) {
                    s.lemma_order_distinct(s.commits.pending[r], self.gc_depth, height);
                } else {
                    reveal(tidily);
                }
            }
            reveal(tidily);
        }
    }
}

} // verus!
