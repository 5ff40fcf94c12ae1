//! What the stages of a broadcast do to a block.
use crate::consensus::messages::Stage;
use crate::consensus::model::StateView;
use crate::ordered::{image, in_order, lemma_in_order_of};
use crate::types::{Certificate, Digest, Round};
use vstd::prelude::*;

verus! {

impl StateView {
    // ----- Grades -----

    /// An admission grants no grade.
    pub proof fn lemma_admission_grades(
        self,
        pending: Seq<Certificate>,
        visited: Set<Digest>,
        owner: Round,
    )
        requires
            self.keyed(),
        ensures
            self.admit_all(pending, visited, owner).graph.grade_two == self.graph.grade_two,
        decreases self.to_visit(pending, visited).len(), pending.len(),
    {
        if pending.len() > 0 {
            let c = pending.last();
            self.lemma_admit_step(pending, visited, owner);
            if visited.contains(c.digest()) {
                self.lemma_admission_grades(pending.drop_last(), visited, owner);
            } else {
                self.admit_one(c, owner).lemma_admission_grades(
                    pending.drop_last() + self.loose_ancestors(c),
                    visited.insert(c.digest()),
                    owner,
                );
            }
        }
    }

    /// Only blocks of grade 2 that were outside the Dag are promoted off the
    /// queue. The Dag gains exactly them, no grade changes, and the queue is
    /// empty afterwards.
    pub proof fn law_promotion_needs_grade_two(self)
        requires
            self.keyed(),
        ensures
            ({
                let (after, promoted) = self.promote_ready();
                &&& after.graph.grade_two == self.graph.grade_two
                &&& after.graph.observed == self.graph.observed
                &&& after.graph.promotion_queue.len() == 0
                &&& forall|i: int|
                    0 <= i < promoted.len() ==> {
                        let d = (#[trigger] promoted[i]).digest();
                        &&& self.graph.grade_two.contains(d)
                        &&& !self.graph.dag_digests.contains(d)
                        &&& after.graph.dag_digests.contains(d)
                        &&& promoted[i] == self.graph.observed[d]
                    }
                &&& forall|d: Digest| #[trigger]
                    after.graph.dag_digests.contains(d) ==> self.graph.dag_digests.contains(d)
                        || holds_digest(promoted, d)
                &&& self.graph.dag_digests.subset_of(after.graph.dag_digests)
            }),
        decreases self.outside().len(), self.graph.promotion_queue.len(),
    {
        let (after, promoted) = self.promote_ready();
        if self.graph.promotion_queue.len() > 0 {
            let d = self.graph.promotion_queue[0];
            let rest = self.dequeue();
            self.lemma_promote_step();
            if self.promotable(d) {
                let next = rest.promote_queued(d);
                next.law_promotion_needs_grade_two();
                let others = next.promote_ready().1;
                assert(next.graph.observed == self.graph.observed);
                assert(promoted == seq![self.graph.observed[d]] + others);
                assert forall|i: int| 0 <= i < promoted.len() implies {
                    let e = (#[trigger] promoted[i]).digest();
                    &&& self.graph.grade_two.contains(e)
                    &&& !self.graph.dag_digests.contains(e)
                    &&& after.graph.dag_digests.contains(e)
                    &&& promoted[i] == self.graph.observed[e]
                } by {
                    if i > 0 {
                        assert(promoted[i] == others[i - 1]);
                    }
                }
                assert forall|e: Digest| #[trigger] after.graph.dag_digests.contains(
                    e,
                ) implies self.graph.dag_digests.contains(e) || holds_digest(promoted, e) by {
                    if holds_digest(others, e) {
                        let i = choose|i: int|
                            0 <= i < others.len() && (#[trigger] others[i]).digest() == e;
                        assert(promoted[i + 1] == others[i]);
                    }
                    if e == d {
                        assert(promoted[0].digest() == d);
                    }
                }
            } else {
                rest.law_promotion_needs_grade_two();
            }
        }
    }

    /// Whether a block is in the Dag, or queued for it with nothing missing.
    pub open spec fn poised(self, d: Digest) -> bool {
        self.graph.dag_digests.contains(d) || (self.graph.promotion_queue.contains(d)
            && self.graph.grade_two.contains(d) && self.misses_nothing(d)
            && self.graph.observed.contains_key(d))
    }

    /// The promotion of one block leaves the others poised.
    proof fn lemma_promote_poised(self, c: Certificate, d: Digest)
        requires
            self.poised(d),
        ensures
            self.promote(c).poised(d),
    {
        let after = self.promote(c);
        if !self.graph.dag_digests.contains(d) && c.digest() != d {
            let i = choose|i: int|
                0 <= i < self.graph.promotion_queue.len() && self.graph.promotion_queue[i] == d;
            assert(after.graph.promotion_queue[i] == d);
        }
    }

    /// What is poised enters the Dag when the queue is worked off.
    pub proof fn law_poised_block_enters_the_dag(self, d: Digest)
        requires
            self.keyed(),
            self.poised(d),
        ensures
            self.promote_ready().0.graph.dag_digests.contains(d),
        decreases self.outside().len(), self.graph.promotion_queue.len(),
    {
        if self.graph.promotion_queue.len() > 0 {
            let e = self.graph.promotion_queue[0];
            let rest = self.dequeue();
            self.lemma_promote_step();
            if e != d && !self.graph.dag_digests.contains(d) {
                let i = choose|i: int|
                    0 <= i < self.graph.promotion_queue.len() && self.graph.promotion_queue[i] == d;
                assert(rest.graph.promotion_queue[i - 1] == d);
            }
            if self.promotable(e) {
                let next = rest.promote_queued(e);
                if e != d {
                    assert(rest.poised(d));
                    rest.lemma_promote_poised(rest.graph.observed[e], d);
                }
                assert(next.poised(d));
                next.law_poised_block_enters_the_dag(d);
            } else {
                if e == d {
                    assert(self.graph.dag_digests.contains(d));
                }
                rest.law_poised_block_enters_the_dag(d);
            }
        }
    }

    /// A delivered block that misses none of its dependencies enters the Dag
    /// with its grade 2.
    pub proof fn law_grade_two_completes_a_block(self, d: Digest)
        requires
            self.wf(),
            !self.graph.grade_two.contains(d),
            self.graph.observed.contains_key(d),
            self.graph.missing_dependencies.contains_key(d),
            self.graph.missing_dependencies[d] == 0,
        ensures
            self.mark_grade_two(d).promote_ready().0.graph.dag_digests.contains(d),
            self.mark_grade_two(d).graph.grade_two == self.graph.grade_two.insert(d),
    {
        let marked = self.mark_grade_two(d);
        let n = self.graph.promotion_queue.len() as int;
        assert(marked.graph.promotion_queue[n] == d);
        assert(marked.poised(d));
        marked.law_poised_block_enters_the_dag(d);
    }

    /// The last dependency that enters the Dag completes a block of grade 2.
    pub proof fn law_last_dependency_completes_a_block(self, c: Certificate, w: Digest)
        requires
            self.wf(),
            !self.graph.dag_digests.contains(c.digest()),
            self.graph.observed.contains_key(w),
            self.graph.grade_two.contains(w),
            self.graph.dependency_waiters.contains((c.digest(), w)),
            image(self.graph.dependency_waiters, c.digest()).finite(),
            self.graph.missing_dependencies.contains_key(w),
            self.graph.missing_dependencies[w] == 1,
        ensures
            self.promote(c).poised(w),
    {
        let d = c.digest();
        let entered = self.acquaint(c).enter_slot(c);
        let after = self.promote(c);
        let waiting = image(self.graph.dependency_waiters, d);
        let list = in_order(waiting);
        let wakes = |x: Digest|
            entered.graph.missing_dependencies.contains_key(x)
                && entered.graph.missing_dependencies[x] <= 1 && entered.graph.grade_two.contains(
                x,
            );
        lemma_in_order_of(waiting);
        assert(waiting.contains(w));
        assert(list.to_set().contains(w));
        let i = choose|i: int| 0 <= i < list.len() && list[i] == w;
        list.lemma_filter_contains(wakes, i);
        let woken = list.filter(wakes);
        assert(woken == entered.woken(d));
        let k = choose|k: int| 0 <= k < woken.len() && woken[k] == w;
        let n = self.graph.promotion_queue.len() as int;
        assert(after.graph.promotion_queue[n + k] == w);
    }

    /// An admission leaves what is poised so.
    proof fn lemma_admission_poised(
        self,
        pending: Seq<Certificate>,
        visited: Set<Digest>,
        owner: Round,
        d: Digest,
    )
        requires
            self.keyed(),
            self.poised(d),
        ensures
            self.admit_all(pending, visited, owner).poised(d),
        decreases self.to_visit(pending, visited).len(), pending.len(),
    {
        if pending.len() > 0 {
            let c = pending.last();
            self.lemma_admit_step(pending, visited, owner);
            if visited.contains(c.digest()) {
                self.lemma_admission_poised(pending.drop_last(), visited, owner, d);
            } else {
                let waiting = self.await_unseen(c, owner);
                assert(waiting.poised(d));
                waiting.lemma_promote_poised(c, d);
                assert(self.admit_one(c, owner).poised(d));
                self.admit_one(c, owner).lemma_admission_poised(
                    pending.drop_last() + self.loose_ancestors(c),
                    visited.insert(c.digest()),
                    owner,
                    d,
                );
            }
        }
    }

    proof fn lemma_admissions_poised(self, root: Certificate, owners: Seq<Round>, d: Digest)
        requires
            self.keyed(),
            self.graph.observed.contains_key(root.digest()),
            self.poised(d),
        ensures
            self.force_for(root, owners).poised(d),
        decreases owners.len(),
    {
        if owners.len() > 0 {
            let before = self.force_for(root, owners.drop_last());
            self.lemma_admissions_poised(root, owners.drop_last(), d);
            self.lemma_admissions_evidence(root, owners.drop_last());
            before.lemma_admission_poised(seq![root], Set::empty(), owners.last(), d);
        }
    }

    /// A block that has grade 2 before it is delivered enters the Dag with its
    /// delivery, if all that it depends on is there.
    pub proof fn law_delivery_completes_a_block(self, c: Certificate)
        requires
            self.wf(),
            self.admissible(c),
            self.graph.grade_two.contains(c.digest()),
            !self.graph.vdag.contains_key(c.slot()),
            forall|d: Digest| #[trigger]
                c.header.depends_on(d) ==> self.graph.dag_digests.contains(d),
        ensures
            self.take_in(c, Stage::GradeOne).0.graph.dag_digests.contains(c.digest()),
    {
        let d = c.digest();
        if self.graph.dag_digests.contains(d) {
            self.law_promotion_needs_grade_two();
        } else {
            let entered = self.enter_vdag(c);
            let n = self.graph.promotion_queue.len() as int;
            self.lemma_enter_vdag(c);
            assert(self.missing(c.content()) =~= Set::empty());
            assert(entered.graph.promotion_queue[n] == d);
            let after = entered.observe(c);
            if entered.graph.observed.contains_key(d) {
                assert(entered.poised(d));
                assert(after.graph.promotion_queue[n] == d);
                assert(after.poised(d));
            } else {
                let learned = entered.learn(c);
                let released = learned.release(d);
                let owners = in_order(learned.owners_of(d));
                entered.lemma_learn(c);
                assert(released.graph.promotion_queue[n] == d);
                assert(released.poised(d));
                released.lemma_admissions_poised(c, owners, d);
            }
            entered.lemma_observe_grades(c);
            after.law_poised_block_enters_the_dag(d);
        }
    }

    // ----- Stages -----

    /// An admission for several leaders grants no grade.
    proof fn lemma_admissions_grades(self, root: Certificate, owners: Seq<Round>)
        requires
            self.keyed(),
            self.graph.observed.contains_key(root.digest()),
        ensures
            self.force_for(root, owners).graph.grade_two == self.graph.grade_two,
        decreases owners.len(),
    {
        if owners.len() > 0 {
            let before = self.force_for(root, owners.drop_last());
            self.lemma_admissions_grades(root, owners.drop_last());
            self.lemma_admissions_evidence(root, owners.drop_last());
            before.lemma_admission_grades(seq![root], Set::empty(), owners.last());
        }
    }

    /// A block is known once it is taken in at any stage. Grade 2 is granted by
    /// a grade-2 delivery, to its block alone.
    pub proof fn law_stages_grant_grades(self, c: Certificate, stage: Stage)
        requires
            self.wf(),
            self.admissible(c),
        ensures
            self.take_in(c, stage).0.graph.observed.contains_key(c.digest()),
            self.take_in(c, stage).0.graph.grade_two == (if stage is GradeTwo {
                self.graph.grade_two.insert(c.digest())
            } else {
                self.graph.grade_two
            }),
            stage is GradeOne && !self.graph.dag_digests.contains(c.digest()) ==> {
                let entered = self.enter_vdag(c);
                &&& entered.graph.vdag.contains_key(c.slot())
                &&& entered.graph.vdag[c.slot()] == c
            },
    {
        self.lemma_observe_grades(c);
        if stage is GradeTwo {
            let marked = self.observe(c).mark_grade_two(c.digest());
            marked.law_promotion_needs_grade_two();
        }
        if stage is GradeOne {
            if !self.graph.dag_digests.contains(c.digest()) {
                let entered = self.enter_vdag(c);
                self.lemma_enter_vdag(c);
                entered.lemma_observe_grades(c);
                entered.observe(c).law_promotion_needs_grade_two();
            } else {
                assert(self.graph.dag_by_digest.contains_key(c.digest()));
                self.law_promotion_needs_grade_two();
            }
        }
    }

    proof fn lemma_observe_grades(self, c: Certificate)
        requires
            self.wf(),
            self.admissible(c),
        ensures
            self.observe(c).graph.grade_two == self.graph.grade_two,
            self.observe(c).graph.observed.contains_key(c.digest()),
            self.observe(c).keyed(),
    {
        if !self.graph.observed.contains_key(c.digest()) {
            let learned = self.learn(c);
            let released = learned.release(c.digest());
            let owners = in_order(learned.owners_of(c.digest()));
            self.lemma_learn(c);
            released.lemma_admissions_grades(c, owners);
            released.lemma_admissions_evidence(c, owners);
        }
    }
}

/// Whether the block of a digest is among `blocks`.
pub open spec fn holds_digest(blocks: Seq<Certificate>, d: Digest) -> bool {
    exists|i: int| 0 <= i < blocks.len() && (#[trigger] blocks[i]).digest() == d
}

} // verus!
