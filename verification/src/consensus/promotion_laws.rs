//! Blocks wait in VDag for what they depend on.
use crate::consensus::model::StateView;
use crate::ordered::in_order;
use crate::types::{Certificate, Digest, Round, Slot};
use vstd::prelude::*;

verus! {

impl StateView {
    /// What the block with the digest `w` waits for.
    pub open spec fn waits(self, w: Digest) -> Set<Digest> {
        Set::new(|d: Digest| self.graph.dependency_waiters.contains((d, w)))
    }

    /// Where `entered` holds what has been in the Dag: a block waits for as many
    /// dependencies as it is counted to miss, none of them is in the Dag, and a
    /// VDag block waits for every dependency that has not entered the Dag.
    pub open spec fn tracks(self, entered: Set<Digest>) -> bool {
        &&& self.graph.dag_digests.subset_of(entered)
        &&& forall|w: Digest| #[trigger]
            self.graph.missing_dependencies.contains_key(w) ==> self.waits(w).finite()
                && self.waits(w).len() == self.graph.missing_dependencies[w]
        &&& forall|p: (Digest, Digest)| #[trigger]
            self.graph.dependency_waiters.contains(p) ==> !self.graph.dag_digests.contains(p.0)
        &&& forall|s: Slot, d: Digest|
            #![trigger self.graph.vdag.contains_key(s), entered.contains(d)]
            self.graph.vdag.contains_key(s) && self.graph.vdag[s].header.depends_on(d)
                ==> entered.contains(d) || self.graph.dependency_waiters.contains(
                (d, self.graph.vdag[s].digest()),
            )
    }

    /// What is held under the digest of `c` has the dependencies of `c`.
    pub open spec fn faithful(self, c: Certificate) -> bool {
        &&& forall|d: Digest| #[trigger]
            self.waits(c.digest()).contains(d) ==> c.header.depends_on(d)
        &&& self.in_vdag(c) ==> self.graph.vdag[c.slot()].header.dependency_set()
            == c.header.dependency_set()
    }

    /// A VDag block is promoted off the queue only when all its strong and weak
    /// dependencies have entered the Dag.
    pub proof fn law_promotion_waits_for_dependencies(self, entered: Set<Digest>, s: Slot, d: Digest)
        requires
            self.tracks(entered),
            self.graph.vdag.contains_key(s),
            self.promotable(self.graph.vdag[s].digest()),
            self.graph.vdag[s].header.depends_on(d),
        ensures
            entered.contains(d),
    {
        let w = self.graph.vdag[s].digest();
        assert(self.graph.missing_dependencies.contains_key(w));
        if !entered.contains(d) {
            assert(self.waits(w).contains(d));
            assert(self.waits(w).len() > 0) by {
                if self.waits(w).len() == 0 {
                    assert(self.waits(w) =~= Set::empty());
                }
            }
        }
    }

    /// A promotion keeps count.
    proof fn lemma_promote_tracks(self, c: Certificate, entered: Set<Digest>)
        requires
            self.tracks(entered),
        ensures
            self.promote(c).tracks(entered.insert(c.digest())),
    {
        let x = c.digest();
        let after = self.promote(c);
        let all = entered.insert(x);
        assert(after.graph.dag_digests.subset_of(all));
        if self.graph.dag_digests.contains(x) {
            assert forall|w: Digest| #[trigger]
                after.graph.missing_dependencies.contains_key(w) implies after.waits(w).finite()
                && after.waits(w).len() == after.graph.missing_dependencies[w] by {
                assert(after.waits(w) =~= self.waits(w));
                assert(self.graph.missing_dependencies.contains_key(w));
            }
        } else {
            assert forall|w: Digest| #[trigger]
                after.graph.missing_dependencies.contains_key(w) implies after.waits(w).finite()
                && after.waits(w).len() == after.graph.missing_dependencies[w] by {
                assert(self.graph.missing_dependencies.contains_key(w));
                assert(after.waits(w) =~= self.waits(w).remove(x));
                if self.waits(w).contains(x) {
                    assert(self.waits(w).len() > 0);
                } else {
                    assert(after.waits(w) =~= self.waits(w));
                }
            }
            assert forall|p: (Digest, Digest)| #[trigger]
                after.graph.dependency_waiters.contains(
                    p,
                ) implies !after.graph.dag_digests.contains(p.0) by {
                assert(self.graph.dependency_waiters.contains(p));
            }
        }
        assert forall|s: Slot, d: Digest|
            #![trigger after.graph.vdag.contains_key(s), all.contains(d)]
            after.graph.vdag.contains_key(s) && after.graph.vdag[s].header.depends_on(
                d,
            ) implies all.contains(d) || after.graph.dependency_waiters.contains(
            (d, after.graph.vdag[s].digest()),
        ) by {
            assert(self.graph.vdag.contains_key(s));
            assert(entered.contains(d) || self.graph.dependency_waiters.contains(
                (d, self.graph.vdag[s].digest()),
            ));
        }
    }

    /// More may have entered the Dag.
    proof fn lemma_tracks_more(self, entered: Set<Digest>, more: Set<Digest>)
        requires
            self.tracks(entered),
            entered.subset_of(more),
        ensures
            self.tracks(more),
    {
        assert forall|s: Slot, d: Digest|
            #![trigger self.graph.vdag.contains_key(s), more.contains(d)]
            self.graph.vdag.contains_key(s) && self.graph.vdag[s].header.depends_on(
                d,
            ) implies more.contains(d) || self.graph.dependency_waiters.contains(
            (d, self.graph.vdag[s].digest()),
        ) by {
            assert(entered.contains(d) || self.graph.dependency_waiters.contains(
                (d, self.graph.vdag[s].digest()),
            ));
        }
    }

    /// What leaves VDag, the Dag and the waiting blocks alone keeps count.
    proof fn lemma_same_tracks(self, after: StateView, entered: Set<Digest>)
        requires
            self.tracks(entered),
            after.graph.dag_digests == self.graph.dag_digests,
            after.graph.vdag == self.graph.vdag,
            after.graph.missing_dependencies == self.graph.missing_dependencies,
            after.graph.dependency_waiters == self.graph.dependency_waiters,
        ensures
            after.tracks(entered),
    {
        assert forall|w: Digest| #[trigger]
            after.graph.missing_dependencies.contains_key(w) implies after.waits(w).finite()
            && after.waits(w).len() == after.graph.missing_dependencies[w] by {
            assert(after.waits(w) =~= self.waits(w));
            assert(self.graph.missing_dependencies.contains_key(w));
        }
    }

    /// An admission keeps count.
    proof fn lemma_admission_tracks(
        self,
        pending: Seq<Certificate>,
        visited: Set<Digest>,
        owner: Round,
        entered: Set<Digest>,
    )
        requires
            self.keyed(),
            self.tracks(entered),
        ensures
            self.admit_all(pending, visited, owner).keyed(),
            self.admit_all(pending, visited, owner).tracks(
                entered.union(self.admit_all(pending, visited, owner).graph.dag_digests),
            ),
            self.graph.dag_digests.subset_of(
                self.admit_all(pending, visited, owner).graph.dag_digests,
            ),
        decreases self.to_visit(pending, visited).len(), pending.len(),
    {
        let done = self.admit_all(pending, visited, owner);
        if pending.len() == 0 {
            self.lemma_tracks_more(entered, entered.union(self.graph.dag_digests));
        } else {
            let c = pending.last();
            self.lemma_admit_step(pending, visited, owner);
            if visited.contains(c.digest()) {
                self.lemma_admission_tracks(pending.drop_last(), visited, owner, entered);
            } else {
                let next = self.admit_one(c, owner);
                let waiting = self.await_unseen(c, owner);
                self.lemma_same_tracks(waiting, entered);
                if !self.graph.dag_digests.contains(c.digest()) {
                    waiting.lemma_promote_tracks(c, entered);
                } else {
                    next.lemma_tracks_more(entered, entered.insert(c.digest()));
                }
                next.lemma_admission_tracks(
                    pending.drop_last() + self.loose_ancestors(c),
                    visited.insert(c.digest()),
                    owner,
                    entered.insert(c.digest()),
                );
                assert(next.graph.dag_digests.contains(c.digest()));
                assert(entered.insert(c.digest()).union(done.graph.dag_digests) =~= entered.union(
                    done.graph.dag_digests,
                ));
            }
        }
    }

    /// Admissions for several leaders keep count.
    proof fn lemma_admissions_track(self, root: Certificate, owners: Seq<Round>, entered: Set<Digest>)
        requires
            self.keyed(),
            self.tracks(entered),
        ensures
            self.force_for(root, owners).keyed(),
            self.force_for(root, owners).tracks(
                entered.union(self.force_for(root, owners).graph.dag_digests),
            ),
            self.graph.dag_digests.subset_of(self.force_for(root, owners).graph.dag_digests),
        decreases owners.len(),
    {
        if owners.len() == 0 {
            self.lemma_tracks_more(entered, entered.union(self.graph.dag_digests));
        } else {
            let before = self.force_for(root, owners.drop_last());
            let after = self.force_for(root, owners);
            self.lemma_admissions_track(root, owners.drop_last(), entered);
            let grown = entered.union(before.graph.dag_digests);
            before.lemma_admission_tracks(seq![root], Set::empty(), owners.last(), grown);
            assert(grown.union(after.graph.dag_digests) =~= entered.union(
                after.graph.dag_digests,
            ));
        }
    }

    /// An observation keeps count.
    pub proof fn law_observation_tracks(self, c: Certificate, entered: Set<Digest>)
        requires
            self.wf(),
            self.tracks(entered),
        ensures
            self.observe(c).tracks(entered.union(self.observe(c).graph.dag_digests)),
            self.graph.witnessed() ==> self.observe(c).graph.witnessed(),
    {
        let after = self.observe(c);
        self.lemma_observe_drains(c);
        if self.graph.observed.contains_key(c.digest()) {
            self.lemma_same_tracks(after, entered);
            after.lemma_tracks_more(entered, entered.union(after.graph.dag_digests));
        } else {
            let learned = self.learn(c);
            let released = learned.release(c.digest());
            self.lemma_same_tracks(released, entered);
            released.lemma_admissions_track(c, in_order(learned.owners_of(c.digest())), entered);
        }
    }

    /// A delivery at grade 1 keeps count, if the digest of the block stands for
    /// one set of dependencies.
    pub proof fn law_grade_one_tracks(self, c: Certificate, entered: Set<Digest>)
        requires
            self.wf(),
            self.admissible(c),
            self.faithful(c),
            self.tracks(entered),
            self.graph.witnessed(),
            self.missing(c.content()).len() <= usize::MAX,
        ensures
            self.insert_grade_one(c).tracks(
                entered.union(self.insert_grade_one(c).graph.dag_digests),
            ),
            self.insert_grade_one(c).graph.witnessed(),
    {
        let x = c.digest();
        if self.graph.dag_digests.contains(x) {
            self.lemma_tracks_more(entered, entered.union(self.graph.dag_digests));
        } else {
            let after = self.enter_vdag(c);
            let missing = self.missing(c.content());
            c.header.lemma_dependencies();
            vstd::seq_lib::seq_to_set_is_finite(c.header.dependencies());
            assert(missing.subset_of(c.header.dependencies().to_set()));
            vstd::set_lib::lemma_set_subset_finite(c.header.dependencies().to_set(), missing);
            assert forall|w: Digest| #[trigger]
                after.graph.missing_dependencies.contains_key(w) implies after.waits(w).finite()
                && after.waits(w).len() == after.graph.missing_dependencies[w] by {
                if self.in_vdag(c) || w != x {
                    assert(after.waits(w) =~= self.waits(w));
                    assert(self.graph.missing_dependencies.contains_key(w));
                } else {
                    assert forall|d: Digest| after.waits(w).contains(d) == missing.contains(d) by {
                        if self.waits(w).contains(d) {
                            assert(self.graph.dependency_waiters.contains((d, w)));
                            assert(c.header.depends_on(d));
                        }
                    }
                    assert(after.waits(w) =~= missing);
                }
            }
            assert forall|s: Slot, d: Digest|
                #![trigger after.graph.vdag.contains_key(s), entered.contains(d)]
                after.graph.vdag.contains_key(s) && after.graph.vdag[s].header.depends_on(
                    d,
                ) implies entered.contains(d) || after.graph.dependency_waiters.contains(
                (d, after.graph.vdag[s].digest()),
            ) by {
                if s == c.slot() {
                    if self.in_vdag(c) {
                        assert(self.graph.vdag.contains_key(s));
                        assert(c.header.dependency_set().contains(d));
                        assert(self.graph.vdag[s].header.dependency_set().contains(d));
                        assert(self.graph.vdag[s].header.depends_on(d));
                    } else if !self.graph.dag_digests.contains(d) {
                        assert(missing.contains(d));
                    }
                } else {
                    assert(self.graph.vdag.contains_key(s));
                }
            }
            assert(after.tracks(entered));
            self.lemma_enter_vdag(c);
            after.law_observation_tracks(c, entered);
            after.lemma_observe_drains(c);
            let done = self.insert_grade_one(c);
            assert forall|s: Slot| #[trigger]
                done.graph.vdag.contains_key(s) implies done.graph.observed.contains_key(
                done.graph.vdag[s].digest(),
            ) by {
                assert(after.graph.vdag.contains_key(s));
                if s != c.slot() {
                    assert(self.graph.vdag.contains_key(s));
                    assert(after.graph.observed.contains_key(self.graph.vdag[s].digest()));
                }
            }
        }
    }

    /// Working off the promotion queue keeps count.
    pub proof fn law_promotion_tracks(self, entered: Set<Digest>)
        requires
            self.keyed(),
            self.tracks(entered),
        ensures
            self.promote_ready().0.tracks(
                entered.union(self.promote_ready().0.graph.dag_digests),
            ),
            self.graph.dag_digests.subset_of(self.promote_ready().0.graph.dag_digests),
            self.graph.witnessed() ==> self.promote_ready().0.graph.witnessed(),
        decreases self.outside().len(), self.graph.promotion_queue.len(),
    {
        let done = self.promote_ready().0;
        self.lemma_promotion_drains();
        if self.graph.promotion_queue.len() == 0 {
            self.lemma_tracks_more(entered, entered.union(self.graph.dag_digests));
        } else {
            let x = self.graph.promotion_queue[0];
            let rest = self.dequeue();
            self.lemma_promote_step();
            self.lemma_same_tracks(rest, entered);
            if self.promotable(x) {
                let c = self.graph.observed[x];
                let next = rest.promote_queued(x);
                rest.lemma_promote_tracks(c, entered);
                assert(next.tracks(entered.insert(x))) by {
                    let promoted = rest.promote(c);
                    assert forall|w: Digest| #[trigger]
                        next.graph.missing_dependencies.contains_key(w) implies next.waits(
                        w,
                    ).finite() && next.waits(w).len() == next.graph.missing_dependencies[w] by {
                        assert(next.waits(w) =~= promoted.waits(w));
                        assert(promoted.graph.missing_dependencies.contains_key(w));
                    }
                }
                next.law_promotion_tracks(entered.insert(x));
                assert(next.graph.dag_digests.contains(x));
                assert(entered.insert(x).union(done.graph.dag_digests) =~= entered.union(
                    done.graph.dag_digests,
                ));
            } else {
                rest.law_promotion_tracks(entered);
            }
        }
    }

    /// Delivering grade 2 keeps count.
    pub proof fn law_grade_two_tracks(self, digest: Digest, entered: Set<Digest>)
        requires
            self.tracks(entered),
            self.graph.witnessed(),
        ensures
            self.mark_grade_two(digest).tracks(entered),
            self.mark_grade_two(digest).graph.witnessed(),
    {
        self.lemma_same_tracks(self.mark_grade_two(digest), entered);
    }

    /// Garbage collection keeps count.
    pub proof fn law_cleanup_tracks(
        self,
        sequence: Seq<Certificate>,
        gc_depth: Round,
        entered: Set<Digest>,
    )
        requires
            self.wf(),
            self.tracks(entered),
            self.graph.witnessed(),
        ensures
            self.update(sequence, gc_depth).tracks(entered),
            self.update(sequence, gc_depth).graph.witnessed(),
    {
        let after = self.update(sequence, gc_depth);
        assert forall|d: Digest| after.graph.dag_digests.contains(
            d,
        ) implies self.graph.dag_digests.contains(d) by {
            let s = choose|s: Slot| #[trigger]
                after.graph.dag.contains_key(s) && after.graph.dag[s].digest() == d;
            assert(self.graph.dag.contains_key(s));
        }
        assert forall|w: Digest| #[trigger]
            after.graph.missing_dependencies.contains_key(w) implies after.waits(w).finite()
            && after.waits(w).len() == after.graph.missing_dependencies[w] by {
            assert(after.waits(w) =~= self.waits(w));
            assert(self.graph.missing_dependencies.contains_key(w));
        }
        assert forall|s: Slot| #[trigger]
            after.graph.vdag.contains_key(s) implies after.graph.observed.contains_key(
            after.graph.vdag[s].digest(),
        ) by {
            assert(self.graph.vdag.contains_key(s));
            let d = self.graph.vdag[s].digest();
            assert(self.graph.observed.contains_key(d));
            assert(self.settled(self.graph.vdag[s]) && self.settled(self.graph.observed[d]));
        }
        assert forall|s: Slot, d: Digest|
            #![trigger after.graph.vdag.contains_key(s), entered.contains(d)]
            after.graph.vdag.contains_key(s) && after.graph.vdag[s].header.depends_on(
                d,
            ) implies entered.contains(d) || after.graph.dependency_waiters.contains(
            (d, after.graph.vdag[s].digest()),
        ) by {
            assert(self.graph.vdag.contains_key(s));
        }
    }
}

} // verus!
