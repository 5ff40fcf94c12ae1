//! The support indexes hold exactly the support that observed blocks give.
use crate::consensus::model::{leads_to, GraphView, StateView, Support};
use crate::consensus::paths::lemma_walk_keeps;
use crate::ordered::in_order;
use crate::types::{Certificate, Digest, PublicKey, Round, Slot};
use vstd::prelude::*;

verus! {

impl GraphView {
    /// Whether an observed block of `author` in `round` has `target` as a strong
    /// ancestor.
    pub open spec fn supports(self, round: Round, target: Digest, author: PublicKey) -> bool {
        exists|d: Digest| #[trigger]
            self.observed.contains_key(d) && self.observed[d].round() == round
                && self.observed[d].origin() == author
                && self.strong_ancestors.contains((d, target))
    }

    /// Whether an observed block of `author` in `round` has `target` as a strong
    /// parent.
    pub open spec fn backs(self, round: Round, target: Digest, author: PublicKey) -> bool {
        exists|d: Digest| #[trigger]
            self.observed.contains_key(d) && self.observed[d].round() == round
                && self.observed[d].origin() == author
                && self.observed[d].header.parents@.contains(target)
    }

    /// The support indexes hold exactly the support that observed blocks give,
    /// and strong paths are known of observed blocks alone.
    pub open spec fn exact_support(self) -> bool {
        &&& forall|x: (Support, PublicKey)| #[trigger]
            self.observed_strong_support.contains(x) <==> self.supports(x.0.0, x.0.1, x.1)
        &&& forall|x: (Support, PublicKey)| #[trigger]
            self.observed_direct_support.contains(x) <==> self.backs(x.0.0, x.0.1, x.1)
        &&& forall|p: (Digest, Digest)| #[trigger]
            self.strong_ancestors.contains(p) ==> self.observed.contains_key(p.0)
        &&& forall|p: (Digest, Digest)| #[trigger]
            self.strong_children.contains(p) ==> self.observed.contains_key(p.1)
    }

    /// Every VDag block has been observed.
    pub open spec fn witnessed(self) -> bool {
        forall|s: Slot| #[trigger]
            self.vdag.contains_key(s) ==> self.observed.contains_key(self.vdag[s].digest())
    }
}

impl StateView {
    /// Only where blocks stand differs, not what has been observed of them.
    pub open spec fn same_evidence(self, after: StateView) -> bool {
        &&& after.graph.observed == self.graph.observed
        &&& after.graph.observed_strong_support == self.graph.observed_strong_support
        &&& after.graph.observed_direct_support == self.graph.observed_direct_support
        &&& after.graph.strong_ancestors == self.graph.strong_ancestors
        &&& after.graph.strong_children == self.graph.strong_children
    }

    /// What leaves the evidence alone keeps the support exact.
    pub proof fn lemma_same_evidence(self, after: StateView)
        requires
            self.graph.exact_support(),
            self.same_evidence(after),
        ensures
            after.graph.exact_support(),
    {
        assert forall|x: (Support, PublicKey)| #[trigger]
            after.graph.observed_strong_support.contains(x) <==> after.graph.supports(
                x.0.0,
                x.0.1,
                x.1,
            ) by {
            assert(self.graph.observed_strong_support.contains(x) <==> self.graph.supports(
                x.0.0,
                x.0.1,
                x.1,
            ));
        }
        assert forall|x: (Support, PublicKey)| #[trigger]
            after.graph.observed_direct_support.contains(x) <==> after.graph.backs(
                x.0.0,
                x.0.1,
                x.1,
            ) by {
            assert(self.graph.observed_direct_support.contains(x) <==> self.graph.backs(
                x.0.0,
                x.0.1,
                x.1,
            ));
        }
    }

    /// The admission of observed blocks leaves the evidence alone.
    proof fn lemma_admission_evidence(
        self,
        pending: Seq<Certificate>,
        visited: Set<Digest>,
        owner: Round,
    )
        requires
            self.keyed(),
            forall|i: int|
                0 <= i < pending.len() ==> self.graph.observed.contains_key(
                    (#[trigger] pending[i]).digest(),
                ),
        ensures
            self.same_evidence(self.admit_all(pending, visited, owner)),
            self.admit_all(pending, visited, owner).keyed(),
        decreases self.to_visit(pending, visited).len(), pending.len(),
    {
        if pending.len() > 0 {
            let c = pending.last();
            self.lemma_admit_step(pending, visited, owner);
            if visited.contains(c.digest()) {
                self.lemma_admission_evidence(pending.drop_last(), visited, owner);
            } else {
                let next = self.admit_one(c, owner);
                let stack = pending.drop_last() + self.loose_ancestors(c);
                assert(self.graph.observed.contains_key(pending[pending.len() - 1].digest()));
                assert(self.same_evidence(next));
                assert forall|i: int| 0 <= i < stack.len() implies next.graph.observed.contains_key(
                    (#[trigger] stack[i]).digest(),
                ) by {
                    if i < pending.len() - 1 {
                        assert(stack[i] == pending[i]);
                    } else {
                        self.lemma_loose_ancestors(c, i - (pending.len() - 1));
                    }
                }
                next.lemma_admission_evidence(stack, visited.insert(c.digest()), owner);
            }
        }
    }

    /// The admission of an observed block for several leaders leaves the
    /// evidence alone.
    pub proof fn lemma_admissions_evidence(self, root: Certificate, owners: Seq<Round>)
        requires
            self.keyed(),
            self.graph.observed.contains_key(root.digest()),
        ensures
            self.same_evidence(self.force_for(root, owners)),
            self.force_for(root, owners).keyed(),
        decreases owners.len(),
    {
        if owners.len() > 0 {
            let before = self.force_for(root, owners.drop_last());
            self.lemma_admissions_evidence(root, owners.drop_last());
            before.lemma_admission_evidence(seq![root], Set::empty(), owners.last());
        }
    }

    /// A first observation enters the support that the block and the blocks
    /// below it give.
    pub proof fn lemma_learn_supports(self, c: Certificate)
        requires
            self.graph.exact_support(),
            !self.graph.observed.contains_key(c.digest()),
        ensures
            self.learn(c).graph.exact_support(),
            self.learn(c).graph.observed == self.graph.observed.insert(c.digest(), c),
    {
        let header = c.content();
        let woken = self.record(c).revise().wake_users(set![c.digest()]);
        let edged = woken.add_edges(header);
        let additions = woken.inherited(header);
        let pairs = edged.fresh_pairs(c.digest(), additions);
        let after = self.learn(c);
        let observed = after.graph.observed;
        assert(after.graph.strong_ancestors == self.graph.strong_ancestors.union(pairs));
        assert(edged.graph.observed == observed);
        assert forall|p: (Digest, Digest)| #[trigger]
            edged.graph.strong_children.contains(p) implies observed.contains_key(p.1) by {
            if self.graph.strong_children.contains(p) {
                assert(self.graph.observed.contains_key(p.1));
            }
        }
        assert forall|p: (Digest, Digest)| #[trigger] pairs.contains(p) implies observed.contains_key(
            p.0,
        ) by {
            let seen = |d: Digest| observed.contains_key(d);
            assert(leads_to(edged.graph.strong_children, c.digest(), p.0));
            lemma_walk_keeps(edged.graph.strong_children, seen, c.digest(), p.0);
        }
        assert forall|x: (Support, PublicKey)| #[trigger]
            after.graph.observed_strong_support.contains(x) <==> after.graph.supports(
                x.0.0,
                x.0.1,
                x.1,
            ) by {
            self.lemma_learns_support(c, x);
        }
        assert forall|x: (Support, PublicKey)| #[trigger]
            after.graph.observed_direct_support.contains(x) <==> after.graph.backs(
                x.0.0,
                x.0.1,
                x.1,
            ) by {
            assert(self.graph.observed_direct_support.contains(x) <==> self.graph.backs(
                x.0.0,
                x.0.1,
                x.1,
            ));
            if self.graph.backs(x.0.0, x.0.1, x.1) {
                let d = choose|d: Digest| #[trigger]
                    self.graph.observed.contains_key(d) && self.graph.observed[d].round() == x.0.0
                        && self.graph.observed[d].origin() == x.1
                        && self.graph.observed[d].header.parents@.contains(x.0.1);
                assert(observed.contains_key(d));
            } else if after.graph.observed_direct_support.contains(x) {
                assert(observed.contains_key(c.digest()));
            }
            if after.graph.backs(x.0.0, x.0.1, x.1) {
                let d = choose|d: Digest| #[trigger]
                    observed.contains_key(d) && observed[d].round() == x.0.0
                        && observed[d].origin() == x.1 && observed[d].header.parents@.contains(
                        x.0.1,
                    );
                if d != c.digest() {
                    assert(self.graph.observed.contains_key(d));
                }
            }
        }
    }

    /// The strong support after a first observation, for one target and author.
    proof fn lemma_learns_support(self, c: Certificate, x: (Support, PublicKey))
        requires
            self.graph.exact_support(),
            !self.graph.observed.contains_key(c.digest()),
        ensures
            self.learn(c).graph.observed_strong_support.contains(x) <==> self.learn(c).graph.supports(
                x.0.0,
                x.0.1,
                x.1,
            ),
    {
        let header = c.content();
        let woken = self.record(c).revise().wake_users(set![c.digest()]);
        let edged = woken.add_edges(header);
        let pairs = edged.fresh_pairs(c.digest(), woken.inherited(header));
        let after = self.learn(c);
        let observed = after.graph.observed;
        assert(after.graph.observed_strong_support == self.graph.observed_strong_support.union(
            edged.path_support(pairs, false),
        ));
        assert(edged.graph.observed == observed);
        assert(self.graph.observed_strong_support.contains(x) <==> self.graph.supports(
            x.0.0,
            x.0.1,
            x.1,
        ));
        if self.graph.supports(x.0.0, x.0.1, x.1) {
            let d = choose|d: Digest| #[trigger]
                self.graph.observed.contains_key(d) && self.graph.observed[d].round() == x.0.0
                    && self.graph.observed[d].origin() == x.1
                    && self.graph.strong_ancestors.contains((d, x.0.1));
            assert(observed.contains_key(d));
            assert(after.graph.strong_ancestors.contains((d, x.0.1)));
        }
        if edged.path_support(pairs, false).contains(x) {
            let d = choose|d: Digest|
                #![trigger edged.graph.observed.contains_key(d)]
                edged.graph.observed.contains_key(d) && pairs.contains((d, x.0.1))
                    && edged.graph.observed[d].round() == x.0.0
                    && edged.graph.observed[d].origin() == x.1;
            assert(observed.contains_key(d));
            assert(after.graph.strong_ancestors.contains((d, x.0.1)));
        }
        if after.graph.supports(x.0.0, x.0.1, x.1) {
            let d = choose|d: Digest| #[trigger]
                observed.contains_key(d) && observed[d].round() == x.0.0 && observed[d].origin()
                    == x.1 && after.graph.strong_ancestors.contains((d, x.0.1));
            if self.graph.strong_ancestors.contains((d, x.0.1)) {
                assert(self.graph.observed.contains_key(d));
            } else {
                assert(pairs.contains((d, x.0.1)));
                assert(edged.graph.observed.contains_key(d));
            }
        }
    }

    /// Observing a block keeps the support exact, if a repeated copy has the
    /// strong parents of the first.
    pub proof fn law_observation_keeps_support(self, c: Certificate)
        requires
            self.wf(),
            self.admissible(c),
            self.graph.exact_support(),
            self.graph.observed.contains_key(c.digest())
                ==> self.graph.observed[c.digest()].header.parents@ == c.header.parents@,
        ensures
            self.observe(c).graph.exact_support(),
    {
        let after = self.observe(c);
        if self.graph.observed.contains_key(c.digest()) {
            let d = c.digest();
            let old_copy = self.graph.observed[d];
            assert(self.settled(old_copy));
            assert(old_copy.slot() == c.slot());
            assert forall|x: (Support, PublicKey)| #[trigger]
                after.graph.observed_strong_support.contains(x) <==> after.graph.supports(
                    x.0.0,
                    x.0.1,
                    x.1,
                ) by {
                assert(self.graph.observed_strong_support.contains(x) <==> self.graph.supports(
                    x.0.0,
                    x.0.1,
                    x.1,
                ));
                assert(self.graph.supports(x.0.0, x.0.1, x.1) ==> after.graph.supports(x.0.0, x.0.1, x.1)) by {
                    if self.graph.supports(x.0.0, x.0.1, x.1) {
                        let e = choose|e: Digest| #[trigger]
                            self.graph.observed.contains_key(e) && self.graph.observed[e].round()
                                == x.0.0 && self.graph.observed[e].origin() == x.1
                                && self.graph.strong_ancestors.contains((e, x.0.1));
                        assert(after.graph.observed.contains_key(e));
                    }
                }
                if after.graph.supports(x.0.0, x.0.1, x.1) {
                    let e = choose|e: Digest| #[trigger]
                        after.graph.observed.contains_key(e) && after.graph.observed[e].round()
                            == x.0.0 && after.graph.observed[e].origin() == x.1
                            && after.graph.strong_ancestors.contains((e, x.0.1));
                    assert(self.graph.observed.contains_key(e));
                }
            }
            assert forall|x: (Support, PublicKey)| #[trigger]
                after.graph.observed_direct_support.contains(x) <==> after.graph.backs(
                    x.0.0,
                    x.0.1,
                    x.1,
                ) by {
                assert(self.graph.observed_direct_support.contains(x) <==> self.graph.backs(
                    x.0.0,
                    x.0.1,
                    x.1,
                ));
                if self.graph.backs(x.0.0, x.0.1, x.1) {
                    let e = choose|e: Digest| #[trigger]
                        self.graph.observed.contains_key(e) && self.graph.observed[e].round()
                            == x.0.0 && self.graph.observed[e].origin() == x.1
                            && self.graph.observed[e].header.parents@.contains(x.0.1);
                    assert(after.graph.observed.contains_key(e));
                }
                if after.graph.backs(x.0.0, x.0.1, x.1) {
                    let e = choose|e: Digest| #[trigger]
                        after.graph.observed.contains_key(e) && after.graph.observed[e].round()
                            == x.0.0 && after.graph.observed[e].origin() == x.1
                            && after.graph.observed[e].header.parents@.contains(x.0.1);
                    assert(self.graph.observed.contains_key(e));
                }
            }
        } else {
            let learned = self.learn(c);
            let released = learned.release(c.digest());
            self.lemma_learn_supports(c);
            self.lemma_learn(c);
            learned.lemma_same_evidence(released);
            released.lemma_admissions_evidence(c, in_order(learned.owners_of(c.digest())));
            released.lemma_same_evidence(after);
        }
    }

    /// Observing a block keeps the index of strong ancestors exact.
    pub proof fn law_observation_keeps_paths(self, c: Certificate)
        requires
            self.wf(),
            self.admissible(c),
            self.exact_paths(),
        ensures
            self.observe(c).exact_paths(),
    {
        let after = self.observe(c);
        if self.graph.observed.contains_key(c.digest()) {
            self.lemma_same_paths(after);
        } else {
            let woken = self.record(c).revise().wake_users(set![c.digest()]);
            let learned = self.learn(c);
            let released = learned.release(c.digest());
            self.lemma_same_paths(woken);
            woken.law_strong_ancestors_stay_exact(c.content());
            self.lemma_learn(c);
            released.lemma_admissions_evidence(c, in_order(learned.owners_of(c.digest())));
            learned.lemma_same_paths(after);
        }
    }

    /// What leaves strong paths alone keeps them exact.
    proof fn lemma_same_paths(self, after: StateView)
        requires
            self.exact_paths(),
            after.graph.strong_ancestors == self.graph.strong_ancestors,
            after.graph.strong_children == self.graph.strong_children,
        ensures
            after.exact_paths(),
    {
        assert forall|d: Digest, a: Digest| #[trigger]
            after.graph.strong_ancestors.contains((d, a)) <==> after.descends(d, a) by {
            assert(self.graph.strong_ancestors.contains((d, a)) <==> self.descends(d, a));
        }
    }

    /// A delivery at grade 1 keeps the support exact, if a repeated copy has the
    /// strong parents of the first.
    pub proof fn law_grade_one_keeps_support(self, c: Certificate)
        requires
            self.wf(),
            self.admissible(c),
            self.graph.exact_support(),
            self.graph.observed.contains_key(c.digest())
                ==> self.graph.observed[c.digest()].header.parents@ == c.header.parents@,
        ensures
            self.insert_grade_one(c).graph.exact_support(),
    {
        if !self.graph.dag_digests.contains(c.digest()) {
            let entered = self.enter_vdag(c);
            self.lemma_enter_vdag(c);
            self.lemma_same_evidence(entered);
            entered.law_observation_keeps_support(c);
        }
    }

    /// Admitting an observed block with its history keeps the support exact.
    pub proof fn law_admission_keeps_support(self, root: Certificate, owner: Round)
        requires
            self.wf(),
            self.graph.exact_support(),
            self.graph.observed.contains_key(root.digest()),
        ensures
            self.force(root, owner).graph.exact_support(),
    {
        self.lemma_admission_evidence(seq![root], Set::empty(), owner);
        self.lemma_same_evidence(self.force(root, owner));
    }

    /// Working off the promotion queue keeps the support exact.
    pub proof fn law_promotion_keeps_support(self)
        requires
            self.keyed(),
            self.graph.exact_support(),
        ensures
            self.promote_ready().0.graph.exact_support(),
        decreases self.outside().len(), self.graph.promotion_queue.len(),
    {
        if self.graph.promotion_queue.len() > 0 {
            let d = self.graph.promotion_queue[0];
            let rest = self.dequeue();
            self.lemma_promote_step();
            self.lemma_same_evidence(rest);
            if self.promotable(d) {
                let next = rest.promote_queued(d);
                rest.lemma_same_evidence(next);
                next.law_promotion_keeps_support();
            } else {
                rest.law_promotion_keeps_support();
            }
        }
    }

    /// Garbage collection keeps the support exact.
    pub proof fn law_cleanup_keeps_support(self, sequence: Seq<Certificate>, gc_depth: Round)
        requires
            self.wf(),
            self.graph.exact_support(),
        ensures
            self.update(sequence, gc_depth).graph.exact_support(),
    {
        let after = self.update(sequence, gc_depth);
        assert forall|x: (Support, PublicKey)| #[trigger]
            after.graph.observed_strong_support.contains(x) <==> after.graph.supports(
                x.0.0,
                x.0.1,
                x.1,
            ) by {
            assert(self.graph.observed_strong_support.contains(x) <==> self.graph.supports(
                x.0.0,
                x.0.1,
                x.1,
            ));
            if after.graph.observed_strong_support.contains(x) {
                let d = choose|d: Digest| #[trigger]
                    self.graph.observed.contains_key(d) && self.graph.observed[d].round() == x.0.0
                        && self.graph.observed[d].origin() == x.1
                        && self.graph.strong_ancestors.contains((d, x.0.1));
                assert(after.graph.observed.contains_key(d));
            }
            if after.graph.supports(x.0.0, x.0.1, x.1) {
                let d = choose|d: Digest| #[trigger]
                    after.graph.observed.contains_key(d) && after.graph.observed[d].round()
                        == x.0.0 && after.graph.observed[d].origin() == x.1
                        && after.graph.strong_ancestors.contains((d, x.0.1));
                assert(self.graph.observed.contains_key(d));
            }
        }
        assert forall|x: (Support, PublicKey)| #[trigger]
            after.graph.observed_direct_support.contains(x) <==> after.graph.backs(
                x.0.0,
                x.0.1,
                x.1,
            ) by {
            assert(self.graph.observed_direct_support.contains(x) <==> self.graph.backs(
                x.0.0,
                x.0.1,
                x.1,
            ));
            if after.graph.observed_direct_support.contains(x) {
                let d = choose|d: Digest| #[trigger]
                    self.graph.observed.contains_key(d) && self.graph.observed[d].round() == x.0.0
                        && self.graph.observed[d].origin() == x.1
                        && self.graph.observed[d].header.parents@.contains(x.0.1);
                assert(after.graph.observed.contains_key(d));
            }
            if after.graph.backs(x.0.0, x.0.1, x.1) {
                let d = choose|d: Digest| #[trigger]
                    after.graph.observed.contains_key(d) && after.graph.observed[d].round()
                        == x.0.0 && after.graph.observed[d].origin() == x.1
                        && after.graph.observed[d].header.parents@.contains(x.0.1);
                assert(self.graph.observed.contains_key(d));
            }
        }
    }
}

} // verus!
