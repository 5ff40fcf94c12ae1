//! The Dag support indexes hold the support that the blocks of the Dag give.
use crate::consensus::model::{GraphView, StateView, Support};
use crate::ordered::in_order;
use crate::types::{Certificate, Digest, PublicKey, Round, Slot};
use vstd::prelude::*;

verus! {

impl GraphView {
    /// Whether an observed block among `blocks`, of `author` in `round`, has
    /// `target` as a strong parent.
    pub open spec fn backs_among(
        self,
        blocks: Set<Digest>,
        round: Round,
        target: Digest,
        author: PublicKey,
    ) -> bool {
        exists|d: Digest| #[trigger]
            self.observed.contains_key(d) && blocks.contains(d) && self.observed[d].round() == round
                && self.observed[d].origin() == author
                && self.observed[d].header.parents@.contains(target)
    }

    /// Whether an observed block among `blocks`, of `author` in `round`, has
    /// `target` as a strong ancestor.
    pub open spec fn supports_among(
        self,
        blocks: Set<Digest>,
        round: Round,
        target: Digest,
        author: PublicKey,
    ) -> bool {
        exists|d: Digest| #[trigger]
            self.observed.contains_key(d) && blocks.contains(d) && self.observed[d].round() == round
                && self.observed[d].origin() == author && self.strong_ancestors.contains(
                (d, target),
            )
    }

    /// The Dag support indexes hold all support that blocks of the Dag give, and
    /// none but that of the blocks in `entered`, which have been in the Dag.
    /// Blocks leave the Dag by garbage collection alone.
    pub open spec fn dag_support(self, entered: Set<Digest>) -> bool {
        &&& forall|d: Digest| #[trigger]
            self.dag_digests.contains(d) ==> self.observed.contains_key(d) && entered.contains(d)
        &&& forall|p: (Digest, Digest)| #[trigger]
            self.strong_ancestors.contains(p) ==> self.observed.contains_key(p.0)
        &&& forall|x: (Support, PublicKey)| #[trigger]
            self.dag_direct_support.contains(x) ==> self.backs_among(entered, x.0.0, x.0.1, x.1)
        &&& forall|x: (Support, PublicKey)| #[trigger]
            self.dag_strong_support.contains(x) ==> self.supports_among(entered, x.0.0, x.0.1, x.1)
        &&& forall|x: (Support, PublicKey)|
            self.backs_among(self.dag_digests, x.0.0, x.0.1, x.1)
                ==> #[trigger] self.dag_direct_support.contains(x)
        &&& forall|x: (Support, PublicKey)|
            self.supports_among(self.dag_digests, x.0.0, x.0.1, x.1)
                ==> #[trigger] self.dag_strong_support.contains(x)
    }
}

impl StateView {
    /// Whether a copy of a block is the observed one in what supports others:
    /// its slot and its strong parents.
    pub open spec fn agrees(self, c: Certificate) -> bool {
        self.graph.observed.contains_key(c.digest()) ==> self.graph.observed[c.digest()].slot()
            == c.slot() && self.graph.observed[c.digest()].header.parents@ == c.header.parents@
    }

    /// Support among more blocks is support.
    proof fn lemma_among_more(self, after: StateView, few: Set<Digest>, many: Set<Digest>)
        requires
            few.subset_of(many),
            forall|d: Digest| #[trigger]
                self.graph.observed.contains_key(d) && few.contains(d)
                    ==> after.graph.observed.contains_key(d)
                    && after.graph.observed[d].slot() == self.graph.observed[d].slot()
                    && after.graph.observed[d].header.parents@
                    == self.graph.observed[d].header.parents@,
            forall|p: (Digest, Digest)| #[trigger]
                self.graph.strong_ancestors.contains(p) && few.contains(p.0)
                    ==> after.graph.strong_ancestors.contains(p),
        ensures
            forall|r: Round, t: Digest, a: PublicKey| #[trigger]
                self.graph.backs_among(few, r, t, a) ==> after.graph.backs_among(many, r, t, a),
            forall|r: Round, t: Digest, a: PublicKey| #[trigger]
                self.graph.supports_among(few, r, t, a) ==> after.graph.supports_among(
                    many,
                    r,
                    t,
                    a,
                ),
    {
        assert forall|r: Round, t: Digest, a: PublicKey| #[trigger]
            self.graph.backs_among(few, r, t, a) implies after.graph.backs_among(many, r, t, a) by {
            let d = choose|d: Digest| #[trigger]
                self.graph.observed.contains_key(d) && few.contains(d)
                    && self.graph.observed[d].round() == r && self.graph.observed[d].origin() == a
                    && self.graph.observed[d].header.parents@.contains(t);
            assert(after.graph.observed.contains_key(d));
        }
        assert forall|r: Round, t: Digest, a: PublicKey| #[trigger]
            self.graph.supports_among(few, r, t, a) implies after.graph.supports_among(
            many,
            r,
            t,
            a,
        ) by {
            let d = choose|d: Digest| #[trigger]
                self.graph.observed.contains_key(d) && few.contains(d)
                    && self.graph.observed[d].round() == r && self.graph.observed[d].origin() == a
                    && self.graph.strong_ancestors.contains((d, t));
            assert(after.graph.observed.contains_key(d));
        }
    }

    /// More blocks may have entered the Dag.
    pub proof fn lemma_dag_support_more(self, entered: Set<Digest>, more: Set<Digest>)
        requires
            self.graph.dag_support(entered),
            entered.subset_of(more),
        ensures
            self.graph.dag_support(more),
    {
        self.lemma_among_more(self, entered, more);
        assert forall|x: (Support, PublicKey)| #[trigger]
            self.graph.dag_direct_support.contains(x) implies self.graph.backs_among(
            more,
            x.0.0,
            x.0.1,
            x.1,
        ) by {
            assert(self.graph.backs_among(entered, x.0.0, x.0.1, x.1));
        }
        assert forall|x: (Support, PublicKey)| #[trigger]
            self.graph.dag_strong_support.contains(x) implies self.graph.supports_among(
            more,
            x.0.0,
            x.0.1,
            x.1,
        ) by {
            assert(self.graph.supports_among(entered, x.0.0, x.0.1, x.1));
        }
    }

    /// A block that enters the Dag brings exactly the support that it gives.
    pub proof fn law_promotion_brings_support(self, c: Certificate, entered: Set<Digest>)
        requires
            self.graph.dag_support(entered),
            self.agrees(c),
        ensures
            self.promote(c).graph.dag_support(entered.insert(c.digest())),
    {
        let d = c.digest();
        let after = self.promote(c);
        let more = entered.insert(d);
        let g = after.graph;
        self.lemma_among_more(after, entered, more);
        assert forall|x: (Support, PublicKey)| #[trigger]
            g.dag_direct_support.contains(x) implies g.backs_among(more, x.0.0, x.0.1, x.1) by {
            if self.graph.dag_direct_support.contains(x) {
                assert(self.graph.backs_among(entered, x.0.0, x.0.1, x.1));
            } else {
                assert(g.observed.contains_key(d));
            }
        }
        assert forall|x: (Support, PublicKey)| #[trigger]
            g.dag_strong_support.contains(x) implies g.supports_among(more, x.0.0, x.0.1, x.1) by {
            if self.graph.dag_strong_support.contains(x) {
                assert(self.graph.supports_among(entered, x.0.0, x.0.1, x.1));
            } else {
                assert(g.observed.contains_key(d));
                assert(self.graph.strong_ancestors.contains((d, x.0.1)));
            }
        }
        assert forall|x: (Support, PublicKey)|
            g.backs_among(g.dag_digests, x.0.0, x.0.1, x.1) implies #[trigger]
        g.dag_direct_support.contains(x) by {
            let e = choose|e: Digest| #[trigger]
                g.observed.contains_key(e) && g.dag_digests.contains(e) && g.observed[e].round()
                    == x.0.0 && g.observed[e].origin() == x.1
                    && g.observed[e].header.parents@.contains(x.0.1);
            if self.graph.dag_digests.contains(e) {
                assert(self.graph.observed.contains_key(e));
                assert(self.graph.backs_among(self.graph.dag_digests, x.0.0, x.0.1, x.1));
                assert(self.graph.dag_direct_support.contains(x));
            } else {
                assert(e == d);
            }
        }
        assert forall|x: (Support, PublicKey)|
            g.supports_among(g.dag_digests, x.0.0, x.0.1, x.1) implies #[trigger]
        g.dag_strong_support.contains(x) by {
            let e = choose|e: Digest| #[trigger]
                g.observed.contains_key(e) && g.dag_digests.contains(e) && g.observed[e].round()
                    == x.0.0 && g.observed[e].origin() == x.1 && g.strong_ancestors.contains(
                    (e, x.0.1),
                );
            if self.graph.dag_digests.contains(e) {
                assert(self.graph.observed.contains_key(e));
                assert(self.graph.supports_among(self.graph.dag_digests, x.0.0, x.0.1, x.1));
                assert(self.graph.dag_strong_support.contains(x));
            } else {
                assert(e == d);
            }
        }
    }

    /// What leaves the Dag, the observed blocks and the indexes alone keeps the
    /// Dag support.
    proof fn lemma_same_dag_support(self, after: StateView, entered: Set<Digest>)
        requires
            self.graph.dag_support(entered),
            self.same_evidence(after),
            after.graph.dag_digests == self.graph.dag_digests,
            after.graph.dag_direct_support == self.graph.dag_direct_support,
            after.graph.dag_strong_support == self.graph.dag_strong_support,
        ensures
            after.graph.dag_support(entered),
    {
        self.lemma_among_more(after, entered, entered);
        after.lemma_among_more(self, after.graph.dag_digests, self.graph.dag_digests);
        assert forall|x: (Support, PublicKey)| #[trigger]
            after.graph.dag_direct_support.contains(x) implies after.graph.backs_among(
            entered,
            x.0.0,
            x.0.1,
            x.1,
        ) by {
            assert(self.graph.backs_among(entered, x.0.0, x.0.1, x.1));
        }
        assert forall|x: (Support, PublicKey)| #[trigger]
            after.graph.dag_strong_support.contains(x) implies after.graph.supports_among(
            entered,
            x.0.0,
            x.0.1,
            x.1,
        ) by {
            assert(self.graph.supports_among(entered, x.0.0, x.0.1, x.1));
        }
    }

    /// Working off the promotion queue keeps the Dag support.
    pub proof fn law_promotions_keep_dag_support(self, entered: Set<Digest>)
        requires
            self.keyed(),
            self.graph.dag_support(entered),
        ensures
            self.promote_ready().0.graph.dag_support(
                entered.union(self.promote_ready().0.graph.dag_digests),
            ),
        decreases self.outside().len(), self.graph.promotion_queue.len(),
    {
        let after = self.promote_ready().0;
        if self.graph.promotion_queue.len() > 0 {
            let d = self.graph.promotion_queue[0];
            let rest = self.dequeue();
            self.lemma_promote_step();
            self.lemma_same_dag_support(rest, entered);
            if self.promotable(d) {
                let c = rest.graph.observed[d];
                let next = rest.promote_queued(d);
                let more = entered.insert(d);
                rest.law_promotion_brings_support(c, entered);
                rest.promote(c).lemma_same_dag_support(next, more);
                next.law_promotions_keep_dag_support(more);
                next.lemma_promotions_stay();
                assert(next.graph.dag_digests.contains(d));
                assert(more.union(after.graph.dag_digests) =~= entered.union(
                    after.graph.dag_digests,
                ));
            } else {
                rest.law_promotions_keep_dag_support(entered);
            }
        } else {
            self.lemma_dag_support_more(entered, entered.union(after.graph.dag_digests));
        }
    }

    /// Promotions leave the Dag blocks where they are.
    proof fn lemma_promotions_stay(self)
        requires
            self.keyed(),
        ensures
            self.graph.dag_digests.subset_of(self.promote_ready().0.graph.dag_digests),
        decreases self.outside().len(), self.graph.promotion_queue.len(),
    {
        if self.graph.promotion_queue.len() > 0 {
            let d = self.graph.promotion_queue[0];
            self.lemma_promote_step();
            if self.promotable(d) {
                self.dequeue().promote_queued(d).lemma_promotions_stay();
            } else {
                self.dequeue().lemma_promotions_stay();
            }
        }
    }

    /// Admitting observed blocks and their ancestors keeps the Dag support.
    proof fn lemma_admission_dag_support(
        self,
        pending: Seq<Certificate>,
        visited: Set<Digest>,
        owner: Round,
        entered: Set<Digest>,
    )
        requires
            self.keyed(),
            self.graph.dag_support(entered),
            forall|i: int|
                0 <= i < pending.len() ==> self.graph.observed.contains_key(
                    (#[trigger] pending[i]).digest(),
                ) && self.agrees(pending[i]),
        ensures
            ({
                let after = self.admit_all(pending, visited, owner);
                &&& after.graph.dag_support(entered.union(after.graph.dag_digests))
                &&& after.graph.observed == self.graph.observed
                &&& self.graph.dag_digests.subset_of(after.graph.dag_digests)
                &&& after.keyed()
            }),
        decreases self.to_visit(pending, visited).len(), pending.len(),
    {
        let after = self.admit_all(pending, visited, owner);
        if pending.len() > 0 {
            let c = pending.last();
            self.lemma_admit_step(pending, visited, owner);
            assert(pending[pending.len() - 1] == c);
            if visited.contains(c.digest()) {
                self.lemma_admission_dag_support(pending.drop_last(), visited, owner, entered);
            } else {
                let next = self.admit_one(c, owner);
                let waiting = self.await_unseen(c, owner);
                let stack = pending.drop_last() + self.loose_ancestors(c);
                let more = entered.insert(c.digest());
                assert(self.graph.observed.contains_key(c.digest()) && self.agrees(c));
                self.lemma_same_dag_support(waiting, entered);
                waiting.law_promotion_brings_support(c, entered);
                if self.graph.dag_digests.contains(c.digest()) {
                    assert(more =~= entered);
                }
                assert(next.graph.observed == self.graph.observed);
                assert(next.graph.dag_digests.contains(c.digest()));
                assert forall|i: int| 0 <= i < stack.len() implies next.graph.observed.contains_key(
                    (#[trigger] stack[i]).digest(),
                ) && next.agrees(stack[i]) by {
                    if i < pending.len() - 1 {
                        assert(stack[i] == pending[i]);
                    } else {
                        self.lemma_loose_ancestors(c, i - (pending.len() - 1));
                    }
                }
                next.lemma_admission_dag_support(stack, visited.insert(c.digest()), owner, more);
                assert(more.union(after.graph.dag_digests) =~= entered.union(
                    after.graph.dag_digests,
                ));
            }
        } else {
            self.lemma_dag_support_more(entered, entered.union(after.graph.dag_digests));
        }
    }

    /// Admitting an observed block with its history keeps the Dag support.
    pub proof fn law_admission_keeps_dag_support(
        self,
        root: Certificate,
        owner: Round,
        entered: Set<Digest>,
    )
        requires
            self.keyed(),
            self.graph.dag_support(entered),
            self.graph.observed.contains_key(root.digest()),
            self.agrees(root),
        ensures
            self.force(root, owner).graph.dag_support(
                entered.union(self.force(root, owner).graph.dag_digests),
            ),
    {
        self.lemma_admission_dag_support(seq![root], Set::empty(), owner, entered);
    }

    /// So does its admission for several leaders.
    proof fn lemma_admissions_dag_support(
        self,
        root: Certificate,
        owners: Seq<Round>,
        entered: Set<Digest>,
    )
        requires
            self.keyed(),
            self.graph.dag_support(entered),
            self.graph.observed.contains_key(root.digest()),
            self.agrees(root),
        ensures
            ({
                let after = self.force_for(root, owners);
                &&& after.graph.dag_support(entered.union(after.graph.dag_digests))
                &&& after.graph.observed == self.graph.observed
                &&& self.graph.dag_digests.subset_of(after.graph.dag_digests)
                &&& after.keyed()
            }),
        decreases owners.len(),
    {
        let after = self.force_for(root, owners);
        if owners.len() > 0 {
            let before = self.force_for(root, owners.drop_last());
            let more = entered.union(before.graph.dag_digests);
            self.lemma_admissions_dag_support(root, owners.drop_last(), entered);
            before.lemma_admission_dag_support(seq![root], Set::empty(), owners.last(), more);
            assert(more.union(after.graph.dag_digests) =~= entered.union(after.graph.dag_digests));
        } else {
            self.lemma_dag_support_more(entered, entered.union(after.graph.dag_digests));
        }
    }

    /// A first observation enters the support that the Dag blocks gain by the
    /// paths through the block.
    proof fn lemma_learn_dag_support(self, c: Certificate, entered: Set<Digest>)
        requires
            self.graph.dag_support(entered),
            self.graph.exact_support(),
            !self.graph.observed.contains_key(c.digest()),
        ensures
            self.learn(c).graph.dag_support(entered),
    {
        let header = c.content();
        let woken = self.record(c).revise().wake_users(set![c.digest()]);
        let edged = woken.add_edges(header);
        let pairs = edged.fresh_pairs(c.digest(), woken.inherited(header));
        let after = self.learn(c);
        let g = after.graph;
        self.lemma_learn_supports(c);
        assert(g.strong_ancestors == self.graph.strong_ancestors.union(pairs));
        assert(g.dag_strong_support == self.graph.dag_strong_support.union(
            edged.path_support(pairs, true),
        ));
        assert(edged.graph.observed == g.observed);
        self.lemma_among_more(after, entered, entered);
        assert forall|x: (Support, PublicKey)| #[trigger]
            g.dag_direct_support.contains(x) implies g.backs_among(
            entered,
            x.0.0,
            x.0.1,
            x.1,
        ) by {
            assert(self.graph.dag_direct_support.contains(x));
            assert(self.graph.backs_among(entered, x.0.0, x.0.1, x.1));
        }
        assert forall|x: (Support, PublicKey)| #[trigger]
            g.dag_strong_support.contains(x) implies g.supports_among(
            entered,
            x.0.0,
            x.0.1,
            x.1,
        ) by {
            if self.graph.dag_strong_support.contains(x) {
                assert(self.graph.supports_among(entered, x.0.0, x.0.1, x.1));
            } else {
                let d = choose|d: Digest|
                    #![trigger edged.graph.observed.contains_key(d)]
                    edged.graph.observed.contains_key(d) && pairs.contains((d, x.0.1))
                        && edged.graph.observed[d].round() == x.0.0
                        && edged.graph.observed[d].origin() == x.1
                        && edged.graph.dag_digests.contains(d);
                assert(self.graph.dag_digests.contains(d));
                assert(g.observed.contains_key(d));
                assert(g.strong_ancestors.contains((d, x.0.1)));
            }
        }
        assert forall|x: (Support, PublicKey)|
            g.backs_among(g.dag_digests, x.0.0, x.0.1, x.1) implies #[trigger]
        g.dag_direct_support.contains(x) by {
            let d = choose|d: Digest| #[trigger]
                g.observed.contains_key(d) && g.dag_digests.contains(d) && g.observed[d].round()
                    == x.0.0 && g.observed[d].origin() == x.1
                    && g.observed[d].header.parents@.contains(x.0.1);
            assert(self.graph.dag_digests.contains(d));
            assert(self.graph.observed.contains_key(d));
            assert(self.graph.backs_among(self.graph.dag_digests, x.0.0, x.0.1, x.1));
            assert(self.graph.dag_direct_support.contains(x));
        }
        assert forall|x: (Support, PublicKey)|
            g.supports_among(g.dag_digests, x.0.0, x.0.1, x.1) implies #[trigger]
        g.dag_strong_support.contains(x) by {
            let d = choose|d: Digest| #[trigger]
                g.observed.contains_key(d) && g.dag_digests.contains(d) && g.observed[d].round()
                    == x.0.0 && g.observed[d].origin() == x.1 && g.strong_ancestors.contains(
                    (d, x.0.1),
                );
            assert(self.graph.dag_digests.contains(d));
            assert(self.graph.observed.contains_key(d));
            if self.graph.strong_ancestors.contains((d, x.0.1)) {
                assert(self.graph.supports_among(self.graph.dag_digests, x.0.0, x.0.1, x.1));
                assert(self.graph.dag_strong_support.contains(x));
            } else {
                assert(pairs.contains((d, x.0.1)));
                assert(edged.graph.observed.contains_key(d));
                assert(edged.path_support(pairs, true).contains(x));
            }
        }
    }

    /// Observing a block keeps the Dag support, if a repeated copy has the
    /// strong parents of the first.
    pub proof fn law_observation_keeps_dag_support(self, c: Certificate, entered: Set<Digest>)
        requires
            self.wf(),
            self.admissible(c),
            self.graph.exact_support(),
            self.graph.dag_support(entered),
            self.agrees(c),
        ensures
            self.observe(c).graph.dag_support(
                entered.union(self.observe(c).graph.dag_digests),
            ),
    {
        let after = self.observe(c);
        let all = entered.union(after.graph.dag_digests);
        if self.graph.observed.contains_key(c.digest()) {
            assert(all =~= entered);
            self.lemma_among_more(after, entered, entered);
            after.lemma_among_more(self, after.graph.dag_digests, self.graph.dag_digests);
            assert forall|x: (Support, PublicKey)| #[trigger]
                after.graph.dag_direct_support.contains(x) implies after.graph.backs_among(
                entered,
                x.0.0,
                x.0.1,
                x.1,
            ) by {
                assert(self.graph.backs_among(entered, x.0.0, x.0.1, x.1));
            }
            assert forall|x: (Support, PublicKey)| #[trigger]
                after.graph.dag_strong_support.contains(x) implies after.graph.supports_among(
                entered,
                x.0.0,
                x.0.1,
                x.1,
            ) by {
                assert(self.graph.supports_among(entered, x.0.0, x.0.1, x.1));
            }
        } else {
            let learned = self.learn(c);
            let released = learned.release(c.digest());
            self.lemma_learn_supports(c);
            self.lemma_learn(c);
            self.lemma_learn_dag_support(c, entered);
            learned.lemma_same_dag_support(released, entered);
            released.lemma_admissions_dag_support(
                c,
                in_order(learned.owners_of(c.digest())),
                entered,
            );
        }
    }

    /// A delivery at grade 1 keeps the Dag support, if a repeated copy has the
    /// strong parents of the first.
    pub proof fn law_grade_one_keeps_dag_support(self, c: Certificate, entered: Set<Digest>)
        requires
            self.wf(),
            self.admissible(c),
            self.graph.exact_support(),
            self.graph.dag_support(entered),
            self.agrees(c),
        ensures
            self.insert_grade_one(c).graph.dag_support(
                entered.union(self.insert_grade_one(c).graph.dag_digests),
            ),
    {
        if !self.graph.dag_digests.contains(c.digest()) {
            let waiting = self.enter_vdag(c);
            self.lemma_enter_vdag(c);
            self.lemma_same_evidence(waiting);
            self.lemma_same_dag_support(waiting, entered);
            waiting.law_observation_keeps_dag_support(c, entered);
        } else {
            self.lemma_dag_support_more(entered, entered.union(self.graph.dag_digests));
        }
    }

    /// Garbage collection keeps the Dag support.
    pub proof fn law_cleanup_keeps_dag_support(
        self,
        sequence: Seq<Certificate>,
        gc_depth: Round,
        entered: Set<Digest>,
    )
        requires
            self.wf(),
            self.graph.dag_support(entered),
        ensures
            self.update(sequence, gc_depth).graph.dag_support(entered),
    {
        let after = self.update(sequence, gc_depth);
        let g = after.graph;
        assert forall|d: Digest| #[trigger] g.dag_digests.contains(d) implies g.observed.contains_key(
            d,
        ) && entered.contains(d) && self.graph.dag_digests.contains(d) by {
            let s = choose|s: Slot| #[trigger]
                g.dag.contains_key(s) && g.dag[s].digest() == d;
            assert(self.graph.dag.contains_key(s));
            assert(self.graph.dag_by_digest.contains_key(d));
            assert(self.graph.observed.contains_key(d));
        }
        assert forall|x: (Support, PublicKey)| #[trigger]
            g.dag_direct_support.contains(x) implies g.backs_among(
            entered,
            x.0.0,
            x.0.1,
            x.1,
        ) by {
            assert(self.graph.backs_among(entered, x.0.0, x.0.1, x.1));
            let d = choose|d: Digest| #[trigger]
                self.graph.observed.contains_key(d) && entered.contains(d)
                    && self.graph.observed[d].round() == x.0.0 && self.graph.observed[d].origin()
                    == x.1 && self.graph.observed[d].header.parents@.contains(x.0.1);
            assert(g.observed.contains_key(d));
        }
        assert forall|x: (Support, PublicKey)| #[trigger]
            g.dag_strong_support.contains(x) implies g.supports_among(
            entered,
            x.0.0,
            x.0.1,
            x.1,
        ) by {
            assert(self.graph.supports_among(entered, x.0.0, x.0.1, x.1));
            let d = choose|d: Digest| #[trigger]
                self.graph.observed.contains_key(d) && entered.contains(d)
                    && self.graph.observed[d].round() == x.0.0 && self.graph.observed[d].origin()
                    == x.1 && self.graph.strong_ancestors.contains((d, x.0.1));
            assert(g.observed.contains_key(d));
        }
        after.lemma_among_more(self, g.dag_digests, self.graph.dag_digests);
        assert forall|x: (Support, PublicKey)|
            g.backs_among(g.dag_digests, x.0.0, x.0.1, x.1) implies #[trigger]
        g.dag_direct_support.contains(x) by {
            let d = choose|d: Digest| #[trigger]
                g.observed.contains_key(d) && g.dag_digests.contains(d) && g.observed[d].round()
                    == x.0.0 && g.observed[d].origin() == x.1
                    && g.observed[d].header.parents@.contains(x.0.1);
            assert(self.graph.backs_among(self.graph.dag_digests, x.0.0, x.0.1, x.1));
            assert(self.graph.dag_direct_support.contains(x));
        }
        assert forall|x: (Support, PublicKey)|
            g.supports_among(g.dag_digests, x.0.0, x.0.1, x.1) implies #[trigger]
        g.dag_strong_support.contains(x) by {
            let d = choose|d: Digest| #[trigger]
                g.observed.contains_key(d) && g.dag_digests.contains(d) && g.observed[d].round()
                    == x.0.0 && g.observed[d].origin() == x.1 && g.strong_ancestors.contains(
                    (d, x.0.1),
                );
            assert(self.graph.supports_among(self.graph.dag_digests, x.0.0, x.0.1, x.1));
            assert(self.graph.dag_strong_support.contains(x));
        }
    }

    /// In the beginning the Dag gives no support: the genesis blocks have no
    /// strong parents.
    pub proof fn law_dag_support_begins_empty(genesis: Seq<Certificate>)
        requires
            forall|i: int|
                0 <= i < genesis.len() ==> (#[trigger] genesis[i]).header.parents@ == Set::<
                    Digest,
                >::empty(),
        ensures
            Self::initial(genesis).graph.dag_support(Self::initial(genesis).graph.dag_digests),
            Self::initial(genesis).graph.exact_support(),
    {
        Self::lemma_initial_observed(genesis);
    }

    proof fn lemma_initial_observed(genesis: Seq<Certificate>)
        requires
            forall|i: int|
                0 <= i < genesis.len() ==> (#[trigger] genesis[i]).header.parents@ == Set::<
                    Digest,
                >::empty(),
        ensures
            ({
                let g = Self::initial(genesis).graph;
                &&& forall|d: Digest| #[trigger]
                    g.observed.contains_key(d) ==> g.observed[d].header.parents@ == Set::<
                        Digest,
                    >::empty()
                &&& g.dag_digests == g.observed.dom()
                &&& g.strong_ancestors == Set::<(Digest, Digest)>::empty()
                &&& g.strong_children == Set::<(Digest, Digest)>::empty()
                &&& g.observed_strong_support == Set::<(Support, PublicKey)>::empty()
                &&& g.observed_direct_support == Set::<(Support, PublicKey)>::empty()
                &&& g.dag_strong_support == Set::<(Support, PublicKey)>::empty()
                &&& g.dag_direct_support == Set::<(Support, PublicKey)>::empty()
            }),
        decreases genesis.len(),
    {
        if genesis.len() > 0 {
            let rest = genesis.drop_last();
            assert forall|i: int| 0 <= i < rest.len() implies (#[trigger] rest[i]).header.parents@
                == Set::<Digest>::empty() by {
                assert(rest[i] == genesis[i]);
            }
            assert(genesis[genesis.len() - 1].header.parents@ == Set::<Digest>::empty());
            Self::lemma_initial_observed(rest);
            let g = Self::initial(genesis).graph;
            assert(g.dag_digests =~= g.observed.dom());
        } else {
            let g = Self::initial(genesis).graph;
            assert(g.dag_digests =~= g.observed.dom());
        }
    }
}

} // verus!
