//! What enters the Dag, and what the index of strong paths holds.
use crate::consensus::messages::Stage;
use crate::consensus::model::{is_walk, leads_to, reaches, strong_edges, StateView};
use crate::consensus::paths::{
    lemma_leads_on, lemma_leads_to_itself, lemma_reaches_on, lemma_reaches_root,
    lemma_reaches_within, lemma_walk_keeps,
};
use crate::ordered::in_order;
use crate::types::{Certificate, Digest, Header, Round, Slot};
use vstd::prelude::*;

verus! {

impl StateView {
    // ----- Admission of a causal history -----

    /// A block that has been observed and is not in the Dag.
    pub open spec fn loose(self, digest: Digest) -> bool {
        &&& self.graph.observed.contains_key(digest)
        &&& !self.graph.dag_digests.contains(digest)
    }

    /// The strong and weak dependencies of `header` that are loose.
    pub open spec fn loose_dependencies(self, header: Header) -> Set<Digest> {
        Set::new(|d: Digest| header.depends_on(d) && self.loose(d))
    }

    /// The loose dependencies of a loose block.
    pub open spec fn loose_edges(self) -> spec_fn(Digest) -> Set<Digest> {
        |d: Digest|
            if self.loose(d) {
                self.loose_dependencies(*self.graph.observed[d].header)
            } else {
                Set::empty()
            }
    }

    /// The loose history of a block: what it reaches along strong and weak edges
    /// through loose blocks alone.
    pub open spec fn loose_history(self, root: Certificate) -> Set<Digest> {
        Set::new(
            |d: Digest|
                reaches(self.loose_dependencies(*root.header), self.loose_edges(), d),
        )
    }

    /// In the course of the admission of `root` from `self`, the state `now`
    /// with the stack `pending` and the blocks `visited`.
    spec fn admitting(
        self,
        root: Certificate,
        now: StateView,
        pending: Seq<Certificate>,
        visited: Set<Digest>,
    ) -> bool {
        &&& now.keyed()
        &&& forall|d: Digest| #[trigger]
            self.graph.observed.contains_key(d) ==> now.graph.observed.contains_key(d)
                && now.graph.observed[d] == self.graph.observed[d]
        &&& forall|d: Digest| #[trigger]
            now.graph.observed.contains_key(d) ==> self.graph.observed.contains_key(d) || d
                == root.digest()
        &&& visited.contains(root.digest())
        &&& self.graph.dag_digests.subset_of(now.graph.dag_digests)
        &&& visited.subset_of(now.graph.dag_digests)
        &&& forall|d: Digest| #[trigger]
            now.graph.dag_digests.contains(d) ==> self.graph.dag_digests.contains(d)
                || visited.contains(d)
        &&& forall|d: Digest| #[trigger]
            visited.contains(d) ==> d == root.digest() || self.loose_history(root).contains(d)
        &&& forall|i: int|
            0 <= i < pending.len() ==> self.loose_history(root).contains(
                (#[trigger] pending[i]).digest(),
            ) && self.graph.observed[pending[i].digest()] == pending[i]
        &&& forall|d: Digest| #[trigger]
            self.loose_dependencies(*root.header).contains(d) ==> now.graph.dag_digests.contains(d)
                || awaits_visit(pending, d)
        &&& forall|v: Digest, d: Digest|
            #![trigger visited.contains(v), self.loose_edges()(v).contains(d)]
            visited.contains(v) && v != root.digest() && self.loose_edges()(v).contains(d)
                ==> now.graph.dag_digests.contains(d) || awaits_visit(pending, d)
    }

    /// One step of an admission.
    proof fn lemma_admitting(
        self,
        root: Certificate,
        now: StateView,
        pending: Seq<Certificate>,
        visited: Set<Digest>,
        owner: Round,
    )
        requires
            self.admitting(root, now, pending, visited),
            pending.len() > 0,
            !visited.contains(pending.last().digest()),
            forall|d: Digest| #[trigger] self.loose_history(root).contains(d) ==> self.loose(d),
        ensures
            self.admitting(
                root,
                now.admit_one(pending.last(), owner),
                pending.drop_last() + now.loose_ancestors(pending.last()),
                visited.insert(pending.last().digest()),
            ),
    {
        let c = pending.last();
        let next = now.admit_one(c, owner);
        let ancestors = now.loose_ancestors(c);
        let stack = pending.drop_last() + ancestors;
        let met = visited.insert(c.digest());
        let history = self.loose_history(root);
        assert(pending[pending.len() - 1] == c);
        assert(self.loose(c.digest()));
        assert(next.keyed());
        assert forall|i: int| 0 <= i < stack.len() implies history.contains(
            (#[trigger] stack[i]).digest(),
        ) && self.graph.observed[stack[i].digest()] == stack[i] by {
            if i < pending.len() - 1 {
                assert(stack[i] == pending[i]);
            } else {
                let k = i - (pending.len() - 1);
                assert(stack[i] == ancestors[k]);
                now.lemma_loose_ancestors(c, k);
                let d = ancestors[k].digest();
                assert(self.loose(d));
                assert(self.loose_edges()(c.digest()).contains(d));
                lemma_reaches_on(
                    self.loose_dependencies(root.content()),
                    self.loose_edges(),
                    c.digest(),
                    d,
                );
            }
        }
        assert forall|d: Digest| awaits_visit(pending, d) implies next.graph.dag_digests.contains(d)
            || #[trigger] awaits_visit(stack, d) by {
            let i = choose|i: int| 0 <= i < pending.len() && (#[trigger] pending[i]).digest() == d;
            if i < pending.len() - 1 {
                assert(stack[i].digest() == d);
            }
        }
        assert forall|d: Digest| self.loose_edges()(c.digest()).contains(d) implies (
        next.graph.dag_digests.contains(d) || #[trigger] awaits_visit(stack, d)) by {
            if !now.graph.dag_digests.contains(d) {
                now.lemma_is_loose_ancestor(c, d);
                let k = choose|k: int|
                    0 <= k < ancestors.len() && (#[trigger] ancestors[k]).digest() == d;
                assert(stack[pending.len() - 1 + k].digest() == d);
            }
        }
        assert forall|v: Digest, d: Digest|
            #![trigger met.contains(v), self.loose_edges()(v).contains(d)]
            met.contains(v) && v != root.digest() && self.loose_edges()(v).contains(
                d,
            ) implies next.graph.dag_digests.contains(d) || awaits_visit(stack, d) by {
            if v != c.digest() {
                assert(visited.contains(v));
            }
        }
    }

    /// An observed dependency outside the Dag is a loose ancestor.
    proof fn lemma_is_loose_ancestor(self, c: Certificate, d: Digest)
        requires
            self.keyed(),
            c.header.depends_on(d),
            self.loose(d),
        ensures
            exists|k: int|
                0 <= k < self.loose_ancestors(c).len() && (
                #[trigger] self.loose_ancestors(c)[k]).digest() == d,
    {
        let keep = |d: Digest|
            !self.graph.dag_digests.contains(d) && self.graph.observed.contains_key(d);
        let all = c.header.dependencies();
        c.header.lemma_dependencies();
        assert(all.contains(d));
        let i = choose|i: int| 0 <= i < all.len() && all[i] == d;
        all.lemma_filter_contains(keep, i);
        let kept = all.filter(keep);
        let k = choose|k: int| 0 <= k < kept.len() && kept[k] == d;
        assert(self.loose_ancestors(c)[k].digest() == d);
    }

    /// The end of an admission.
    proof fn lemma_admitted(
        self,
        root: Certificate,
        now: StateView,
        pending: Seq<Certificate>,
        visited: Set<Digest>,
        owner: Round,
    )
        requires
            self.admitting(root, now, pending, visited),
            forall|d: Digest| #[trigger] self.loose_history(root).contains(d) ==> self.loose(d),
            !self.loose_history(root).contains(root.digest()),
        ensures
            now.admit_all(pending, visited, owner).graph.dag_digests
                == self.graph.dag_digests.insert(root.digest()).union(self.loose_history(root)),
        decreases now.to_visit(pending, visited).len(), pending.len(),
    {
        let history = self.loose_history(root);
        if pending.len() == 0 {
            let goal = self.graph.dag_digests.insert(root.digest()).union(history);
            assert forall|d: Digest| goal.contains(d) implies now.graph.dag_digests.contains(d) by {
                if history.contains(d) {
                    let entered = now.graph.dag_digests;
                    let closed = entered.intersect(history);
                    let roots = self.loose_dependencies(root.content());
                    assert forall|e: Digest| #[trigger] roots.contains(e) implies closed.contains(
                        e,
                    ) by {
                        lemma_reaches_root(roots, self.loose_edges(), e);
                    }
                    assert forall|v: Digest, e: Digest|
                        #![trigger closed.contains(v), self.loose_edges()(v).contains(e)]
                        closed.contains(v) && self.loose_edges()(v).contains(
                            e,
                        ) implies closed.contains(e) by {
                        lemma_reaches_on(roots, self.loose_edges(), v, e);
                        assert(visited.contains(v));
                    }
                    lemma_reaches_within(roots, self.loose_edges(), closed, d);
                }
            }
            assert(now.graph.dag_digests =~= goal);
        } else {
            let c = pending.last();
            now.lemma_admit_step(pending, visited, owner);
            if visited.contains(c.digest()) {
                let rest = pending.drop_last();
                assert forall|d: Digest| #[trigger] awaits_visit(
                    pending,
                    d,
                ) implies now.graph.dag_digests.contains(d) || awaits_visit(rest, d) by {
                    let i = choose|i: int|
                        0 <= i < pending.len() && (#[trigger] pending[i]).digest() == d;
                    if i < rest.len() {
                        assert(rest[i].digest() == d);
                    }
                }
                assert forall|i: int| 0 <= i < rest.len() implies history.contains(
                    (#[trigger] rest[i]).digest(),
                ) && self.graph.observed[rest[i].digest()] == rest[i] by {
                    assert(rest[i] == pending[i]);
                }
                self.lemma_admitted(root, now, rest, visited, owner);
            } else {
                self.lemma_admitting(root, now, pending, visited, owner);
                self.lemma_admitted(
                    root,
                    now.admit_one(c, owner),
                    pending.drop_last() + now.loose_ancestors(c),
                    visited.insert(c.digest()),
                    owner,
                );
            }
        }
    }

    /// Admitting a block puts exactly the block and its loose history into the
    /// Dag: what has been observed of its causal history along strong and weak
    /// edges, and nothing that only virtual edges reach.
    pub proof fn law_admission_is_the_loose_history(self, root: Certificate, owner: Round)
        requires
            self.wf(),
            !self.loose_history(root).contains(root.digest()),
        ensures
            self.force(root, owner).graph.dag_digests == self.graph.dag_digests.insert(
                root.digest(),
            ).union(self.loose_history(root)),
    {
        let history = self.loose_history(root);
        let roots = self.loose_dependencies(root.content());
        let next = self.admit_one(root, owner);
        let pending = seq![root];
        let ancestors = self.loose_ancestors(root);
        let stack = pending.drop_last() + ancestors;
        let visited = Set::empty().insert(root.digest());
        assert forall|d: Digest| #[trigger] history.contains(d) implies self.loose(d) by {
            let all = Set::new(|d: Digest| self.loose(d));
            lemma_reaches_within(roots, self.loose_edges(), all, d);
        }
        self.lemma_admit_step(pending, Set::empty(), owner);
        assert(stack =~= ancestors);
        assert forall|i: int| 0 <= i < stack.len() implies history.contains(
            (#[trigger] stack[i]).digest(),
        ) && self.graph.observed[stack[i].digest()] == stack[i] by {
            self.lemma_loose_ancestors(root, i);
            lemma_reaches_root(roots, self.loose_edges(), stack[i].digest());
        }
        assert forall|d: Digest| #[trigger] roots.contains(d) implies awaits_visit(stack, d) by {
            self.lemma_is_loose_ancestor(root, d);
            let k = choose|k: int|
                0 <= k < ancestors.len() && (#[trigger] ancestors[k]).digest() == d;
            assert(stack[k].digest() == d);
        }
        assert(self.admitting(root, next, stack, visited));
        self.lemma_admitted(root, next, stack, visited, owner);
    }
}

impl StateView {
    // ----- VDag -----

    /// `after` has fewer blocks in VDag and has observed more.
    pub open spec fn drains_vdag(self, after: StateView) -> bool {
        &&& self.graph.observed.dom().subset_of(after.graph.observed.dom())
        &&& forall|s: Slot| #[trigger]
            after.graph.vdag.contains_key(s) ==> self.graph.vdag.contains_key(s)
                && self.graph.vdag[s] == after.graph.vdag[s]
    }

    /// An admission takes blocks out of VDag only.
    proof fn lemma_admission_drains(
        self,
        pending: Seq<Certificate>,
        visited: Set<Digest>,
        owner: Round,
    )
        requires
            self.keyed(),
        ensures
            self.admit_all(pending, visited, owner).keyed(),
            self.drains_vdag(self.admit_all(pending, visited, owner)),
        decreases self.to_visit(pending, visited).len(), pending.len(),
    {
        if pending.len() > 0 {
            let c = pending.last();
            self.lemma_admit_step(pending, visited, owner);
            if visited.contains(c.digest()) {
                self.lemma_admission_drains(pending.drop_last(), visited, owner);
            } else {
                let next = self.admit_one(c, owner);
                assert(self.drains_vdag(next));
                next.lemma_admission_drains(
                    pending.drop_last() + self.loose_ancestors(c),
                    visited.insert(c.digest()),
                    owner,
                );
            }
        }
    }

    /// Admissions for several leaders take blocks out of VDag only.
    proof fn lemma_admissions_drain(self, root: Certificate, owners: Seq<Round>)
        requires
            self.keyed(),
        ensures
            self.force_for(root, owners).keyed(),
            self.drains_vdag(self.force_for(root, owners)),
        decreases owners.len(),
    {
        if owners.len() > 0 {
            let before = self.force_for(root, owners.drop_last());
            self.lemma_admissions_drain(root, owners.drop_last());
            before.lemma_admission_drains(seq![root], Set::empty(), owners.last());
        }
    }

    /// An observation takes blocks out of VDag only.
    pub proof fn lemma_observe_drains(self, c: Certificate)
        requires
            self.keyed(),
        ensures
            self.observe(c).keyed(),
            self.observe(c).graph.observed.contains_key(c.digest()),
            self.drains_vdag(self.observe(c)),
    {
        if !self.graph.observed.contains_key(c.digest()) {
            let learned = self.learn(c);
            let released = learned.release(c.digest());
            assert(released.graph.observed.dom() =~= self.graph.observed.dom().insert(c.digest()));
            assert(released.keyed());
            released.lemma_admissions_drain(c, in_order(learned.owners_of(c.digest())));
        } else {
            assert(self.observe(c).graph.observed.dom() =~= self.graph.observed.dom());
        }
    }

    /// Working off the promotion queue takes blocks out of VDag only.
    pub proof fn lemma_promotion_drains(self)
        requires
            self.keyed(),
        ensures
            self.drains_vdag(self.promote_ready().0),
        decreases self.outside().len(), self.graph.promotion_queue.len(),
    {
        if self.graph.promotion_queue.len() > 0 {
            let d = self.graph.promotion_queue[0];
            let rest = self.dequeue();
            self.lemma_promote_step();
            if self.promotable(d) {
                rest.promote_queued(d).lemma_promotion_drains();
            } else {
                rest.lemma_promotion_drains();
            }
        }
    }

    /// Only a delivery at grade 1 puts a block into VDag: neither an observation
    /// nor a delivery at grade 2 does.
    pub proof fn law_only_grade_one_fills_vdag(self, c: Certificate, s: Slot)
        requires
            self.wf(),
        ensures
            self.take_in(c, Stage::Observed).0.graph.vdag.contains_key(s)
                ==> self.graph.vdag.contains_key(s) && self.graph.vdag[s] == self.take_in(
                c,
                Stage::Observed,
            ).0.graph.vdag[s],
            self.take_in(c, Stage::GradeTwo).0.graph.vdag.contains_key(s)
                ==> self.graph.vdag.contains_key(s) && self.graph.vdag[s] == self.take_in(
                c,
                Stage::GradeTwo,
            ).0.graph.vdag[s],
    {
        self.lemma_observe_drains(c);
        self.observe(c).mark_grade_two(c.digest()).lemma_promotion_drains();
    }
}

impl StateView {
    // ----- Strong paths -----

    /// Whether a strong path of at least one edge leads from `descendant` up to
    /// `ancestor`.
    pub open spec fn descends(self, descendant: Digest, ancestor: Digest) -> bool {
        exists|c: Digest| #[trigger]
            self.graph.strong_children.contains((ancestor, c)) && leads_to(
                self.graph.strong_children,
                c,
                descendant,
            )
    }

    /// The index of strong ancestors holds exactly the strong paths.
    pub open spec fn exact_paths(self) -> bool {
        forall|d: Digest, a: Digest| #[trigger]
            self.graph.strong_ancestors.contains((d, a)) <==> self.descends(d, a)
    }

    /// Indexing a block keeps the index of strong ancestors exact, in whatever
    /// order blocks arrive.
    pub proof fn law_strong_ancestors_stay_exact(self, header: Header)
        requires
            self.exact_paths(),
        ensures
            self.index_strong_paths(header).exact_paths(),
    {
        let after = self.index_strong_paths(header);
        assert forall|d: Digest, a: Digest| #[trigger]
            after.graph.strong_ancestors.contains((d, a)) <==> after.descends(d, a) by {
            self.lemma_indexed(header, d, a);
            if self.gains(header, d, a) || self.descends(d, a) {
                self.lemma_gained_is_path(header, d, a);
            }
            if after.descends(d, a) {
                self.lemma_path_is_gained(header, d, a);
            }
        }
    }

    /// The strong children once a block is indexed.
    spec fn grown(self, header: Header) -> Set<(Digest, Digest)> {
        self.graph.strong_children.union(strong_edges(header))
    }

    /// Whether `d` gains the ancestor `a` when a block is indexed.
    spec fn gains(self, header: Header, d: Digest, a: Digest) -> bool {
        self.inherited(header).contains(a) && leads_to(self.grown(header), header.block, d)
    }

    /// What indexing a block enters.
    proof fn lemma_indexed(self, header: Header, d: Digest, a: Digest)
        requires
            self.exact_paths(),
        ensures
            self.index_strong_paths(header).graph.strong_children == self.grown(header),
            self.index_strong_paths(header).graph.strong_ancestors.contains((d, a)) <==> (
            self.descends(d, a) || self.gains(header, d, a)),
    {
        let edged = self.add_edges(header);
        assert(edged.graph.strong_children == self.grown(header));
        assert(edged.inherited(header) =~= self.inherited(header));
        assert(self.graph.strong_ancestors.contains((d, a)) <==> self.descends(d, a));
    }

    /// Old paths and gained ancestors are paths.
    proof fn lemma_gained_is_path(self, header: Header, d: Digest, a: Digest)
        requires
            self.exact_paths(),
            self.descends(d, a) || self.gains(header, d, a),
        ensures
            self.index_strong_paths(header).descends(d, a),
    {
        let edges = self.grown(header);
        let old_edges = self.graph.strong_children;
        self.lemma_indexed(header, d, a);
        if self.descends(d, a) {
            let c = choose|c: Digest| #[trigger]
                old_edges.contains((a, c)) && leads_to(old_edges, c, d);
            lemma_leads_to_grows(old_edges, edges, c, d);
            assert(edges.contains((a, c)));
        } else if header.parents@.contains(a) {
            assert(edges.contains((a, header.block)));
        } else {
            let p = choose|p: Digest| #[trigger]
                header.parents@.contains(p) && self.graph.strong_ancestors.contains((p, a));
            assert(self.descends(p, a));
            let c = choose|c: Digest| #[trigger]
                old_edges.contains((a, c)) && leads_to(old_edges, c, p);
            lemma_leads_to_grows(old_edges, edges, c, p);
            assert(edges.contains((p, header.block)));
            lemma_leads_on(edges, c, p, header.block);
            lemma_leads_through(edges, c, header.block, d);
            assert(edges.contains((a, c)));
        }
    }

    /// Every path is an old one or a gained ancestor.
    proof fn lemma_path_is_gained(self, header: Header, d: Digest, a: Digest)
        requires
            self.exact_paths(),
            self.index_strong_paths(header).descends(d, a),
        ensures
            self.descends(d, a) || self.gains(header, d, a),
    {
        let edges = self.grown(header);
        self.lemma_indexed(header, d, a);
        let c = choose|c: Digest| #[trigger] edges.contains((a, c)) && leads_to(edges, c, d);
        self.lemma_new_paths(header, a, c);
        let held = |x: Digest| self.descends(x, a) || self.gains(header, x, a);
        assert forall|x: Digest, y: Digest|
            #![trigger edges.contains((x, y))]
            edges.contains((x, y)) && held(x) implies held(y) by {
            self.lemma_path_grows(header, a, x, y);
        }
        lemma_walk_keeps(edges, held, c, d);
    }

    /// A first edge is an old one, or the block inherits its start.
    proof fn lemma_new_paths(self, header: Header, a: Digest, c: Digest)
        requires
            self.grown(header).contains((a, c)),
        ensures
            self.descends(c, a) || self.gains(header, c, a),
    {
        if self.graph.strong_children.contains((a, c)) {
            lemma_leads_to_itself(self.graph.strong_children, c);
        } else {
            lemma_leads_to_itself(self.grown(header), header.block);
        }
    }

    /// A path goes on along an old edge, or the block inherits its start.
    proof fn lemma_path_grows(self, header: Header, a: Digest, x: Digest, y: Digest)
        requires
            self.exact_paths(),
            self.grown(header).contains((x, y)),
            self.descends(x, a) || self.gains(header, x, a),
        ensures
            self.descends(y, a) || self.gains(header, y, a),
    {
        let edges = self.grown(header);
        let old_edges = self.graph.strong_children;
        if self.gains(header, x, a) {
            lemma_leads_on(edges, header.block, x, y);
        } else if old_edges.contains((x, y)) {
            let c = choose|c: Digest| #[trigger]
                old_edges.contains((a, c)) && leads_to(old_edges, c, x);
            lemma_leads_on(old_edges, c, x, y);
        } else {
            assert(header.parents@.contains(x));
            assert(self.graph.strong_ancestors.contains((x, a)));
            assert(self.inherited(header).contains(a));
            lemma_leads_to_itself(edges, header.block);
        }
    }
}

/// More edges lead wherever fewer do.
proof fn lemma_leads_to_grows(
    fewer: Set<(Digest, Digest)>,
    edges: Set<(Digest, Digest)>,
    from: Digest,
    to: Digest,
)
    requires
        fewer.subset_of(edges),
        leads_to(fewer, from, to),
    ensures
        leads_to(edges, from, to),
{
    let p = choose|p: Seq<Digest>|
        #![trigger is_walk(fewer, p)]
        p.len() > 0 && p[0] == from && p.last() == to && is_walk(fewer, p);
    assert(is_walk(edges, p));
}

/// What leads to a block leads to whatever the block leads to.
proof fn lemma_leads_through(
    edges: Set<(Digest, Digest)>,
    from: Digest,
    midway: Digest,
    to: Digest,
)
    requires
        leads_to(edges, from, midway),
        leads_to(edges, midway, to),
    ensures
        leads_to(edges, from, to),
{
    let held = |x: Digest| leads_to(edges, from, x);
    assert forall|x: Digest, y: Digest|
        #![trigger edges.contains((x, y))]
        edges.contains((x, y)) && held(x) implies held(y) by {
        lemma_leads_on(edges, from, x, y);
    }
    lemma_walk_keeps(edges, held, midway, to);
}

/// Whether a block with the digest `d` is on the stack.
spec fn awaits_visit(pending: Seq<Certificate>, d: Digest) -> bool {
    exists|i: int| 0 <= i < pending.len() && (#[trigger] pending[i]).digest() == d
}

} // verus!
