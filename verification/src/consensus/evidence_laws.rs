//! What new evidence may decide is evaluated, and what an anchor's history is.
use crate::consensus::model::{first_of, is_path, lane_of, reaches, GraphView, StateView};
use crate::consensus::paths::lemma_leads_to_itself;
use crate::consensus::rules::Consensus;
use crate::ordered::image;
use crate::types::{Certificate, Digest, PublicKey, Round};
use vstd::prelude::*;

verus! {

impl StateView {
    // ----- What a block may decide -----

    /// A first observation changes the support of an observed block only where
    /// the leader of its round is evaluated again: the strong edges and paths to
    /// it, and the strong edges followed by a virtual one.
    pub proof fn law_observation_marks_what_it_decides(
        self,
        c: Certificate,
        r: Round,
        d: Digest,
        b: Certificate,
    )
        requires
            self.graph.exact_support(),
            !self.graph.observed.contains_key(c.digest()),
            self.learn(c).graph.observed.contains_key(d),
            !self.observe_dirties(c).contains(self.learn(c).graph.observed[d].round()),
        ensures
            image(self.learn(c).graph.observed_direct_support, (r, d)) == image(
                self.graph.observed_direct_support,
                (r, d),
            ),
            image(self.learn(c).graph.observed_strong_support, (r, d)) == image(
                self.graph.observed_strong_support,
                (r, d),
            ),
            image(self.learn(c).graph.dag_strong_support, (r, d)) == image(
                self.graph.dag_strong_support,
                (r, d),
            ),
            self.learn(c).two_hops(b, d) == self.two_hops(b, d),
            d != c.digest(),
            c.round() != self.learn(c).graph.observed[d].round(),
    {
        let header = c.content();
        let recorded = self.record(c);
        let woken = recorded.revise().wake_users(set![c.digest()]);
        let edged = woken.add_edges(header);
        let additions = woken.inherited(header);
        let pairs = edged.fresh_pairs(c.digest(), additions);
        let after = self.learn(c);
        let t = after.graph.observed[d].round();
        self.lemma_learn_supports(c);
        assert(after.graph.observed_strong_support == self.graph.observed_strong_support.union(
            edged.path_support(pairs, false),
        ));
        assert(after.graph.dag_strong_support == self.graph.dag_strong_support.union(
            edged.path_support(pairs, true),
        ));
        assert(edged.graph.observed == after.graph.observed);
        assert(!edged.newly_supported(c.digest(), additions).contains(t));
        assert(d != c.digest());
        assert forall|a: PublicKey|
            image(after.graph.observed_direct_support, (r, d)).contains(a) == image(
                self.graph.observed_direct_support,
                (r, d),
            ).contains(a) by {
            if image(after.graph.observed_direct_support, (r, d)).contains(a) && !image(
                self.graph.observed_direct_support,
                (r, d),
            ).contains(a) {
                assert(header.parents@.contains(d));
                lemma_leads_to_itself(edged.graph.strong_children, c.digest());
                assert(additions.contains(d));
                if self.graph.strong_ancestors.contains((c.digest(), d)) {
                    assert(self.graph.observed.contains_key(c.digest()));
                }
                assert(pairs.contains((c.digest(), d)));
                assert(edged.supported(pairs).contains(t));
            }
        }
        assert forall|a: PublicKey|
            image(after.graph.observed_strong_support, (r, d)).contains(a) == image(
                self.graph.observed_strong_support,
                (r, d),
            ).contains(a) by {
            if edged.path_support(pairs, false).contains(((r, d), a)) {
                let e = choose|e: Digest|
                    #![trigger edged.graph.observed.contains_key(e)]
                    edged.graph.observed.contains_key(e) && pairs.contains((e, d))
                        && edged.graph.observed[e].round() == r && edged.graph.observed[e].origin()
                        == a;
                assert(pairs.contains((e, d)));
                assert(edged.supported(pairs).contains(t));
            }
        }
        assert forall|a: PublicKey|
            image(after.graph.dag_strong_support, (r, d)).contains(a) == image(
                self.graph.dag_strong_support,
                (r, d),
            ).contains(a) by {
            if edged.path_support(pairs, true).contains(((r, d), a)) {
                let e = choose|e: Digest|
                    #![trigger edged.graph.observed.contains_key(e)]
                    edged.graph.observed.contains_key(e) && pairs.contains((e, d))
                        && edged.graph.observed[e].round() == r && edged.graph.observed[e].origin()
                        == a && edged.graph.dag_digests.contains(e);
                assert(pairs.contains((e, d)));
                assert(edged.supported(pairs).contains(t));
            }
        }
        assert(image(after.graph.observed_direct_support, (r, d)) =~= image(
            self.graph.observed_direct_support,
            (r, d),
        ));
        assert(image(after.graph.observed_strong_support, (r, d)) =~= image(
            self.graph.observed_strong_support,
            (r, d),
        ));
        assert(image(after.graph.dag_strong_support, (r, d)) =~= image(
            self.graph.dag_strong_support,
            (r, d),
        ));
        if after.two_hops(b, d) {
            let p = choose|p: Digest| #[trigger]
                b.header.parents@.contains(p) && after.graph.observed.contains_key(p)
                    && after.graph.observed[p].header.virtual_edges@.contains(d);
            if p == c.digest() {
                assert(recorded.virtual_targets(header).contains(t));
            }
            assert(self.graph.observed.contains_key(p));
        }
        if self.two_hops(b, d) {
            let p = choose|p: Digest| #[trigger]
                b.header.parents@.contains(p) && self.graph.observed.contains_key(p)
                    && self.graph.observed[p].header.virtual_edges@.contains(d);
            assert(after.graph.observed.contains_key(p));
        }
    }

    /// An observed block that enters the Dag changes the Dag support by blocks of
    /// its own round alone, and has the leaders of the two rounds before
    /// evaluated again.
    pub proof fn law_promotion_marks_what_it_decides(self, c: Certificate, r: Round, d: Digest)
        requires
            self.graph.observed.contains_key(c.digest()),
            !self.graph.dag_digests.contains(c.digest()),
        ensures
            c.round() >= 2 ==> self.promote(c).commits.dirty_leaders.contains(
                (c.round() - 1) as Round,
            ),
            c.round() >= 3 ==> self.promote(c).commits.dirty_leaders.contains(
                (c.round() - 2) as Round,
            ),
            r != c.round() ==> image(self.promote(c).graph.dag_direct_support, (r, d)) == image(
                self.graph.dag_direct_support,
                (r, d),
            ),
            r != c.round() ==> image(self.promote(c).graph.dag_strong_support, (r, d)) == image(
                self.graph.dag_strong_support,
                (r, d),
            ),
            r != c.round() ==> self.promote(c).strong_or_virtual(r, d) == self.strong_or_virtual(
                r,
                d,
            ),
    {
        let after = self.promote(c);
        if r != c.round() {
            assert(image(after.graph.dag_direct_support, (r, d)) =~= image(
                self.graph.dag_direct_support,
                (r, d),
            ));
            assert(image(after.graph.dag_strong_support, (r, d)) =~= image(
                self.graph.dag_strong_support,
                (r, d),
            ));
            assert(after.graph.observed == self.graph.observed);
            assert forall|a: PublicKey|
                after.strong_or_virtual(r, d).contains(a) == self.strong_or_virtual(r, d).contains(
                    a,
                ) by {
                assert(c.slot() != (r, a));
                assert(after.graph.dag_strong_support.contains(((r, d), a))
                    == self.graph.dag_strong_support.contains(((r, d), a)));
                let b = self.graph.dag[(r, a)];
                if self.two_hops(b, d) {
                    let p = choose|p: Digest| #[trigger]
                        b.header.parents@.contains(p) && self.graph.observed.contains_key(p)
                            && self.graph.observed[p].header.virtual_edges@.contains(d);
                    assert(b.header.parents@.contains(p) && after.graph.observed.contains_key(p));
                }
                if after.two_hops(b, d) {
                    let p = choose|p: Digest| #[trigger]
                        b.header.parents@.contains(p) && after.graph.observed.contains_key(p)
                            && after.graph.observed[p].header.virtual_edges@.contains(d);
                    assert(b.header.parents@.contains(p) && self.graph.observed.contains_key(p));
                }
            }
            assert(after.strong_or_virtual(r, d) =~= self.strong_or_virtual(r, d));
        }
    }

    /// A first observation wakes every active anchor whose decisions rest on or
    /// wait for the block, or rest on a block that gains a strong path by it. They
    /// are made anew at the new revision.
    pub proof fn law_changed_block_wakes_its_anchors(
        self,
        c: Certificate,
        d: Digest,
        t: Digest,
        a: Round,
    )
        requires
            !self.graph.observed.contains_key(c.digest()),
            self.fallback.anchors.contains_key(lane_of(a)),
            self.fallback.anchors[lane_of(a)] == a,
            self.fallback.vertex_users.contains((d, a)) || (d == c.digest()
                && self.fallback.evidence_waiters.contains((d, a))),
            d == c.digest() || (self.learn(c).graph.strong_ancestors.contains((d, t))
                && !self.graph.strong_ancestors.contains((d, t))),
        ensures
            self.learn(c).fallback.dirty_anchors.contains(a),
            self.learn(c).version_of(a) == self.learn(c).fallback.evidence_version,
            self.learn(c).fallback.evidence_version == (if self.fallback.evidence_version
                == u64::MAX {
                0
            } else {
                self.fallback.evidence_version + 1
            }),
    {
        let first = self.record(c).revise();
        let woken = first.wake_users(set![c.digest()]);
        let edged = woken.add_edges(c.content());
        let pairs = edged.fresh_pairs(c.digest(), woken.inherited(c.content()));
        let firsts = first_of(pairs);
        let after = self.learn(c);
        let indexed = edged.index_block(c.digest());
        let grown = StateView { graph: after.graph, ..indexed };
        assert(after == grown.wake_users(firsts));
        assert(set![c.digest()].contains(c.digest()));
        assert(first.is_anchor(a));
        if d == c.digest() {
            assert(first.users_of(set![c.digest()]).contains(a));
            assert(woken.fallback.dirty_anchors.contains(a));
        } else {
            assert(after.graph.strong_ancestors == self.graph.strong_ancestors.union(pairs));
            assert(pairs.contains((d, t)));
            assert(firsts.contains(d));
            assert(grown.users_of(firsts).contains(a));
        }
    }

    /// A traversal watches what it met and what it missed: its anchor is woken by
    /// each of these blocks.
    pub proof fn law_traversal_watches_its_blocks(self, anchor: Certificate, d: Digest)
        requires
            !self.history_cached(anchor.round()),
            self.graph.draws(anchor, d),
        ensures
            self.graph.observed.contains_key(d) ==> self.snapshot(
                anchor,
            ).fallback.vertex_users.contains((d, anchor.round())),
            !self.graph.observed.contains_key(d) ==> self.snapshot(
                anchor,
            ).fallback.evidence_waiters.contains((d, anchor.round())),
    {
        self.lemma_draws(anchor, d);
    }

    // ----- The history of an anchor -----

    /// The history of an anchor, found anew, holds exactly the observed blocks
    /// that chains of strong and weak edges lead to. It is whole if all that
    /// these chains lead to has been observed, and all that the anchor and the
    /// observed blocks of its history reference virtually.
    pub proof fn law_history_is_what_edges_reach(self, anchor: Certificate, r: Round, d: Digest)
        ensures
            self.traversed(anchor).by_round.contains((r, d)) <==> self.graph.observed.contains_key(
                d,
            ) && self.graph.observed[d].round() == r && self.graph.draws(anchor, d),
            self.traversed(anchor).complete ==> (self.graph.draws(anchor, d)
                ==> self.graph.observed.contains_key(d)),
            self.traversed(anchor).complete ==> (anchor.header.virtual_edges@.contains(d)
                ==> self.graph.observed.contains_key(d)),
            self.traversed(anchor).complete ==> (self.graph.draws(anchor, d)
                ==> forall|t: Digest| #[trigger]
                self.graph.observed[d].header.virtual_edges@.contains(t)
                    ==> self.graph.observed.contains_key(t)),
            !self.traversed(anchor).complete ==> exists|e: Digest| #[trigger]
                self.graph.unseen_evidence(anchor, e),
    {
        let header = anchor.content();
        assert forall|e: Digest| #[trigger]
            self.in_history(header, e) == self.graph.draws(anchor, e) by {
            self.lemma_draws(anchor, e);
        }
        self.lemma_draws(anchor, d);
        if self.traversed(anchor).complete {
            assert(!self.lacking(header).contains(d));
            if self.graph.draws(anchor, d) {
                assert(self.graph.observed.contains_key(d));
                assert forall|t: Digest| #[trigger]
                    self.graph.observed[d].header.virtual_edges@.contains(
                        t,
                    ) implies self.graph.observed.contains_key(t) by {
                    assert(self.virtual_evidence(header).contains(t));
                    assert(!self.lacking(header).contains(t));
                }
            }
            if header.virtual_edges@.contains(d) {
                assert(self.virtual_evidence(header).contains(d));
            }
        } else {
            assert(exists|e: Digest| self.lacking(header).contains(e)) by {
                if forall|e: Digest| !self.lacking(header).contains(e) {
                    assert(self.lacking(header) =~= Set::empty());
                }
            }
            let e = choose|e: Digest| self.lacking(header).contains(e);
            if !self.in_history(header, e) {
                assert(self.virtual_evidence(header).contains(e));
                if !header.virtual_edges@.contains(e) {
                    let x = choose|x: Digest| #[trigger]
                        self.graph.observed.contains_key(x) && self.in_history(header, x)
                            && self.graph.observed[x].header.virtual_edges@.contains(e);
                    assert(self.graph.draws(anchor, x));
                }
            }
            assert(self.graph.unseen_evidence(anchor, e));
        }
    }

    proof fn lemma_draws(self, anchor: Certificate, d: Digest)
        ensures
            self.in_history(anchor.content(), d) == self.graph.draws(anchor, d),
    {
        let roots = anchor.header.dependency_set();
        let edges = self.causal_edges();
        if reaches(roots, edges, d) {
            let p = choose|p: Seq<Digest>|
                #![trigger is_path(edges, p)]
                p.len() > 0 && roots.contains(p[0]) && p.last() == d && is_path(edges, p);
            assert forall|i: int| 0 <= i < p.len() - 1 implies self.graph.observed.contains_key(
                #[trigger] p[i],
            ) && self.graph.observed[p[i]].header.depends_on(p[i + 1]) by {
                assert(edges(p[i]).contains(p[i + 1]));
            }
            assert(self.graph.is_causal_chain(p));
        }
        if self.graph.draws(anchor, d) {
            let p = choose|p: Seq<Digest>| #[trigger]
                self.graph.is_causal_chain(p) && p.len() > 0 && anchor.header.depends_on(p[0])
                    && p.last() == d;
            assert(is_path(edges, p));
        }
    }

    /// In a well-formed state the history of an anchor, found anew, is finite.
    pub proof fn law_history_is_finite(self, anchor: Certificate)
        requires
            self.wf(),
        ensures
            self.traversed(anchor).by_round.finite(),
    {
        let pair = |d: Digest| (self.graph.observed[d].round(), d);
        let known = self.graph.observed.dom();
        known.lemma_map_finite(pair);
        let all = known.map(pair);
        assert forall|x: (Round, Digest)| self.traversed(anchor).by_round.contains(
            x,
        ) implies all.contains(x) by {
            assert(known.contains(x.1));
            assert(pair(x.1) == x);
        }
        vstd::set_lib::lemma_set_subset_finite(all, self.traversed(anchor).by_round);
    }
}

impl GraphView {
    /// A chain of strong and weak edges: every block but the last has been
    /// observed and depends on the next.
    pub open spec fn is_causal_chain(self, p: Seq<Digest>) -> bool {
        forall|i: int|
            0 <= i < p.len() - 1 ==> self.observed.contains_key(#[trigger] p[i])
                && self.observed[p[i]].header.depends_on(p[i + 1])
    }

    /// Whether a chain of strong and weak edges leads from a block to `d`.
    pub open spec fn draws(self, c: Certificate, d: Digest) -> bool {
        exists|p: Seq<Digest>| #[trigger]
            self.is_causal_chain(p) && p.len() > 0 && c.header.depends_on(p[0]) && p.last() == d
    }

    /// Whether a block, or an observed one of its history, references `e` and
    /// `e` has not been observed.
    pub open spec fn unseen_evidence(self, c: Certificate, e: Digest) -> bool {
        &&& !self.observed.contains_key(e)
        &&& self.draws(c, e) || c.header.virtual_edges@.contains(e) || exists|x: Digest| #[trigger]
            self.observed.contains_key(x) && self.draws(c, x)
                && self.observed[x].header.virtual_edges@.contains(e)
    }
}

impl Consensus {
    /// A first observation has rule 1 evaluated in its round if the block holds a
    /// strong edge to the leader of the round before, and rule 2 in any case. So
    /// has every promoted block.
    pub proof fn law_new_blocks_are_evaluated(
        &self,
        s: StateView,
        c: Certificate,
        first: bool,
        promoted: Seq<Certificate>,
        b: Certificate,
    )
        requires
            (first && s.graph.observed.contains_key(c.digest()) && b
                == s.graph.observed[c.digest()] && b.round() == c.round()) || promoted.contains(b),
        ensures
            Self::rule_two_rounds(c, first, promoted).contains(b.round()),
            b.round() >= 2 && self.sighted(s, (b.round() - 1) as Round) is Some
                && b.header.parents@.contains(
                (self.sighted(s, (b.round() - 1) as Round)->0).digest(),
            ) ==> self.rule_one_rounds(s, c, first, promoted).contains(b.round()),
    {
        if promoted.contains(b) {
            let i = choose|i: int| 0 <= i < promoted.len() && promoted[i] == b;
            assert(promoted[i].round() == b.round());
        }
    }
}

} // verus!
