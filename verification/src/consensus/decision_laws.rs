//! What the fallback decides, in terms of the blocks and their edges.
use crate::consensus::commit::Time;
use crate::consensus::model::{
    is_path, is_walk, lane_of, leads_to, reaches, FallbackDecision, GraphView, HistoryView,
    StateView,
};
use crate::consensus::rules::Consensus;
use crate::ordered::{group_ordered, image, in_order, lemma_in_order_of};
use crate::types::{Certificate, Digest, PublicKey, Round, LAST_ROUND};
use vstd::prelude::*;

verus! {

impl GraphView {
    /// A chain of strong edges: every block but the last has been observed and
    /// has the next as a strong parent.
    pub open spec fn is_chain(self, p: Seq<Digest>) -> bool {
        forall|i: int|
            0 <= i < p.len() - 1 ==> self.observed.contains_key(#[trigger] p[i])
                && self.observed[p[i]].header.parents@.contains(p[i + 1])
    }

    /// Whether a chain of strong edges leads from a block to `target`.
    pub open spec fn links(self, c: Certificate, target: Digest) -> bool {
        exists|p: Seq<Digest>| #[trigger]
            self.is_chain(p) && p.len() > 0 && c.header.parents@.contains(p[0]) && p.last()
                == target
    }

    /// Whether one or two strong edges lead from a block to the observed `p`.
    pub open spec fn near(self, c: Certificate, p: Digest) -> bool {
        &&& self.observed.contains_key(p)
        &&& c.header.parents@.contains(p) || exists|g: Digest| #[trigger]
            self.observed.contains_key(g) && c.header.parents@.contains(g)
                && self.observed[g].header.parents@.contains(p)
    }

    /// Whether one or two strong edges and a virtual one lead from a block to an
    /// observed block of `author` in `round`.
    pub open spec fn glimpses(self, c: Certificate, round: Round, author: PublicKey) -> bool {
        exists|p: Digest, t: Digest|
            #![trigger self.near(c, p), self.observed.contains_key(t)]
            self.near(c, p) && self.observed[p].header.virtual_edges@.contains(t)
                && self.observed.contains_key(t) && self.observed[t].round() == round
                && self.observed[t].origin() == author
    }

    /// The authors of the observed strong parents of a block from which one or
    /// two strong edges and a virtual one lead to an observed block of `author`
    /// in `round`.
    pub open spec fn vouchers(self, c: Certificate, round: Round, author: PublicKey) -> Set<
        PublicKey,
    > {
        Set::new(
            |a: PublicKey|
                exists|p: Digest| #[trigger]
                    self.observed.contains_key(p) && c.header.parents@.contains(p)
                        && self.observed[p].origin() == a && self.glimpses(
                        self.observed[p],
                        round,
                        author,
                    ),
        )
    }
}

impl StateView {
    /// Along the strong edges of observed blocks, a path up to `target` read
    /// downward is a chain.
    proof fn lemma_path_is_chain(self, c: Certificate, target: Digest)
        requires
            self.exact_edges(),
            self.graph.observed.contains_key(c.digest()),
            self.graph.observed[c.digest()].header.parents@ == c.header.parents@,
            self.descends(c.digest(), target),
        ensures
            self.graph.links(c, target),
    {
        let d = c.digest();
        let edges = self.graph.strong_children;
        let k = choose|k: Digest| #[trigger] edges.contains((target, k)) && leads_to(edges, k, d);
        let w = choose|w: Seq<Digest>|
            #![trigger is_walk(edges, w)]
            w.len() > 0 && w[0] == k && w.last() == d && is_walk(edges, w);
        let n = w.len() as int;
        let p = Seq::new(
            n as nat,
            |i: int|
                if i < n - 1 {
                    w[n - 2 - i]
                } else {
                    target
                },
        );
        assert forall|i: int| 0 <= i < p.len() - 1 implies self.graph.observed.contains_key(
            #[trigger] p[i],
        ) && self.graph.observed[p[i]].header.parents@.contains(p[i + 1]) by {
            let j = n - 2 - i;
            if j > 0 {
                assert(edges.contains((w[j - 1], w[j - 1 + 1])));
                assert(p[i + 1] == w[j - 1]);
                assert(edges.contains((p[i + 1], p[i])));
            } else {
                assert(edges.contains((p[i + 1], p[i])));
            }
        }
        assert(self.graph.is_chain(p));
        if n > 1 {
            assert(edges.contains((w[n - 2], w[n - 2 + 1])));
        }
        assert(edges.contains((p[0], d)));
    }

    /// A chain read upward is a path.
    proof fn lemma_chain_is_path(self, c: Certificate, target: Digest)
        requires
            self.exact_edges(),
            self.graph.observed.contains_key(c.digest()),
            self.graph.observed[c.digest()].header.parents@ == c.header.parents@,
            self.graph.links(c, target),
        ensures
            self.descends(c.digest(), target),
    {
        let d = c.digest();
        let edges = self.graph.strong_children;
        let p = choose|p: Seq<Digest>| #[trigger]
            self.graph.is_chain(p) && p.len() > 0 && c.header.parents@.contains(p[0]) && p.last()
                == target;
        let n = p.len() as int;
        let w = Seq::new(
            n as nat,
            |i: int|
                if i < n - 1 {
                    p[n - 2 - i]
                } else {
                    d
                },
        );
        assert(edges.contains((p[0], d)));
        assert forall|i: int| 0 <= i < w.len() - 1 implies edges.contains(
            (#[trigger] w[i], w[i + 1]),
        ) by {
            let j = n - 2 - i;
            assert(w[i] == p[j]);
            if j > 0 {
                assert(self.graph.observed.contains_key(p[j - 1]));
                assert(edges.contains((p[j], p[j - 1])));
                assert(w[i + 1] == p[j - 1]);
            } else {
                assert(w[i + 1] == d);
            }
        }
        assert(is_walk(edges, w));
        if n > 1 {
            assert(self.graph.observed.contains_key(p[n - 2]));
            assert(p[n - 2 + 1] == target);
        }
        assert(edges.contains((target, w[0])));
        assert(w.last() == d);
        assert(leads_to(edges, w[0], d));
    }

    /// A search along the strong edges of observed blocks finds chains.
    proof fn lemma_search_is_chain(self, c: Certificate, target: Digest)
        ensures
            reaches(c.header.parents@, self.strong_parents(), target) <==> self.graph.links(
                c,
                target,
            ),
    {
        let steps = self.strong_parents();
        if reaches(c.header.parents@, steps, target) {
            let p = choose|p: Seq<Digest>|
                #![trigger is_path(steps, p)]
                p.len() > 0 && c.header.parents@.contains(p[0]) && p.last() == target && is_path(
                    steps,
                    p,
                );
            assert forall|i: int| 0 <= i < p.len() - 1 implies self.graph.observed.contains_key(
                #[trigger] p[i],
            ) && self.graph.observed[p[i]].header.parents@.contains(p[i + 1]) by {
                assert(steps(p[i]).contains(p[i + 1]));
            }
            assert(self.graph.is_chain(p));
        }
        if self.graph.links(c, target) {
            let p = choose|p: Seq<Digest>| #[trigger]
                self.graph.is_chain(p) && p.len() > 0 && c.header.parents@.contains(p[0])
                    && p.last() == target;
            assert(is_path(steps, p));
        }
    }

    /// Where the indexes are exact, a strong path is a chain of strong edges.
    pub proof fn law_strong_path_is_a_chain(self, c: Certificate, target: Digest)
        requires
            self.exact_edges(),
            self.exact_paths(),
            self.graph.strong_indexed.contains(c.digest()) ==> self.graph.observed.contains_key(
                c.digest(),
            ) && self.graph.observed[c.digest()].header.parents@ == c.header.parents@,
        ensures
            self.strong_path(c, target) <==> self.graph.links(c, target),
    {
        let d = c.digest();
        if self.graph.strong_indexed.contains(d) {
            assert(self.graph.strong_ancestors.contains((d, target)) <==> self.descends(d, target));
            if self.descends(d, target) {
                self.lemma_path_is_chain(c, target);
            }
            if self.graph.links(c, target) {
                self.lemma_chain_is_path(c, target);
            }
        } else {
            self.lemma_search_is_chain(c, target);
        }
    }

    /// Where the indexes are exact, the strong ancestors of an observed block
    /// are what chains of strong edges lead to.
    pub proof fn law_strong_ancestors_are_chains(self, d: Digest, target: Digest)
        requires
            self.placed(),
            self.exact_edges(),
            self.exact_paths(),
            self.graph.observed.contains_key(d),
        ensures
            self.graph.strong_ancestors.contains((d, target)) <==> self.graph.links(
                self.graph.observed[d],
                target,
            ),
    {
        let c = self.graph.observed[d];
        assert(c.digest() == d);
        assert(self.graph.strong_ancestors.contains((d, target)) <==> self.descends(d, target));
        if self.descends(d, target) {
            self.lemma_path_is_chain(c, target);
        }
        if self.graph.links(c, target) {
            self.lemma_chain_is_path(c, target);
        }
    }

    /// Where the indexes are exact, an author supports a block in a round by an
    /// observed block from which a chain of strong edges leads to it.
    pub proof fn law_support_is_by_chains(self, round: Round, target: Digest, author: PublicKey)
        requires
            self.placed(),
            self.exact_edges(),
            self.exact_paths(),
        ensures
            self.graph.supports(round, target, author) <==> exists|d: Digest| #[trigger]
                self.graph.observed.contains_key(d) && self.graph.observed[d].round() == round
                    && self.graph.observed[d].origin() == author && self.graph.links(
                    self.graph.observed[d],
                    target,
                ),
    {
        assert forall|d: Digest| #[trigger] self.graph.observed.contains_key(d) implies (
        self.graph.strong_ancestors.contains((d, target)) <==> self.graph.links(
            self.graph.observed[d],
            target,
        )) by {
            self.law_strong_ancestors_are_chains(d, target);
        }
        if self.graph.supports(round, target, author) {
            let d = choose|d: Digest| #[trigger]
                self.graph.observed.contains_key(d) && self.graph.observed[d].round() == round
                    && self.graph.observed[d].origin() == author
                    && self.graph.strong_ancestors.contains((d, target));
            assert(self.graph.observed.contains_key(d));
        }
    }

    /// The history of an anchor depends on the blocks and on its own entries.
    proof fn lemma_same_history_of(self, after: StateView, anchor: Certificate)
        requires
            after.graph == self.graph,
            after.fallback.history_cache == self.fallback.history_cache,
            after.fallback.anchor_versions == self.fallback.anchor_versions,
            after.fallback.evidence_version == self.fallback.evidence_version,
        ensures
            after.history_of(anchor) == self.history_of(anchor),
    {
        let header = anchor.content();
        assert(after.causal_edges() =~= self.causal_edges());
        assert(after.known_history(header) =~= self.known_history(header));
        assert forall|t: Digest|
            after.virtual_evidence(header).contains(t) == self.virtual_evidence(header).contains(
                t,
            ) by {}
        assert(after.virtual_evidence(header) =~= self.virtual_evidence(header));
        assert(after.lacking(header) =~= self.lacking(header));
        assert(after.traversed(anchor).by_round =~= self.traversed(anchor).by_round);
    }

    /// A virtual path is one or two strong edges and a virtual one.
    pub proof fn law_virtual_path_is_a_glimpse(
        self,
        c: Certificate,
        round: Round,
        author: PublicKey,
    )
        ensures
            self.virtual_path(c, round, author) <==> self.graph.glimpses(c, round, author),
    {
        let g = self.graph;
        if self.virtual_path(c, round, author) {
            let among = if self.any_points_at(c.header.parents@, round, author) {
                c.header.parents@
            } else {
                self.grandparents(c.header.parents@)
            };
            let p = choose|p: Digest| #[trigger]
                among.contains(p) && g.observed.contains_key(p) && self.points_at(
                    g.observed[p],
                    round,
                    author,
                );
            let t = choose|t: Digest| #[trigger]
                g.observed[p].header.virtual_edges@.contains(t) && g.observed.contains_key(t)
                    && g.observed[t].round() == round && g.observed[t].origin() == author;
            assert(g.near(c, p)) by {
                if !c.header.parents@.contains(p) {
                    let m = choose|m: Digest| #[trigger]
                        c.header.parents@.contains(m) && g.observed.contains_key(m)
                            && g.observed[m].header.parents@.contains(p);
                    assert(g.observed.contains_key(m));
                }
            }
            assert(g.observed.contains_key(t));
        }
        if g.glimpses(c, round, author) {
            let (p, t) = choose|p: Digest, t: Digest|
                #![trigger g.near(c, p), g.observed.contains_key(t)]
                g.near(c, p) && g.observed[p].header.virtual_edges@.contains(t)
                    && g.observed.contains_key(t) && g.observed[t].round() == round
                    && g.observed[t].origin() == author;
            assert(g.observed[p].header.virtual_edges@.contains(t));
            assert(self.points_at(g.observed[p], round, author));
            if c.header.parents@.contains(p) {
                assert(self.any_points_at(c.header.parents@, round, author));
            } else {
                let m = choose|m: Digest| #[trigger]
                    g.observed.contains_key(m) && c.header.parents@.contains(m)
                        && g.observed[m].header.parents@.contains(p);
                assert(c.header.parents@.contains(m));
                assert(self.grandparents(c.header.parents@).contains(p));
                assert(self.any_points_at(self.grandparents(c.header.parents@), round, author));
            }
        }
    }
}

impl Consensus {
    /// Whether a block votes for the leader of `round`: by a strong path to its
    /// block, or by parents with a third of the stake that see it virtually.
    pub open spec fn favours(&self, s: StateView, c: Certificate, round: Round) -> bool {
        ||| self.sighted(s, round) is Some && s.strong_path(
            c,
            (self.sighted(s, round)->0).digest(),
        )
        ||| self.committee.holds_third(s.graph.vouchers(c, round, self.lead(round)))
    }

    /// The authors of the observed blocks three rounds above `round` in a
    /// history that vote for the leader of `round`.
    pub open spec fn favouring(&self, s: StateView, history: HistoryView, round: Round) -> Set<
        PublicKey,
    > {
        Set::new(
            |a: PublicKey|
                exists|d: Digest| #[trigger]
                    s.graph.observed.contains_key(d) && history.by_round.contains(
                        ((round + 3) as Round, d),
                    ) && s.graph.observed[d].round() == round + 3 && s.graph.observed[d].origin()
                        == a && self.favours(s, s.graph.observed[d], round),
        )
    }

    /// The strong parents that vote hold a third of the stake if and only if
    /// those that are counted do.
    proof fn lemma_vouchers(&self, s: StateView, c: Certificate, round: Round)
        ensures
            self.committee.weight(self.direct_voters(s, c.content(), round, self.lead(round)))
                >= self.committee.validity() <==> self.committee.holds_third(
                s.graph.vouchers(c, round, self.lead(round)),
            ),
    {
        broadcast use group_ordered;

        let lead = self.lead(round);
        let list = in_order(c.header.parents@);
        let votes = |b: Certificate| s.virtual_path(b, round, lead);
        lemma_in_order_of(c.header.parents@);
        self.law_counting_may_stop(s, list, votes);
        let all = self.all_voters(s, list, votes);
        let vouchers = s.graph.vouchers(c, round, lead);
        assert forall|a: PublicKey| all.contains(a) == vouchers.contains(a) by {
            if all.contains(a) {
                let d = choose|d: Digest| #[trigger]
                    list.contains(d) && s.graph.observed.contains_key(d) && votes(
                        s.graph.observed[d],
                    ) && s.graph.observed[d].origin() == a;
                assert(list.to_set().contains(d));
                s.law_virtual_path_is_a_glimpse(s.graph.observed[d], round, lead);
                assert(s.graph.observed.contains_key(d));
            }
            if vouchers.contains(a) {
                let d = choose|d: Digest| #[trigger]
                    s.graph.observed.contains_key(d) && c.header.parents@.contains(d)
                        && s.graph.observed[d].origin() == a && s.graph.glimpses(
                        s.graph.observed[d],
                        round,
                        lead,
                    );
                assert(list.to_set().contains(d));
                s.law_virtual_path_is_a_glimpse(s.graph.observed[d], round, lead);
                assert(list.contains(d));
            }
        }
        assert(all =~= vouchers);
        self.committee.law_thresholds(all);
    }

    /// Where no decision is remembered, an anchor commits a leader three rounds
    /// below by its own vote, and one further below by the votes of a third of
    /// the stake in its history, three rounds above the leader.
    pub proof fn law_votes_decide(
        &self,
        s: StateView,
        anchor: Certificate,
        target: Round,
        history: HistoryView,
    )
        requires
            history.by_round.finite(),
            target + 3 <= Round::MAX,
            s.cached_decision(anchor.round(), target, history.version) is None,
        ensures
            anchor.round() <= target + 3 ==> (self.decides(
                s,
                anchor,
                self.sighted(s, target),
                target,
                history,
            ) <==> self.favours(s, anchor, target)),
            anchor.round() > target + 3 ==> (self.decides(
                s,
                anchor,
                self.sighted(s, target),
                target,
                history,
            ) <==> self.committee.holds_third(self.favouring(s, history, target))),
    {
        let lead = self.lead(target);
        let leader = self.sighted(s, target);
        let above = (target + 3) as Round;
        self.lemma_vouchers(s, anchor, target);
        let row = image(history.by_round, above);
        history.by_round.lemma_map_finite(|p: (Round, Digest)| p.1);
        let seconds = history.by_round.map(|p: (Round, Digest)| p.1);
        assert forall|d: Digest| row.contains(d) implies seconds.contains(d) by {
            assert(history.by_round.contains((above, d)));
        }
        vstd::set_lib::lemma_set_subset_finite(seconds, row);
        let list = in_order(row);
        lemma_in_order_of(row);
        let votes = |c: Certificate| self.votes_indirectly(s, leader, target, lead, c);
        self.law_counting_may_stop(s, list, votes);
        let all = self.all_voters(s, list, votes);
        let favouring = self.favouring(s, history, target);
        assert forall|a: PublicKey| all.contains(a) == favouring.contains(a) by {
            if all.contains(a) {
                let d = choose|d: Digest| #[trigger]
                    list.contains(d) && s.graph.observed.contains_key(d) && votes(
                        s.graph.observed[d],
                    ) && s.graph.observed[d].origin() == a;
                assert(list.to_set().contains(d));
                self.lemma_vouchers(s, s.graph.observed[d], target);
                assert(s.graph.observed.contains_key(d));
            }
            if favouring.contains(a) {
                let d = choose|d: Digest| #[trigger]
                    s.graph.observed.contains_key(d) && history.by_round.contains((above, d))
                        && s.graph.observed[d].round() == target + 3
                        && s.graph.observed[d].origin() == a && self.favours(
                        s,
                        s.graph.observed[d],
                        target,
                    );
                assert(row.contains(d));
                assert(list.to_set().contains(d));
                self.lemma_vouchers(s, s.graph.observed[d], target);
                assert(list.contains(d));
            }
        }
        assert(all =~= favouring);
        self.committee.law_thresholds(all);
    }

    /// Whether the votes are for the leader of `target`: that of an anchor three
    /// rounds above, or those of a third of the stake three rounds above the
    /// leader in the history of an anchor further up.
    pub open spec fn merits(&self, s: StateView, anchor: Certificate, target: Round) -> bool {
        if anchor.round() <= target + 3 {
            self.favours(s, anchor, target)
        } else {
            self.committee.holds_third(self.favouring(s, s.history_of(anchor), target))
        }
    }

    /// What an anchor needs to decide on its own on the newest open leader below
    /// `limit` in its lane: a whole history and no remembered decision.
    pub open spec fn is_due(
        &self,
        s: StateView,
        anchor: Certificate,
        limit: Round,
        target: Round,
    ) -> bool {
        &&& 0 < target < limit
        &&& lane_of(target) == lane_of(anchor.round())
        &&& s.unresolved(target)
        &&& forall|r: Round|
            target < r < limit && lane_of(r) == lane_of(anchor.round()) ==> !#[trigger] s.unresolved(
                r,
            )
        &&& s.history_of(anchor).complete
        &&& s.history_of(anchor).by_round.finite()
        &&& s.cached_decision(anchor.round(), target, s.history_of(anchor).version) is None
    }

    /// The newest open leader in the lane of an anchor is staged or skipped by
    /// the votes.
    proof fn lemma_due(
        &self,
        s: StateView,
        anchor: Certificate,
        limit: Round,
        now: Time,
        target: Round,
    )
        requires
            s.wf(),
            s.settled(anchor),
            limit <= anchor.round(),
            s.stacks_all(lane_of(anchor.round()), limit),
            self.is_due(s, anchor, limit, target),
        ensures
            ({
                let after = self.resolve(s, anchor, limit, now);
                let merits = self.merits(s, anchor, target);
                let known = self.sighted(s, target) is Some;
                &&& merits && known ==> after.commits.pending.contains_key(target)
                    && !after.commits.skipped.contains(target)
                &&& merits && !known ==> after.unresolved(target)
                    && after.fallback.recovery.contains(target)
                &&& !merits ==> after.commits.skipped.contains(target)
                &&& !known && !s.fallback.recovery.contains(target) && (merits || s.history_of(
                    anchor,
                ).by_round.len() > 0) ==> after.commits.requests.contains(
                    (target, self.lead(target)),
                )
            }),
        decreases limit,
    {
        let lane = lane_of(anchor.round());
        assert(s.fallback.stack.contains(target));
        assert(s.awaits(lane, limit, target));
        s.lemma_newest(lane, limit, target);
        let newest = choose|t: Round| s.is_newest(lane, limit, t);
        assert(s.is_newest(lane, limit, newest));
        if newest != target {
            let next = s.unstack(newest);
            assert(target < newest);
            assert(!s.unresolved(newest));
            s.lemma_same_graph(next);
            assert(next.stacks_all(lane, newest)) by {
                assert forall|r: Round|
                    0 < r < newest && lane_of(r) == lane && next.unresolved(r) implies #[trigger]
                next.fallback.stack.contains(r) by {
                    assert(s.unresolved(r));
                    assert(s.fallback.stack.contains(r));
                }
            }
            assert forall|r: Round| target < r < newest && lane_of(r) == lane implies !(
            #[trigger] next.unresolved(r)) by {
                assert(!s.unresolved(r));
            }
            s.lemma_same_history_of(next, anchor);
            self.lemma_same_merits(s, next, anchor, target);
            self.lemma_due(next, anchor, newest, now, target);
        } else {
            let leader = self.sighted(s, target);
            let history = s.history_of(anchor);
            let looked = s.snapshot(anchor);
            assert(target + 3 <= Round::MAX);
            s.lemma_snapshot(anchor);
            self.lemma_sighted(s, target);
            self.law_votes_decide(looked, anchor, target, history);
            self.lemma_same_merits(s, looked, anchor, target);
            let commit = self.decides(looked, anchor, leader, target, history);
            assert(self.sighted(looked, target) == leader);
            assert(commit == self.merits(s, anchor, target));
            let decided = looked.remember(
                anchor.round(),
                target,
                FallbackDecision { version: history.version, commit },
            );
            looked.lemma_same_graph(decided);
            self.lemma_request(decided, target, now);
            let asked = self.request(decided, target, now);
            assert(self.sighted(decided, target) == leader);
            if leader is None && !s.fallback.recovery.contains(target) {
                let n = s.commits.requests.len() as int;
                assert(asked.commits.requests[n] == (target, self.lead(target)));
                assert(asked.commits.requests.contains((target, self.lead(target))));
            }
            if !commit {
                let sought = if leader is None && history.by_round.len() > 0 {
                    self.request(decided, target, now)
                } else {
                    decided
                };
                let next = sought.skip_leader(target);
                sought.lemma_skip_leader(target);
                assert(next.settled(anchor));
                assert(next.commits.skipped.contains(target));
                assert(next.stacks_all(lane, target)) by {
                    assert forall|r: Round|
                        0 < r < target && lane_of(r) == lane && next.unresolved(
                            r,
                        ) implies #[trigger] next.fallback.stack.contains(r) by {
                        assert(s.unresolved(r));
                        assert(s.fallback.stack.contains(r));
                    }
                }
                self.lemma_resolve(next, anchor, target, now);
                if sought.commits.requests.contains((target, self.lead(target))) {
                    assert(next.commits.requests == sought.commits.requests);
                    self.lemma_requests_stay(
                        next,
                        anchor,
                        target,
                        now,
                        (target, self.lead(target)),
                    );
                }
            } else if leader is Some {
                let block = leader->0;
                let staged = decided.stage(block, 3, self.gc_depth, now);
                let next = staged.reanchor(target);
                assert(decided.settled(block));
                decided.lemma_stage(block, 3, self.gc_depth, now);
                decided.lemma_force_only(block, target);
                assert(target <= LAST_ROUND);
                staged.lemma_same_graph(next);
                assert(staged.settled(block));
                assert(next.commits.pending.contains_key(target));
                assert(!next.commits.skipped.contains(target));
                assert(next.stacks_all(lane, target)) by {
                    assert forall|r: Round|
                        0 < r < target && lane_of(r) == lane && next.unresolved(
                            r,
                        ) implies #[trigger] next.fallback.stack.contains(r) by {
                        assert(s.unresolved(r));
                        assert(s.fallback.stack.contains(r));
                    }
                }
                self.lemma_resolve(next, block, target, now);
            }
        }
    }

    /// What leaves the graph and the history of the anchor alone leaves the
    /// votes alone.
    proof fn lemma_same_merits(
        &self,
        s: StateView,
        after: StateView,
        anchor: Certificate,
        target: Round,
    )
        requires
            after.graph == s.graph,
            after.history_of(anchor) == s.history_of(anchor),
        ensures
            self.merits(after, anchor, target) == self.merits(s, anchor, target),
            self.sighted(after, target) == self.sighted(s, target),
            self.favouring(after, s.history_of(anchor), target) == self.favouring(
                s,
                s.history_of(anchor),
                target,
            ),
            self.favours(after, anchor, target) == self.favours(s, anchor, target),
    {
        assert(after.strong_parents() =~= s.strong_parents());
        assert forall|c: Certificate| self.favours(after, c, target) == #[trigger] self.favours(
            s,
            c,
            target,
        ) by {}
        let history = s.history_of(anchor);
        assert forall|a: PublicKey|
            self.favouring(after, history, target).contains(a) == self.favouring(
                s,
                history,
                target,
            ).contains(a) by {
            if self.favouring(after, history, target).contains(a) {
                let d = choose|d: Digest| #[trigger]
                    after.graph.observed.contains_key(d) && history.by_round.contains(
                        ((target + 3) as Round, d),
                    ) && after.graph.observed[d].round() == target + 3
                        && after.graph.observed[d].origin() == a && self.favours(
                        after,
                        after.graph.observed[d],
                        target,
                    );
                assert(self.favours(s, s.graph.observed[d], target));
            }
            if self.favouring(s, history, target).contains(a) {
                let d = choose|d: Digest| #[trigger]
                    s.graph.observed.contains_key(d) && history.by_round.contains(
                        ((target + 3) as Round, d),
                    ) && s.graph.observed[d].round() == target + 3 && s.graph.observed[d].origin()
                        == a && self.favours(s, s.graph.observed[d], target);
                assert(self.favours(after, after.graph.observed[d], target));
            }
        }
        assert(self.favouring(after, history, target) =~= self.favouring(s, history, target));
    }

    /// A finalization decides on the newest open leader in the lane of its
    /// anchor by the votes. If they are for it, its block is staged, and it is not
    /// skipped; if the block is missing, the leader stays open. If they are not, the
    /// leader is skipped. A missing block is asked for, also where the leader is
    /// skipped by a history that is not empty.
    pub proof fn law_finalization_follows_the_votes(
        &self,
        s: StateView,
        anchor_round: Round,
        now: Time,
        target: Round,
    )
        requires
            s.wf(),
            s.is_anchor(anchor_round),
            self.sighted(s, anchor_round) is Some,
            self.is_due(s, self.sighted(s, anchor_round)->0, anchor_round, target),
        ensures
            ({
                let anchor = self.sighted(s, anchor_round)->0;
                let after = self.finalize(s, anchor_round, now);
                let merits = self.merits(s, anchor, target);
                let known = self.sighted(s, target) is Some;
                &&& merits && known ==> (after.commits.pending.contains_key(target)
                    || after.commits.committed.contains(target))
                    && !after.commits.skipped.contains(target)
                &&& merits && !known ==> !after.resolved(target)
                &&& !merits ==> after.commits.skipped.contains(target)
                &&& !known && !s.fallback.recovery.contains(target) && (merits || s.history_of(
                    anchor,
                ).by_round.len() > 0) ==> self.resolve(
                    s.stack_lane(anchor_round),
                    anchor,
                    anchor_round,
                    now,
                ).commits.requests.contains((target, self.lead(target)))
            }),
    {
        let lane = lane_of(anchor_round);
        let anchor = self.sighted(s, anchor_round)->0;
        let stacked = s.stack_lane(anchor_round);
        let staged = self.resolve(stacked, anchor, anchor_round, now);
        self.lemma_sighted(s, anchor_round);
        s.lemma_same_graph(stacked);
        assert forall|r: Round| s.unresolved(r) == #[trigger] stacked.unresolved(r) by {}
        assert(stacked.stacks_all(lane, anchor_round));
        s.lemma_same_history_of(stacked, anchor);
        self.lemma_same_merits(s, stacked, anchor, target);
        self.lemma_due(stacked, anchor, anchor_round, now, target);
        self.lemma_resolve(stacked, anchor, anchor_round, now);
        staged.lemma_drain(self.gc_depth);
        let after = staged.drain(self.gc_depth);
        assert(staged.resolved(target) ==> after.resolved(target));
        assert(after.resolved(target) ==> staged.resolved(target));
    }

    /// An anchor with an incomplete history decides nothing: the newest open
    /// leader of its lane stays open, and its block is sought if it is missing.
    proof fn lemma_undecided(
        &self,
        s: StateView,
        anchor: Certificate,
        limit: Round,
        now: Time,
        target: Round,
    )
        requires
            s.wf(),
            s.settled(anchor),
            s.stacks_all(lane_of(anchor.round()), limit),
            0 < target < limit,
            lane_of(target) == lane_of(anchor.round()),
            s.unresolved(target),
            forall|r: Round|
                target < r < limit && lane_of(r) == lane_of(anchor.round())
                    ==> !#[trigger] s.unresolved(r),
            !s.history_of(anchor).complete,
        ensures
            ({
                let after = self.resolve(s, anchor, limit, now);
                &&& forall|r: Round| #[trigger] after.unresolved(r) == s.unresolved(r)
                &&& after.commits.pending == s.commits.pending
                &&& after.commits.skipped == s.commits.skipped
                &&& after.fallback.decision_cache == s.fallback.decision_cache
                &&& self.sighted(s, target) is None ==> after.fallback.recovery.contains(target)
            }),
        decreases limit,
    {
        let lane = lane_of(anchor.round());
        assert(s.fallback.stack.contains(target));
        assert(s.awaits(lane, limit, target));
        s.lemma_newest(lane, limit, target);
        let newest = choose|t: Round| s.is_newest(lane, limit, t);
        assert(s.is_newest(lane, limit, newest));
        if newest != target {
            let next = s.unstack(newest);
            assert(target < newest);
            assert(!s.unresolved(newest));
            s.lemma_same_graph(next);
            assert(next.stacks_all(lane, newest)) by {
                assert forall|r: Round|
                    0 < r < newest && lane_of(r) == lane && next.unresolved(r) implies #[trigger]
                next.fallback.stack.contains(r) by {
                    assert(s.unresolved(r));
                    assert(s.fallback.stack.contains(r));
                }
            }
            assert forall|r: Round| target < r < newest && lane_of(r) == lane implies !(
            #[trigger] next.unresolved(r)) by {
                assert(!s.unresolved(r));
            }
            s.lemma_same_history_of(next, anchor);
            assert(self.sighted(next, target) == self.sighted(s, target));
            self.lemma_undecided(next, anchor, newest, now, target);
            assert forall|r: Round| #[trigger]
                self.resolve(s, anchor, limit, now).unresolved(r) == s.unresolved(r) by {
                assert(next.unresolved(r) == s.unresolved(r));
            }
        } else {
            let looked = s.snapshot(anchor);
            assert(self.sighted(looked, target) == self.sighted(s, target));
        }
    }

    /// A finalization on an incomplete history decides nothing, and remembers no
    /// decision.
    pub proof fn law_incomplete_history_decides_nothing(
        &self,
        s: StateView,
        anchor_round: Round,
        now: Time,
        target: Round,
    )
        requires
            s.wf(),
            s.is_anchor(anchor_round),
            self.sighted(s, anchor_round) is Some,
            0 < target < anchor_round,
            lane_of(target) == lane_of(anchor_round),
            s.unresolved(target),
            forall|r: Round|
                target < r < anchor_round && lane_of(r) == lane_of(anchor_round)
                    ==> !#[trigger] s.unresolved(r),
            !s.history_of(self.sighted(s, anchor_round)->0).complete,
        ensures
            ({
                let after = self.finalize(s, anchor_round, now);
                &&& !after.resolved(target)
                &&& after.commits.skipped == s.commits.skipped
            }),
    {
        let lane = lane_of(anchor_round);
        let anchor = self.sighted(s, anchor_round)->0;
        let stacked = s.stack_lane(anchor_round);
        let staged = self.resolve(stacked, anchor, anchor_round, now);
        self.lemma_sighted(s, anchor_round);
        s.lemma_same_graph(stacked);
        assert forall|r: Round| s.unresolved(r) == #[trigger] stacked.unresolved(r) by {}
        assert(stacked.stacks_all(lane, anchor_round));
        s.lemma_same_history_of(stacked, anchor);
        self.lemma_undecided(stacked, anchor, anchor_round, now, target);
        self.lemma_resolve(stacked, anchor, anchor_round, now);
        staged.lemma_drain(self.gc_depth);
        assert(staged.unresolved(target));
        assert(!staged.resolved(target));
        assert(staged.drain(self.gc_depth).resolved(target) ==> staged.resolved(target));
    }

    /// A decision that is remembered at the revision of the history stands,
    /// whatever the votes.
    pub proof fn law_remembered_decision_stands(
        &self,
        s: StateView,
        anchor: Certificate,
        leader: Option<Certificate>,
        target: Round,
        history: HistoryView,
    )
        requires
            s.fallback.decision_cache.contains_key((anchor.round(), target)),
            s.fallback.decision_cache[(anchor.round(), target)].version == history.version,
        ensures
            self.decides(s, anchor, leader, target, history)
                == s.fallback.decision_cache[(anchor.round(), target)].commit,
    {
    }

    /// If authors that hold a third of the stake have observed blocks three
    /// rounds above the newest open leader of a lane in the whole history of an
    /// anchor further up, and each of these blocks has a strong path to the block
    /// of the leader, or strong parents of authors with a third of the stake from
    /// which one or two strong edges and a virtual one lead to a block of the
    /// leader, then the finalization stages the leader and does not skip it.
    pub proof fn law_voted_leader_is_staged(
        &self,
        s: StateView,
        anchor_round: Round,
        now: Time,
        target: Round,
        voters: Set<PublicKey>,
    )
        requires
            s.wf(),
            s.is_anchor(anchor_round),
            self.sighted(s, anchor_round) is Some,
            self.is_due(s, self.sighted(s, anchor_round)->0, anchor_round, target),
            target + 3 < anchor_round,
            self.sighted(s, target) is Some,
            self.committee.holds_third(voters),
            forall|a: PublicKey| #[trigger]
                voters.contains(a) ==> exists|d: Digest| #[trigger]
                    s.graph.observed.contains_key(d) && s.graph.observed[d].origin() == a
                        && s.graph.observed[d].round() == target + 3 && s.history_of(
                        self.sighted(s, anchor_round)->0,
                    ).by_round.contains(((target + 3) as Round, d)) && (s.strong_path(
                        s.graph.observed[d],
                        (self.sighted(s, target)->0).digest(),
                    ) || self.committee.holds_third(
                        s.graph.vouchers(s.graph.observed[d], target, self.lead(target)),
                    )),
        ensures
            ({
                let after = self.finalize(s, anchor_round, now);
                &&& after.commits.pending.contains_key(target)
                    || after.commits.committed.contains(target)
                &&& !after.commits.skipped.contains(target)
            }),
    {
        let anchor = self.sighted(s, anchor_round)->0;
        let history = s.history_of(anchor);
        self.lemma_sighted(s, anchor_round);
        let favouring = self.favouring(s, history, target);
        assert forall|a: PublicKey| voters.contains(a) implies favouring.contains(a) by {
            let d = choose|d: Digest| #[trigger]
                s.graph.observed.contains_key(d) && s.graph.observed[d].origin() == a
                    && s.graph.observed[d].round() == target + 3 && history.by_round.contains(
                    ((target + 3) as Round, d),
                ) && (s.strong_path(s.graph.observed[d], (self.sighted(s, target)->0).digest())
                    || self.committee.holds_third(
                    s.graph.vouchers(s.graph.observed[d], target, self.lead(target)),
                ));
            assert(self.favours(s, s.graph.observed[d], target));
        }
        self.committee.lemma_weight_monotone(voters, favouring);
        self.law_finalization_follows_the_votes(s, anchor_round, now, target);
    }
}

} // verus!
