//! A cached history is the one that a traversal would find.
use crate::consensus::model::{first_of, reaches, StateView};
use crate::consensus::paths::{lemma_reaches_on, lemma_reaches_root, lemma_reaches_within};
use crate::types::{Certificate, Digest, Header, Round};
use vstd::prelude::*;

verus! {

impl StateView {
    /// The history of an anchor has been traversed and is watched: what it
    /// lacks would wake the anchor.
    pub open spec fn watches(self, anchor: Certificate) -> bool {
        &&& self.fallback.history_cache.contains_key(anchor.round())
        &&& forall|d: Digest| #[trigger]
            self.lacking(*anchor.header).contains(d) ==> self.fallback.evidence_waiters.contains(
                (d, anchor.round()),
            )
    }

    /// If the cached history of an anchor is current, it is the one that a
    /// traversal finds.
    pub open spec fn coherent(self, anchor: Certificate) -> bool {
        self.history_cached(anchor.round())
            ==> self.fallback.history_cache[anchor.round()] == self.traversed(anchor)
    }

    /// After a traversal the cached history is right and watched.
    pub proof fn law_traversal_is_remembered(self, anchor: Certificate)
        requires
            !self.history_cached(anchor.round()),
        ensures
            self.snapshot(anchor).coherent(anchor),
            self.snapshot(anchor).watches(anchor),
            self.snapshot(anchor).history_cached(anchor.round()),
    {
        let after = self.snapshot(anchor);
        assert(after.causal_edges() =~= self.causal_edges());
        let header = anchor.content();
        assert forall|d: Digest| after.in_history(header, d) == self.in_history(header, d) by {}
        assert(after.virtual_evidence(header) =~= self.virtual_evidence(header));
        assert(after.lacking(header) =~= self.lacking(header));
        assert(after.known_history(header) =~= self.known_history(header));
        assert(after.traversed(anchor) =~= self.traversed(anchor));
    }

    /// A first observation leaves the cached history of the active anchor right,
    /// or has it traversed anew: what the history lacked wakes the anchor, and
    /// nothing else changes the history. The revision counter must not have come
    /// back to the revision of the cached history.
    pub proof fn law_cached_history_stays_right(self, anchor: Certificate, c: Certificate)
        requires
            self.is_anchor(anchor.round()),
            self.watches(anchor),
            self.coherent(anchor),
            !self.graph.observed.contains_key(c.digest()),
            self.revise().fallback.evidence_version
                != self.fallback.history_cache[anchor.round()].version,
        ensures
            self.learn(c).coherent(anchor),
    {
        let round = anchor.round();
        let header = anchor.content();
        let after = self.learn(c);
        let first = self.record(c).revise();
        let woken = first.wake_users(set![c.digest()]);
        let edged = woken.add_edges(c.content());
        let pairs = edged.fresh_pairs(c.digest(), woken.inherited(c.content()));
        let indexed = edged.index_block(c.digest());
        let version = first.fallback.evidence_version;
        // Waking stamps the new revision and nothing else.
        assert(after.fallback == indexed.wake_users(first_of(pairs)).fallback) by {
            let grown = StateView { graph: after.graph, ..indexed };
            indexed.lemma_wake_local(grown, first_of(pairs));
        }
        assert(after.fallback.history_cache == self.fallback.history_cache);
        if self.lacking(header).contains(c.digest()) {
            assert(self.fallback.evidence_waiters.contains((c.digest(), round)));
            assert(set![c.digest()].contains(c.digest()));
            assert(first.users_of(set![c.digest()]).contains(round));
            assert(woken.fallback.anchor_versions[round] == version);
            assert(after.fallback.anchor_versions[round] == version);
            assert(!after.history_cached(round));
        } else if after.history_cached(round) {
            assert(after.version_of(round) == self.version_of(round)) by {
                assert(after.fallback.anchor_versions.contains_key(round)
                    ==> after.fallback.anchor_versions[round] == version || (
                self.fallback.anchor_versions.contains_key(round)
                    && after.fallback.anchor_versions[round]
                    == self.fallback.anchor_versions[round]));
            }
            assert(after.graph.observed == self.graph.observed.insert(c.digest(), c));
            self.lemma_same_history(after, c, header);
            assert forall|x: (Round, Digest)|
                after.traversed(anchor).by_round.contains(x) == self.traversed(
                    anchor,
                ).by_round.contains(x) by {
                assert(after.known_history(header).contains(x.1) == self.known_history(
                    header,
                ).contains(x.1));
            }
            assert(after.traversed(anchor) =~= self.traversed(anchor));
        }
    }

    /// A block that the evidence on `header` does not lack changes no history.
    proof fn lemma_same_history(self, after: StateView, c: Certificate, header: Header)
        requires
            !self.graph.observed.contains_key(c.digest()),
            !self.lacking(header).contains(c.digest()),
            after.graph.observed == self.graph.observed.insert(c.digest(), c),
        ensures
            after.lacking(header) == self.lacking(header),
            after.known_history(header) == self.known_history(header),
            !self.known_history(header).contains(c.digest()),
    {
        let roots = header.dependency_set();
        let d0 = c.digest();
        assert(!self.in_history(header, d0));
        assert forall|d: Digest| after.in_history(header, d) == self.in_history(header, d) by {
            lemma_same_reach(roots, self.causal_edges(), after.causal_edges(), d0, d);
        }
        assert forall|t: Digest| after.virtual_evidence(header).contains(t)
            == self.virtual_evidence(header).contains(t) by {
            if self.virtual_evidence(header).contains(t) && !header.virtual_edges@.contains(t) {
                let d = choose|d: Digest| #[trigger]
                    self.graph.observed.contains_key(d) && self.in_history(header, d)
                        && self.graph.observed[d].header.virtual_edges@.contains(t);
                assert(after.graph.observed.contains_key(d));
            }
            if after.virtual_evidence(header).contains(t) && !header.virtual_edges@.contains(t) {
                let d = choose|d: Digest| #[trigger]
                    after.graph.observed.contains_key(d) && after.in_history(header, d)
                        && after.graph.observed[d].header.virtual_edges@.contains(t);
                assert(d != d0);
                assert(self.graph.observed.contains_key(d));
            }
        }
        assert(after.lacking(header) =~= self.lacking(header));
        assert(after.known_history(header) =~= self.known_history(header));
    }
}

/// Edges out of what is not reached make no difference.
proof fn lemma_same_reach(
    roots: Set<Digest>,
    fewer: spec_fn(Digest) -> Set<Digest>,
    edges: spec_fn(Digest) -> Set<Digest>,
    d0: Digest,
    to: Digest,
)
    requires
        !reaches(roots, fewer, d0),
        fewer(d0) == Set::<Digest>::empty(),
        forall|d: Digest| d != d0 ==> #[trigger] edges(d) == fewer(d),
    ensures
        reaches(roots, edges, to) == reaches(roots, fewer, to),
{
    if reaches(roots, fewer, to) {
        let held = Set::new(|x: Digest| reaches(roots, edges, x));
        assert forall|x: Digest| #[trigger] roots.contains(x) implies held.contains(x) by {
            lemma_reaches_root(roots, edges, x);
        }
        assert forall|v: Digest, x: Digest|
            #![trigger held.contains(v), fewer(v).contains(x)]
            held.contains(v) && fewer(v).contains(x) implies held.contains(x) by {
            assert(edges(v) == fewer(v));
            lemma_reaches_on(roots, edges, v, x);
        }
        lemma_reaches_within(roots, fewer, held, to);
    }
    if reaches(roots, edges, to) {
        let held = Set::new(|x: Digest| reaches(roots, fewer, x));
        assert forall|x: Digest| #[trigger] roots.contains(x) implies held.contains(x) by {
            lemma_reaches_root(roots, fewer, x);
        }
        assert forall|v: Digest, x: Digest|
            #![trigger held.contains(v), edges(v).contains(x)]
            held.contains(v) && edges(v).contains(x) implies held.contains(x) by {
            assert(v != d0);
            assert(edges(v) == fewer(v));
            lemma_reaches_on(roots, fewer, v, x);
        }
        lemma_reaches_within(roots, edges, held, to);
    }
}

} // verus!
