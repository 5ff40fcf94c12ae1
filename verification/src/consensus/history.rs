//! The causal history that a recovery anchor decides on.
use crate::consensus::model::{FallbackView, StateView};
use crate::consensus::paths::{lemma_reaches_on, lemma_reaches_root, lemma_reaches_within};
use crate::consensus::state::{History, State};
use crate::ordered::{lemma_take_contains, OrdSet, Relation};
use crate::types::{share, Certificate, Digest, Header, Round};
use std::sync::Arc;
use vstd::prelude::*;

verus! {

impl StateView {
    /// A history holds the dependencies of its observed blocks.
    pub proof fn lemma_history_grows(self, header: Header, via: Digest, to: Digest)
        requires
            self.in_history(header, via),
            self.graph.observed.contains_key(via),
            self.graph.observed[via].header.depends_on(to),
        ensures
            self.in_history(header, to),
    {
        lemma_reaches_on(header.dependency_set(), self.causal_edges(), via, to);
    }

    /// A history begins with the dependencies of the header.
    pub proof fn lemma_history_begins(self, header: Header, digest: Digest)
        requires
            header.depends_on(digest),
        ensures
            self.in_history(header, digest),
    {
        lemma_reaches_root(header.dependency_set(), self.causal_edges(), digest);
    }

    /// What holds the dependencies of the header, and with an observed block
    /// its dependencies, holds the history.
    pub proof fn lemma_history_within(self, header: Header, visited: Set<Digest>, digest: Digest)
        requires
            self.in_history(header, digest),
            forall|d: Digest| #[trigger] header.depends_on(d) ==> visited.contains(d),
            forall|v: Digest, d: Digest|
                #![trigger visited.contains(v), self.graph.observed[v].header.depends_on(d)]
                visited.contains(v) && self.graph.observed.contains_key(v)
                    && self.graph.observed[v].header.depends_on(d) ==> visited.contains(d),
        ensures
            visited.contains(digest),
    {
        let roots = header.dependency_set();
        let edges = self.causal_edges();
        assert forall|d: Digest| #[trigger] roots.contains(d) implies visited.contains(d) by {
            assert(header.depends_on(d));
        }
        assert forall|v: Digest, d: Digest|
            #![trigger visited.contains(v), edges(v).contains(d)]
            visited.contains(v) && edges(v).contains(d) implies visited.contains(d) by {
            assert(self.graph.observed[v].header.depends_on(d));
        }
        lemma_reaches_within(roots, edges, visited, digest);
    }
}

impl State {
    /// Adds the unobserved digests among `digests` to `lacking`.
    fn collect_unobserved(&self, digests: &OrdSet<Digest>, lacking: &mut OrdSet<Digest>)
        ensures
            forall|d: Digest| #[trigger]
                final(lacking)@.contains(d) <==> old(lacking)@.contains(d) || (digests@.contains(d)
                    && !self@.graph.observed.contains_key(d)),
    {
        let ghost had = lacking@;
        let all = digests.items();
        let mut i: usize = 0;
        while i < all.len()
            invariant
                i <= all@.len(),
                forall|d: Digest| #[trigger]
                    lacking@.contains(d) <==> had.contains(d) || (all@.take(i as int).contains(d)
                        && !self@.graph.observed.contains_key(d)),
            decreases all@.len() - i,
        {
            proof {
                lemma_take_contains(all@, i as int);
            }
            if !self.graph.observed.contains_key(&all[i]) {
                lacking.insert(all[i]);
            }
            i += 1;
        }
        proof {
            assert(all@.take(all@.len() as int) =~= all@);
            assert forall|d: Digest| all@.contains(d) == digests@.contains(d) by {
                assert(all@.to_set().contains(d) == all@.contains(d));
            }
        }
    }

    /// Walks the causal history of a header: its observed blocks, and what is
    /// missing from the evidence on it.
    fn traverse_history(&self, header: &Header) -> (result: (OrdSet<Digest>, OrdSet<Digest>))
        requires
            self@.wf(),
        ensures
            result.0@ == self@.known_history(*header),
            result.1@ == self@.lacking(*header),
    {
        let ghost model = self@;
        let ghost observed = model.graph.observed;
        let mut pending = header.edges();
        let mut visited: OrdSet<Digest> = OrdSet::new();
        let mut met: OrdSet<Digest> = OrdSet::new();
        let mut lacking: OrdSet<Digest> = OrdSet::new();
        self.collect_unobserved(&header.virtual_edges, &mut lacking);
        proof {
            header.lemma_dependencies();
            assert forall|d: Digest| #[trigger] pending@.contains(d) implies model.in_history(
                *header,
                d,
            ) by {
                assert(header.dependencies().contains(d));
                model.lemma_history_begins(*header, d);
            }
            assert forall|d: Digest| #[trigger] header.depends_on(d) implies pending@.contains(
                d,
            ) by {
                assert(header.dependencies().contains(d));
            }
        }
        while pending.len() > 0
            invariant
                model == self@,
                observed == model.graph.observed,
                observed.dom().finite(),
                forall|d: Digest| #[trigger]
                    visited@.contains(d) ==> model.in_history(*header, d),
                forall|d: Digest| #[trigger]
                    pending@.contains(d) ==> model.in_history(*header, d),
                forall|d: Digest| #[trigger]
                    header.depends_on(d) ==> visited@.contains(d) || pending@.contains(d),
                forall|v: Digest, d: Digest|
                    #![trigger visited@.contains(v), observed[v].header.depends_on(d)]
                    visited@.contains(v) && observed.contains_key(v)
                        && observed[v].header.depends_on(d) ==> visited@.contains(d)
                        || pending@.contains(d),
                forall|d: Digest| #[trigger]
                    met@.contains(d) <==> visited@.contains(d) && observed.contains_key(d),
                forall|d: Digest| #[trigger]
                    lacking@.contains(d) <==> !observed.contains_key(d) && (visited@.contains(d)
                        || header.virtual_edges@.contains(d) || exists|v: Digest| #[trigger]
                        met@.contains(v) && observed[v].header.virtual_edges@.contains(d)),
            decreases observed.dom().difference(visited@).len(), pending@.len(),
        {
            let ghost stack = pending@;
            let ghost seen = visited@;
            let ghost had_met = met@;
            let ghost had_lacking = lacking@;
            let digest = pending.pop().unwrap();
            let ghost rest = pending@;
            proof {
                assert forall|d: Digest|
                    #![trigger stack.contains(d)]
                    #![trigger rest.contains(d)]
                    stack.contains(d) == (rest.contains(d) || d == digest) by {
                    if stack.contains(d) {
                        let i = choose|i: int| 0 <= i < stack.len() && stack[i] == d;
                        if i < rest.len() {
                            assert(rest[i] == d);
                        }
                    }
                    if rest.contains(d) {
                        let i = choose|i: int| 0 <= i < rest.len() && rest[i] == d;
                        assert(stack[i] == d);
                    }
                    assert(stack[stack.len() - 1] == digest);
                }
                assert(stack.contains(digest));
                assert(model.in_history(*header, digest));
            }
            if !visited.insert(digest) {
                proof {
                    assert(visited@ =~= seen);
                }
                continue ;
            }
            match self.graph.observed.get(&digest) {
                None => {
                    lacking.insert(digest);
                    proof {
                        assert(observed.dom().difference(visited@) =~= observed.dom().difference(
                            seen,
                        ));
                    }
                },
                Some(vertex) => {
                    met.insert(digest);
                    self.collect_unobserved(&vertex.header.virtual_edges, &mut lacking);
                    let mut dependencies = vertex.header.edges();
                    let ghost deps = dependencies@;
                    pending.append(&mut dependencies);
                    proof {
                        vertex.header.lemma_dependencies();
                        assert forall|d: Digest| #[trigger]
                            pending@.contains(d) == (rest.contains(d)
                                || vertex.header.depends_on(d)) by {
                            assert(vertex.header.dependencies().contains(d)
                                == vertex.header.depends_on(d));
                            if pending@.contains(d) {
                                let i = choose|i: int| 0 <= i < pending@.len() && pending@[i] == d;
                                if i < rest.len() {
                                    assert(rest[i] == d);
                                } else {
                                    assert(deps[i - rest.len()] == d);
                                }
                            }
                            if rest.contains(d) {
                                let i = choose|i: int| 0 <= i < rest.len() && rest[i] == d;
                                assert(pending@[i] == d);
                            }
                            if deps.contains(d) {
                                let i = choose|i: int| 0 <= i < deps.len() && deps[i] == d;
                                assert(pending@[rest.len() + i] == d);
                            }
                        }
                        assert forall|d: Digest| #[trigger]
                            pending@.contains(d) implies model.in_history(*header, d) by {
                            assert(rest.contains(d) ==> stack.contains(d));
                            if vertex.header.depends_on(d) {
                                model.lemma_history_grows(*header, digest, d);
                            }
                        }
                        assert forall|d: Digest| #[trigger]
                            lacking@.contains(d) <==> !observed.contains_key(d) && (
                            visited@.contains(d) || header.virtual_edges@.contains(d) || exists|
                                v: Digest,
                            | #[trigger]
                                met@.contains(v) && observed[v].header.virtual_edges@.contains(d)) by {
                            if had_lacking.contains(d) && !seen.contains(d)
                                && !header.virtual_edges@.contains(d) {
                                let v = choose|v: Digest| #[trigger]
                                    had_met.contains(v)
                                        && observed[v].header.virtual_edges@.contains(d);
                                assert(met@.contains(v));
                            }
                            assert(met@.contains(digest));
                            if exists|v: Digest| #[trigger]
                                met@.contains(v) && observed[v].header.virtual_edges@.contains(d) {
                                let v = choose|v: Digest| #[trigger]
                                    met@.contains(v)
                                        && observed[v].header.virtual_edges@.contains(d);
                                assert(had_met.contains(v) || v == digest);
                            }
                        }
                        assert(observed.dom().difference(visited@) =~= observed.dom().difference(
                            seen,
                        ).remove(digest));
                    }
                },
            }
        }
        proof {
            assert forall|d: Digest| visited@.contains(d) == model.in_history(*header, d) by {
                if model.in_history(*header, d) {
                    model.lemma_history_within(*header, visited@, d);
                }
            }
            assert(met@ =~= model.known_history(*header));
            assert forall|d: Digest| lacking@.contains(d) == model.lacking(*header).contains(d) by {
                if model.virtual_evidence(*header).contains(d)
                    && !header.virtual_edges@.contains(d) {
                    let v = choose|v: Digest| #[trigger]
                        observed.contains_key(v) && model.in_history(*header, v)
                            && observed[v].header.virtual_edges@.contains(d);
                    assert(met@.contains(v));
                }
                if lacking@.contains(d) && !visited@.contains(d)
                    && !header.virtual_edges@.contains(d) {
                    let v = choose|v: Digest| #[trigger]
                        met@.contains(v) && observed[v].header.virtual_edges@.contains(d);
                    assert(observed.contains_key(v));
                }
            }
            assert(lacking@ =~= model.lacking(*header));
        }
        (met, lacking)
    }

    /// The strong and weak causal history of an anchor. A current history is
    /// taken from the cache. Otherwise it is found anew, and the anchor is
    /// woken by every block that was met or missed.
    pub fn fallback_history_snapshot(&mut self, anchor: &Certificate) -> (history: Arc<History>)
        requires
            old(self)@.wf(),
        ensures
            final(self)@ == old(self)@.snapshot(*anchor),
            (*history)@ == old(self)@.history_of(*anchor),
            final(self)@.wf(),
            old(self)@.keeps(final(self)@),
    {
        let ghost start = self@;
        let anchor_round = anchor.round();
        let version = match self.fallback.anchor_versions.get(&anchor_round) {
            Some(version) => *version,
            None => self.fallback.evidence_version,
        };
        if let Some(cached) = self.fallback.history_cache.get(&anchor_round) {
            if cached.version == version {
                let result = share(cached);
                proof {
                    assert(start.fallback.history_cache.contains_key(anchor_round));
                }
                return result;
            }
        }
        let (met, lacking) = self.traverse_history(&anchor.header);
        let ghost known = start.known_history(anchor.content());
        let mut by_round: Relation<Round, Digest> = Relation::new();
        let vertices = met.items();
        let mut i: usize = 0;
        proof {
            assert forall|k: int| 0 <= k < vertices@.len() implies start.graph.observed.contains_key(
                #[trigger] vertices@[k],
            ) by {
                assert(vertices@.to_set().contains(vertices@[k]));
            }
        }
        while i < vertices.len()
            invariant
                i <= vertices@.len(),
                forall|k: int|
                    0 <= k < vertices@.len() ==> start.graph.observed.contains_key(
                        #[trigger] vertices@[k],
                    ),
                self@ == (StateView {
                    fallback: FallbackView {
                        vertex_users: start.fallback.vertex_users.union(
                            Set::new(
                                |p: (Digest, Round)|
                                    vertices@.take(i as int).contains(p.0) && p.1 == anchor_round,
                            ),
                        ),
                        ..start.fallback
                    },
                    ..start
                }),
                forall|x: (Round, Digest)| #[trigger]
                    by_round@.contains(x) <==> vertices@.take(i as int).contains(x.1)
                        && start.graph.observed[x.1].round() == x.0,
            decreases vertices@.len() - i,
        {
            proof {
                lemma_take_contains(vertices@, i as int);
                assert(start.graph.observed.contains_key(vertices@[i as int]));
            }
            let digest = vertices[i];
            if let Some(vertex) = self.graph.observed.get(&digest) {
                by_round.insert(vertex.round(), digest);
            }
            self.fallback.vertex_users.insert(digest, anchor_round);
            i += 1;
        }
        let ghost used = self@;
        let unseen = lacking.items();
        let mut j: usize = 0;
        while j < unseen.len()
            invariant
                j <= unseen@.len(),
                used.fallback.evidence_waiters == start.fallback.evidence_waiters,
                self@ == (StateView {
                    fallback: FallbackView {
                        evidence_waiters: start.fallback.evidence_waiters.union(
                            Set::new(
                                |p: (Digest, Round)|
                                    unseen@.take(j as int).contains(p.0) && p.1 == anchor_round,
                            ),
                        ),
                        ..used.fallback
                    },
                    ..used
                }),
            decreases unseen@.len() - j,
        {
            proof {
                lemma_take_contains(unseen@, j as int);
            }
            self.fallback.evidence_waiters.insert(unseen[j], anchor_round);
            j += 1;
        }
        let ghost waited = self@;
        let history = Arc::new(History { version, complete: lacking.is_empty(), by_round });
        let ghost cache = self.fallback.history_cache@;
        self.fallback.history_cache.insert(anchor_round, share(&history));
        proof {
            assert(vertices@.take(vertices@.len() as int) =~= vertices@);
            assert(unseen@.take(unseen@.len() as int) =~= unseen@);
            assert forall|d: Digest| vertices@.contains(d) == known.contains(d) by {
                assert(vertices@.to_set().contains(d) == vertices@.contains(d));
            }
            assert forall|d: Digest| unseen@.contains(d) == start.lacking(
                anchor.content(),
            ).contains(d) by {
                assert(unseen@.to_set().contains(d) == unseen@.contains(d));
            }
            assert(by_round@ =~= start.traversed(*anchor).by_round);
            assert((*history)@ =~= start.traversed(*anchor));
            assert(self.fallback.history_cache@.map_values(|h: Arc<History>| (*h)@)
                =~= cache.map_values(|h: Arc<History>| (*h)@).insert(anchor_round, (*history)@));
            assert(self@ =~= start.snapshot(*anchor));
            start.lemma_snapshot(*anchor);
        }
        history
    }

    /// The decision that an anchor made on a leader at an evidence revision.
    pub fn fallback_decision(&self, anchor_round: Round, target_round: Round, version: u64)
        -> (result: Option<bool>)
        ensures
            result == self@.cached_decision(anchor_round, target_round, version),
    {
        match self.fallback.decision_cache.get(&(anchor_round, target_round)) {
            Some(decision) => {
                if decision.version == version {
                    Some(decision.commit)
                } else {
                    None
                }
            },
            None => None,
        }
    }
}

impl StateView {
    /// Looking up a history keeps the state well-formed.
    pub proof fn lemma_snapshot(self, anchor: Certificate)
        requires
            self.wf(),
        ensures
            self.snapshot(anchor).wf(),
            self.keeps(self.snapshot(anchor)),
    {
        let after = self.snapshot(anchor);
        assert(after.placed());
        assert(after.closed_paths());
        assert(after.tracked_leaders());
    }
}

} // verus!
