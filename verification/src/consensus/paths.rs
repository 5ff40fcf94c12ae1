//! Facts on walks and on the index of strong paths.
use crate::consensus::model::{
    first_of, is_path, is_walk, leads_to, reaches, StateView, Support,
};
use crate::ordered::OrdSet;
use crate::types::{Digest, Header, PublicKey, Round};
use vstd::prelude::*;

verus! {

/// The pairs of a finite set with a finite set are finitely many.
pub proof fn lemma_pairs_finite<A, B>(firsts: Set<A>, seconds: Set<B>, pairs: Set<(A, B)>)
    requires
        firsts.finite(),
        seconds.finite(),
        forall|p: (A, B)| #[trigger] pairs.contains(p) ==> firsts.contains(p.0) && seconds.contains(
            p.1,
        ),
    ensures
        pairs.finite(),
    decreases firsts.len(),
{
    if firsts.len() == 0 {
        assert(pairs =~= Set::empty());
    } else {
        let a = firsts.choose();
        let others = pairs.filter(|p: (A, B)| p.0 != a);
        lemma_pairs_finite(firsts.remove(a), seconds, others);
        let row = seconds.map(|b: B| (a, b));
        seconds.lemma_map_finite(|b: B| (a, b));
        assert forall|p: (A, B)| pairs.contains(p) implies others.union(row).contains(p) by {
            if p.0 == a {
                assert(row.contains((a, p.1)));
            }
        }
        vstd::set_lib::lemma_set_subset_finite(others.union(row), pairs);
    }
}

/// What leads to a block leads to its children.
pub proof fn lemma_leads_on(edges: Set<(Digest, Digest)>, from: Digest, via: Digest, to: Digest)
    requires
        leads_to(edges, from, via),
        edges.contains((via, to)),
    ensures
        leads_to(edges, from, to),
{
    let p = choose|p: Seq<Digest>|
        #![trigger is_walk(edges, p)]
        p.len() > 0 && p[0] == from && p.last() == via && is_walk(edges, p);
    let q = p.push(to);
    assert forall|i: int| 0 <= i < q.len() - 1 implies edges.contains((#[trigger] q[i], q[i + 1])) by {
        if i < p.len() - 1 {
            assert(edges.contains((p[i], p[i + 1])));
        }
    }
    assert(is_walk(edges, q));
}

/// A block leads to itself.
pub proof fn lemma_leads_to_itself(edges: Set<(Digest, Digest)>, from: Digest)
    ensures
        leads_to(edges, from, from),
{
    assert(is_walk(edges, seq![from]));
}

/// A property that `edges` hand on holds wherever they lead.
pub proof fn lemma_walk_keeps(
    edges: Set<(Digest, Digest)>,
    keeps: spec_fn(Digest) -> bool,
    from: Digest,
    to: Digest,
)
    requires
        leads_to(edges, from, to),
        keeps(from),
        forall|a: Digest, b: Digest|
            #![trigger edges.contains((a, b))]
            edges.contains((a, b)) && keeps(a) ==> keeps(b),
    ensures
        keeps(to),
{
    let p = choose|p: Seq<Digest>|
        #![trigger is_walk(edges, p)]
        p.len() > 0 && p[0] == from && p.last() == to && is_walk(edges, p);
    lemma_walk_keeps_upto(edges, keeps, p, p.len() - 1);
}

proof fn lemma_walk_keeps_upto(
    edges: Set<(Digest, Digest)>,
    keeps: spec_fn(Digest) -> bool,
    p: Seq<Digest>,
    n: int,
)
    requires
        is_walk(edges, p),
        0 <= n < p.len(),
        keeps(p[0]),
        forall|a: Digest, b: Digest|
            #![trigger edges.contains((a, b))]
            edges.contains((a, b)) && keeps(a) ==> keeps(b),
    ensures
        keeps(p[n]),
    decreases n,
{
    if n > 0 {
        lemma_walk_keeps_upto(edges, keeps, p, n - 1);
        assert(edges.contains((p[n - 1], p[n - 1 + 1])));
    }
}

/// A root is reached.
pub proof fn lemma_reaches_root(
    roots: Set<Digest>,
    edges: spec_fn(Digest) -> Set<Digest>,
    root: Digest,
)
    requires
        roots.contains(root),
    ensures
        reaches(roots, edges, root),
{
    assert(is_path(edges, seq![root]));
}

/// What is reached reaches on along its edges.
pub proof fn lemma_reaches_on(
    roots: Set<Digest>,
    edges: spec_fn(Digest) -> Set<Digest>,
    via: Digest,
    to: Digest,
)
    requires
        reaches(roots, edges, via),
        edges(via).contains(to),
    ensures
        reaches(roots, edges, to),
{
    let p = choose|p: Seq<Digest>|
        #![trigger is_path(edges, p)]
        p.len() > 0 && roots.contains(p[0]) && p.last() == via && is_path(edges, p);
    let q = p.push(to);
    assert forall|i: int| 0 <= i < q.len() - 1 implies edges(#[trigger] q[i]).contains(q[i + 1]) by {
        if i < p.len() - 1 {
            assert(edges(p[i]).contains(p[i + 1]));
        }
    }
    assert(is_path(edges, q));
}

/// What holds the roots and is closed under the edges holds all that is reached.
pub proof fn lemma_reaches_within(
    roots: Set<Digest>,
    edges: spec_fn(Digest) -> Set<Digest>,
    visited: Set<Digest>,
    to: Digest,
)
    requires
        reaches(roots, edges, to),
        forall|d: Digest| #[trigger] roots.contains(d) ==> visited.contains(d),
        forall|v: Digest, d: Digest|
            #![trigger visited.contains(v), edges(v).contains(d)]
            visited.contains(v) && edges(v).contains(d) ==> visited.contains(d),
    ensures
        visited.contains(to),
{
    let p = choose|p: Seq<Digest>|
        #![trigger is_path(edges, p)]
        p.len() > 0 && roots.contains(p[0]) && p.last() == to && is_path(edges, p);
    lemma_path_within(roots, edges, visited, p, p.len() - 1);
}

proof fn lemma_path_within(
    roots: Set<Digest>,
    edges: spec_fn(Digest) -> Set<Digest>,
    visited: Set<Digest>,
    p: Seq<Digest>,
    n: int,
)
    requires
        0 <= n < p.len(),
        roots.contains(p[0]),
        is_path(edges, p),
        forall|d: Digest| #[trigger] roots.contains(d) ==> visited.contains(d),
        forall|v: Digest, d: Digest|
            #![trigger visited.contains(v), edges(v).contains(d)]
            visited.contains(v) && edges(v).contains(d) ==> visited.contains(d),
    ensures
        visited.contains(p[n]),
    decreases n,
{
    if n > 0 {
        lemma_path_within(roots, edges, visited, p, n - 1);
        assert(edges(p[n - 1]).contains(p[n - 1 + 1]));
    }
}

/// Depth-first search: whether `target` is reached from `roots` along the edges
/// that `next` hands out. Only the blocks in `known` have edges.
pub(crate) fn search<F: Fn(&Digest) -> Vec<Digest>>(
    roots: Vec<Digest>,
    target: &Digest,
    next: F,
    Ghost(edges): Ghost<spec_fn(Digest) -> Set<Digest>>,
    Ghost(known): Ghost<Set<Digest>>,
) -> (found: bool)
    requires
        known.finite(),
        forall|d: Digest| #[trigger] next.requires((&d,)),
        forall|d: Digest, v: Vec<Digest>| #[trigger]
            next.ensures((&d,), v) ==> v@.to_set() == edges(d),
        forall|d: Digest| !known.contains(d) ==> #[trigger] edges(d) == Set::<Digest>::empty(),
    ensures
        found == reaches(roots@.to_set(), edges, *target),
{
    let ghost start = roots@.to_set();
    let mut pending = roots;
    let mut visited: OrdSet<Digest> = OrdSet::new();
    proof {
        assert forall|d: Digest| #[trigger] pending@.contains(d) implies reaches(
            start,
            edges,
            d,
        ) by {
            assert(start.contains(d));
            lemma_reaches_root(start, edges, d);
        }
    }
    while pending.len() > 0
        invariant
            known.finite(),
            start == roots@.to_set(),
            forall|d: Digest| #[trigger] next.requires((&d,)),
            forall|d: Digest, v: Vec<Digest>| #[trigger]
                next.ensures((&d,), v) ==> v@.to_set() == edges(d),
            forall|d: Digest| !known.contains(d) ==> #[trigger] edges(d) == Set::<Digest>::empty(),
            forall|d: Digest| #[trigger] pending@.contains(d) ==> reaches(start, edges, d),
            forall|d: Digest| #[trigger]
                start.contains(d) ==> visited@.contains(d) || pending@.contains(d),
            forall|v: Digest, d: Digest|
                #![trigger visited@.contains(v), edges(v).contains(d)]
                visited@.contains(v) && edges(v).contains(d) ==> visited@.contains(d)
                    || pending@.contains(d),
            !visited@.contains(*target),
        decreases known.difference(visited@).len(), pending@.len(),
    {
        let ghost stack = pending@;
        let ghost seen = visited@;
        let digest = pending.pop().unwrap();
        let ghost rest = pending@;
        proof {
            assert forall|d: Digest|
                #![trigger stack.contains(d)]
                #![trigger rest.contains(d)]
                stack.contains(d) == (rest.contains(d) || d == digest) by {
                if stack.contains(d) {
                    let i = choose|i: int| 0 <= i < stack.len() && stack[i] == d;
                    if i < rest.len() {
                        assert(rest[i] == d);
                    }
                }
                if rest.contains(d) {
                    let i = choose|i: int| 0 <= i < rest.len() && rest[i] == d;
                    assert(stack[i] == d);
                }
                assert(stack[stack.len() - 1] == digest);
            }
            assert(stack.contains(digest));
        }
        if digest == *target {
            return true;
        }
        if !visited.insert(digest) {
            proof {
                assert(visited@ =~= seen);
            }
            continue ;
        }
        let mut more = next(&digest);
        let ghost added = more@;
        pending.append(&mut more);
        proof {
            assert forall|d: Digest|
                #![trigger pending@.contains(d)]
                pending@.contains(d) == (rest.contains(d) || edges(digest).contains(d)) by {
                assert(added.to_set().contains(d) == added.contains(d));
                if pending@.contains(d) {
                    let i = choose|i: int| 0 <= i < pending@.len() && pending@[i] == d;
                    if i < rest.len() {
                        assert(rest[i] == d);
                    } else {
                        assert(added[i - rest.len()] == d);
                    }
                }
                if rest.contains(d) {
                    let i = choose|i: int| 0 <= i < rest.len() && rest[i] == d;
                    assert(pending@[i] == d);
                }
                if added.contains(d) {
                    let i = choose|i: int| 0 <= i < added.len() && added[i] == d;
                    assert(pending@[rest.len() + i] == d);
                }
            }
            assert forall|d: Digest| #[trigger] pending@.contains(d) implies reaches(
                start,
                edges,
                d,
            ) by {
                if edges(digest).contains(d) {
                    lemma_reaches_on(start, edges, digest, d);
                } else {
                    assert(rest.contains(d));
                }
            }
            if known.contains(digest) {
                assert(known.difference(visited@) =~= known.difference(seen).remove(digest));
            } else {
                assert(known.difference(visited@) =~= known.difference(seen));
                assert(edges(digest) == Set::<Digest>::empty());
                if added.len() > 0 {
                    assert(added.to_set().contains(added[0]));
                }
            }
        }
    }
    proof {
        if reaches(start, edges, *target) {
            lemma_reaches_within(start, edges, visited@, *target);
        }
    }
    false
}

/// `digest` paired with each of `ancestors`.
pub open spec fn row(digest: Digest, ancestors: Set<Digest>) -> Set<(Digest, Digest)> {
    Set::new(|p: (Digest, Digest)| p.0 == digest && ancestors.contains(p.1))
}

/// The support that the author of a block of `round` gives to `targets`.
pub open spec fn credit(round: Round, origin: PublicKey, targets: Set<Digest>) -> Set<
    (Support, PublicKey),
> {
    Set::new(
        |x: (Support, PublicKey)| x.0.0 == round && x.1 == origin && targets.contains(x.0.1),
    )
}

/// Whether an entry of the stack gives `ancestor` to `digest`.
pub open spec fn waits_for(
    pending: Seq<(Digest, Vec<Digest>)>,
    digest: Digest,
    ancestor: Digest,
) -> bool {
    exists|j: int|
        0 <= j < pending.len() && (#[trigger] pending[j]).0 == digest && pending[j].1@.contains(
            ancestor,
        )
}

impl StateView {
    /// The index of strong paths is closed but for what `source` is about to
    /// gain.
    pub open spec fn nearly_closed(self, source: Digest, additions: Set<Digest>) -> bool {
        &&& forall|p: Digest, c: Digest, a: Digest|
            #![trigger self.graph.strong_children.contains((p, c)), self.graph.strong_ancestors.contains((p, a))]
            self.graph.strong_children.contains((p, c)) && self.graph.strong_ancestors.contains(
                (p, a),
            ) ==> self.graph.strong_ancestors.contains((c, a)) || (c == source
                && additions.contains(a))
        &&& forall|p: (Digest, Digest)| #[trigger]
            self.graph.strong_children.contains(p) ==> self.graph.strong_indexed.contains(p.1)
                || p.1 == source
        &&& forall|p: (Digest, Digest)| #[trigger]
            self.graph.strong_ancestors.contains(p) ==> self.graph.strong_indexed.contains(p.0)
    }

    /// The pairs that a propagation may enter are finitely many.
    pub proof fn lemma_fresh_pairs_finite(self, source: Digest, additions: Set<Digest>)
        requires
            self.graph.strong_children.finite(),
            additions.finite(),
        ensures
            self.fresh_pairs(source, additions).finite(),
    {
        let edges = self.graph.strong_children;
        let second = |p: (Digest, Digest)| p.1;
        let reached = edges.map(second).insert(source);
        edges.lemma_map_finite(second);
        assert forall|p: (Digest, Digest)| #[trigger]
            self.fresh_pairs(source, additions).contains(p) implies reached.contains(p.0)
            && additions.contains(p.1) by {
            lemma_walk_keeps_reached(edges, reached, source, p.0);
        }
        lemma_pairs_finite(reached, additions, self.fresh_pairs(source, additions));
    }

    /// Growing in two steps is growing at once.
    pub proof fn lemma_grow_twice(self, a: Set<(Digest, Digest)>, b: Set<(Digest, Digest)>)
        ensures
            self.grow(a).grow(b) == self.grow(a.union(b)),
            self.grow(Set::empty()) == self,
    {
        let once = self.grow(a);
        let firsts = first_of(a).union(first_of(b));
        assert forall|d: Digest| firsts.contains(d) == first_of(a.union(b)).contains(d) by {
            if first_of(a).contains(d) {
                let x = choose|x: Digest| a.contains((d, x));
                assert(a.union(b).contains((d, x)));
            }
            if first_of(b).contains(d) {
                let x = choose|x: Digest| b.contains((d, x));
                assert(a.union(b).contains((d, x)));
            }
            if first_of(a.union(b)).contains(d) {
                let x = choose|x: Digest| a.union(b).contains((d, x));
                assert(a.contains((d, x)) || b.contains((d, x)));
            }
        }
        assert(firsts =~= first_of(a.union(b)));
        assert(self.grow(a).grow(b).fallback == self.grow(a.union(b)).fallback) by {
            self.lemma_wake_twice(first_of(a), first_of(b));
            let indexed = StateView { graph: self.grow(a).graph, ..self };
            self.lemma_wake_local(indexed, first_of(a));
            let again = StateView { graph: self.grow(a).grow(b).graph, ..self.grow(a) };
            self.wake_users(first_of(a)).lemma_wake_local(again, first_of(b));
            let both = StateView { graph: self.grow(a.union(b)).graph, ..self };
            self.lemma_wake_local(both, first_of(a.union(b)));
        }
        assert forall|in_dag: bool|
            once.path_support(b, in_dag).union(self.path_support(a, in_dag))
                =~= #[trigger] self.path_support(a.union(b), in_dag) by {
            assert forall|x: (Support, PublicKey)|
                once.path_support(b, in_dag).union(self.path_support(a, in_dag)).contains(x)
                    == self.path_support(a.union(b), in_dag).contains(x) by {
                if self.path_support(a.union(b), in_dag).contains(x) {
                    let d = choose|d: Digest|
                        #![trigger self.graph.observed.contains_key(d)]
                        self.graph.observed.contains_key(d) && a.union(b).contains((d, x.0.1))
                            && self.graph.observed[d].round() == x.0.0
                            && self.graph.observed[d].origin() == x.1
                            && (in_dag ==> self.graph.dag_digests.contains(d));
                    assert(a.contains((d, x.0.1)) || b.contains((d, x.0.1)));
                    assert(once.graph.observed.contains_key(d));
                }
                if once.path_support(b, in_dag).contains(x) {
                    let d = choose|d: Digest|
                        #![trigger once.graph.observed.contains_key(d)]
                        once.graph.observed.contains_key(d) && b.contains((d, x.0.1))
                            && once.graph.observed[d].round() == x.0.0
                            && once.graph.observed[d].origin() == x.1
                            && (in_dag ==> once.graph.dag_digests.contains(d));
                    assert(self.graph.observed.contains_key(d));
                }
            }
        }
        assert(self.grow(a).grow(b).graph =~= self.grow(a.union(b)).graph) by {
            assert(once.path_support(b, false).union(self.path_support(a, false))
                =~= self.path_support(a.union(b), false));
            assert(once.path_support(b, true).union(self.path_support(a, true))
                =~= self.path_support(a.union(b), true));
        }
        assert(self.grow(Set::empty()) =~= self) by {
            assert(first_of(Set::<(Digest, Digest)>::empty()) =~= Set::empty());
        }
    }

    /// What a single block gains.
    pub proof fn lemma_grow_row(self, digest: Digest, fresh: Set<Digest>)
        requires
            fresh.len() > 0,
            fresh.finite(),
        ensures
            first_of(row(digest, fresh)) == set![digest],
            self.graph.observed.contains_key(digest) ==> {
                let block = self.graph.observed[digest];
                &&& self.path_support(row(digest, fresh), false) == credit(
                    block.round(),
                    block.origin(),
                    fresh,
                )
                &&& self.path_support(row(digest, fresh), true) == (
                if self.graph.dag_digests.contains(digest) {
                    credit(block.round(), block.origin(), fresh)
                } else {
                    Set::empty()
                })
            },
            !self.graph.observed.contains_key(digest) ==> {
                &&& self.path_support(row(digest, fresh), false) == Set::<
                    (Support, PublicKey),
                >::empty()
                &&& self.path_support(row(digest, fresh), true) == Set::<
                    (Support, PublicKey),
                >::empty()
            },
    {
        let pairs = row(digest, fresh);
        let a = fresh.choose();
        assert(pairs.contains((digest, a)));
        assert(first_of(pairs) =~= set![digest]);
        if self.graph.observed.contains_key(digest) {
            let block = self.graph.observed[digest];
            assert(self.path_support(pairs, false) =~= credit(
                block.round(),
                block.origin(),
                fresh,
            ));
            if self.graph.dag_digests.contains(digest) {
                assert(self.path_support(pairs, true) =~= credit(
                    block.round(),
                    block.origin(),
                    fresh,
                ));
            } else {
                assert(self.path_support(pairs, true) =~= Set::empty());
            }
        } else {
            assert(self.path_support(pairs, false) =~= Set::empty());
            assert(self.path_support(pairs, true) =~= Set::empty());
        }
    }

    /// One more target of a block may be supported.
    pub proof fn lemma_supported_insert(self, digest: Digest, targets: Set<Digest>, more: Digest)
        requires
            self.graph.observed.contains_key(digest),
        ensures
            self.supported(row(digest, targets.insert(more))) == (
            if self.graph.observed.contains_key(more) {
                self.supported(row(digest, targets)).insert(self.graph.observed[more].round())
            } else {
                self.supported(row(digest, targets))
            }),
            self.supported(row(digest, Set::empty())) == Set::<Round>::empty(),
    {
        let old_pairs = row(digest, targets);
        let pairs = row(digest, targets.insert(more));
        assert forall|r: Round| self.supported(pairs).contains(r) == (self.supported(
            old_pairs,
        ).contains(r) || (self.graph.observed.contains_key(more) && self.graph.observed[more].round()
            == r)) by {
            if self.supported(pairs).contains(r) {
                let p = choose|p: (Digest, Digest)| #[trigger]
                    pairs.contains(p) && self.graph.observed.contains_key(p.0)
                        && self.graph.observed.contains_key(p.1) && self.graph.observed[p.1].round()
                        == r;
                assert(old_pairs.contains(p) || p.1 == more);
            }
            if self.supported(old_pairs).contains(r) {
                let p = choose|p: (Digest, Digest)| #[trigger]
                    old_pairs.contains(p) && self.graph.observed.contains_key(p.0)
                        && self.graph.observed.contains_key(p.1) && self.graph.observed[p.1].round()
                        == r;
                assert(pairs.contains(p));
            }
            assert(pairs.contains((digest, more)));
        }
        if self.graph.observed.contains_key(more) {
            assert(self.supported(pairs) =~= self.supported(old_pairs).insert(
                self.graph.observed[more].round(),
            ));
        } else {
            assert(self.supported(pairs) =~= self.supported(old_pairs));
        }
        assert(self.supported(row(digest, Set::empty())) =~= Set::<Round>::empty());
    }

    /// The rounds that two sets of pairs support.
    pub proof fn lemma_supported_union(self, a: Set<(Digest, Digest)>, b: Set<(Digest, Digest)>)
        ensures
            self.supported(a.union(b)) == self.supported(a).union(self.supported(b)),
    {
        assert forall|r: Round| self.supported(a.union(b)).contains(r) == self.supported(a).union(
            self.supported(b),
        ).contains(r) by {
            if self.supported(a.union(b)).contains(r) {
                let p = choose|p: (Digest, Digest)| #[trigger]
                    a.union(b).contains(p) && self.graph.observed.contains_key(p.0)
                        && self.graph.observed.contains_key(p.1) && self.graph.observed[p.1].round()
                        == r;
                assert(a.contains(p) || b.contains(p));
            }
            if self.supported(a).contains(r) {
                let p = choose|p: (Digest, Digest)| #[trigger]
                    a.contains(p) && self.graph.observed.contains_key(p.0)
                        && self.graph.observed.contains_key(p.1) && self.graph.observed[p.1].round()
                        == r;
                assert(a.union(b).contains(p));
            }
            if self.supported(b).contains(r) {
                let p = choose|p: (Digest, Digest)| #[trigger]
                    b.contains(p) && self.graph.observed.contains_key(p.0)
                        && self.graph.observed.contains_key(p.1) && self.graph.observed[p.1].round()
                        == r;
                assert(a.union(b).contains(p));
            }
        }
        assert(self.supported(a.union(b)) =~= self.supported(a).union(self.supported(b)));
    }

    /// When nothing waits any more, a propagation has entered everything.
    pub proof fn lemma_propagated(
        self,
        source: Digest,
        additions: Set<Digest>,
        entered: Set<(Digest, Digest)>,
    )
        requires
            self.nearly_closed(source, additions),
            entered.subset_of(self.fresh_pairs(source, additions)),
            forall|p: Digest, c: Digest, a: Digest|
                #![trigger self.graph.strong_children.contains((p, c)), entered.contains((p, a))]
                self.graph.strong_children.contains((p, c)) && entered.contains((p, a))
                    ==> entered.contains((c, a)) || self.graph.strong_ancestors.contains((c, a)),
            forall|a: Digest| #[trigger]
                additions.contains(a) ==> entered.contains((source, a))
                    || self.graph.strong_ancestors.contains((source, a)),
        ensures
            entered == self.fresh_pairs(source, additions),
    {
        let edges = self.graph.strong_children;
        assert forall|p: (Digest, Digest)| #[trigger]
            self.fresh_pairs(source, additions).contains(p) implies entered.contains(p) by {
            let a = p.1;
            let keeps = |d: Digest|
                entered.contains((d, a)) || self.graph.strong_ancestors.contains((d, a));
            lemma_walk_keeps(edges, keeps, source, p.0);
            assert(keeps(p.0));
        }
        assert(entered =~= self.fresh_pairs(source, additions));
    }

    /// Indexing a block leaves the index of strong paths closed.
    pub proof fn lemma_propagate_closes(self, source: Digest, additions: Set<Digest>)
        requires
            self.nearly_closed(source, additions),
        ensures
            self.propagate(source, additions).closed_paths(),
    {
        let after = self.propagate(source, additions);
        let edges = self.graph.strong_children;
        let fresh = self.fresh_pairs(source, additions);
        lemma_leads_to_itself(edges, source);
        assert forall|p: Digest, c: Digest, a: Digest|
            #![trigger after.graph.strong_children.contains((p, c)), after.graph.strong_ancestors.contains((p, a))]
            after.graph.strong_children.contains((p, c)) && after.graph.strong_ancestors.contains(
                (p, a),
            ) implies after.graph.strong_ancestors.contains((c, a)) by {
            if fresh.contains((p, a)) {
                lemma_leads_on(edges, source, p, c);
            } else {
                assert(self.graph.strong_ancestors.contains((p, a)));
            }
        }
        assert forall|p: (Digest, Digest)| #[trigger]
            after.graph.strong_ancestors.contains(p) implies after.graph.strong_indexed.contains(
            p.0,
        ) by {
            if fresh.contains(p) {
                lemma_reached_by_edge(edges, source, p.0);
                if p.0 != source {
                    let q = choose|q: Digest| edges.contains((q, p.0));
                    assert(edges.contains((q, p.0)));
                }
            }
        }
    }

    /// Entering the strong edges of a block leaves the index closed but for
    /// what the block inherits.
    pub proof fn lemma_add_edges(self, header: Header)
        requires
            self.closed_paths(),
        ensures
            self.add_edges(header).nearly_closed(header.block, self.inherited(header)),
    {
        let after = self.add_edges(header);
        assert forall|p: Digest, c: Digest, a: Digest|
            #![trigger after.graph.strong_children.contains((p, c)), after.graph.strong_ancestors.contains((p, a))]
            after.graph.strong_children.contains((p, c)) && after.graph.strong_ancestors.contains(
                (p, a),
            ) implies after.graph.strong_ancestors.contains((c, a)) || (c == header.block
            && self.inherited(header).contains(a)) by {
            if self.graph.strong_children.contains((p, c)) {
            } else {
                assert(header.parents@.contains(p));
            }
        }
    }
}

/// Walks from `source` stay among what an edge leads to.
proof fn lemma_walk_keeps_reached(
    edges: Set<(Digest, Digest)>,
    reached: Set<Digest>,
    source: Digest,
    to: Digest,
)
    requires
        reached == edges.map(|p: (Digest, Digest)| p.1).insert(source),
        leads_to(edges, source, to),
    ensures
        reached.contains(to),
{
    let keeps = |d: Digest| reached.contains(d);
    assert forall|a: Digest, b: Digest|
        #![trigger edges.contains((a, b))]
        edges.contains((a, b)) && keeps(a) implies keeps(b) by {
        assert(edges.map(|p: (Digest, Digest)| p.1).contains((a, b).1));
    }
    lemma_walk_keeps(edges, keeps, source, to);
}

/// What is reached is the source or stands at the end of an edge.
proof fn lemma_reached_by_edge(edges: Set<(Digest, Digest)>, source: Digest, to: Digest)
    requires
        leads_to(edges, source, to),
    ensures
        to == source || exists|q: Digest| edges.contains((q, to)),
{
    let p = choose|p: Seq<Digest>|
        #![trigger is_walk(edges, p)]
        p.len() > 0 && p[0] == source && p.last() == to && is_walk(edges, p);
    if p.len() > 1 {
        let i = p.len() - 2;
        assert(edges.contains((p[i], p[i + 1])));
    }
}

} // verus!
