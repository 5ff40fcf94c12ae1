//! What the committed order of a history holds, and in which order.
use crate::consensus::model::{reaches, StateView};
use crate::consensus::ordering::{
    lemma_sort_by_round, lemma_upto, sort_by_round, sorted_by_round, upto,
};
use crate::consensus::paths::{lemma_reaches_on, lemma_reaches_root, lemma_reaches_within};
use crate::types::{Certificate, Digest, Round};
use vstd::prelude::*;

verus! {

/// No two blocks of `s` have the same digest.
pub open spec fn distinct(s: Seq<Certificate>) -> bool {
    forall|i: int, j: int|
        0 <= i < j < s.len() ==> (#[trigger] s[i]).digest() != (#[trigger] s[j]).digest()
}

impl StateView {
    /// The strong and weak dependencies of a Dag block that are in the Dag and
    /// above the watermarks of their authors.
    pub open spec fn open_edges(self) -> spec_fn(Digest) -> Set<Digest> {
        |d: Digest|
            if self.graph.dag_by_digest.contains_key(d) {
                self.open_dependencies(self.graph.dag_by_digest[d])
            } else {
                Set::empty()
            }
    }

    /// The strong and weak dependencies of `c` that are in the Dag and above
    /// the watermarks of their authors.
    pub open spec fn open_dependencies(self, c: Certificate) -> Set<Digest> {
        Set::new(|d: Digest| c.header.depends_on(d) && self.uncommitted(d))
    }

    /// The uncommitted history of a leader: what it reaches along strong and
    /// weak edges without passing a committed block.
    pub open spec fn open_history(self, leader: Certificate) -> Set<Digest> {
        Set::new(|d: Digest| reaches(self.open_dependencies(leader), self.open_edges(), d))
    }

    /// Blocks of the Dag stand under their digests.
    pub open spec fn indexed(self) -> bool {
        &&& self.graph.dag_by_digest.dom().finite()
        &&& forall|d: Digest| #[trigger]
            self.graph.dag_by_digest.contains_key(d) ==> self.graph.dag_by_digest[d].digest() == d
    }

    /// A stack of Dag blocks to sequence, all of them met and none twice.
    pub open spec fn stacked(self, buffer: Seq<Certificate>, done: Set<Digest>) -> bool {
        &&& distinct(buffer)
        &&& forall|i: int|
            0 <= i < buffer.len() ==> self.drawn(#[trigger] buffer[i]) && done.contains(
                buffer[i].digest(),
            )
    }

    /// A block as the Dag holds it, above the watermark of its author.
    pub open spec fn drawn(self, c: Certificate) -> bool {
        &&& self.uncommitted(c.digest())
        &&& self.graph.dag_by_digest[c.digest()] == c
    }

    /// Stacking adds the open dependencies that had not been met.
    proof fn lemma_stacks(
        self,
        dependencies: Seq<Digest>,
        buffer: Seq<Certificate>,
        done: Set<Digest>,
    )
        requires
            self.indexed(),
            self.stacked(buffer, done),
        ensures
            ({
                let (stack, met) = self.stack_parents(dependencies, buffer, done);
                &&& self.stacked(stack, met)
                &&& buffer.len() <= stack.len()
                &&& forall|i: int| 0 <= i < buffer.len() ==> #[trigger] stack[i] == buffer[i]
                &&& forall|i: int|
                    buffer.len() <= i < stack.len() ==> !done.contains(
                        (#[trigger] stack[i]).digest(),
                    ) && dependencies.contains(stack[i].digest())
                &&& forall|d: Digest| #[trigger]
                    met.contains(d) ==> done.contains(d) || exists|i: int|
                        buffer.len() <= i < stack.len() && (#[trigger] stack[i]).digest() == d
                &&& forall|d: Digest| #[trigger]
                    dependencies.contains(d) && self.uncommitted(d) ==> met.contains(d)
                &&& done.subset_of(met)
            }),
        decreases dependencies.len(),
    {
        if dependencies.len() > 0 {
            let front = dependencies.drop_last();
            let d = dependencies.last();
            self.lemma_stacks(front, buffer, done);
            let (before, met_before) = self.stack_parents(front, buffer, done);
            let (stack, met) = self.stack_parents(dependencies, buffer, done);
            assert forall|e: Digest| #[trigger] dependencies.contains(e) implies front.contains(e)
                || e == d by {
                let k = choose|k: int| 0 <= k < dependencies.len() && dependencies[k] == e;
                if k < front.len() {
                    assert(front[k] == e);
                }
            }
            assert forall|e: Digest| front.contains(e) implies #[trigger] dependencies.contains(
                e,
            ) by {
                let k = choose|k: int| 0 <= k < front.len() && front[k] == e;
                assert(dependencies[k] == e);
            }
            assert(dependencies.contains(d));
            assert forall|i: int| buffer.len() <= i < stack.len() implies !done.contains(
                (#[trigger] stack[i]).digest(),
            ) && dependencies.contains(stack[i].digest()) by {
                if i < before.len() {
                    assert(stack[i] == before[i]);
                    assert(front.contains(before[i].digest()));
                }
            }
            assert forall|e: Digest| #[trigger] met.contains(e) implies done.contains(e)
                || exists|i: int|
                buffer.len() <= i < stack.len() && (#[trigger] stack[i]).digest() == e by {
                if met_before.contains(e) {
                    if !done.contains(e) {
                        let i = choose|i: int|
                            buffer.len() <= i < before.len() && (#[trigger] before[i]).digest()
                                == e;
                        assert(stack[i].digest() == e);
                    }
                } else {
                    assert(stack[stack.len() - 1].digest() == e);
                }
            }
            assert forall|i: int| 0 <= i < buffer.len() implies #[trigger] stack[i]
                == buffer[i] by {
                assert(before[i] == buffer[i]);
            }
            assert forall|i: int, j: int| 0 <= i < j < stack.len() implies (
            #[trigger] stack[i]).digest() != (#[trigger] stack[j]).digest() by {
                assert(stack[i] == before[i]);
                if j < before.len() {
                    assert(stack[j] == before[j]);
                }
            }
            assert forall|i: int| 0 <= i < stack.len() implies self.drawn(#[trigger] stack[i])
                && met.contains(stack[i].digest()) by {
                if i < before.len() {
                    assert(stack[i] == before[i]);
                }
            }
        }
    }

    /// Sequencing a stack gives its blocks and every open dependency of what it
    /// gives, each block once.
    proof fn lemma_flattens(self, buffer: Seq<Certificate>, done: Set<Digest>)
        requires
            self.indexed(),
            self.stacked(buffer, done),
        ensures
            ({
                let out = self.flatten(buffer, done);
                &&& distinct(out)
                &&& forall|i: int| 0 <= i < out.len() ==> self.drawn(#[trigger] out[i])
                &&& forall|i: int|
                    0 <= i < out.len() ==> buffer.contains(#[trigger] out[i]) || !done.contains(
                        out[i].digest(),
                    )
                &&& forall|c: Certificate| #[trigger] buffer.contains(c) ==> out.contains(c)
                &&& forall|i: int, d: Digest|
                    #![trigger out[i].header.depends_on(d)]
                    0 <= i < out.len() && out[i].header.depends_on(d) && self.uncommitted(d)
                        ==> done.contains(d) || out.contains(self.graph.dag_by_digest[d])
            }),
        decreases self.unmet(done).len(), buffer.len(),
    {
        if buffer.len() > 0 {
            let x = buffer.last();
            let rest = buffer.drop_last();
            let dependencies = x.header.dependencies();
            x.header.lemma_dependencies();
            assert forall|i: int| 0 <= i < rest.len() implies self.drawn(#[trigger] rest[i])
                && done.contains(rest[i].digest()) by {
                assert(rest[i] == buffer[i]);
            }
            assert(self.drawn(buffer[buffer.len() - 1]));
            assert(self.stacked(rest, done)) by {
                assert forall|i: int, j: int| 0 <= i < j < rest.len() implies (
                #[trigger] rest[i]).digest() != (#[trigger] rest[j]).digest() by {
                    assert(rest[i] == buffer[i] && rest[j] == buffer[j]);
                }
            }
            self.lemma_stacks(dependencies, rest, done);
            self.lemma_stack_parents(dependencies, rest, done);
            let (stack, met) = self.stack_parents(dependencies, rest, done);
            self.lemma_flattens(stack, met);
            let tail = self.flatten(stack, met);
            let out = self.flatten(buffer, done);
            assert(out == seq![x] + tail);
            assert forall|i: int| 0 < i < out.len() implies #[trigger] out[i] == tail[i - 1] by {}
            // A block of the tail comes off the stack or had not been met.
            assert forall|k: int| 0 <= k < tail.len() implies rest.contains(#[trigger] tail[k])
                || !done.contains(tail[k].digest()) by {
                if stack.contains(tail[k]) {
                    let m = choose|m: int| 0 <= m < stack.len() && stack[m] == tail[k];
                    if m < rest.len() {
                        assert(rest[m] == tail[k]);
                    }
                }
            }
            assert forall|i: int, j: int| 0 <= i < j < out.len() implies (
            #[trigger] out[i]).digest() != (#[trigger] out[j]).digest() by {
                assert(out[j] == tail[j - 1]);
                if i > 0 {
                    assert(out[i] == tail[i - 1]);
                } else if rest.contains(tail[j - 1]) {
                    let m = choose|m: int| 0 <= m < rest.len() && rest[m] == tail[j - 1];
                    assert(buffer[m].digest() != buffer[buffer.len() - 1].digest());
                }
            }
            assert forall|i: int| 0 <= i < out.len() implies self.drawn(#[trigger] out[i]) by {
                if i > 0 {
                    assert(out[i] == tail[i - 1]);
                }
            }
            assert forall|i: int| 0 <= i < out.len() implies buffer.contains(#[trigger] out[i])
                || !done.contains(out[i].digest()) by {
                if i == 0 {
                    assert(buffer[buffer.len() - 1] == x);
                } else {
                    assert(out[i] == tail[i - 1]);
                    if rest.contains(tail[i - 1]) {
                        let m = choose|m: int| 0 <= m < rest.len() && rest[m] == tail[i - 1];
                        assert(buffer[m] == tail[i - 1]);
                    }
                }
            }
            assert forall|c: Certificate| tail.contains(c) implies #[trigger] out.contains(c) by {
                let k = choose|k: int| 0 <= k < tail.len() && tail[k] == c;
                assert(out[k + 1] == c);
            }
            assert forall|c: Certificate| #[trigger] buffer.contains(c) implies out.contains(c) by {
                let m = choose|m: int| 0 <= m < buffer.len() && buffer[m] == c;
                if m < rest.len() {
                    assert(stack[m] == rest[m]);
                    assert(stack.contains(c));
                } else {
                    assert(out[0] == c);
                }
            }
            assert forall|i: int, d: Digest|
                #![trigger out[i].header.depends_on(d)]
                0 <= i < out.len() && out[i].header.depends_on(d) && self.uncommitted(
                    d,
                ) implies done.contains(d) || out.contains(self.graph.dag_by_digest[d]) by {
                if i > 0 {
                    assert(out[i] == tail[i - 1]);
                    assert(tail[i - 1].header.depends_on(d));
                } else {
                    assert(dependencies.contains(d));
                }
                if !done.contains(d) && met.contains(d) {
                    let m = choose|m: int|
                        rest.len() <= m < stack.len() && (#[trigger] stack[m]).digest() == d;
                    assert(self.drawn(stack[m]));
                    assert(stack.contains(stack[m]));
                    assert(out.contains(stack[m]));
                }
            }
        }
    }

    /// Sequencing stays within what holds the stack and is closed under open
    /// dependencies.
    proof fn lemma_flattens_within(
        self,
        buffer: Seq<Certificate>,
        done: Set<Digest>,
        home: Set<Digest>,
    )
        requires
            self.indexed(),
            self.stacked(buffer, done),
            forall|i: int| 0 <= i < buffer.len() ==> home.contains((#[trigger] buffer[i]).digest()),
            forall|v: Digest, d: Digest|
                #![trigger home.contains(v), self.open_edges()(v).contains(d)]
                home.contains(v) && self.open_edges()(v).contains(d) ==> home.contains(d),
        ensures
            forall|i: int|
                0 <= i < self.flatten(buffer, done).len() ==> home.contains(
                    (#[trigger] self.flatten(buffer, done)[i]).digest(),
                ),
        decreases self.unmet(done).len(), buffer.len(),
    {
        if buffer.len() > 0 {
            let x = buffer.last();
            let rest = buffer.drop_last();
            let dependencies = x.header.dependencies();
            x.header.lemma_dependencies();
            assert(home.contains(buffer[buffer.len() - 1].digest()));
            assert(self.drawn(buffer[buffer.len() - 1]));
            assert(self.stacked(rest, done)) by {
                assert forall|i: int| 0 <= i < rest.len() implies self.drawn(#[trigger] rest[i])
                    && done.contains(rest[i].digest()) by {
                    assert(rest[i] == buffer[i]);
                }
                assert forall|i: int, j: int| 0 <= i < j < rest.len() implies (
                #[trigger] rest[i]).digest() != (#[trigger] rest[j]).digest() by {
                    assert(rest[i] == buffer[i] && rest[j] == buffer[j]);
                }
            }
            self.lemma_stacks(dependencies, rest, done);
            self.lemma_stack_parents(dependencies, rest, done);
            let (stack, met) = self.stack_parents(dependencies, rest, done);
            assert forall|i: int| 0 <= i < stack.len() implies home.contains(
                (#[trigger] stack[i]).digest(),
            ) by {
                if i < rest.len() {
                    assert(stack[i] == rest[i] && rest[i] == buffer[i]);
                } else {
                    assert(self.drawn(stack[i]));
                    assert(dependencies.contains(stack[i].digest()));
                    assert(self.open_edges()(x.digest()).contains(stack[i].digest()));
                }
            }
            self.lemma_flattens_within(stack, met, home);
            let tail = self.flatten(stack, met);
            let out = self.flatten(buffer, done);
            assert forall|i: int| 0 <= i < out.len() implies home.contains(
                (#[trigger] out[i]).digest(),
            ) by {
                if i > 0 {
                    assert(out[i] == tail[i - 1]);
                }
            }
        }
    }

    /// Sequencing a leader gives the leader first, then its open history, each
    /// block once.
    proof fn lemma_flattens_leader(self, leader: Certificate)
        requires
            self.indexed(),
            !self.open_history(leader).contains(leader.digest()),
        ensures
            ({
                let out = self.flatten(seq![leader], Set::empty());
                &&& out.len() > 0
                &&& out[0] == leader
                &&& distinct(out)
                &&& forall|i: int|
                    0 < i < out.len() ==> self.drawn(#[trigger] out[i]) && self.open_history(
                        leader,
                    ).contains(out[i].digest())
                &&& forall|d: Digest| #[trigger]
                    self.open_history(leader).contains(d) ==> out.contains(
                        self.graph.dag_by_digest[d],
                    )
            }),
    {
        let none = Set::<Digest>::empty();
        let dependencies = leader.header.dependencies();
        let rest = seq![leader].drop_last();
        let history = self.open_history(leader);
        let roots = self.open_dependencies(leader);
        leader.header.lemma_dependencies();
        assert(rest =~= Seq::empty());
        assert(self.stacked(rest, none));
        self.lemma_stacks(dependencies, rest, none);
        let (stack, met) = self.stack_parents(dependencies, rest, none);
        self.lemma_flattens(stack, met);
        assert forall|v: Digest, d: Digest|
            #![trigger history.contains(v), self.open_edges()(v).contains(d)]
            history.contains(v) && self.open_edges()(v).contains(d) implies history.contains(d) by {
            lemma_reaches_on(roots, self.open_edges(), v, d);
        }
        assert forall|i: int| 0 <= i < stack.len() implies history.contains(
            (#[trigger] stack[i]).digest(),
        ) by {
            assert(self.drawn(stack[i]));
            assert(dependencies.contains(stack[i].digest()));
            lemma_reaches_root(roots, self.open_edges(), stack[i].digest());
        }
        self.lemma_flattens_within(stack, met, history);
        let tail = self.flatten(stack, met);
        let out = self.flatten(seq![leader], none);
        assert(out == seq![leader] + tail);
        assert forall|i: int| 0 < i < out.len() implies #[trigger] out[i] == tail[i - 1] by {}
        assert forall|i: int, j: int| 0 <= i < j < out.len() implies (#[trigger] out[i]).digest()
            != (#[trigger] out[j]).digest() by {
            assert(out[j] == tail[j - 1]);
            if i > 0 {
                assert(out[i] == tail[i - 1]);
            }
        }
        let told = Set::new(|d: Digest| tail.contains(self.graph.dag_by_digest[d]));
        assert forall|d: Digest| #[trigger] history.contains(d) implies out.contains(
            self.graph.dag_by_digest[d],
        ) by {
            // What has been met on the way is part of the tail.
            assert forall|e: Digest| met.contains(e) implies #[trigger] told.contains(e) by {
                let m = choose|m: int| 0 <= m < stack.len() && (#[trigger] stack[m]).digest() == e;
                assert(self.drawn(stack[m]));
                assert(stack.contains(stack[m]));
            }
            let known = told.intersect(Set::new(|e: Digest| self.uncommitted(e)));
            assert forall|e: Digest| #[trigger] roots.contains(e) implies known.contains(e) by {
                assert(dependencies.contains(e));
            }
            assert forall|v: Digest, e: Digest|
                #![trigger known.contains(v), self.open_edges()(v).contains(e)]
                known.contains(v) && self.open_edges()(v).contains(e) implies known.contains(e) by {
                let c = self.graph.dag_by_digest[v];
                let k = choose|k: int| 0 <= k < tail.len() && tail[k] == c;
                assert(tail[k].header.depends_on(e));
            }
            lemma_reaches_within(roots, self.open_edges(), known, d);
            let c = self.graph.dag_by_digest[d];
            let k = choose|k: int| 0 <= k < tail.len() && tail[k] == c;
            assert(out[k + 1] == c);
        }
    }

    /// The committed order of a leader holds the leader and its uncommitted
    /// history along strong and weak edges, as far as it is recent: each block
    /// once, in the order of rounds. What only virtual edges reach is not part
    /// of it.
    pub proof fn law_order_is_the_open_history(self, leader: Certificate, gc_depth: Round)
        requires
            self.wf(),
            self.graph.dag_by_digest.dom().finite(),
            !self.open_history(leader).contains(leader.digest()),
        ensures
            sorted_by_round(self.order_dag(leader, gc_depth)),
            distinct(self.order_dag(leader, gc_depth)),
            forall|c: Certificate| #[trigger]
                self.order_dag(leader, gc_depth).contains(c) <==> c.round() + gc_depth
                    >= self.commits.last_committed_round && (c == leader || self.drawn(c) && self.open_history(leader).contains(
                    c.digest(),
                )),
    {
        assert(self.indexed());
        self.lemma_flattens_leader(leader);
        let all = self.flatten(seq![leader], Set::empty());
        let recent = |c: Certificate|
            Self::recent(c.round(), gc_depth, self.commits.last_committed_round);
        let kept = all.filter(recent);
        let out = self.order_dag(leader, gc_depth);
        lemma_sort_by_round(kept);
        lemma_filter_distinct(all, recent);
        lemma_same_multiset(kept, out);
        assert forall|c: Certificate| #[trigger] out.contains(c) <==> recent(c) && (c == leader
            || self.drawn(c) && self.open_history(leader).contains(c.digest())) by {
            assert(out.contains(c) == kept.contains(c));
            if kept.contains(c) {
                all.lemma_filter_contains_rev(recent, c);
                let i = choose|i: int| 0 <= i < all.len() && all[i] == c;
                let k = choose|k: int| 0 <= k < kept.len() && kept[k] == c;
                all.lemma_filter_pred(recent, k);
                if i > 0 {
                    assert(self.drawn(all[i]));
                }
            }
            if recent(c) && (c == leader || self.drawn(c) && self.open_history(leader).contains(
                c.digest(),
            )) {
                if c == leader {
                    assert(all[0] == c);
                } else {
                    assert(all.contains(self.graph.dag_by_digest[c.digest()]));
                }
                let i = choose|i: int| 0 <= i < all.len() && all[i] == c;
                all.lemma_filter_contains(recent, i);
            }
        }
    }

    /// A leader that lies above its history in rounds comes last in its
    /// committed order.
    pub proof fn law_leader_comes_last(self, leader: Certificate, gc_depth: Round)
        requires
            self.wf(),
            self.graph.dag_by_digest.dom().finite(),
            leader.round() + gc_depth >= self.commits.last_committed_round,
            forall|d: Digest| #[trigger]
                self.open_history(leader).contains(d) ==> self.graph.dag_by_digest[d].round()
                    < leader.round(),
            !self.open_history(leader).contains(leader.digest()),
        ensures
            self.order_dag(leader, gc_depth).len() > 0,
            self.order_dag(leader, gc_depth).last() == leader,
    {
        self.law_order_is_the_open_history(leader, gc_depth);
        let out = self.order_dag(leader, gc_depth);
        assert(out.contains(leader));
        let i = choose|i: int| 0 <= i < out.len() && out[i] == leader;
        if i < out.len() - 1 {
            let last = out[out.len() - 1];
            assert(out.contains(last));
            assert(out[i].round() <= last.round());
            assert(out[i].digest() != last.digest());
        }
    }
}

/// What a filter keeps of distinct blocks is distinct.
pub proof fn lemma_filter_distinct(s: Seq<Certificate>, p: spec_fn(Certificate) -> bool)
    requires
        distinct(s),
    ensures
        distinct(s.filter(p)),
    decreases s.len(),
{
    reveal(Seq::filter);
    if s.len() > 0 {
        let front = s.drop_last();
        assert(distinct(front)) by {
            assert forall|i: int, j: int| 0 <= i < j < front.len() implies (
            #[trigger] front[i]).digest() != (#[trigger] front[j]).digest() by {
                assert(front[i] == s[i] && front[j] == s[j]);
            }
        }
        lemma_filter_distinct(front, p);
        let kept = front.filter(p);
        let all = s.filter(p);
        if p(s.last()) {
            assert forall|i: int, j: int| 0 <= i < j < all.len() implies (
            #[trigger] all[i]).digest() != (#[trigger] all[j]).digest() by {
                assert(all[i] == kept[i]);
                if j < kept.len() {
                    assert(all[j] == kept[j]);
                } else {
                    assert(kept.contains(kept[i]));
                    front.lemma_filter_contains_rev(p, kept[i]);
                    let k = choose|k: int| 0 <= k < front.len() && front[k] == kept[i];
                    assert(s[k].digest() != s[s.len() - 1].digest());
                }
            }
        }
    }
}

/// Sequences with the same blocks hold the same and repeat the same.
proof fn lemma_same_multiset(s: Seq<Certificate>, t: Seq<Certificate>)
    requires
        s.to_multiset() == t.to_multiset(),
        distinct(s),
    ensures
        forall|c: Certificate| s.contains(c) == #[trigger] t.contains(c),
        distinct(t),
{
    s.to_multiset_ensures();
    t.to_multiset_ensures();
    assert forall|c: Certificate| s.contains(c) == #[trigger] t.contains(c) by {
        assert(s.contains(c) <==> s.to_multiset().count(c) > 0);
        assert(t.contains(c) <==> t.to_multiset().count(c) > 0);
    }
    assert forall|i: int, j: int| 0 <= i < j < t.len() implies (#[trigger] t[i]).digest() != (
    #[trigger] t[j]).digest() by {
        assert(t.contains(t[i]) && t.contains(t[j]));
        let a = choose|a: int| 0 <= a < s.len() && s[a] == t[i];
        let b = choose|b: int| 0 <= b < s.len() && s[b] == t[j];
        if t[i].digest() == t[j].digest() {
            assert(a == b);
            assert(t[i] == t[j]);
            lemma_repeats(t, i, j);
            lemma_counts_once(s, t[i]);
        }
    }
}

/// A repeated block is counted twice.
proof fn lemma_repeats(s: Seq<Certificate>, i: int, j: int)
    requires
        0 <= i < j < s.len(),
        s[i] == s[j],
    ensures
        s.to_multiset().count(s[i]) >= 2,
{
    let rest = s.remove(j);
    s.to_multiset_ensures();
    rest.to_multiset_ensures();
    assert(rest[i] == s[i]);
    assert(rest.contains(s[i]));
    assert(rest.to_multiset().count(s[i]) > 0);
    assert(rest.to_multiset() =~= s.to_multiset().remove(s[j]));
}

/// Of distinct blocks none is counted twice.
proof fn lemma_counts_once(s: Seq<Certificate>, c: Certificate)
    requires
        distinct(s),
    ensures
        s.to_multiset().count(c) <= 1,
{
    assert forall|i: int, j: int| 0 <= i < s.len() && 0 <= j < s.len() && i != j implies s[i]
        != s[j] by {
        if i < j {
            assert(s[i].digest() != s[j].digest());
        } else {
            assert(s[j].digest() != s[i].digest());
        }
    }
    assert(s.no_duplicates());
    s.lemma_multiset_has_no_duplicates();
    if s.to_multiset().count(c) > 0 {
        assert(s.to_multiset().contains(c));
    }
}

/// What a filter keeps of a sequence that it keeps nothing of.
proof fn lemma_filter_none(s: Seq<Certificate>, p: spec_fn(Certificate) -> bool)
    requires
        forall|i: int| 0 <= i < s.len() ==> !p(#[trigger] s[i]),
    ensures
        s.filter(p) == Seq::<Certificate>::empty(),
    decreases s.len(),
{
    reveal(Seq::filter);
    if s.len() > 0 {
        let front = s.drop_last();
        assert forall|i: int| 0 <= i < front.len() implies !p(#[trigger] front[i]) by {
            assert(front[i] == s[i]);
        }
        lemma_filter_none(front, p);
        assert(!p(s[s.len() - 1]));
    }
    assert(s.filter(p) =~= Seq::empty());
}

/// Putting blocks in the order of rounds leaves the blocks of one round in the
/// order in which they came.
pub proof fn law_blocks_of_a_round_keep_their_order(s: Seq<Certificate>, r: Round)
    ensures
        sort_by_round(s).filter(|c: Certificate| c.round() == r) == s.filter(
            |c: Certificate| c.round() == r,
        ),
    decreases s.len(),
{
    let p = |c: Certificate| c.round() == r;
    reveal(Seq::filter);
    if s.len() > 0 {
        let rest = s.drop_last();
        let x = s.last();
        let front = sort_by_round(rest);
        let k = upto(front, x.round());
        let all = front.insert(k, x);
        law_blocks_of_a_round_keep_their_order(rest, r);
        lemma_sort_by_round(rest);
        lemma_upto(front, x.round());
        let low = front.take(k);
        let high = front.skip(k);
        assert(front =~= low + high);
        assert(all =~= low.push(x) + high);
        Seq::filter_distributes_over_add(low, high, p);
        Seq::filter_distributes_over_add(low.push(x), high, p);
        assert(low.push(x).drop_last() =~= low);
        if x.round() == r {
            assert forall|i: int| 0 <= i < high.len() implies !p(#[trigger] high[i]) by {
                assert(high[i] == front[k + i]);
            }
            lemma_filter_none(high, p);
            assert(front.filter(p) =~= low.filter(p));
            assert(all.filter(p) =~= low.filter(p).push(x));
            assert(s.filter(p) =~= rest.filter(p).push(x));
        } else {
            assert(low.push(x).filter(p) =~= low.filter(p));
            assert(all.filter(p) =~= front.filter(p));
            assert(s.filter(p) =~= rest.filter(p));
        }
    }
}

impl StateView {
    /// Whether a block depends on nothing that is still to be sequenced.
    pub open spec fn ends_the_walk(self, c: Certificate) -> bool {
        forall|d: Digest| c.header.depends_on(d) ==> !#[trigger] self.uncommitted(d)
    }

    /// Blocks that depend on nothing open are sequenced from the top of the
    /// stack down.
    proof fn lemma_flatten_ends(self, buffer: Seq<Certificate>, done: Set<Digest>)
        requires
            self.graph.dag_by_digest.dom().finite(),
            forall|i: int| 0 <= i < buffer.len() ==> self.ends_the_walk(#[trigger] buffer[i]),
        ensures
            self.flatten(buffer, done) == buffer.reverse(),
        decreases buffer.len(),
    {
        if buffer.len() > 0 {
            let x = buffer.last();
            let rest = buffer.drop_last();
            assert(self.ends_the_walk(buffer[buffer.len() - 1]));
            x.header.lemma_dependencies();
            self.lemma_stacks_nothing(x.header.dependencies(), rest, done);
            assert forall|i: int| 0 <= i < rest.len() implies self.ends_the_walk(
                #[trigger] rest[i],
            ) by {
                assert(rest[i] == buffer[i]);
            }
            self.lemma_flatten_ends(rest, done);
            assert(self.flatten(buffer, done) =~= buffer.reverse());
        } else {
            assert(self.flatten(buffer, done) =~= buffer.reverse());
        }
    }

    proof fn lemma_stacks_nothing(
        self,
        dependencies: Seq<Digest>,
        buffer: Seq<Certificate>,
        done: Set<Digest>,
    )
        requires
            forall|d: Digest| #[trigger] dependencies.contains(d) ==> !self.uncommitted(d),
        ensures
            self.stack_parents(dependencies, buffer, done) == (buffer, done),
        decreases dependencies.len(),
    {
        if dependencies.len() > 0 {
            let front = dependencies.drop_last();
            assert forall|d: Digest| #[trigger] front.contains(d) implies !self.uncommitted(d) by {
                let i = choose|i: int| 0 <= i < front.len() && front[i] == d;
                assert(dependencies[i] == d);
                assert(dependencies.contains(d));
            }
            self.lemma_stacks_nothing(front, buffer, done);
            assert(dependencies.contains(dependencies.last()));
        }
    }

    /// The blocks that a leader depends on are met from the last of its edges to
    /// the first, where they depend on nothing open themselves: first the weak
    /// edges, then the strong ones, each by descending digest.
    pub proof fn law_edges_are_walked_from_the_last(self, leader: Certificate)
        requires
            self.graph.dag_by_digest.dom().finite(),
            forall|i: int, j: int|
                0 <= i < j < leader.header.dependencies().len()
                    ==> #[trigger] leader.header.dependencies()[i]
                    != #[trigger] leader.header.dependencies()[j],
            forall|d: Digest| #[trigger]
                leader.header.depends_on(d) ==> self.uncommitted(d) && self.ends_the_walk(
                    self.graph.dag_by_digest[d],
                ),
        ensures
            self.flatten(seq![leader], Set::empty()) == seq![leader]
                + leader.header.dependencies().map_values(
                |d: Digest| self.graph.dag_by_digest[d],
            ).reverse(),
    {
        let all = leader.header.dependencies();
        let block = |d: Digest| self.graph.dag_by_digest[d];
        leader.header.lemma_dependencies();
        let buffer = seq![leader];
        assert(buffer.drop_last() =~= Seq::empty());
        self.lemma_stacks_all(all, all.len() as int);
        assert(all.take(all.len() as int) =~= all);
        let (stack, met) = self.stack_parents(all, Seq::empty(), Set::empty());
        assert(stack == all.map_values(block));
        assert forall|i: int| 0 <= i < stack.len() implies self.ends_the_walk(
            #[trigger] stack[i],
        ) by {
            assert(all.contains(all[i]));
            assert(leader.header.depends_on(all[i]));
        }
        self.lemma_flatten_ends(stack, met);
        assert(buffer.last() == leader);
    }

    proof fn lemma_stacks_all(self, all: Seq<Digest>, n: int)
        requires
            0 <= n <= all.len(),
            forall|i: int, j: int|
                0 <= i < j < all.len() ==> #[trigger] all[i] != #[trigger] all[j],
            forall|d: Digest| #[trigger] all.contains(d) ==> self.uncommitted(d),
        ensures
            self.stack_parents(all.take(n), Seq::empty(), Set::empty()).0 == all.take(n).map_values(
                |d: Digest| self.graph.dag_by_digest[d],
            ),
            self.stack_parents(all.take(n), Seq::empty(), Set::empty()).1 == all.take(n).to_set(),
        decreases n,
    {
        let block = |d: Digest| self.graph.dag_by_digest[d];
        let some = all.take(n);
        if n > 0 {
            let front = all.take(n - 1);
            self.lemma_stacks_all(all, n - 1);
            assert(some.drop_last() =~= front);
            let d = all[n - 1];
            assert(some.last() == d);
            assert(all.contains(d));
            if front.to_set().contains(d) {
                let i = choose|i: int| 0 <= i < front.len() && front[i] == d;
                assert(all[i] != all[n - 1]);
            }
            assert(some.map_values(block) =~= front.map_values(block).push(block(d)));
            assert forall|e: Digest| some.to_set().contains(e) == front.to_set().insert(
                d,
            ).contains(e) by {
                if some.contains(e) {
                    let i = choose|i: int| 0 <= i < some.len() && some[i] == e;
                    if i < n - 1 {
                        assert(front[i] == e);
                    }
                }
                if front.contains(e) {
                    let i = choose|i: int| 0 <= i < front.len() && front[i] == e;
                    assert(some[i] == e);
                }
                if e == d {
                    assert(some[n - 1] == e);
                }
            }
            assert(some.to_set() =~= front.to_set().insert(d));
        } else {
            assert(some.map_values(block) =~= Seq::empty());
            assert(some.to_set() =~= Set::empty());
        }
    }
}

} // verus!
