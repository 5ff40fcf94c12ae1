//! The indexes over the observed blocks do not depend on the order in which the
//! blocks arrive.
use crate::consensus::model::{strong_edges, StateView, Support};
use crate::consensus::setup::is_genesis;
use crate::ordered::{in_order, lemma_in_order_of};
use crate::types::{Certificate, Digest, Header, PublicKey, Round};
use vstd::prelude::*;

verus! {

/// Whether the blocks of `blocks` under the digest of a block have its header.
/// Their votes may differ.
pub open spec fn agrees(blocks: Seq<Certificate>, c: Certificate) -> bool {
    forall|i: int|
        0 <= i < blocks.len() && (#[trigger] blocks[i]).digest() == c.digest()
            ==> blocks[i].content() == c.content()
}

/// Whether `blocks` hold a block with this header.
pub open spec fn has_header(blocks: Seq<Certificate>, header: Header) -> bool {
    exists|i: int| 0 <= i < blocks.len() && (#[trigger] blocks[i]).content() == header
}

/// Whether every header of `one` is among those of `other`.
pub open spec fn covered(one: Seq<Certificate>, other: Seq<Certificate>) -> bool {
    forall|i: int| 0 <= i < one.len() ==> #[trigger] has_header(other, one[i].content())
}

/// Whether `blocks` hold a block of this digest.
pub open spec fn has_digest(blocks: Seq<Certificate>, d: Digest) -> bool {
    exists|i: int| 0 <= i < blocks.len() && (#[trigger] blocks[i]).digest() == d
}

impl StateView {
    /// Observes `blocks` one after the other.
    pub open spec fn observe_all(self, blocks: Seq<Certificate>) -> StateView
        decreases blocks.len(),
    {
        if blocks.len() == 0 {
            self
        } else {
            self.observe_all(blocks.drop_last()).observe(blocks.last())
        }
    }

    /// The strong edges are those of the observed blocks to their parents.
    pub open spec fn exact_edges(self) -> bool {
        forall|p: (Digest, Digest)| #[trigger]
            self.graph.strong_children.contains(p) <==> self.graph.observed.contains_key(p.1)
                && self.graph.observed[p.1].header.parents@.contains(p.0)
    }

    /// The indexes are what the observed blocks make them, and no leader waits
    /// for a block.
    pub open spec fn indexes_exactly(self) -> bool {
        &&& self.wf()
        &&& self.exact_paths()
        &&& self.exact_edges()
        &&& self.graph.exact_support()
        &&& self.fallback.forced_waiters == Set::<(Digest, Round)>::empty()
    }

    /// Whether a block can be taken in and has the header of the observed copy.
    pub open spec fn takes(self, c: Certificate) -> bool {
        &&& self.admissible(c)
        &&& self.graph.observed.contains_key(c.digest())
            ==> self.graph.observed[c.digest()].content() == c.content()
    }

    /// One more observation keeps the indexes exact.
    proof fn lemma_observe_exactly(self, c: Certificate)
        requires
            self.indexes_exactly(),
            self.takes(c),
        ensures
            self.observe(c).indexes_exactly(),
            self.observe(c).graph.observed == self.graph.observed.insert(c.digest(), c),
            self.observe(c).graph.homes == self.graph.homes.insert(c.digest(), c.slot()),
    {
        let after = self.observe(c);
        self.law_observation_keeps_support(c);
        self.law_observation_keeps_paths(c);
        self.lemma_learn(c);
        assert(self.owners_of(c.digest()) =~= Set::empty());
        self.lemma_observe(c);
        if self.graph.observed.contains_key(c.digest()) {
            assert forall|p: (Digest, Digest)| #[trigger]
                after.graph.strong_children.contains(p) <==> after.graph.observed.contains_key(p.1)
                    && after.graph.observed[p.1].header.parents@.contains(p.0) by {
                assert(self.graph.strong_children.contains(p) <==> self.graph.observed.contains_key(
                    p.1,
                ) && self.graph.observed[p.1].header.parents@.contains(p.0));
            }
        } else {
            let learned = self.learn(c);
            let owners = in_order(learned.owners_of(c.digest()));
            assert(learned.owners_of(c.digest()) =~= Set::empty());
            lemma_in_order_of(learned.owners_of(c.digest()));
            if owners.len() > 0 {
                assert(owners.to_set().contains(owners[0]));
            }
            assert(after == learned.release(c.digest()));
            assert(after.fallback.forced_waiters =~= Set::empty());
            assert(after.graph.strong_children == self.graph.strong_children.union(
                strong_edges(c.content()),
            ));
            assert forall|p: (Digest, Digest)| #[trigger]
                after.graph.strong_children.contains(p) <==> after.graph.observed.contains_key(p.1)
                    && after.graph.observed[p.1].header.parents@.contains(p.0) by {
                assert(self.graph.strong_children.contains(p) <==> self.graph.observed.contains_key(
                    p.1,
                ) && self.graph.observed[p.1].header.parents@.contains(p.0));
            }
        }
    }

    /// Observations keep the indexes exact, and the observed blocks are those
    /// from before and those that were observed.
    proof fn lemma_observe_all(self, blocks: Seq<Certificate>)
        requires
            self.indexes_exactly(),
            forall|i: int|
                0 <= i < blocks.len() ==> self.takes(#[trigger] blocks[i]) && agrees(
                    blocks,
                    blocks[i],
                ),
        ensures
            self.observe_all(blocks).indexes_exactly(),
            forall|c: Certificate|
                self.takes(c) && agrees(blocks, c) ==> #[trigger] self.observe_all(blocks).takes(c),
            forall|d: Digest| #[trigger]
                self.observe_all(blocks).graph.observed.contains_key(d)
                    <==> self.graph.observed.contains_key(d) || has_digest(blocks, d),
            forall|d: Digest|
                self.graph.observed.contains_key(d) ==> (#[trigger] self.observe_all(
                    blocks,
                ).graph.observed[d]).content() == self.graph.observed[d].content(),
            forall|i: int|
                0 <= i < blocks.len() ==> self.observe_all(
                    blocks,
                ).graph.observed[(#[trigger] blocks[i]).digest()].content() == blocks[i].content(),
        decreases blocks.len(),
    {
        if blocks.len() > 0 {
            let front = blocks.drop_last();
            let last = blocks.last();
            let before = self.observe_all(front);
            let after = self.observe_all(blocks);
            assert(last == blocks[blocks.len() - 1]);
            assert forall|i: int| 0 <= i < front.len() implies self.takes(#[trigger] front[i])
                && agrees(front, front[i]) by {
                assert(front[i] == blocks[i]);
                assert forall|j: int|
                    0 <= j < front.len() && (#[trigger] front[j]).digest()
                        == front[i].digest() implies front[j].content() == front[i].content() by {
                    assert(front[j] == blocks[j]);
                }
            }
            self.lemma_observe_all(front);
            assert(agrees(front, last)) by {
                assert forall|j: int|
                    0 <= j < front.len() && (#[trigger] front[j]).digest()
                        == last.digest() implies front[j].content() == last.content() by {
                    assert(front[j] == blocks[j]);
                }
            }
            assert(self.takes(last));
            before.lemma_observe_exactly(last);
            assert forall|c: Certificate|
                self.takes(c) && agrees(blocks, c) implies #[trigger] after.takes(c) by {
                assert(agrees(front, c)) by {
                    assert forall|j: int|
                        0 <= j < front.len() && (#[trigger] front[j]).digest()
                            == c.digest() implies front[j].content() == c.content() by {
                        assert(front[j] == blocks[j]);
                    }
                }
                assert(before.takes(c));
                if c.digest() == last.digest() {
                    assert(blocks[blocks.len() - 1].content() == c.content());
                }
            }
            assert forall|d: Digest| #[trigger]
                after.graph.observed.contains_key(d) <==> self.graph.observed.contains_key(d)
                    || has_digest(blocks, d) by {
                if has_digest(front, d) {
                    let i = choose|i: int|
                        0 <= i < front.len() && (#[trigger] front[i]).digest() == d;
                    assert(blocks[i].digest() == d);
                }
                if d == last.digest() {
                    assert(blocks[blocks.len() - 1].digest() == d);
                }
                if has_digest(blocks, d) && d != last.digest() {
                    let i = choose|i: int|
                        0 <= i < blocks.len() && (#[trigger] blocks[i]).digest() == d;
                    assert(front[i].digest() == d);
                }
                assert(before.graph.observed.contains_key(d) <==> self.graph.observed.contains_key(
                    d,
                ) || has_digest(front, d));
            }
            assert forall|i: int| 0 <= i < blocks.len() implies after.graph.observed[(
            #[trigger] blocks[i]).digest()].content() == blocks[i].content() by {
                if i < front.len() {
                    assert(front[i] == blocks[i]);
                    assert(agrees(blocks, blocks[i]));
                }
            }
            assert forall|d: Digest|
                self.graph.observed.contains_key(d) implies (
            #[trigger] after.graph.observed[d]).content() == self.graph.observed[d].content() by {
                assert(before.graph.observed[d].content() == self.graph.observed[d].content());
                if d == last.digest() {
                    assert(self.takes(last));
                }
            }
        }
    }

    /// The same headers have been observed.
    pub open spec fn same_headers(self, other: StateView) -> bool {
        forall|d: Digest|
            #![trigger self.graph.observed.contains_key(d)]
            #![trigger other.graph.observed.contains_key(d)]
            self.graph.observed.contains_key(d) == other.graph.observed.contains_key(d) && (
            self.graph.observed.contains_key(d) ==> self.graph.observed[d].content()
                == other.graph.observed[d].content())
    }

    /// What the observed headers support, the same headers support.
    proof fn lemma_same_support(self, other: StateView, x: (Support, PublicKey))
        requires
            self.same_headers(other),
        ensures
            self.graph.backs(x.0.0, x.0.1, x.1) ==> other.graph.backs(x.0.0, x.0.1, x.1),
            self.graph.strong_ancestors == other.graph.strong_ancestors && self.graph.supports(
                x.0.0,
                x.0.1,
                x.1,
            ) ==> other.graph.supports(x.0.0, x.0.1, x.1),
    {
        if self.graph.backs(x.0.0, x.0.1, x.1) {
            let d = choose|d: Digest| #[trigger]
                self.graph.observed.contains_key(d) && self.graph.observed[d].round() == x.0.0
                    && self.graph.observed[d].origin() == x.1
                    && self.graph.observed[d].header.parents@.contains(x.0.1);
            assert(other.graph.observed.contains_key(d));
        }
        if self.graph.supports(x.0.0, x.0.1, x.1) {
            let d = choose|d: Digest| #[trigger]
                self.graph.observed.contains_key(d) && self.graph.observed[d].round() == x.0.0
                    && self.graph.observed[d].origin() == x.1
                    && self.graph.strong_ancestors.contains((d, x.0.1));
            assert(other.graph.observed.contains_key(d));
        }
    }

    /// Exact indexes over the same observed headers are the same.
    proof fn lemma_same_indexes(self, other: StateView)
        requires
            self.indexes_exactly(),
            other.indexes_exactly(),
            self.same_headers(other),
        ensures
            self.graph.strong_children == other.graph.strong_children,
            self.graph.strong_ancestors == other.graph.strong_ancestors,
            self.graph.observed_direct_support == other.graph.observed_direct_support,
            self.graph.observed_strong_support == other.graph.observed_strong_support,
    {
        let mine = self.graph;
        let theirs = other.graph;
        assert(mine.strong_children =~= theirs.strong_children) by {
            assert forall|p: (Digest, Digest)|
                mine.strong_children.contains(p) == theirs.strong_children.contains(p) by {}
        }
        assert(mine.strong_ancestors =~= theirs.strong_ancestors) by {
            assert forall|p: (Digest, Digest)|
                mine.strong_ancestors.contains(p) == theirs.strong_ancestors.contains(p) by {
                assert(mine.strong_ancestors.contains((p.0, p.1)) <==> self.descends(p.0, p.1));
                assert(theirs.strong_ancestors.contains((p.0, p.1)) <==> other.descends(p.0, p.1));
                assert(self.descends(p.0, p.1) == other.descends(p.0, p.1));
            }
        }
        assert(mine.observed_direct_support =~= theirs.observed_direct_support) by {
            assert forall|x: (Support, PublicKey)|
                mine.observed_direct_support.contains(x) == theirs.observed_direct_support.contains(
                    x,
                ) by {
                self.lemma_same_support(other, x);
                other.lemma_same_support(self, x);
            }
        }
        assert(mine.observed_strong_support =~= theirs.observed_strong_support) by {
            assert forall|x: (Support, PublicKey)|
                mine.observed_strong_support.contains(x) == theirs.observed_strong_support.contains(
                    x,
                ) by {
                self.lemma_same_support(other, x);
                other.lemma_same_support(self, x);
            }
        }
    }

    /// Whatever the order in which a node observes the same blocks from the
    /// start, and with whatever votes, the indexes over them are the same: the strong ancestors of a
    /// block are what one or more edges to parents lead to through observed
    /// blocks, and the support is what the observed blocks give.
    pub proof fn law_observation_order_does_not_matter(
        genesis: Seq<Certificate>,
        one: Seq<Certificate>,
        other: Seq<Certificate>,
    )
        requires
            is_genesis(genesis),
            genesis.len() > 0,
            forall|i: int|
                0 <= i < genesis.len() ==> (#[trigger] genesis[i]).header.parents@ == Set::<
                    Digest,
                >::empty(),
            forall|i: int|
                0 <= i < one.len() ==> Self::initial(genesis).takes(#[trigger] one[i]) && agrees(
                    one,
                    one[i],
                ),
            covered(one, other),
            covered(other, one),
        ensures
            ({
                let a = Self::initial(genesis).observe_all(one).graph;
                let b = Self::initial(genesis).observe_all(other).graph;
                &&& a.strong_ancestors == b.strong_ancestors
                &&& a.observed_direct_support == b.observed_direct_support
                &&& a.observed_strong_support == b.observed_strong_support
            }),
            Self::initial(genesis).observe_all(one).exact_paths(),
            Self::initial(genesis).observe_all(one).exact_edges(),
            Self::initial(genesis).observe_all(one).graph.exact_support(),
    {
        let s = Self::initial(genesis);
        Self::law_start(genesis);
        Self::lemma_seated(genesis);
        assert(s.exact_edges()) by {
            assert forall|p: (Digest, Digest)| #[trigger]
                s.graph.strong_children.contains(p) <==> s.graph.observed.contains_key(p.1)
                    && s.graph.observed[p.1].header.parents@.contains(p.0) by {
                if s.graph.observed.contains_key(p.1) {
                    let i = choose|i: int|
                        0 <= i < genesis.len() && (#[trigger] genesis[i])
                            == s.graph.observed[p.1];
                    assert(genesis[i].header.parents@ == Set::<Digest>::empty());
                }
            }
        }
        assert forall|i: int| 0 <= i < other.len() implies s.takes(#[trigger] other[i]) && agrees(
            other,
            other[i],
        ) by {
            assert(has_header(one, other[i].content()));
            let k = choose|k: int|
                0 <= k < one.len() && (#[trigger] one[k]).content() == other[i].content();
            assert(s.takes(one[k]));
            assert forall|j: int|
                0 <= j < other.len() && (#[trigger] other[j]).digest()
                    == other[i].digest() implies other[j].content() == other[i].content() by {
                assert(has_header(one, other[j].content()));
                let l = choose|l: int|
                    0 <= l < one.len() && (#[trigger] one[l]).content() == other[j].content();
                assert(agrees(one, one[k]));
                assert(one[l].digest() == one[k].digest());
            }
        }
        s.lemma_observe_all(one);
        s.lemma_observe_all(other);
        let a = s.observe_all(one);
        let b = s.observe_all(other);
        assert forall|d: Digest|
            #![trigger a.graph.observed.contains_key(d)]
            #![trigger b.graph.observed.contains_key(d)]
            a.graph.observed.contains_key(d) == b.graph.observed.contains_key(d) && (
            a.graph.observed.contains_key(d) ==> a.graph.observed[d].content()
                == b.graph.observed[d].content()) by {
            if has_digest(one, d) {
                let i = choose|i: int| 0 <= i < one.len() && (#[trigger] one[i]).digest() == d;
                assert(has_header(other, one[i].content()));
                let j = choose|j: int|
                    0 <= j < other.len() && (#[trigger] other[j]).content() == one[i].content();
                assert(other[j].digest() == d);
                assert(a.graph.observed[one[i].digest()].content() == one[i].content());
                assert(b.graph.observed[other[j].digest()].content() == other[j].content());
            }
            if has_digest(other, d) {
                let j = choose|j: int| 0 <= j < other.len() && (#[trigger] other[j]).digest() == d;
                assert(has_header(one, other[j].content()));
                let i = choose|i: int|
                    0 <= i < one.len() && (#[trigger] one[i]).content() == other[j].content();
                assert(one[i].digest() == d);
            }
            if s.graph.observed.contains_key(d) {
                assert(a.graph.observed[d].content() == s.graph.observed[d].content());
                assert(b.graph.observed[d].content() == s.graph.observed[d].content());
            }
            assert(a.graph.observed.contains_key(d) <==> s.graph.observed.contains_key(d)
                || has_digest(one, d));
            assert(b.graph.observed.contains_key(d) <==> s.graph.observed.contains_key(d)
                || has_digest(other, d));
        }
        a.lemma_same_indexes(b);
    }
}

} // verus!
