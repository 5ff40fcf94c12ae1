//! The order in which the history of a leader is committed.
use crate::consensus::model::StateView;
use crate::consensus::rules::Consensus;
use crate::consensus::state::State;
use crate::ordered::{group_ordered, lemma_filter_take, OrdSet};
use crate::types::{Certificate, Digest, Round};
use vstd::prelude::*;

verus! {

/// How many blocks of `sorted`, from the front, are of no later round than `r`.
pub open spec fn upto(sorted: Seq<Certificate>, r: Round) -> int
    decreases sorted.len(),
{
    if sorted.len() == 0 {
        0
    } else if sorted.last().round() <= r {
        sorted.len() as int
    } else {
        upto(sorted.drop_last(), r)
    }
}

/// The blocks of `s` by round. Blocks of one round keep their order.
pub open spec fn sort_by_round(s: Seq<Certificate>) -> Seq<Certificate>
    decreases s.len(),
{
    if s.len() == 0 {
        s
    } else {
        let front = sort_by_round(s.drop_last());
        front.insert(upto(front, s.last().round()), s.last())
    }
}

/// The blocks of `s` are in the order of their rounds.
pub open spec fn sorted_by_round(s: Seq<Certificate>) -> bool {
    forall|i: int, j: int|
        0 <= i < j < s.len() ==> (#[trigger] s[i]).round() <= (#[trigger] s[j]).round()
}

pub proof fn lemma_upto(sorted: Seq<Certificate>, r: Round)
    requires
        sorted_by_round(sorted),
    ensures
        0 <= upto(sorted, r) <= sorted.len(),
        forall|i: int| 0 <= i < upto(sorted, r) ==> (#[trigger] sorted[i]).round() <= r,
        forall|i: int| upto(sorted, r) <= i < sorted.len() ==> (#[trigger] sorted[i]).round() > r,
    decreases sorted.len(),
{
    if sorted.len() > 0 && sorted.last().round() > r {
        let front = sorted.drop_last();
        assert forall|i: int, j: int| 0 <= i < j < front.len() implies (#[trigger] front[i]).round()
            <= (#[trigger] front[j]).round() by {
            assert(front[i] == sorted[i] && front[j] == sorted[j]);
        }
        lemma_upto(front, r);
        assert forall|i: int| 0 <= i < upto(sorted, r) implies (#[trigger] sorted[i]).round()
            <= r by {
            assert(front[i] == sorted[i]);
        }
        assert forall|i: int| upto(sorted, r) <= i < sorted.len() implies (
        #[trigger] sorted[i]).round() > r by {
            if i < front.len() {
                assert(front[i] == sorted[i]);
            }
        }
    }
}

/// Sorting by round gives the same blocks, in the order of their rounds.
pub proof fn lemma_sort_by_round(s: Seq<Certificate>)
    ensures
        sorted_by_round(sort_by_round(s)),
        sort_by_round(s).len() == s.len(),
        sort_by_round(s).to_multiset() == s.to_multiset(),
    decreases s.len(),
{
    if s.len() > 0 {
        let front = sort_by_round(s.drop_last());
        let c = s.last();
        let n = upto(front, c.round());
        lemma_sort_by_round(s.drop_last());
        lemma_upto(front, c.round());
        let all = front.insert(n, c);
        assert forall|i: int, j: int| 0 <= i < j < all.len() implies (#[trigger] all[i]).round()
            <= (#[trigger] all[j]).round() by {
            let a = if i < n {
                i
            } else {
                i - 1
            };
            let b = if j < n {
                j
            } else {
                j - 1
            };
            if i != n {
                assert(all[i] == front[a]);
            }
            if j != n {
                assert(all[j] == front[b]);
            }
        }
        all.to_multiset_ensures();
        s.drop_last().to_multiset_ensures();
        assert(all.remove(n) =~= front);
        assert(all[n] == c);
        assert(all.contains(c));
        assert(all.to_multiset() =~= front.to_multiset().insert(c));
        assert(s =~= s.drop_last().push(c));
    }
}

/// Inserts a block behind the blocks of no later round.
fn insert_by_round(sorted: &mut Vec<Certificate>, block: Certificate)
    requires
        sorted_by_round(old(sorted)@),
    ensures
        final(sorted)@ == old(sorted)@.insert(upto(old(sorted)@, block.round()), block),
{
    let ghost before = sorted@;
    let round = block.round();
    let mut at: usize = sorted.len();
    proof {
        lemma_upto(before, round);
        assert(before.take(before.len() as int) =~= before);
    }
    while at > 0 && sorted[at - 1].round() > round
        invariant
            at <= sorted@.len(),
            sorted@ == before,
            upto(before.take(at as int), round) == upto(before, round),
        decreases at,
    {
        proof {
            assert(before.take(at as int).drop_last() =~= before.take(at - 1));
        }
        at -= 1;
    }
    proof {
        if at > 0 {
            assert(before.take(at as int).last() == before[at - 1]);
        }
    }
    sorted.insert(at, block);
}

impl StateView {
    /// Whether a block is to be sequenced: it is in the Dag, has not been met
    /// and lies above the watermark of its author.
    pub open spec fn sequences(self, digest: Digest, done: Set<Digest>) -> bool {
        &&& self.uncommitted(digest)
        &&& !done.contains(digest)
    }

    /// Whether the Dag holds a block above the watermark of its author.
    pub open spec fn uncommitted(self, digest: Digest) -> bool {
        &&& self.graph.dag_by_digest.contains_key(digest)
        &&& self.above_mark(self.graph.dag_by_digest[digest])
    }

    /// Whether a block lies above the watermark of its author.
    pub open spec fn above_mark(self, c: Certificate) -> bool {
        self.commits.last_committed.contains_key(c.origin()) ==> c.round()
            > self.commits.last_committed[c.origin()]
    }

    /// Stacks the blocks of `dependencies` that are to be sequenced.
    pub open spec fn stack_parents(
        self,
        dependencies: Seq<Digest>,
        buffer: Seq<Certificate>,
        done: Set<Digest>,
    ) -> (Seq<Certificate>, Set<Digest>)
        decreases dependencies.len(),
    {
        if dependencies.len() == 0 {
            (buffer, done)
        } else {
            let (stack, met) = self.stack_parents(dependencies.drop_last(), buffer, done);
            let d = dependencies.last();
            if self.sequences(d, met) {
                (stack.push(self.graph.dag_by_digest[d]), met.insert(d))
            } else {
                (stack, met)
            }
        }
    }

    /// The Dag blocks that a sequence has not met.
    pub open spec fn unmet(self, done: Set<Digest>) -> Set<Digest> {
        self.graph.dag_by_digest.dom().difference(done)
    }

    /// Sequences the blocks on the stack and what they depend on, depth first.
    pub open spec fn flatten(self, buffer: Seq<Certificate>, done: Set<Digest>) -> Seq<Certificate>
        decreases self.unmet(done).len(), buffer.len(),
        when self.graph.dag_by_digest.dom().finite() via Self::flatten_decreases
    {
        if buffer.len() == 0 {
            Seq::empty()
        } else {
            let x = buffer.last();
            let (stack, met) = self.stack_parents(
                x.header.dependencies(),
                buffer.drop_last(),
                done,
            );
            seq![x] + self.flatten(stack, met)
        }
    }

    #[via_fn]
    proof fn flatten_decreases(self, buffer: Seq<Certificate>, done: Set<Digest>) {
        if buffer.len() > 0 {
            self.lemma_stack_parents(
                buffer.last().header.dependencies(),
                buffer.drop_last(),
                done,
            );
        }
    }

    /// Stacking meets blocks that had not been met, if it changes anything.
    pub proof fn lemma_stack_parents(
        self,
        dependencies: Seq<Digest>,
        buffer: Seq<Certificate>,
        done: Set<Digest>,
    )
        requires
            self.graph.dag_by_digest.dom().finite(),
        ensures
            ({
                let (stack, met) = self.stack_parents(dependencies, buffer, done);
                &&& done.subset_of(met)
                &&& (stack == buffer && met == done) || self.unmet(met).len() < self.unmet(
                    done,
                ).len()
            }),
        decreases dependencies.len(),
    {
        if dependencies.len() > 0 {
            let d = dependencies.last();
            let (stack, met) = self.stack_parents(dependencies.drop_last(), buffer, done);
            self.lemma_stack_parents(dependencies.drop_last(), buffer, done);
            if self.sequences(d, met) {
                assert(self.unmet(met.insert(d)) =~= self.unmet(met).remove(d));
            }
        }
    }

    /// The history of a leader in the order in which it is committed.
    pub open spec fn order_dag(self, leader: Certificate, gc_depth: Round) -> Seq<Certificate> {
        sort_by_round(
            self.flatten(seq![leader], Set::empty()).filter(
                |c: Certificate|
                    Self::recent(c.round(), gc_depth, self.commits.last_committed_round),
            ),
        )
    }
}

impl StateView {
    /// The order of a history rests on the Dag and the watermarks alone.
    pub proof fn lemma_order_local(self, other: StateView, leader: Certificate, gc_depth: Round)
        requires
            self.graph == other.graph,
            self.commits.last_committed == other.commits.last_committed,
            self.commits.last_committed_round == other.commits.last_committed_round,
            self.graph.dag_by_digest.dom().finite(),
        ensures
            self.order_dag(leader, gc_depth) == other.order_dag(leader, gc_depth),
    {
        self.lemma_flatten_local(other, seq![leader], Set::empty());
        let kept = |c: Certificate|
            Self::recent(c.round(), gc_depth, self.commits.last_committed_round);
        let also = |c: Certificate|
            Self::recent(c.round(), gc_depth, other.commits.last_committed_round);
        assert(kept =~= also);
    }

    proof fn lemma_stack_local(
        self,
        other: StateView,
        dependencies: Seq<Digest>,
        buffer: Seq<Certificate>,
        done: Set<Digest>,
    )
        requires
            self.graph == other.graph,
            self.commits.last_committed == other.commits.last_committed,
        ensures
            self.stack_parents(dependencies, buffer, done) == other.stack_parents(
                dependencies,
                buffer,
                done,
            ),
        decreases dependencies.len(),
    {
        if dependencies.len() > 0 {
            self.lemma_stack_local(other, dependencies.drop_last(), buffer, done);
        }
    }

    proof fn lemma_flatten_local(
        self,
        other: StateView,
        buffer: Seq<Certificate>,
        done: Set<Digest>,
    )
        requires
            self.graph == other.graph,
            self.commits.last_committed == other.commits.last_committed,
            self.graph.dag_by_digest.dom().finite(),
        ensures
            self.flatten(buffer, done) == other.flatten(buffer, done),
        decreases self.unmet(done).len(), buffer.len(),
    {
        if buffer.len() > 0 {
            let dependencies = buffer.last().header.dependencies();
            let (stack, met) = self.stack_parents(dependencies, buffer.drop_last(), done);
            self.lemma_stack_local(other, dependencies, buffer.drop_last(), done);
            self.lemma_stack_parents(dependencies, buffer.drop_last(), done);
            self.lemma_flatten_local(other, stack, met);
        }
    }
}

impl State {
    /// Whether a block lies above the watermark of its author.
    pub(crate) fn is_above_mark(&self, block: &Certificate) -> (result: bool)
        ensures
            result == self@.above_mark(*block),
    {
        match self.commits.last_committed.get(&block.origin()) {
            Some(mark) => block.round() > *mark,
            None => true,
        }
    }

    /// Stacks the dependencies of a block that are to be sequenced.
    fn stack_unordered(
        &self,
        block: &Certificate,
        buffer: &mut Vec<Certificate>,
        done: &mut OrdSet<Digest>,
    )
        ensures
            (final(buffer)@, final(done)@) == self@.stack_parents(
                block.header.dependencies(),
                old(buffer)@,
                old(done)@,
            ),
    {
        let dependencies = block.header.edges();
        let ghost before = buffer@;
        let ghost met = done@;
        let mut i: usize = 0;
        proof {
            assert(dependencies@.take(0) =~= Seq::empty());
        }
        while i < dependencies.len()
            invariant
                i <= dependencies@.len(),
                (buffer@, done@) == self@.stack_parents(dependencies@.take(i as int), before, met),
            decreases dependencies@.len() - i,
        {
            proof {
                assert(dependencies@.take(i + 1).drop_last() =~= dependencies@.take(i as int));
            }
            let parent = dependencies[i];
            if let Some(certificate) = self.graph.dag_by_digest.get(&parent) {
                if !done.contains(&parent) && self.is_above_mark(certificate) {
                    buffer.push(certificate.clone());
                    done.insert(parent);
                }
            }
            i += 1;
        }
        proof {
            assert(dependencies@.take(dependencies@.len() as int) =~= dependencies@);
        }
    }
}

impl Consensus {
    /// Flattens the history of a leader: a depth-first walk along strong and
    /// weak edges that skips what is committed, then by round. Virtual edges
    /// pull nothing into the sequence.
    pub fn order_dag(&self, leader: &Certificate, state: &State) -> (result: Vec<Certificate>)
        ensures
            result@ == state@.order_dag(*leader, self.gc_depth),
    {
        broadcast use group_ordered;

        let ghost model = state@;
        let ghost goal = model.flatten(seq![*leader], Set::empty());
        let mut ordered: Vec<Certificate> = Vec::new();
        let mut done: OrdSet<Digest> = OrdSet::new();
        let mut buffer: Vec<Certificate> = Vec::new();
        buffer.push(leader.clone());
        proof {
            assert(buffer@ =~= seq![*leader]);
            assert(ordered@ + goal =~= goal);
        }
        while buffer.len() > 0
            invariant
                model == state@,
                model.graph.dag_by_digest.dom().finite(),
                ordered@ + model.flatten(buffer@, done@) == goal,
            decreases model.unmet(done@).len(), buffer@.len(),
        {
            let ghost stack = buffer@;
            let ghost met = done@;
            let ghost had = ordered@;
            let block = buffer.pop().unwrap();
            proof {
                assert(buffer@ =~= stack.drop_last());
                model.lemma_stack_parents(block.header.dependencies(), buffer@, met);
            }
            state.stack_unordered(&block, &mut buffer, &mut done);
            ordered.push(block);
            proof {
                assert(had + (seq![block] + model.flatten(buffer@, done@)) =~= ordered@
                    + model.flatten(buffer@, done@));
            }
        }
        let ghost kept = |c: Certificate|
            StateView::recent(c.round(), self.gc_depth, model.commits.last_committed_round);
        let latest = state.commits.last_committed_round;
        let horizon: Round = if latest > self.gc_depth {
            latest - self.gc_depth
        } else {
            0
        };
        let mut sorted: Vec<Certificate> = Vec::new();
        let mut i: usize = 0;
        proof {
            assert(ordered@ + Seq::<Certificate>::empty() =~= ordered@);
            assert(ordered@ == goal);
            reveal(Seq::filter);
            assert(goal.take(0).filter(kept) =~= Seq::empty());
        }
        while i < ordered.len()
            invariant
                i <= ordered@.len(),
                ordered@ == goal,
                kept == (|c: Certificate|
                    StateView::recent(c.round(), self.gc_depth, model.commits.last_committed_round)),
                latest == model.commits.last_committed_round,
                horizon == (if latest > self.gc_depth {
                    latest - self.gc_depth
                } else {
                    0
                }),
                sorted@ == sort_by_round(goal.take(i as int).filter(kept)),
            decreases ordered@.len() - i,
        {
            proof {
                lemma_filter_take(goal, kept, i as int);
                lemma_sort_by_round(goal.take(i as int).filter(kept));
            }
            if ordered[i].round() >= horizon {
                let ghost front = goal.take(i as int).filter(kept);
                proof {
                    assert(front.push(goal[i as int]).drop_last() =~= front);
                }
                insert_by_round(&mut sorted, ordered[i].clone());
            }
            i += 1;
        }
        proof {
            assert(goal.take(goal.len() as int) =~= goal);
        }
        sorted
    }
}

} // verus!
