//! What a whole round of commits does.
use crate::consensus::commit::Time;
use crate::consensus::model::{decided, decided_below, heeded, StateView};
use crate::ordered::{in_order, lemma_in_order_of};
use crate::types::{Certificate, Digest, Round, Slot};
use vstd::prelude::*;

verus! {

/// Later elements are greater.
pub open spec fn rising(rounds: Seq<Round>) -> bool {
    forall|i: int, j: int|
        0 <= i < j < rounds.len() ==> #[trigger] rounds[i] < #[trigger] rounds[j]
}

impl StateView {
    /// The rounds whose leaders are committed when all that are ready are, in
    /// the order of their commits.
    pub open spec fn drained(self, gc_depth: Round) -> Seq<Round>
        decreases self.commits.pending.dom().len(), self.commits.ready.len(),
        when self.commits.pending.dom().finite() && self.commits.ready.finite() via
            Self::drained_decreases
    {
        if self.commits.ready.len() == 0 {
            Seq::empty()
        } else {
            let round = in_order(self.commits.ready)[0];
            let next = self.unready(round);
            if next.can_commit(round) {
                let rest = next.commit_leader(round, gc_depth).drained(gc_depth);
                if self.commits.committed.contains(round) {
                    rest
                } else {
                    seq![round] + rest
                }
            } else {
                next.drained(gc_depth)
            }
        }
    }

    #[via_fn]
    proof fn drained_decreases(self, gc_depth: Round) {
        if self.commits.ready.len() > 0 {
            self.lemma_first_ready(gc_depth);
        }
    }

    /// The first ready leader is one of them, and its commit leaves one pending
    /// leader less.
    pub proof fn lemma_first_ready(self, gc_depth: Round)
        requires
            self.commits.ready.finite(),
            self.commits.ready.len() > 0,
        ensures
            self.commits.ready.contains(in_order(self.commits.ready)[0]),
            ({
                let round = in_order(self.commits.ready)[0];
                let next = self.unready(round).commit_leader(round, gc_depth);
                next.commits.pending == self.commits.pending.remove(round)
            }),
    {
        lemma_in_order_of(self.commits.ready);
        let order = in_order(self.commits.ready);
        if order.len() == 0 {
            assert(order.to_set() =~= Set::empty());
        }
        assert(order.to_set().contains(order[0]));
    }

    /// Committing all leaders that are ready commits pending leaders whose
    /// blocks are in the Dag, in the order of their rounds and each with one
    /// sequence. They are pending no longer. All other pending leaders stay so,
    /// and no leader is ready afterwards. Before each of them every leader is
    /// committed or skipped.
    pub proof fn law_drain_commits_in_order(self, gc_depth: Round)
        requires
            self.wf(),
            self.decided_once(),
        ensures
            ({
                let rounds = self.drained(gc_depth);
                let after = self.drain(gc_depth);
                &&& rising(rounds)
                &&& after.commits.committed == self.commits.committed.union(rounds.to_set())
                &&& after.commits.skipped == self.commits.skipped
                &&& after.commits.pending == self.commits.pending.remove_keys(rounds.to_set())
                &&& after.commits.ready == Set::<Round>::empty()
                &&& after.commits.outbox.len() == self.commits.outbox.len() + rounds.len()
                &&& forall|i: int|
                    0 <= i < rounds.len() ==> 0 < #[trigger] rounds[i]
                        && self.commits.pending.contains_key(rounds[i])
                        && !self.commits.committed.contains(rounds[i])
                        && self.graph.dag_digests.contains(
                        self.commits.pending[rounds[i]].digest(),
                    ) && decided_below(
                        after.commits.committed,
                        after.commits.skipped,
                        rounds[i],
                    )
            }),
        decreases self.commits.pending.dom().len(), self.commits.ready.len(),
    {
        let rounds = self.drained(gc_depth);
        let after = self.drain(gc_depth);
        if self.commits.ready.len() == 0 {
            assert(rounds.to_set() =~= Set::empty());
            assert(self.commits.pending.remove_keys(rounds.to_set()) =~= self.commits.pending);
        } else {
            let round = in_order(self.commits.ready)[0];
            let next = self.unready(round);
            self.lemma_first_ready(gc_depth);
            self.lemma_unready(round);
            if next.can_commit(round) {
                let done = next.commit_leader(round, gc_depth);
                let rest = done.drained(gc_depth);
                next.lemma_commit_leader(round, gc_depth);
                next.lemma_commit_shrinks(round, gc_depth);
                assert(done.decided_once());
                done.law_drain_commits_in_order(gc_depth);
                assert(rounds =~= seq![round] + rest);
                assert(rounds.to_set() =~= rest.to_set().insert(round)) by {
                    assert(rounds[0] == round);
                    assert forall|r: Round| rest.to_set().contains(r) implies rounds.contains(r) by {
                        let i = choose|i: int| 0 <= i < rest.len() && rest[i] == r;
                        assert(rounds[i + 1] == r);
                    }
                }
                assert(self.commits.pending.remove(round).remove_keys(rest.to_set())
                    =~= self.commits.pending.remove_keys(rounds.to_set()));
                assert(after.commits.committed =~= self.commits.committed.union(rounds.to_set()));
                assert forall|i: int| 0 <= i < rest.len() implies round < #[trigger] rest[i] by {
                    let r = rest[i];
                    assert(self.commits.pending.contains_key(r) && r != round);
                    if 0 < r < round {
                        assert(decided(self.commits.committed, self.commits.skipped, r));
                    }
                }
                assert(rising(rounds)) by {
                    assert forall|i: int, j: int| 0 <= i < j < rounds.len() implies #[trigger] rounds[i]
                        < #[trigger] rounds[j] by {
                        assert(rounds[j] == rest[j - 1]);
                        if i > 0 {
                            assert(rounds[i] == rest[i - 1]);
                        }
                    }
                }
                assert forall|i: int| 0 <= i < rounds.len() implies 0
                    < #[trigger] rounds[i] && self.commits.pending.contains_key(rounds[i])
                    && !self.commits.committed.contains(rounds[i])
                    && self.graph.dag_digests.contains(self.commits.pending[rounds[i]].digest())
                    && decided_below(
                    after.commits.committed,
                    after.commits.skipped,
                    rounds[i],
                ) by {
                    if i > 0 {
                        assert(rounds[i] == rest[i - 1]);
                    } else {
                        assert forall|q: Round| 0 < q < round implies #[trigger] decided(
                            after.commits.committed,
                            after.commits.skipped,
                            q,
                        ) by {
                            assert(decided(self.commits.committed, self.commits.skipped, q));
                        }
                    }
                }
            } else {
                next.law_drain_commits_in_order(gc_depth);
            }
        }
    }

    /// Committing all leaders that are ready, from any state: what is newly
    /// committed was pending with its block in the Dag, and every leader before
    /// it is committed or skipped. A leader leaves the pending ones only where it
    /// is committed, and no leader is ready afterwards.
    pub proof fn law_drain_commits_pending_leaders(self, gc_depth: Round)
        requires
            self.wf(),
        ensures
            ({
                let after = self.drain(gc_depth);
                &&& after.wf()
                &&& after.commits.ready == Set::<Round>::empty()
                &&& after.commits.skipped == self.commits.skipped
                &&& self.commits.committed.subset_of(after.commits.committed)
                &&& forall|r: Round| #[trigger]
                    after.commits.pending.contains_key(r) ==> self.commits.pending.contains_key(r)
                        && after.commits.pending[r] == self.commits.pending[r]
                &&& after.graph.dag_digests.subset_of(self.graph.dag_digests)
                &&& forall|r: Round|
                    #![trigger after.commits.committed.contains(r)]
                    after.commits.committed.contains(r) && !self.commits.committed.contains(r)
                        ==> 0 < r && self.commits.pending.contains_key(r)
                        && self.graph.dag_digests.contains(self.commits.pending[r].digest())
                        && decided_below(after.commits.committed, after.commits.skipped, r)
                        && !after.commits.pending.contains_key(r)
                &&& forall|r: Round|
                    #![trigger after.commits.pending.contains_key(r)]
                    self.commits.pending.contains_key(r) && !after.commits.pending.contains_key(r)
                        ==> after.commits.committed.contains(r)
            }),
        decreases self.commits.pending.dom().len(), self.commits.ready.len(),
    {
        let after = self.drain(gc_depth);
        if self.commits.ready.len() > 0 {
            let round = in_order(self.commits.ready)[0];
            let next = self.unready(round);
            self.lemma_first_ready(gc_depth);
            self.lemma_unready(round);
            if next.can_commit(round) {
                let done = next.commit_leader(round, gc_depth);
                next.lemma_commit_leader(round, gc_depth);
                if !self.commits.committed.contains(round) {
                    next.lemma_commit_shrinks(round, gc_depth);
                }
                done.law_drain_commits_pending_leaders(gc_depth);
                assert forall|r: Round|
                    #![trigger after.commits.committed.contains(r)]
                    after.commits.committed.contains(r)
                        && !self.commits.committed.contains(r) implies 0 < r
                    && self.commits.pending.contains_key(r) && self.graph.dag_digests.contains(
                    self.commits.pending[r].digest(),
                ) && decided_below(after.commits.committed, after.commits.skipped, r)
                    && !after.commits.pending.contains_key(r) by {
                    if r == round {
                        assert(after.consecutive());
                        assert(decided_below(after.commits.committed, after.commits.skipped, r));
                        assert(!done.commits.pending.contains_key(r));
                    } else {
                        assert(!done.commits.committed.contains(r));
                    }
                }
                assert forall|r: Round|
                    #![trigger after.commits.pending.contains_key(r)]
                    self.commits.pending.contains_key(r) && !after.commits.pending.contains_key(
                        r,
                    ) implies after.commits.committed.contains(r) by {
                    if r == round {
                        assert(done.commits.committed.contains(r));
                    } else {
                        assert(done.commits.pending.contains_key(r));
                    }
                }
            } else {
                next.law_drain_commits_pending_leaders(gc_depth);
            }
        }
    }

    /// A pending leader that can be committed is among the ready ones.
    pub proof fn law_committable_leader_is_ready(self, round: Round)
        requires
            self.attentive(),
            self.can_commit(round),
        ensures
            self.commits.ready.contains(round),
    {
        reveal(heeded);
    }

    /// Every step that lets a leader be committed makes it ready: its staging,
    /// the promotion of its block, and the skip or the commit of one before it.
    pub proof fn law_steps_make_leaders_ready(
        self,
        c: Certificate,
        leader: Certificate,
        rule: u8,
        gc_depth: Round,
        now: Time,
        round: Round,
    )
        requires
            self.wf(),
            self.attentive(),
            self.admissible(c),
            self.settled(leader),
        ensures
            self.promote(c).attentive(),
            self.stage(leader, rule, gc_depth, now).attentive(),
            !self.commits.pending.contains_key(round) ==> self.skip_leader(round).attentive(),
            self.can_commit(round) ==> self.commit_leader(round, gc_depth).attentive(),
            self.try_commit(round, gc_depth).attentive(),
    {
        self.lemma_promote(c);
        self.lemma_stage(leader, rule, gc_depth, now);
        self.lemma_skip_leader(round);
        if self.can_commit(round) {
            self.lemma_commit_leader(round, gc_depth);
        }
        self.lemma_try_commit(round, gc_depth);
    }

    /// Once all leaders that are ready are committed, no pending leader is left
    /// that can be.
    pub proof fn law_drain_leaves_nothing_to_commit(self, gc_depth: Round, round: Round)
        requires
            self.wf(),
            self.attentive(),
        ensures
            self.drain(gc_depth).attentive(),
            !self.drain(gc_depth).can_commit(round),
        decreases self.commits.pending.dom().len(), self.commits.ready.len(),
    {
        let after = self.drain(gc_depth);
        if self.commits.ready.len() == 0 {
            reveal(heeded);
            assert(!self.commits.ready.contains(round));
        } else {
            let first = in_order(self.commits.ready)[0];
            self.lemma_first_ready(gc_depth);
            self.lemma_try_commit(first, gc_depth);
            self.try_commit(first, gc_depth).law_drain_leaves_nothing_to_commit(gc_depth, round);
        }
    }

    /// A leader that is no longer taken for ready leaves the state well-formed.
    pub proof fn lemma_unready(self, round: Round)
        requires
            self.wf(),
        ensures
            self.unready(round).wf(),
    {
        self.lemma_same_graph(self.unready(round));
    }

    /// A commit decides its leader alone, and takes no block into the Dag.
    proof fn lemma_commit_shrinks(self, round: Round, gc_depth: Round)
        requires
            self.wf(),
            self.can_commit(round),
            !self.commits.committed.contains(round),
        ensures
            ({
                let after = self.commit_leader(round, gc_depth);
                &&& after.commits.committed == self.commits.committed.insert(round)
                &&& after.commits.skipped == self.commits.skipped
                &&& self.commits.ready.finite() ==> after.commits.ready.finite()
                &&& after.commits.outbox.len() == self.commits.outbox.len() + 1
                &&& after.graph.dag_digests.subset_of(self.graph.dag_digests)
            }),
    {
        let after = self.commit_leader(round, gc_depth);
        assert forall|d: Digest| after.graph.dag_digests.contains(
            d,
        ) implies self.graph.dag_digests.contains(d) by {
            let s = choose|s: Slot| #[trigger]
                after.graph.dag.contains_key(s) && after.graph.dag[s].digest() == d;
            assert(self.graph.dag.contains_key(s));
        }
    }
}

} // verus!
