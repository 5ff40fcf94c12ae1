//! The state at the start, and what it admits.
use crate::consensus::model::{CommitView, StateView};
use crate::consensus::state::{Commits, Fallback, Graph, State};
use crate::ordered::{OrdMap, OrdSet, Relation};
use crate::types::{Certificate, Digest, PublicKey, Round, LAST_ROUND};
use std::collections::VecDeque;
use vstd::prelude::*;

verus! {

/// Genesis blocks are of round 0 and stand for one author each.
pub open spec fn is_genesis(genesis: Seq<Certificate>) -> bool {
    &&& forall|i: int| 0 <= i < genesis.len() ==> (#[trigger] genesis[i]).round() == 0
    &&& forall|i: int, j: int|
        0 <= i < j < genesis.len() ==> (#[trigger] genesis[i]).origin() != (
        #[trigger] genesis[j]).origin() && genesis[i].digest() != genesis[j].digest()
}

impl StateView {
    /// Seating genesis blocks gives a well-formed state.
    pub proof fn lemma_initial(genesis: Seq<Certificate>)
        requires
            is_genesis(genesis),
        ensures
            Self::initial(genesis).placed(),
            Self::initial(genesis).closed_paths(),
            Self::initial(genesis).graph.observed.dom().finite(),
            Self::initial(genesis).fallback == Self::blank().fallback,
            Self::initial(genesis).commits.pending == Self::blank().commits.pending,
            Self::initial(genesis).commits.rules == Self::blank().commits.rules,
            Self::initial(genesis).commits.dirty_leaders == Self::blank().commits.dirty_leaders,
            forall|d: Digest| #[trigger]
                Self::initial(genesis).graph.homes.contains_key(d) ==> exists|i: int|
                    0 <= i < genesis.len() && (#[trigger] genesis[i]).digest() == d,
            genesis.len() > 0 ==> Self::initial(genesis).wf(),
        decreases genesis.len(),
    {
        let state = Self::initial(genesis);
        if genesis.len() > 0 {
            let front = genesis.drop_last();
            let c = genesis.last();
            assert forall|i: int, j: int| 0 <= i < j < front.len() implies (
            #[trigger] front[i]).origin() != (#[trigger] front[j]).origin() && front[i].digest()
                != front[j].digest() by {
                assert(front[i] == genesis[i] && front[j] == genesis[j]);
            }
            Self::lemma_initial(front);
            let before = Self::initial(front);
            assert(!before.graph.homes.contains_key(c.digest())) by {
                if before.graph.homes.contains_key(c.digest()) {
                    let i = choose|i: int|
                        0 <= i < front.len() && (#[trigger] front[i]).digest() == c.digest();
                    assert(genesis[i].digest() != genesis[genesis.len() - 1].digest());
                }
            }
            assert(genesis[genesis.len() - 1].round() == 0);
            assert(state.graph.dag_digests =~= state.graph.dag_by_digest.dom());
            assert(state.placed());
            assert forall|d: Digest| #[trigger]
                state.graph.homes.contains_key(d) implies exists|i: int|
                0 <= i < genesis.len() && (#[trigger] genesis[i]).digest() == d by {
                if d == c.digest() {
                    assert(genesis[genesis.len() - 1].digest() == d);
                } else {
                    let i = choose|i: int|
                        0 <= i < front.len() && (#[trigger] front[i]).digest() == d;
                    assert(genesis[i].digest() == d);
                }
            }
            assert(state.commits.last_committed.contains_key(c.origin()));
            assert(state.tracked_leaders());
        } else {
            assert(state.graph.dag_digests =~= state.graph.dag_by_digest.dom());
        }
    }
}

impl State {
    /// The state without any block.
    fn blank() -> (result: Self)
        ensures
            result@ == StateView::blank(),
    {
        let mut committed: OrdSet<Round> = OrdSet::new();
        committed.insert(0);
        let result = State {
            graph: Graph {
                dag: OrdMap::new(),
                dag_by_digest: OrdMap::new(),
                dag_digests: OrdSet::new(),
                vdag: OrdMap::new(),
                grade_two: OrdSet::new(),
                observed: OrdMap::new(),
                observed_by_round: OrdMap::new(),
                strong_indexed: OrdSet::new(),
                strong_ancestors: Relation::new(),
                strong_children: Relation::new(),
                observed_strong_support: Relation::new(),
                dag_strong_support: Relation::new(),
                observed_direct_support: Relation::new(),
                dag_direct_support: Relation::new(),
                missing_dependencies: OrdMap::new(),
                dependency_waiters: Relation::new(),
                promotion_queue: VecDeque::new(),
                homes: OrdMap::new(),
            },
            fallback: Fallback {
                stack: OrdSet::new(),
                anchors: OrdMap::new(),
                evidence_version: 0,
                anchor_versions: OrdMap::new(),
                dirty_anchors: OrdSet::new(),
                history_cache: OrdMap::new(),
                decision_cache: OrdMap::new(),
                vertex_users: Relation::new(),
                evidence_waiters: Relation::new(),
                recovery: OrdSet::new(),
                missing_requests: OrdMap::new(),
                forced_waiters: Relation::new(),
            },
            commits: Commits {
                last_committed_round: 0,
                last_committed: OrdMap::new(),
                leaders: OrdMap::new(),
                committed,
                skipped: OrdSet::new(),
                pending: OrdMap::new(),
                ready_at: OrdMap::new(),
                rules: OrdMap::new(),
                order: OrdMap::new(),
                ready: OrdSet::new(),
                dirty_leaders: OrdSet::new(),
                highest_advanced_round: 1,
                requests: Vec::new(),
                outbox: Vec::new(),
            },
        };
        proof {
            assert(result@ =~= StateView::blank());
        }
        result
    }

    /// The state in which only the genesis blocks are known.
    pub fn new(genesis: Vec<Certificate>) -> (result: Self)
        requires
            genesis@.len() > 0,
            is_genesis(genesis@),
        ensures
            result@ == StateView::initial(genesis@),
            result@.wf(),
    {
        let mut result = State::blank();
        let mut i: usize = 0;
        proof {
            assert(genesis@.take(0) =~= Seq::empty());
        }
        while i < genesis.len()
            invariant
                i <= genesis@.len(),
                result@ == StateView::initial(genesis@.take(i as int)),
            decreases genesis@.len() - i,
        {
            let block = &genesis[i];
            let digest = block.digest();
            let slot = (block.round(), block.origin());
            proof {
                assert(genesis@.take(i + 1).drop_last() =~= genesis@.take(i as int));
            }
            result.graph.dag.insert(slot, block.clone());
            result.graph.dag_by_digest.insert(digest, block.clone());
            result.graph.dag_digests.insert(digest);
            result.graph.observed.insert(digest, block.clone());
            result.graph.observed_by_round.insert(slot, digest);
            result.graph.homes.insert(digest, slot);
            result.commits.last_committed.insert(block.origin(), block.round());
            i += 1;
        }
        proof {
            assert(genesis@.take(genesis@.len() as int) =~= genesis@);
            StateView::lemma_initial(genesis@);
        }
        result
    }

    /// Whether a block can be taken in.
    pub fn admits(&self, block: &Certificate) -> (result: bool)
        ensures
            result == self@.admissible(*block),
    {
        let at_home = match self.graph.homes.get(&block.digest()) {
            Some(home) => home.0 == block.round() && home.1 == block.origin(),
            None => true,
        };
        block.round() <= LAST_ROUND && at_home
    }

    /// Notes when a leader first satisfies a commit rule. Hands the time back
    /// the first time.
    pub fn record_rule_ready(&mut self, round: Round, now_ms: u128) -> (result: Option<u128>)
        ensures
            final(self)@ == old(self)@.note_ready(round, now_ms),
            result == (if old(self)@.commits.ready_at.contains_key(round) {
                None
            } else {
                Some(now_ms)
            }),
    {
        if self.commits.ready_at.contains_key(&round) {
            return None;
        }
        self.commits.ready_at.insert(round, now_ms);
        Some(now_ms)
    }

    /// Hands out the committed sequences, in the order of their commit.
    pub fn take_commits(&mut self) -> (result: Vec<Vec<Certificate>>)
        requires
            old(self)@.wf(),
        ensures
            result@.map_values(|v: Vec<Certificate>| v@) == old(self)@.commits.outbox,
            final(self)@ == (StateView {
                commits: CommitView { outbox: Seq::empty(), ..old(self)@.commits },
                ..old(self)@
            }),
            final(self)@.wf(),
    {
        let ghost before = self@;
        let mut taken: Vec<Vec<Certificate>> = Vec::new();
        std::mem::swap(&mut taken, &mut self.commits.outbox);
        proof {
            assert(self.commits.outbox@.map_values(|v: Vec<Certificate>| v@) =~= Seq::empty());
            before.lemma_same_graph(self@);
        }
        taken
    }

    /// Hands out the requests for leader blocks, in the order in which they were
    /// made.
    pub fn take_requests(&mut self) -> (result: Vec<(Round, PublicKey)>)
        requires
            old(self)@.wf(),
        ensures
            result@ == old(self)@.commits.requests,
            final(self)@ == (StateView {
                commits: CommitView { requests: Seq::empty(), ..old(self)@.commits },
                ..old(self)@
            }),
            final(self)@.wf(),
    {
        let ghost before = self@;
        let mut taken: Vec<(Round, PublicKey)> = Vec::new();
        std::mem::swap(&mut taken, &mut self.commits.requests);
        proof {
            before.lemma_same_graph(self@);
        }
        taken
    }
}

} // verus!
