//! The consensus state and the steps that keep it.
use crate::consensus::model::{
    CommitView, FallbackDecision, FallbackView, GraphView, HistoryView, StateView, Support,
};
use crate::consensus::model::{decided, decided_below, direct_support, leads_to, lemma_in_turn};
use crate::consensus::paths::{credit, lemma_leads_on, lemma_leads_to_itself, row, waits_for};
use crate::ordered::{
    group_ordered, image, insert_all, lemma_filter_take, lemma_take_contains, without, Key, OrdMap,
    OrdSet, Relation,
};
use crate::types::{Certificate, Digest, Header, PublicKey, Round, Slot, LAST_ROUND};
use std::collections::VecDeque;
use std::sync::Arc;
use vstd::prelude::*;

verus! {

/// The strong and weak causal history of a recovery anchor.
pub struct History {
    /// The evidence revision of the anchor.
    pub version: u64,
    /// Whether everything that the history refers to has been observed.
    pub complete: bool,
    /// The observed blocks of the history under their rounds.
    pub by_round: Relation<Round, Digest>,
}

impl View for History {
    type V = HistoryView;

    open spec fn view(&self) -> HistoryView {
        HistoryView {
            version: self.version,
            complete: self.complete,
            by_round: self.by_round@,
        }
    }
}

/// The blocks and the indexes over them.
pub struct Graph {
    /// The ordering DAG.
    pub dag: OrdMap<Slot, Certificate>,
    /// The blocks of the ordering DAG by digest.
    pub dag_by_digest: OrdMap<Digest, Certificate>,
    /// The digests of the blocks of the ordering DAG.
    pub dag_digests: OrdSet<Digest>,
    /// The validated DAG: blocks delivered at grade 1 that have not entered
    /// the ordering DAG.
    pub vdag: OrdMap<Slot, Certificate>,
    /// The digests delivered at grade 2.
    pub grade_two: OrdSet<Digest>,
    /// Every block seen at any stage of its broadcast.
    pub observed: OrdMap<Digest, Certificate>,
    /// The block last seen in each slot.
    pub observed_by_round: OrdMap<Slot, Digest>,
    /// The blocks whose strong ancestors are indexed.
    pub strong_indexed: OrdSet<Digest>,
    /// The strong ancestors of each indexed block.
    pub strong_ancestors: Relation<Digest, Digest>,
    /// The blocks that hold a strong edge to each block.
    pub strong_children: Relation<Digest, Digest>,
    /// The authors whose observed block of a round strongly reaches a target.
    pub observed_strong_support: Relation<Support, PublicKey>,
    /// The authors whose Dag block of a round strongly reaches a target.
    pub dag_strong_support: Relation<Support, PublicKey>,
    /// The authors whose observed block of a round has a strong edge to a target.
    pub observed_direct_support: Relation<Support, PublicKey>,
    /// The authors whose Dag block of a round has a strong edge to a target.
    pub dag_direct_support: Relation<Support, PublicKey>,
    /// How many strong and weak dependencies of a VDag block are not in the Dag.
    pub missing_dependencies: OrdMap<Digest, usize>,
    /// The VDag blocks that wait for a dependency.
    pub dependency_waiters: Relation<Digest, Digest>,
    /// Grade-2 blocks that miss nothing any more.
    pub promotion_queue: VecDeque<Digest>,
    /// The slot that each digest stands for.
    pub homes: OrdMap<Digest, Slot>,
}

impl View for Graph {
    type V = GraphView;

    open spec fn view(&self) -> GraphView {
        GraphView {
            dag: self.dag@,
            dag_by_digest: self.dag_by_digest@,
            dag_digests: self.dag_digests@,
            vdag: self.vdag@,
            grade_two: self.grade_two@,
            observed: self.observed@,
            observed_by_round: self.observed_by_round@,
            strong_indexed: self.strong_indexed@,
            strong_ancestors: self.strong_ancestors@,
            strong_children: self.strong_children@,
            observed_strong_support: self.observed_strong_support@,
            dag_strong_support: self.dag_strong_support@,
            observed_direct_support: self.observed_direct_support@,
            dag_direct_support: self.dag_direct_support@,
            missing_dependencies: self.missing_dependencies@,
            dependency_waiters: self.dependency_waiters@,
            promotion_queue: self.promotion_queue@,
            homes: self.homes@,
        }
    }
}

/// The pessimistic finalization of leaders.
pub struct Fallback {
    /// The leader rounds that await pessimistic finalization, in three lanes
    /// by their remainder modulo 3.
    pub stack: OrdSet<Round>,
    /// The latest leader that may recover each lane.
    pub anchors: OrdMap<Round, Round>,
    /// The revision of the observed evidence.
    pub evidence_version: u64,
    /// The evidence revision assigned to each anchor.
    pub anchor_versions: OrdMap<Round, u64>,
    /// The anchors whose evidence or lane changed.
    pub dirty_anchors: OrdSet<Round>,
    /// The causal history found for each anchor.
    pub history_cache: OrdMap<Round, Arc<History>>,
    /// The decision of an anchor on a leader.
    pub decision_cache: OrdMap<(Round, Round), FallbackDecision>,
    /// The anchors whose history holds a block.
    pub vertex_users: Relation<Digest, Round>,
    /// The anchors whose evidence lacks a block.
    pub evidence_waiters: Relation<Digest, Round>,
    /// The leader rounds whose block is being recovered.
    pub recovery: OrdSet<Round>,
    /// When to ask again for each missing leader.
    pub missing_requests: OrdMap<Round, u64>,
    /// The leader rounds whose causal history lacks a block.
    pub forced_waiters: Relation<Digest, Round>,
}

impl View for Fallback {
    type V = FallbackView;

    open spec fn view(&self) -> FallbackView {
        FallbackView {
            stack: self.stack@,
            anchors: self.anchors@,
            evidence_version: self.evidence_version,
            anchor_versions: self.anchor_versions@,
            dirty_anchors: self.dirty_anchors@,
            history_cache: self.history_cache@.map_values(|h: Arc<History>| (*h)@),
            decision_cache: self.decision_cache@,
            vertex_users: self.vertex_users@,
            evidence_waiters: self.evidence_waiters@,
            recovery: self.recovery@,
            missing_requests: self.missing_requests@,
            forced_waiters: self.forced_waiters@,
        }
    }
}

/// The fate of leaders and what has been ordered.
pub struct Commits {
    /// The highest watermark.
    pub last_committed_round: Round,
    /// The last committed round of each authority.
    pub last_committed: OrdMap<PublicKey, Round>,
    /// The authority designated as leader of each observed round.
    pub leaders: OrdMap<Round, PublicKey>,
    /// The rounds whose leader is committed.
    pub committed: OrdSet<Round>,
    /// The rounds whose leader is skipped.
    pub skipped: OrdSet<Round>,
    /// Leaders that satisfy a commit rule and wait for their predecessors.
    pub pending: OrdMap<Round, Certificate>,
    /// When a leader first satisfied a commit rule, in milliseconds.
    pub ready_at: OrdMap<Round, u128>,
    /// The commit rule that decided each leader.
    pub rules: OrdMap<Round, u8>,
    /// The sequences prepared for pending leaders.
    pub order: OrdMap<Round, Vec<Certificate>>,
    /// Pending rounds whose predecessors are resolved.
    pub ready: OrdSet<Round>,
    /// The leaders that have to be evaluated again.
    pub dirty_leaders: OrdSet<Round>,
    /// The highest round whose commit checks ran.
    pub highest_advanced_round: Round,
    /// Requests for leader blocks that have not been handed out.
    pub requests: Vec<(Round, PublicKey)>,
    /// Committed sequences that have not been handed out.
    pub outbox: Vec<Vec<Certificate>>,
}

impl View for Commits {
    type V = CommitView;

    open spec fn view(&self) -> CommitView {
        CommitView {
            last_committed_round: self.last_committed_round,
            last_committed: self.last_committed@,
            leaders: self.leaders@,
            committed: self.committed@,
            skipped: self.skipped@,
            pending: self.pending@,
            ready_at: self.ready_at@,
            rules: self.rules@,
            order: self.order@.map_values(|v: Vec<Certificate>| v@),
            ready: self.ready@,
            dirty_leaders: self.dirty_leaders@,
            highest_advanced_round: self.highest_advanced_round,
            requests: self.requests@,
            outbox: self.outbox@.map_values(|v: Vec<Certificate>| v@),
        }
    }
}

/// The consensus state.
pub struct State {
    /// The blocks and the indexes over them.
    pub graph: Graph,
    /// The pessimistic finalization of leaders.
    pub fallback: Fallback,
    /// The fate of leaders and what has been ordered.
    pub commits: Commits,
}

impl View for State {
    type V = StateView;

    open spec fn view(&self) -> StateView {
        StateView { graph: self.graph@, fallback: self.fallback@, commits: self.commits@ }
    }
}

/// Another copy of a list of digests.
fn copy_digests(digests: &Vec<Digest>) -> (result: Vec<Digest>)
    ensures
        result@ == digests@,
{
    let mut result: Vec<Digest> = Vec::new();
    let mut i: usize = 0;
    while i < digests.len()
        invariant
            i <= digests@.len(),
            result@ == digests@.take(i as int),
        decreases digests@.len() - i,
    {
        result.push(digests[i]);
        proof {
            assert(digests@.take(i + 1) =~= digests@.take(i as int).push(digests@[i as int]));
        }
        i += 1;
    }
    proof {
        assert(digests@.take(digests@.len() as int) =~= digests@);
    }
    result
}

/// Enters the support that the author of a block of `round` gives to `targets`.
fn credit_all(
    support: &mut Relation<Support, PublicKey>,
    round: Round,
    origin: PublicKey,
    targets: &Vec<Digest>,
)
    ensures
        final(support)@ == old(support)@.union(credit(round, origin, targets@.to_set())),
{
    let ghost before = support@;
    let mut i: usize = 0;
    while i < targets.len()
        invariant
            i <= targets@.len(),
            support@ == before.union(credit(round, origin, targets@.take(i as int).to_set())),
        decreases targets@.len() - i,
    {
        proof {
            lemma_take_contains(targets@, i as int);
        }
        support.insert((round, targets[i]), origin);
        i += 1;
    }
    proof {
        assert(targets@.take(targets@.len() as int) =~= targets@);
    }
}

impl State {
    // ----- Leaders -----

    /// Whether the leaders of all rounds before are committed or skipped. Below
    /// a committed leader they are, so the search ends there.
    pub fn predecessor_resolved(&self, round: Round) -> (result: bool)
        requires
            self@.consecutive(),
        ensures
            result == self@.predecessor_resolved(round),
    {
        let ghost committed = self@.commits.committed;
        let ghost skipped = self@.commits.skipped;
        if round == 0 {
            return false;
        }
        let mut below: Round = round - 1;
        while below > 0
            invariant
                below < round,
                self@.consecutive(),
                committed == self@.commits.committed,
                skipped == self@.commits.skipped,
                forall|q: Round| below < q < round ==> #[trigger] decided(committed, skipped, q),
            decreases below,
        {
            if self.commits.committed.contains(&below) {
                proof {
                    assert(committed.contains(below));
                    assert(decided_below(committed, skipped, below));
                    assert(decided(committed, skipped, below));
                }
                return true;
            }
            if !self.commits.skipped.contains(&below) {
                proof {
                    assert(!decided(committed, skipped, below));
                }
                return false;
            }
            below -= 1;
        }
        true
    }

    /// A pending leader whose predecessors are resolved becomes ready.
    pub fn wake_pending(&mut self, round: Round)
        requires
            old(self)@.consecutive(),
        ensures
            final(self)@ == old(self)@.wake_pending(round),
    {
        if self.commits.pending.contains_key(&round) && self.predecessor_resolved(round) {
            self.commits.ready.insert(round);
        }
    }

    /// The lowest pending leader becomes ready if its predecessors are resolved.
    pub fn wake_lowest(&mut self)
        requires
            old(self)@.consecutive(),
        ensures
            final(self)@ == old(self)@.wake_lowest(),
    {
        broadcast use group_ordered;

        if let Some(lowest) = self.commits.pending.first_key() {
            self.wake_pending(lowest);
        }
    }

    /// Skips the leader of `round`, and tells whether that is new.
    pub fn mark_skipped(&mut self, round: Round) -> (result: bool)
        requires
            old(self)@.consecutive(),
        ensures
            final(self)@ == old(self)@.mark_skipped(round),
            result == !old(self)@.commits.skipped.contains(round),
    {
        let ghost start = self@;
        let inserted = self.commits.skipped.insert(round);
        proof {
            lemma_in_turn(
                start.commits.committed,
                start.commits.skipped,
                start.commits.committed,
                start.commits.skipped.insert(round),
            );
        }
        if inserted {
            self.wake_lowest();
        }
        inserted
    }

    // ----- Recovery anchors -----

    /// Has an active anchor evaluated again at the current evidence.
    pub fn mark_fallback_anchor_dirty(&mut self, anchor_round: Round)
        ensures
            final(self)@ == old(self)@.mark_anchor_dirty(anchor_round),
    {
        let active = match self.fallback.anchors.get(&(anchor_round % 3)) {
            Some(anchor) => *anchor == anchor_round,
            None => false,
        };
        if active {
            self.fallback.anchor_versions.insert(anchor_round, self.fallback.evidence_version);
            self.fallback.dirty_anchors.insert(anchor_round);
        }
    }

    /// Has all active anchors among `rounds` evaluated again.
    fn mark_fallback_anchors_dirty(&mut self, rounds: &Vec<Round>)
        ensures
            final(self)@ == old(self)@.mark_anchors_dirty(rounds@.to_set()),
    {
        let ghost before = self@;
        let mut i: usize = 0;
        while i < rounds.len()
            invariant
                i <= rounds@.len(),
                self@ == before.mark_anchors_dirty(rounds@.take(i as int).to_set()),
            decreases rounds@.len() - i,
        {
            proof {
                lemma_take_contains(rounds@, i as int);
                before.lemma_mark_one_more(rounds@.take(i as int).to_set(), rounds@[i as int]);
                assert(rounds@.take(i + 1).to_set() =~= rounds@.take(i as int).to_set().insert(
                    rounds@[i as int],
                ));
            }
            self.mark_fallback_anchor_dirty(rounds[i]);
            i += 1;
        }
        proof {
            assert(rounds@.take(rounds@.len() as int) =~= rounds@);
        }
    }

    /// What is known of a block has changed: the anchors that use it or wait
    /// for it are evaluated again.
    pub fn mark_fallback_digest_changed(&mut self, digest: &Digest)
        ensures
            final(self)@ == old(self)@.wake_users(set![*digest]),
    {
        let ghost before = self@;
        let mut anchors = self.fallback.vertex_users.image(digest);
        let mut waiting = self.fallback.evidence_waiters.take(digest);
        let ghost users = anchors@;
        let ghost waiters = waiting@;
        anchors.append(&mut waiting);
        proof {
            before.lemma_wake_one(*digest, users, waiters);
        }
        self.mark_fallback_anchors_dirty(&anchors);
    }

    // ----- Strong paths -----

    /// Credits the observed block `digest` with paths to `fresh`, and collects
    /// the rounds of the observed targets.
    fn credit_paths(&mut self, digest: Digest, fresh: &Vec<Digest>, dirty: &mut OrdSet<Round>)
        requires
            fresh@.len() > 0,
        ensures
            final(self)@ == (StateView {
                graph: GraphView {
                    observed_strong_support: old(self)@.graph.observed_strong_support.union(
                        old(self)@.path_support(row(digest, fresh@.to_set()), false),
                    ),
                    dag_strong_support: old(self)@.graph.dag_strong_support.union(
                        old(self)@.path_support(row(digest, fresh@.to_set()), true),
                    ),
                    ..old(self)@.graph
                },
                ..old(self)@
            }),
            final(dirty)@ == old(dirty)@.union(
                old(self)@.supported(row(digest, fresh@.to_set())),
            ),
    {
        let ghost before = self@;
        let ghost known = dirty@;
        let ghost targets = fresh@.to_set();
        proof {
            vstd::seq_lib::seq_to_set_is_finite(fresh@);
            assert(targets.contains(fresh@[0]));
            before.lemma_grow_row(digest, targets);
        }
        let (round, origin) = match self.graph.observed.get(&digest) {
            Some(block) => (block.round(), block.origin()),
            None => {
                proof {
                    assert(before.supported(row(digest, targets)) =~= Set::empty());
                    assert(self@ =~= (StateView {
                        graph: GraphView {
                            observed_strong_support: before.graph.observed_strong_support.union(
                                Set::empty(),
                            ),
                            dag_strong_support: before.graph.dag_strong_support.union(Set::empty()),
                            ..before.graph
                        },
                        ..before
                    }));
                }
                return ;
            },
        };
        let in_dag = self.graph.dag_digests.contains(&digest);
        let mut i: usize = 0;
        while i < fresh.len()
            invariant
                i <= fresh@.len(),
                before.graph.observed.contains_key(digest),
                in_dag == before.graph.dag_digests.contains(digest),
                self@ == (StateView {
                    graph: GraphView {
                        observed_strong_support: before.graph.observed_strong_support.union(
                            credit(round, origin, fresh@.take(i as int).to_set()),
                        ),
                        dag_strong_support: if in_dag {
                            before.graph.dag_strong_support.union(
                                credit(round, origin, fresh@.take(i as int).to_set()),
                            )
                        } else {
                            before.graph.dag_strong_support
                        },
                        ..before.graph
                    },
                    ..before
                }),
                dirty@ == known.union(
                    before.supported(row(digest, fresh@.take(i as int).to_set())),
                ),
            decreases fresh@.len() - i,
        {
            let ancestor = fresh[i];
            let ghost done = fresh@.take(i as int).to_set();
            let ghost more = fresh@.take(i + 1).to_set();
            proof {
                lemma_take_contains(fresh@, i as int);
                assert(more =~= done.insert(ancestor));
                assert(credit(round, origin, more) =~= credit(round, origin, done).insert(
                    ((round, ancestor), origin),
                ));
                before.lemma_supported_insert(digest, done, ancestor);
            }
            if let Some(target) = self.graph.observed.get(&ancestor) {
                dirty.insert(target.round());
            }
            self.graph.observed_strong_support.insert((round, ancestor), origin);
            if in_dag {
                self.graph.dag_strong_support.insert((round, ancestor), origin);
            }
            i += 1;
        }
        proof {
            assert(fresh@.take(fresh@.len() as int) =~= fresh@);
        }
    }

    /// Gives `candidates` as strong ancestors to `digest`, collects the rounds
    /// that gain support and hands back the ancestors that are new.
    fn gain_ancestors(
        &mut self,
        digest: Digest,
        candidates: &Vec<Digest>,
        dirty: &mut OrdSet<Round>,
    ) -> (fresh: Vec<Digest>)
        ensures
            forall|a: Digest| #[trigger]
                fresh@.contains(a) <==> candidates@.contains(a)
                    && !old(self)@.graph.strong_ancestors.contains((digest, a)),
            final(self)@ == old(self)@.grow(row(digest, fresh@.to_set())),
            final(dirty)@ == old(dirty)@.union(
                old(self)@.supported(row(digest, fresh@.to_set())),
            ),
    {
        let ghost before = self@;
        let mut fresh: Vec<Digest> = Vec::new();
        let mut i: usize = 0;
        while i < candidates.len()
            invariant
                i <= candidates@.len(),
                forall|a: Digest| #[trigger]
                    fresh@.contains(a) <==> candidates@.take(i as int).contains(a)
                        && !before.graph.strong_ancestors.contains((digest, a)),
                self@ == (StateView {
                    graph: GraphView {
                        strong_ancestors: before.graph.strong_ancestors.union(
                            row(digest, fresh@.to_set()),
                        ),
                        ..before.graph
                    },
                    ..before
                }),
            decreases candidates@.len() - i,
        {
            let ancestor = candidates[i];
            let ghost had = fresh@;
            proof {
                lemma_take_contains(candidates@, i as int);
            }
            if self.graph.strong_ancestors.insert(digest, ancestor) {
                fresh.push(ancestor);
                proof {
                    assert(fresh@[had.len() as int] == ancestor);
                    assert forall|a: Digest| #[trigger]
                        fresh@.contains(a) == (had.contains(a) || a == ancestor) by {
                        if had.contains(a) {
                            let j = choose|j: int| 0 <= j < had.len() && had[j] == a;
                            assert(fresh@[j] == a);
                        }
                    }
                    assert(row(digest, fresh@.to_set()) =~= row(digest, had.to_set()).insert(
                        (digest, ancestor),
                    ));
                }
            }
            i += 1;
        }
        proof {
            assert(candidates@.take(candidates@.len() as int) =~= candidates@);
        }
        let ghost pairs = row(digest, fresh@.to_set());
        if fresh.len() == 0 {
            proof {
                before.lemma_grow_twice(Set::empty(), Set::empty());
                assert(pairs =~= Set::empty());
                assert(before.supported(pairs) =~= Set::empty());
                assert(self@ =~= before);
            }
        } else {
            let ghost entered = self@;
            self.mark_fallback_digest_changed(&digest);
            let ghost woken = self@;
            self.credit_paths(digest, &fresh, dirty);
            proof {
                vstd::seq_lib::seq_to_set_is_finite(fresh@);
                assert(fresh@.to_set().contains(fresh@[0]));
                before.lemma_grow_row(digest, fresh@.to_set());
                before.lemma_wake_local(entered, set![digest]);
                before.lemma_wake_local(
                    StateView { graph: before.grow(pairs).graph, ..before },
                    set![digest],
                );
                woken.lemma_grow_row(digest, fresh@.to_set());
                assert(woken.supported(pairs) =~= before.supported(pairs));
                assert(self@ =~= before.grow(pairs));
            }
        }
        fresh
    }

    /// Gives `additions` as strong ancestors to `source` and to everything that
    /// descends from it by strong edges. Hands back the rounds of the blocks
    /// that gain support.
    #[verifier::rlimit(30)]
    pub fn propagate_strong_ancestors(&mut self, source: Digest, additions: Vec<Digest>) -> (dirty:
        OrdSet<Round>)
        requires
            old(self)@.nearly_closed(source, additions@.to_set()),
        ensures
            final(self)@ == old(self)@.propagate(source, additions@.to_set()),
            dirty@ == old(self)@.newly_supported(source, additions@.to_set()),
    {
        let ghost start = self@;
        let ghost added = additions@.to_set();
        let ghost edges = start.graph.strong_children;
        let ghost fresh_pairs = start.fresh_pairs(source, added);
        let ghost mut entered: Set<(Digest, Digest)> = Set::empty();
        self.graph.strong_indexed.insert(source);
        let ghost base = self@;
        let mut dirty: OrdSet<Round> = OrdSet::new();
        let mut pending: Vec<(Digest, Vec<Digest>)> = Vec::new();
        pending.push((source, additions));
        proof {
            self.graph.strong_children.lemma_finite();
            vstd::seq_lib::seq_to_set_is_finite(additions@);
            start.lemma_fresh_pairs_finite(source, added);
            base.lemma_grow_twice(Set::empty(), Set::empty());
            assert(base =~= start.index_block(source));
            assert(base.supported(entered) =~= Set::empty());
            lemma_leads_to_itself(edges, source);
            assert(pending@[0].1@.to_set() == added);
            assert forall|a: Digest| #[trigger] added.contains(a) implies waits_for(
                pending@,
                source,
                a,
            ) by {
                assert(pending@[0].1@.contains(a));
            }
            assert forall|a: Digest| #[trigger] pending@[0].1@.contains(a) implies added.contains(
                a,
            ) by {}
            assert(fresh_pairs.difference(entered) =~= fresh_pairs);
        }
        while pending.len() > 0
            invariant
                base == start.index_block(source),
                edges == start.graph.strong_children,
                fresh_pairs == start.fresh_pairs(source, added),
                fresh_pairs.finite(),
                entered.subset_of(fresh_pairs),
                self@ == base.grow(entered),
                dirty@ == base.supported(entered),
                forall|j: int|
                    0 <= j < pending@.len() ==> leads_to(edges, source, (#[trigger] pending@[j]).0)
                        && (forall|a: Digest| #[trigger]
                        pending@[j].1@.contains(a) ==> added.contains(a)),
                forall|p: Digest, c: Digest, a: Digest|
                    #![trigger edges.contains((p, c)), entered.contains((p, a))]
                    edges.contains((p, c)) && entered.contains((p, a)) ==> entered.contains((c, a))
                        || start.graph.strong_ancestors.contains((c, a)) || waits_for(
                        pending@,
                        c,
                        a,
                    ),
                forall|a: Digest| #[trigger]
                    added.contains(a) ==> entered.contains((source, a))
                        || start.graph.strong_ancestors.contains((source, a)) || waits_for(
                        pending@,
                        source,
                        a,
                    ),
            decreases fresh_pairs.difference(entered).len(), pending@.len(),
        {
            let ghost stack = pending@;
            let (digest, candidates) = pending.pop().unwrap();
            let ghost rest = pending@;
            let ghost before = self@;
            let fresh = self.gain_ancestors(digest, &candidates, &mut dirty);
            let ghost gained = row(digest, fresh@.to_set());
            let ghost known = entered;
            proof {
                assert(stack[stack.len() - 1] == (digest, candidates));
                assert forall|p: (Digest, Digest)| gained.contains(p) implies fresh_pairs.contains(p)
                    && !known.contains(p) by {
                    assert(fresh@.contains(p.1));
                    assert(!before.graph.strong_ancestors.contains((digest, p.1)));
                }
                entered = known.union(gained);
                base.lemma_grow_twice(known, gained);
                base.lemma_supported_union(known, gained);
                assert(before.supported(gained) =~= base.supported(gained));
                assert forall|c: Digest, a: Digest| waits_for(stack, c, a) implies waits_for(
                    rest,
                    c,
                    a,
                ) || (c == digest && candidates@.contains(a)) by {
                    let j = choose|j: int|
                        0 <= j < stack.len() && (#[trigger] stack[j]).0 == c
                            && stack[j].1@.contains(a);
                    if j < rest.len() {
                        assert(rest[j] == stack[j]);
                    }
                }
                assert forall|a: Digest| candidates@.contains(a) implies entered.contains(
                    (digest, a),
                ) || start.graph.strong_ancestors.contains((digest, a)) by {
                    if !before.graph.strong_ancestors.contains((digest, a)) {
                        assert(fresh@.contains(a));
                        assert(gained.contains((digest, a)));
                    }
                }
            }
            if fresh.len() == 0 {
                proof {
                    assert(gained =~= Set::empty());
                    assert(entered =~= known);
                }
                continue ;
            }
            let children = self.graph.strong_children.image(&digest);
            let mut i: usize = 0;
            while i < children.len()
                invariant
                    i <= children@.len(),
                    children@.to_set() == image(edges, digest),
                    leads_to(edges, source, digest),
                    forall|a: Digest| #[trigger] fresh@.contains(a) ==> added.contains(a),
                    forall|j: int|
                        0 <= j < pending@.len() ==> leads_to(
                            edges,
                            source,
                            (#[trigger] pending@[j]).0,
                        ) && (forall|a: Digest| #[trigger]
                            pending@[j].1@.contains(a) ==> added.contains(a)),
                    rest.is_prefix_of(pending@),
                    forall|j: int, a: Digest|
                        0 <= j < i && fresh@.contains(a) ==> #[trigger] waits_for(
                            pending@,
                            children@[j],
                            a,
                        ),
                decreases children@.len() - i,
            {
                let ghost had = pending@;
                let copied = copy_digests(&fresh);
                pending.push((children[i], copied));
                proof {
                    assert(children@.to_set().contains(children@[i as int]));
                    lemma_leads_on(edges, source, digest, children@[i as int]);
                    assert(pending@[had.len() as int] == (children@[i as int], copied));
                    assert forall|j: int, a: Digest|
                        0 <= j < i + 1 && fresh@.contains(a) implies #[trigger] waits_for(
                        pending@,
                        children@[j],
                        a,
                    ) by {
                        if j < i {
                            assert(waits_for(had, children@[j], a));
                            let k = choose|k: int|
                                0 <= k < had.len() && (#[trigger] had[k]).0 == children@[j]
                                    && had[k].1@.contains(a);
                            assert(pending@[k] == had[k]);
                        } else {
                            assert(pending@[had.len() as int].1@.contains(a));
                        }
                    }
                }
                i += 1;
            }
            proof {
                assert(fresh@.contains(fresh@[0]));
                assert(gained.contains((digest, fresh@[0])));
                assert(fresh_pairs.difference(entered).subset_of(
                    fresh_pairs.difference(known).remove((digest, fresh@[0])),
                ));
                vstd::set_lib::lemma_len_subset(
                    fresh_pairs.difference(entered),
                    fresh_pairs.difference(known).remove((digest, fresh@[0])),
                );
                assert forall|c: Digest, a: Digest| waits_for(rest, c, a) implies waits_for(
                    pending@,
                    c,
                    a,
                ) by {
                    let j = choose|j: int|
                        0 <= j < rest.len() && (#[trigger] rest[j]).0 == c && rest[j].1@.contains(
                            a,
                        );
                    assert(pending@[j] == rest[j]);
                }
                assert forall|p: Digest, c: Digest, a: Digest|
                    #![trigger edges.contains((p, c)), entered.contains((p, a))]
                    edges.contains((p, c)) && entered.contains((p, a)) implies entered.contains(
                    (c, a),
                ) || start.graph.strong_ancestors.contains((c, a)) || waits_for(
                    pending@,
                    c,
                    a,
                ) by {
                    if gained.contains((p, a)) {
                        assert(image(edges, digest).contains(c));
                        assert(children@.to_set().contains(c));
                        let j = choose|j: int| 0 <= j < children@.len() && children@[j] == c;
                        assert(waits_for(pending@, children@[j], a));
                    } else {
                        assert(known.contains((p, a)));
                    }
                }
            }
        }
        proof {
            start.lemma_propagated(source, added, entered);
            assert(base.supported(entered) =~= start.newly_supported(source, added));
            assert(self@ == start.propagate(source, added));
        }
        dirty
    }

    /// Indexes the strong paths through a block. Hands back the rounds of the
    /// blocks that gain support.
    pub fn index_strong_paths(&mut self, header: &Header) -> (dirty: OrdSet<Round>)
        requires
            old(self)@.closed_paths(),
        ensures
            final(self)@ == old(self)@.index_strong_paths(*header),
            dirty@ == old(self)@.add_edges(*header).newly_supported(
                header.block,
                old(self)@.inherited(*header),
            ),
    {
        let ghost start = self@;
        let parents = header.parents.items();
        let mut additions: OrdSet<Digest> = OrdSet::new();
        credit_all(
            &mut self.graph.observed_direct_support,
            header.round,
            header.author,
            &parents,
        );
        let ghost credited = self@;
        let mut i: usize = 0;
        while i < parents.len()
            invariant
                i <= parents@.len(),
                parents@.to_set() == header.parents@,
                credited.graph.strong_ancestors == start.graph.strong_ancestors,
                self@ == (StateView {
                    graph: GraphView {
                        strong_children: start.graph.strong_children.union(
                            Set::new(
                                |p: (Digest, Digest)|
                                    parents@.take(i as int).contains(p.0) && p.1 == header.block,
                            ),
                        ),
                        ..credited.graph
                    },
                    ..credited
                }),
                forall|a: Digest| #[trigger]
                    additions@.contains(a) <==> parents@.take(i as int).contains(a) || exists|
                        p: Digest,
                    | #[trigger]
                        parents@.take(i as int).contains(p) && start.graph.strong_ancestors.contains(
                            (p, a),
                        ),
            decreases parents@.len() - i,
        {
            let parent = parents[i];
            let ghost had = additions@;
            let ghost done = parents@.take(i as int);
            let ghost more = parents@.take(i + 1);
            proof {
                lemma_take_contains(parents@, i as int);
            }
            self.graph.strong_children.insert(parent, header.block);
            additions.insert(parent);
            let ancestors = self.graph.strong_ancestors.image(&parent);
            insert_all(&mut additions, &ancestors);
            proof {
                assert forall|a: Digest| #[trigger]
                    additions@.contains(a) <==> more.contains(a) || exists|p: Digest| #[trigger]
                        more.contains(p) && start.graph.strong_ancestors.contains((p, a)) by {
                    assert(additions@.contains(a) <==> had.contains(a) || a == parent
                        || start.graph.strong_ancestors.contains((parent, a)));
                    if had.contains(a) && !done.contains(a) {
                        let p = choose|p: Digest| #[trigger]
                            done.contains(p) && start.graph.strong_ancestors.contains((p, a));
                        assert(more.contains(p));
                    }
                    assert(more.contains(parent));
                    if exists|p: Digest| #[trigger]
                        more.contains(p) && start.graph.strong_ancestors.contains((p, a)) {
                        let p = choose|p: Digest| #[trigger]
                            more.contains(p) && start.graph.strong_ancestors.contains((p, a));
                        assert(done.contains(p) || p == parent);
                    }
                }
            }
            i += 1;
        }
        proof {
            assert(parents@.take(parents@.len() as int) =~= parents@);
            assert(direct_support(*header) =~= credit(header.round, header.author, parents@.to_set()));
            assert forall|d: Digest| parents@.contains(d) == header.parents@.contains(d) by {
                assert(parents@.to_set().contains(d) == parents@.contains(d));
            }
            assert(self@ =~= start.add_edges(*header));
            assert forall|a: Digest| additions@.contains(a) == start.inherited(*header).contains(
                a,
            ) by {
                if start.inherited(*header).contains(a) && !header.parents@.contains(a) {
                    let p = choose|p: Digest| #[trigger]
                        header.parents@.contains(p) && start.graph.strong_ancestors.contains((p, a));
                    assert(parents@.contains(p));
                }
                if additions@.contains(a) && !parents@.contains(a) {
                    let p = choose|p: Digest| #[trigger]
                        parents@.contains(p) && start.graph.strong_ancestors.contains((p, a));
                    assert(header.parents@.contains(p));
                }
            }
            assert(additions@ =~= start.inherited(*header));
            start.lemma_add_edges(*header);
        }
        self.propagate_strong_ancestors(header.block, additions.items())
    }

    // ----- Promotion into the Dag -----

    /// Wakes the blocks that waited for `digest`.
    fn wake_waiters(&mut self, digest: &Digest)
        ensures
            final(self)@ == (StateView {
                graph: GraphView {
                    missing_dependencies: old(self)@.fewer_missing(*digest),
                    dependency_waiters: without(old(self)@.graph.dependency_waiters, *digest),
                    promotion_queue: old(self)@.graph.promotion_queue + old(self)@.woken(*digest),
                    ..old(self)@.graph
                },
                ..old(self)@
            }),
    {
        let ghost start = self@;
        let waiters = self.graph.dependency_waiters.take(digest);
        let ghost wakes = |w: Digest|
            start.graph.missing_dependencies.contains_key(w)
                && start.graph.missing_dependencies[w] <= 1 && start.graph.grade_two.contains(w);
        let mut i: usize = 0;
        proof {
            if waiters@.len() > 0 {
                lemma_filter_take(waiters@, wakes, 0);
            } else {
                reveal(Seq::filter);
                assert(waiters@.take(0) =~= waiters@);
            }
        }
        while i < waiters.len()
            invariant
                i <= waiters@.len(),
                waiters@.no_duplicates(),
                wakes == (|w: Digest|
                    start.graph.missing_dependencies.contains_key(w)
                        && start.graph.missing_dependencies[w] <= 1
                        && start.graph.grade_two.contains(w)),
                self@ == (StateView {
                    graph: GraphView {
                        missing_dependencies: Map::new(
                            |w: Digest| start.graph.missing_dependencies.contains_key(w),
                            |w: Digest|
                                if waiters@.take(i as int).contains(w)
                                    && start.graph.missing_dependencies[w] > 0 {
                                    (start.graph.missing_dependencies[w] - 1) as usize
                                } else {
                                    start.graph.missing_dependencies[w]
                                },
                        ),
                        dependency_waiters: without(start.graph.dependency_waiters, *digest),
                        promotion_queue: start.graph.promotion_queue + waiters@.take(
                            i as int,
                        ).filter(wakes),
                        ..start.graph
                    },
                    ..start
                }),
            decreases waiters@.len() - i,
        {
            let waiter = waiters[i];
            let ghost before = self@;
            proof {
                lemma_take_contains(waiters@, i as int);
                lemma_filter_take(waiters@, wakes, i as int);
                let done = waiters@.take(i as int);
                if done.contains(waiter) {
                    let j = choose|j: int| 0 <= j < done.len() && done[j] == waiter;
                    assert(waiters@[j] == waiters@[i as int]);
                }
            }
            let missing = match self.graph.missing_dependencies.get(&waiter) {
                Some(missing) => Some(*missing),
                None => None,
            };
            if let Some(missing) = missing {
                let left: usize = if missing > 0 {
                    missing - 1
                } else {
                    0
                };
                self.graph.missing_dependencies.insert(waiter, left);
                if left == 0 && self.graph.grade_two.contains(&waiter) {
                    self.graph.promotion_queue.push_back(waiter);
                }
            }
            proof {
                assert(self.graph.promotion_queue@ =~= start.graph.promotion_queue
                    + waiters@.take(i + 1).filter(wakes));
                assert(self.graph.missing_dependencies@ =~= Map::new(
                    |w: Digest| start.graph.missing_dependencies.contains_key(w),
                    |w: Digest|
                        if waiters@.take(i + 1).contains(w)
                            && start.graph.missing_dependencies[w] > 0 {
                            (start.graph.missing_dependencies[w] - 1) as usize
                        } else {
                            start.graph.missing_dependencies[w]
                        },
                ));
            }
            i += 1;
        }
        proof {
            assert(waiters@.take(waiters@.len() as int) =~= waiters@);
            assert forall|w: Digest| waiters@.contains(w) == start.graph.dependency_waiters.contains(
                (*digest, w),
            ) by {
                assert(waiters@.to_set().contains(w) == image(
                    start.graph.dependency_waiters,
                    *digest,
                ).contains(w));
            }
            assert(self.graph.missing_dependencies@ =~= start.fewer_missing(*digest));
        }
    }

    /// Promotes a block into the Dag, out of VDag.
    pub fn promote_to_dag(&mut self, certificate: Certificate)
        requires
            old(self)@.consecutive(),
        ensures
            final(self)@ == old(self)@.promote(certificate),
    {
        let ghost start = self@;
        let round = certificate.round();
        let origin = certificate.origin();
        let digest = certificate.digest();
        let slot = (round, origin);

        self.graph.observed_by_round.insert(slot, digest);
        self.graph.homes.insert(digest, slot);
        if !self.graph.observed.contains_key(&digest) {
            self.graph.observed.insert(digest, certificate.clone());
        }
        let same_block = match self.graph.vdag.get(&slot) {
            Some(block) => block.digest() == digest,
            None => false,
        };
        if same_block {
            self.graph.vdag.remove(&slot);
        }
        let parents = certificate.header.parents.items();
        self.graph.dag.insert(slot, certificate.clone());
        self.graph.dag_by_digest.insert(digest, certificate);
        let inserted = self.graph.dag_digests.insert(digest);
        proof {
            assert(self@ =~= start.acquaint(certificate).enter_slot(certificate));
        }
        if !inserted {
            return ;
        }
        let ghost entered = self@;
        if round >= 2 {
            self.commits.dirty_leaders.insert(round - 1);
        }
        if round >= 3 {
            self.commits.dirty_leaders.insert(round - 2);
        }
        let ancestors = self.graph.strong_ancestors.image(&digest);
        credit_all(&mut self.graph.dag_strong_support, round, origin, &ancestors);
        credit_all(&mut self.graph.dag_direct_support, round, origin, &parents);
        let ghost credited = self@;
        self.wake_waiters(&digest);
        proof {
            assert(credited.woken(digest) == entered.woken(digest));
            assert(credited.fewer_missing(digest) =~= entered.fewer_missing(digest));
            assert(self@ =~= entered.settle(certificate));
        }
        self.wake_pending(round);
    }

    // ----- Causal history into the Dag -----

    /// Stacks the observed dependencies of a block that are not in the Dag, and
    /// has the leader of `owner_round` wait for those that nobody has seen.
    fn stack_dependencies(
        &mut self,
        certificate: &Certificate,
        owner_round: Round,
        pending: &mut Vec<Certificate>,
    )
        ensures
            final(pending)@ == old(pending)@ + old(self)@.loose_ancestors(*certificate),
            final(self)@ == old(self)@.await_unseen(*certificate, owner_round),
    {
        let ghost start = self@;
        let ghost had = pending@;
        let ghost loose = |d: Digest|
            !start.graph.dag_digests.contains(d) && start.graph.observed.contains_key(d);
        let ghost block = |d: Digest| start.graph.observed[d];
        let dependencies = certificate.header.edges();
        let ghost all = dependencies@;
        let mut i: usize = 0;
        proof {
            if all.len() > 0 {
                lemma_filter_take(all, loose, 0);
            } else {
                reveal(Seq::filter);
                assert(all.take(0) =~= all);
                assert(all.filter(loose) =~= Seq::empty());
            }
            assert(all.take(0).filter(loose).map_values(block) =~= Seq::empty());
        }
        while i < dependencies.len()
            invariant
                i <= dependencies@.len(),
                all == dependencies@,
                loose == (|d: Digest|
                    !start.graph.dag_digests.contains(d) && start.graph.observed.contains_key(d)),
                block == (|d: Digest| start.graph.observed[d]),
                pending@ == had + all.take(i as int).filter(loose).map_values(block),
                self@ == (StateView {
                    fallback: FallbackView {
                        forced_waiters: start.fallback.forced_waiters.union(
                            Set::new(
                                |p: (Digest, Round)|
                                    all.take(i as int).contains(p.0)
                                        && !start.graph.dag_digests.contains(p.0)
                                        && !start.graph.observed.contains_key(p.0) && p.1
                                        == owner_round,
                            ),
                        ),
                        ..start.fallback
                    },
                    ..start
                }),
            decreases dependencies@.len() - i,
        {
            let dependency = dependencies[i];
            let ghost kept = all.take(i as int).filter(loose);
            proof {
                lemma_take_contains(all, i as int);
                lemma_filter_take(all, loose, i as int);
                assert(kept.push(dependency).map_values(block) =~= kept.map_values(block).push(
                    block(dependency),
                ));
            }
            if self.graph.dag_digests.contains(&dependency) {
            } else if let Some(ancestor) = self.graph.observed.get(&dependency) {
                pending.push(ancestor.clone());
            } else {
                self.fallback.forced_waiters.insert(dependency, owner_round);
            }
            proof {
                assert(pending@ =~= had + all.take(i + 1).filter(loose).map_values(block));
            }
            i += 1;
        }
        proof {
            assert(all.take(all.len() as int) =~= all);
            certificate.header.lemma_dependencies();
            assert forall|d: Digest| all.contains(d) == certificate.header.depends_on(d) by {
                assert(certificate.header.dependencies().contains(d)
                    == certificate.header.depends_on(d));
            }
            assert(self@ =~= start.await_unseen(*certificate, owner_round));
        }
    }

    /// Puts `root` and every observed ancestor of it into the Dag, at whatever
    /// stage of their broadcast they are. The leader of `owner_round` waits for
    /// the ancestors that nobody has seen.
    pub fn force_observed_history_to_dag(&mut self, root: Certificate, owner_round: Round)
        requires
            old(self)@.wf(),
            old(self)@.admissible(root),
            owner_round <= LAST_ROUND,
        ensures
            final(self)@ == old(self)@.force(root, owner_round),
            final(self)@.wf(),
            old(self)@.keeps_given(root, final(self)@),
    {
        let ghost start = self@;
        let mut pending: Vec<Certificate> = Vec::new();
        pending.push(root);
        let mut visited: OrdSet<Digest> = OrdSet::new();
        proof {
            start.lemma_force(root, owner_round);
            start.lemma_force_keeps(root, owner_round);
            assert(pending@ =~= seq![root]);
        }
        while pending.len() > 0
            invariant
                self@.keyed(),
                self@.consecutive(),
                self@.admit_all(pending@, visited@, owner_round) == start.force(root, owner_round),
            decreases self@.to_visit(pending@, visited@).len(), pending@.len(),
        {
            let ghost before = self@;
            let ghost stack = pending@;
            let ghost seen = visited@;
            proof {
                before.lemma_admit_step(stack, seen, owner_round);
            }
            let certificate = pending.pop().unwrap();
            let digest = certificate.digest();
            proof {
                assert(pending@ =~= stack.drop_last());
            }
            if !visited.insert(digest) {
                proof {
                    assert(visited@ =~= seen);
                }
                continue ;
            }
            self.stack_dependencies(&certificate, owner_round, &mut pending);
            if !self.graph.dag_digests.contains(&digest) {
                self.promote_to_dag(certificate);
            }
            proof {
                assert(self@ == before.admit_one(certificate, owner_round));
            }
        }
    }

    // ----- Deliveries -----

    /// Observes a block at any stage of its broadcast. Hands back the rounds of
    /// the leaders that it may decide.
    #[verifier::rlimit(40)]
    pub fn observe(&mut self, certificate: Certificate) -> (dirty: OrdSet<Round>)
        requires
            old(self)@.wf(),
            old(self)@.admissible(certificate),
        ensures
            final(self)@ == old(self)@.observe(certificate),
            dirty@ == old(self)@.observe_dirties(certificate),
            final(self)@.wf(),
            old(self)@.keeps_given(certificate, final(self)@),
    {
        let ghost start = self@;
        let digest = certificate.digest();
        let slot = (certificate.round(), certificate.origin());
        proof {
            self.fallback.forced_waiters.lemma_finite();
            start.lemma_learn(certificate);
            start.lemma_observe(certificate);
            start.lemma_observe_keeps(certificate);
        }
        let known = self.graph.observed.contains_key(&digest);
        self.graph.observed_by_round.insert(slot, digest);
        self.graph.homes.insert(digest, slot);
        self.graph.observed.insert(digest, certificate.clone());
        proof {
            assert(self@ =~= start.record(certificate));
        }
        if known {
            return OrdSet::new();
        }
        self.fallback.evidence_version = if self.fallback.evidence_version == u64::MAX {
            0
        } else {
            self.fallback.evidence_version + 1
        };
        proof {
            assert(self@ =~= start.record(certificate).revise());
        }
        self.mark_fallback_digest_changed(&digest);
        let mut dirty = self.index_strong_paths(&certificate.header);
        let ghost learned = self@;
        dirty.insert(certificate.round());
        self.collect_virtual_targets(&certificate, &mut dirty);
        let owners = self.fallback.forced_waiters.take(&digest);
        let ghost released = self@;
        proof {
            assert(learned == start.learn(certificate));
            assert(released =~= learned.release(digest));
            assert forall|i: int| 0 <= i < owners@.len() implies #[trigger] owners@[i]
                <= LAST_ROUND by {
                assert(owners@.to_set().contains(owners@[i]));
                assert(start.fallback.forced_waiters.contains((digest, owners@[i])));
            }
        }
        let mut i: usize = 0;
        proof {
            assert(owners@.take(0) =~= Seq::empty());
        }
        while i < owners.len()
            invariant
                i <= owners@.len(),
                released.wf(),
                released.admissible(certificate),
                forall|i: int| 0 <= i < owners@.len() ==> #[trigger] owners@[i] <= LAST_ROUND,
                self@ == released.force_for(certificate, owners@.take(i as int)),
            decreases owners@.len() - i,
        {
            proof {
                released.lemma_force_for(certificate, owners@.take(i as int));
                assert(owners@.take(i + 1).drop_last() =~= owners@.take(i as int));
            }
            self.force_observed_history_to_dag(certificate.clone(), owners[i]);
            i += 1;
        }
        insert_all(&mut dirty, &owners);
        proof {
            assert(owners@.take(owners@.len() as int) =~= owners@);
            let recorded = start.record(certificate);
            let woken = recorded.revise().wake_users(set![digest]);
            assert(learned.virtual_targets(certificate.content()) =~= recorded.virtual_targets(
                certificate.content(),
            ));
            assert(start.owners_of(digest) == learned.owners_of(digest));
            assert(dirty@ =~= start.observe_dirties(certificate));
        }
        dirty
    }

    /// Collects the rounds of the observed blocks that a block references
    /// virtually.
    fn collect_virtual_targets(&self, certificate: &Certificate, dirty: &mut OrdSet<Round>)
        ensures
            final(dirty)@ == old(dirty)@.union(self@.virtual_targets(certificate.content())),
    {
        let ghost had = dirty@;
        let targets = certificate.header.virtual_edges.items();
        let mut i: usize = 0;
        while i < targets.len()
            invariant
                i <= targets@.len(),
                forall|r: Round| #[trigger]
                    dirty@.contains(r) <==> had.contains(r) || exists|t: Digest| #[trigger]
                        targets@.take(i as int).contains(t) && self@.graph.observed.contains_key(t)
                            && self@.graph.observed[t].round() == r,
            decreases targets@.len() - i,
        {
            let ghost before = dirty@;
            let ghost done = targets@.take(i as int);
            let ghost more = targets@.take(i + 1);
            let ghost now = targets@[i as int];
            proof {
                lemma_take_contains(targets@, i as int);
                assert(more.contains(now));
            }
            if let Some(block) = self.graph.observed.get(&targets[i]) {
                dirty.insert(block.round());
            }
            proof {
                assert forall|r: Round| #[trigger]
                    dirty@.contains(r) <==> had.contains(r) || exists|t: Digest| #[trigger]
                        more.contains(t) && self@.graph.observed.contains_key(t)
                            && self@.graph.observed[t].round() == r by {
                    if before.contains(r) && !had.contains(r) {
                        let t = choose|t: Digest| #[trigger]
                            done.contains(t) && self@.graph.observed.contains_key(t)
                                && self@.graph.observed[t].round() == r;
                        assert(more.contains(t));
                    }
                    if exists|t: Digest| #[trigger]
                        more.contains(t) && self@.graph.observed.contains_key(t)
                            && self@.graph.observed[t].round() == r {
                        let t = choose|t: Digest| #[trigger]
                            more.contains(t) && self@.graph.observed.contains_key(t)
                                && self@.graph.observed[t].round() == r;
                        assert(done.contains(t) || t == now);
                    }
                }
            }
            i += 1;
        }
        proof {
            assert(targets@.take(targets@.len() as int) =~= targets@);
            assert forall|r: Round| dirty@.contains(r) == had.union(
                self@.virtual_targets(certificate.content()),
            ).contains(r) by {
                if dirty@.contains(r) && !had.contains(r) {
                    let t = choose|t: Digest| #[trigger]
                        targets@.contains(t) && self@.graph.observed.contains_key(t)
                            && self@.graph.observed[t].round() == r;
                    assert(targets@.to_set().contains(t));
                    assert(certificate.header.virtual_edges@.contains(t));
                }
                if self@.virtual_targets(certificate.content()).contains(r) {
                    let t = choose|t: Digest| #[trigger]
                        certificate.header.virtual_edges@.contains(t)
                            && self@.graph.observed.contains_key(t)
                            && self@.graph.observed[t].round() == r;
                    assert(targets@.to_set().contains(t));
                    assert(targets@.contains(t));
                }
            }
            assert(dirty@ =~= had.union(self@.virtual_targets(certificate.content())));
        }
    }

    /// Delivers a block at grade 1: it enters VDag unless it is in the Dag.
    /// Hands back the rounds of the leaders that it may decide, and whether the
    /// block is new to VDag.
    pub fn insert_grade_one(&mut self, certificate: Certificate) -> (result: (OrdSet<Round>, bool))
        requires
            old(self)@.wf(),
            old(self)@.admissible(certificate),
        ensures
            final(self)@ == old(self)@.insert_grade_one(certificate),
            result.0@ == old(self)@.grade_one_dirties(certificate),
            result.1 == (!old(self)@.graph.dag_digests.contains(certificate.digest())
                && !old(self)@.in_vdag(certificate)),
            final(self)@.wf(),
            old(self)@.keeps_given(certificate, final(self)@),
    {
        let ghost start = self@;
        proof {
            self.fallback.forced_waiters.lemma_finite();
            start.lemma_grade_one_keeps(certificate);
        }
        let digest = certificate.digest();
        let slot = (certificate.round(), certificate.origin());
        if self.graph.dag_digests.contains(&digest) {
            return (OrdSet::new(), false);
        }
        let inserted = match self.graph.vdag.get(&slot) {
            Some(candidate) => candidate.digest() != digest,
            None => true,
        };
        if inserted {
            let missing = self.missing_dependencies_of(&certificate.header);
            let waited_for = missing.items();
            let mut i: usize = 0;
            while i < waited_for.len()
                invariant
                    i <= waited_for@.len(),
                    self@ == (StateView {
                        graph: GraphView {
                            dependency_waiters: start.graph.dependency_waiters.union(
                                Set::new(
                                    |p: (Digest, Digest)|
                                        waited_for@.take(i as int).contains(p.0) && p.1 == digest,
                                ),
                            ),
                            ..start.graph
                        },
                        ..start
                    }),
                decreases waited_for@.len() - i,
            {
                proof {
                    lemma_take_contains(waited_for@, i as int);
                }
                self.graph.dependency_waiters.insert(waited_for[i], digest);
                i += 1;
            }
            self.graph.missing_dependencies.insert(digest, missing.len());
            if missing.is_empty() && self.graph.grade_two.contains(&digest) {
                self.graph.promotion_queue.push_back(digest);
            }
            proof {
                assert(waited_for@.take(waited_for@.len() as int) =~= waited_for@);
                assert forall|d: Digest| waited_for@.contains(d) == missing@.contains(d) by {
                    assert(waited_for@.to_set().contains(d) == waited_for@.contains(d));
                }
                broadcast use group_ordered;

                assert(missing@ =~= Set::empty() <==> missing@.len() == 0);
                assert(self@ =~= start.await_dependencies(certificate));
            }
        }
        self.graph.vdag.insert(slot, certificate.clone());
        self.graph.homes.insert(digest, slot);
        proof {
            start.lemma_enter_vdag(certificate);
            assert(self@ =~= start.enter_vdag(certificate));
        }
        let dirty = self.observe(certificate);
        (dirty, inserted)
    }

    /// The dependencies of a block that are not in the Dag.
    fn missing_dependencies_of(&self, header: &Header) -> (missing: OrdSet<Digest>)
        ensures
            missing@ == self@.missing(*header),
    {
        let dependencies = header.edges();
        let mut missing: OrdSet<Digest> = OrdSet::new();
        let mut i: usize = 0;
        while i < dependencies.len()
            invariant
                i <= dependencies@.len(),
                forall|d: Digest| #[trigger]
                    missing@.contains(d) <==> dependencies@.take(i as int).contains(d)
                        && !self@.graph.dag_digests.contains(d),
            decreases dependencies@.len() - i,
        {
            proof {
                lemma_take_contains(dependencies@, i as int);
            }
            if !self.graph.dag_digests.contains(&dependencies[i]) {
                missing.insert(dependencies[i]);
            }
            i += 1;
        }
        proof {
            assert(dependencies@.take(dependencies@.len() as int) =~= dependencies@);
            header.lemma_dependencies();
            assert forall|d: Digest| missing@.contains(d) == self@.missing(*header).contains(d) by {
                assert(header.dependencies().contains(d) == header.depends_on(d));
            }
            assert(missing@ =~= self@.missing(*header));
        }
        missing
    }

    /// Delivers grade 2 for a digest, and tells whether that is new.
    pub fn mark_grade_two(&mut self, digest: Digest) -> (inserted: bool)
        requires
            old(self)@.wf(),
        ensures
            final(self)@ == old(self)@.mark_grade_two(digest),
            inserted == !old(self)@.graph.grade_two.contains(digest),
            final(self)@.wf(),
            old(self)@.keeps(final(self)@),
    {
        let ghost start = self@;
        let inserted = self.graph.grade_two.insert(digest);
        let ready = match self.graph.missing_dependencies.get(&digest) {
            Some(missing) => *missing == 0,
            None => false,
        };
        if inserted && ready && self.graph.observed.contains_key(&digest) {
            self.graph.promotion_queue.push_back(digest);
        }
        proof {
            start.lemma_mark_grade_two(digest);
        }
        inserted
    }

    /// Works off the promotion queue and hands back the promoted blocks.
    pub fn promote_ready(&mut self) -> (promoted: Vec<Certificate>)
        requires
            old(self)@.wf(),
        ensures
            final(self)@ == old(self)@.promote_ready().0,
            promoted@ == old(self)@.promote_ready().1,
            final(self)@.wf(),
            old(self)@.keeps(final(self)@),
    {
        let ghost start = self@;
        let mut promoted: Vec<Certificate> = Vec::new();
        proof {
            start.lemma_promote_ready();
            start.lemma_promote_ready_keeps();
            assert(promoted@ + start.promote_ready().1 =~= start.promote_ready().1);
        }
        loop
            invariant
                self@.keyed(),
                self@.consecutive(),
                self@.promote_ready().0 == start.promote_ready().0,
                promoted@ + self@.promote_ready().1 == start.promote_ready().1,
            ensures
                self@ == start.promote_ready().0,
                promoted@ == start.promote_ready().1,
            decreases self@.outside().len(), self@.graph.promotion_queue.len(),
        {
            let ghost before = self@;
            let ghost done = promoted@;
            let digest = match self.graph.promotion_queue.pop_front() {
                Some(digest) => digest,
                None => {
                    proof {
                        assert(self@ =~= before);
                        assert(done + Seq::<Certificate>::empty() =~= done);
                    }
                    break ;
                },
            };
            proof {
                before.lemma_promote_step();
                assert(self.graph.promotion_queue@ =~= before.graph.promotion_queue.skip(1));
                assert(self@ =~= before.dequeue());
            }
            let ready = match self.graph.missing_dependencies.get(&digest) {
                Some(missing) => *missing == 0,
                None => false,
            };
            if self.graph.dag_digests.contains(&digest) || !self.graph.grade_two.contains(&digest)
                || !ready {
                continue ;
            }
            let certificate = match self.graph.observed.get(&digest) {
                Some(certificate) => certificate.clone(),
                None => {
                    continue ;
                },
            };
            self.promote_to_dag(certificate.clone());
            self.graph.missing_dependencies.remove(&digest);
            promoted.push(certificate);
            proof {
                assert(self@ =~= before.dequeue().promote_queued(digest));
                assert(promoted@ + self@.promote_ready().1 =~= done + (seq![certificate]
                    + self@.promote_ready().1));
            }
        }
        promoted
    }
}

} // verus!
