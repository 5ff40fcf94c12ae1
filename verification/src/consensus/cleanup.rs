//! Watermarks and garbage collection.
use crate::consensus::model::{
    heeded, highest_mark, is_highest_mark, lane_of, raise, CommitView, FallbackDecision,
    FallbackView, GraphView, HistoryView, StateView, Support,
};
use crate::consensus::state::{Fallback, Graph, History, State};
use crate::ordered::{
    group_ordered, keep_in, keep_where, lemma_filter_take, OrdMap, OrdSet, Relation,
};
use crate::types::{Certificate, Digest, PublicKey, Round, Slot};
use std::collections::VecDeque;
use std::sync::Arc;
use vstd::prelude::*;

verus! {

/// The highest mark is the only one.
pub proof fn lemma_highest_mark(marks: Map<PublicKey, Round>, r: Round)
    requires
        is_highest_mark(marks, r),
    ensures
        highest_mark(marks) == r,
{
    let h = highest_mark(marks);
    assert(is_highest_mark(marks, h));
    let k = choose|k: PublicKey| #[trigger] marks.contains_key(k) && marks[k] == r;
    let l = choose|l: PublicKey| #[trigger] marks.contains_key(l) && marks[l] == h;
    assert(marks[k] <= h);
    assert(marks[l] <= r);
}

/// Raised marks keep their names.
pub proof fn lemma_raise(marks: Map<PublicKey, Round>, certificates: Seq<Certificate>)
    ensures
        forall|k: PublicKey| #[trigger]
            marks.contains_key(k) ==> raise(marks, certificates).contains_key(k)
                && raise(marks, certificates)[k] >= marks[k],
        forall|i: int|
            0 <= i < certificates.len() ==> raise(marks, certificates).contains_key(
                (#[trigger] certificates[i]).origin(),
            ) && raise(marks, certificates)[certificates[i].origin()] >= certificates[i].round(),
    decreases certificates.len(),
{
    if certificates.len() > 0 {
        let front = certificates.drop_last();
        lemma_raise(marks, front);
        assert forall|i: int| 0 <= i < certificates.len() implies raise(
            marks,
            certificates,
        ).contains_key((#[trigger] certificates[i]).origin()) && raise(
            marks,
            certificates,
        )[certificates[i].origin()] >= certificates[i].round() by {
            if i < front.len() {
                assert(front[i] == certificates[i]);
            }
        }
    }
}

/// The highest of the watermarks.
fn find_highest(marks: &OrdMap<PublicKey, Round>) -> (highest: Round)
    requires
        marks@ != Map::<PublicKey, Round>::empty(),
    ensures
        is_highest_mark(marks@, highest),
        highest == highest_mark(marks@),
{
    broadcast use group_ordered;

    let ghost keys = marks.key_seq();
    proof {
        if keys.len() == 0 {
            assert(marks@ =~= Map::<PublicKey, Round>::empty()) by {
                assert forall|k: PublicKey| !marks@.contains_key(k) by {
                    if marks@.contains_key(k) {
                        assert(keys.to_set().contains(k));
                    }
                }
            }
        }
    }
    let mut highest: Round = *marks.value_at(0);
    let mut i: usize = 1;
    let count = marks.len();
    while i < count
        invariant
            keys == marks.key_seq(),
            count == keys.len(),
            1 <= i <= count,
            exists|k: PublicKey| #[trigger] marks@.contains_key(k) && marks@[k] == highest,
            forall|j: int| 0 <= j < i ==> marks@[#[trigger] keys[j]] <= highest,
        decreases count - i,
    {
        let mark = *marks.value_at(i);
        if mark > highest {
            highest = mark;
        }
        i += 1;
    }
    proof {
        assert forall|k: PublicKey| #[trigger] marks@.contains_key(k) implies marks@[k]
            <= highest by {
            assert(keys.to_set().contains(k));
            let j = choose|j: int| 0 <= j < keys.len() && keys[j] == k;
            assert(marks@[keys[j]] <= highest);
        }
        lemma_highest_mark(marks@, highest);
    }
    highest
}

/// Keeps the queued digests that are observed.
fn retain_observed(queue: &mut VecDeque<Digest>, observed: &OrdMap<Digest, Certificate>)
    ensures
        final(queue)@ == old(queue)@.filter(|d: Digest| observed@.contains_key(d)),
{
    let ghost all = queue@;
    let ghost seen = |d: Digest| observed@.contains_key(d);
    let mut kept: VecDeque<Digest> = VecDeque::new();
    let count = queue.len();
    let mut i: usize = 0;
    proof {
        reveal(Seq::filter);
        assert(all.take(0).filter(seen) =~= Seq::empty());
    }
    while i < count
        invariant
            count == queue@.len(),
            all == queue@,
            i <= count,
            seen == (|d: Digest| observed@.contains_key(d)),
            kept@ == all.take(i as int).filter(seen),
        decreases count - i,
    {
        proof {
            lemma_filter_take(all, seen, i as int);
        }
        let digest = queue[i];
        if observed.contains_key(&digest) {
            kept.push_back(digest);
        }
        i += 1;
    }
    proof {
        assert(all.take(all.len() as int) =~= all);
    }
    *queue = kept;
}

impl State {
    /// Raises the watermarks over a committed sequence.
    fn raise_watermarks(&mut self, certificates: &Vec<Certificate>)
        ensures
            final(self)@.graph == old(self)@.graph,
            final(self)@.fallback == old(self)@.fallback,
            final(self)@.commits == (CommitView {
                last_committed: raise(old(self)@.commits.last_committed, certificates@),
                ..old(self)@.commits
            }),
    {
        let ghost start = self@;
        let mut i: usize = 0;
        proof {
            assert(certificates@.take(0) =~= Seq::empty());
        }
        while i < certificates.len()
            invariant
                i <= certificates@.len(),
                self@.graph == start.graph,
                self@.fallback == start.fallback,
                self@.commits == (CommitView {
                    last_committed: raise(
                        start.commits.last_committed,
                        certificates@.take(i as int),
                    ),
                    ..start.commits
                }),
            decreases certificates@.len() - i,
        {
            proof {
                assert(certificates@.take(i + 1).drop_last() =~= certificates@.take(i as int));
            }
            let origin = certificates[i].origin();
            let round = certificates[i].round();
            let mark = match self.commits.last_committed.get(&origin) {
                Some(mark) => {
                    if *mark > round {
                        *mark
                    } else {
                        round
                    }
                },
                None => round,
            };
            self.commits.last_committed.insert(origin, mark);
            i += 1;
        }
        proof {
            assert(certificates@.take(certificates@.len() as int) =~= certificates@);
        }
    }

    /// The digests of the blocks in the slots of the Dag.
    fn live_digests(&self) -> (live: OrdSet<Digest>)
        ensures
            forall|d: Digest| #[trigger]
                live@.contains(d) <==> exists|s: Slot| #[trigger]
                    self@.graph.dag.contains_key(s) && self@.graph.dag[s].digest() == d,
    {
        broadcast use group_ordered;

        let ghost dag = self@.graph.dag;
        let ghost slots = self.graph.dag.key_seq();
        let mut live: OrdSet<Digest> = OrdSet::new();
        let count = self.graph.dag.len();
        let mut i: usize = 0;
        while i < count
            invariant
                dag == self@.graph.dag,
                slots == self.graph.dag.key_seq(),
                count == slots.len(),
                i <= count,
                forall|d: Digest| #[trigger]
                    live@.contains(d) <==> exists|j: int|
                        0 <= j < i && dag[#[trigger] slots[j]].digest() == d,
            decreases count - i,
        {
            let ghost before = live@;
            let digest = self.graph.dag.value_at(i).digest();
            live.insert(digest);
            proof {
                assert forall|d: Digest| #[trigger]
                    live@.contains(d) <==> exists|j: int|
                        0 <= j < i + 1 && dag[#[trigger] slots[j]].digest() == d by {
                    if before.contains(d) {
                        let j = choose|j: int| 0 <= j < i && dag[#[trigger] slots[j]].digest() == d;
                        assert(dag[slots[j]].digest() == d);
                    }
                    assert(dag[slots[i as int]].digest() == digest);
                }
            }
            i += 1;
        }
        proof {
            assert forall|d: Digest| #[trigger]
                live@.contains(d) <==> exists|s: Slot| #[trigger]
                    dag.contains_key(s) && dag[s].digest() == d by {
                if live@.contains(d) {
                    let j = choose|j: int|
                        0 <= j < slots.len() && dag[#[trigger] slots[j]].digest() == d;
                    assert(slots.to_set().contains(slots[j]));
                    assert(dag.contains_key(slots[j]));
                }
                if exists|s: Slot| #[trigger] dag.contains_key(s) && dag[s].digest() == d {
                    let s = choose|s: Slot| #[trigger] dag.contains_key(s) && dag[s].digest() == d;
                    assert(slots.to_set().contains(s));
                    let j = choose|j: int| 0 <= j < slots.len() && slots[j] == s;
                    assert(dag[slots[j]].digest() == d);
                }
            }
        }
        live
    }
}

impl Graph {
    /// Forgets the slots below the watermark of their author or below
    /// `horizon`.
    fn forget_slots(&mut self, marks: &OrdMap<PublicKey, Round>, horizon: Round)
        ensures
            final(self)@ == (GraphView {
                dag: keep_where(
                    old(self)@.dag,
                    |s: Slot, c: Certificate|
                        (marks@.contains_key(s.1) ==> s.0 >= marks@[s.1]) && s.0 >= horizon,
                ),
                vdag: keep_where(
                    old(self)@.vdag,
                    |s: Slot, c: Certificate|
                        (marks@.contains_key(s.1) ==> s.0 >= marks@[s.1]) && s.0 >= horizon,
                ),
                ..old(self)@
            }),
    {
        let ghost live = |s: Slot, c: Certificate|
            (marks@.contains_key(s.1) ==> s.0 >= marks@[s.1]) && s.0 >= horizon;
        let keep = |s: &Slot, _c: &Certificate| -> (keep: bool)
            ensures
                keep == live(*s, *_c),
            {
                let above = match marks.get(&s.1) {
                    Some(mark) => s.0 >= *mark,
                    None => true,
                };
                above && s.0 >= horizon
            };
        self.dag.retain(keep, Ghost(live));
        let keep = |s: &Slot, _c: &Certificate| -> (keep: bool)
            ensures
                keep == live(*s, *_c),
            {
                let above = match marks.get(&s.1) {
                    Some(mark) => s.0 >= *mark,
                    None => true,
                };
                above && s.0 >= horizon
            };
        self.vdag.retain(keep, Ghost(live));
    }

    /// Forgets the observed blocks below `horizon` and what is indexed of them.
    fn forget_observed(&mut self, horizon: Round)
        ensures
            ({
                let observed = keep_where(
                    old(self)@.observed,
                    |d: Digest, c: Certificate| c.round() >= horizon,
                );
                let fresh = |x: (Support, PublicKey)| x.0.0 >= horizon;
                final(self)@ == (GraphView {
                    observed,
                    strong_indexed: keep_in(
                        old(self)@.strong_indexed,
                        |d: Digest| observed.contains_key(d),
                    ),
                    strong_ancestors: keep_in(
                        old(self)@.strong_ancestors,
                        |p: (Digest, Digest)| observed.contains_key(p.0),
                    ),
                    strong_children: keep_in(
                        old(self)@.strong_children,
                        |p: (Digest, Digest)| observed.contains_key(p.1),
                    ),
                    observed_strong_support: keep_in(old(self)@.observed_strong_support, fresh),
                    dag_strong_support: keep_in(old(self)@.dag_strong_support, fresh),
                    observed_direct_support: keep_in(old(self)@.observed_direct_support, fresh),
                    dag_direct_support: keep_in(old(self)@.dag_direct_support, fresh),
                    missing_dependencies: keep_where(
                        old(self)@.missing_dependencies,
                        |d: Digest, n: usize| observed.contains_key(d),
                    ),
                    dependency_waiters: keep_in(
                        old(self)@.dependency_waiters,
                        |p: (Digest, Digest)| observed.contains_key(p.1),
                    ),
                    promotion_queue: old(self)@.promotion_queue.filter(
                        |d: Digest| observed.contains_key(d),
                    ),
                    ..old(self)@
                })
            }),
    {
        let ghost recent = |d: Digest, c: Certificate| c.round() >= horizon;
        let keep = |_d: &Digest, c: &Certificate| -> (keep: bool)
            ensures
                keep == recent(*_d, *c),
            {
                c.round() >= horizon
            };
        self.observed.retain(keep, Ghost(recent));
        let observed = &self.observed;
        let ghost seen = observed@;
        let ghost known = |d: Digest| seen.contains_key(d);
        let keep = |d: &Digest| -> (keep: bool)
            ensures
                keep == known(*d),
            {
                observed.contains_key(d)
            };
        self.strong_indexed.retain(keep, Ghost(known));
        let ghost from = |p: (Digest, Digest)| seen.contains_key(p.0);
        let keep = |p: &(Digest, Digest)| -> (keep: bool)
            ensures
                keep == from(*p),
            {
                observed.contains_key(&p.0)
            };
        self.strong_ancestors.retain(keep, Ghost(from));
        let ghost to = |p: (Digest, Digest)| seen.contains_key(p.1);
        let keep = |p: &(Digest, Digest)| -> (keep: bool)
            ensures
                keep == to(*p),
            {
                observed.contains_key(&p.1)
            };
        self.strong_children.retain(keep, Ghost(to));
        let keep = |p: &(Digest, Digest)| -> (keep: bool)
            ensures
                keep == to(*p),
            {
                observed.contains_key(&p.1)
            };
        self.dependency_waiters.retain(keep, Ghost(to));
        let ghost counted = |d: Digest, n: usize| seen.contains_key(d);
        let keep = |d: &Digest, _n: &usize| -> (keep: bool)
            ensures
                keep == counted(*d, *_n),
            {
                observed.contains_key(d)
            };
        self.missing_dependencies.retain(keep, Ghost(counted));
        retain_observed(&mut self.promotion_queue, observed);
        retain_support(&mut self.observed_strong_support, horizon);
        retain_support(&mut self.dag_strong_support, horizon);
        retain_support(&mut self.observed_direct_support, horizon);
        retain_support(&mut self.dag_direct_support, horizon);
    }

    /// Forgets the digests of blocks that have left their slot in the Dag.
    fn forget_digests(&mut self, live: OrdSet<Digest>)
        ensures
            final(self)@ == (GraphView {
                dag_by_digest: keep_where(
                    old(self)@.dag_by_digest,
                    |d: Digest, c: Certificate| live@.contains(d),
                ),
                dag_digests: live@,
                ..old(self)@
            }),
    {
        let ghost kept = |d: Digest, c: Certificate| live@.contains(d);
        let alive = &live;
        let keep = |d: &Digest, _c: &Certificate| -> (keep: bool)
            ensures
                keep == kept(*d, *_c),
            {
                alive.contains(d)
            };
        self.dag_by_digest.retain(keep, Ghost(kept));
        self.dag_digests = live;
    }
}

/// Forgets the support that blocks below `horizon` give.
fn retain_support(support: &mut Relation<Support, PublicKey>, horizon: Round)
    ensures
        final(support)@ == keep_in(
            old(support)@,
            |x: (Support, PublicKey)| x.0.0 >= horizon,
        ),
{
    let ghost fresh = |x: (Support, PublicKey)| x.0.0 >= horizon;
    let keep = |x: &(Support, PublicKey)| -> (keep: bool)
        ensures
            keep == fresh(*x),
        {
            x.0.0 >= horizon
        };
    support.retain(keep, Ghost(fresh));
}

/// Whether the anchor of a round is active or the round lies not below
/// `horizon`.
fn keeps_anchor(anchors: &OrdMap<Round, Round>, horizon: Round, round: Round) -> (result: bool)
    ensures
        result == ((anchors@.contains_key(lane_of(round)) && anchors@[lane_of(round)] == round)
            || round >= horizon),
{
    let active = match anchors.get(&(round % 3)) {
        Some(anchor) => *anchor == round,
        None => false,
    };
    active || round >= horizon
}

impl Fallback {
    /// Forgets what was decided for inactive anchors below `horizon`, and on
    /// leaders below it.
    fn forget_anchors(&mut self, horizon: Round, observed: &OrdMap<Digest, Certificate>)
        ensures
            ({
                let anchors = old(self)@.anchors;
                let anchored = |r: Round|
                    (anchors.contains_key(lane_of(r)) && anchors[lane_of(r)] == r) || r >= horizon;
                final(self)@ == (FallbackView {
                    anchor_versions: keep_where(
                        old(self)@.anchor_versions,
                        |r: Round, v: u64| anchored(r),
                    ),
                    dirty_anchors: keep_in(old(self)@.dirty_anchors, anchored),
                    history_cache: keep_where(
                        old(self)@.history_cache,
                        |r: Round, h: HistoryView| anchored(r),
                    ),
                    decision_cache: keep_where(
                        old(self)@.decision_cache,
                        |k: (Round, Round), v: FallbackDecision| anchored(k.0) && k.1 >= horizon,
                    ),
                    vertex_users: keep_in(
                        old(self)@.vertex_users,
                        |p: (Digest, Round)| anchored(p.1) && observed@.contains_key(p.0),
                    ),
                    evidence_waiters: keep_in(
                        old(self)@.evidence_waiters,
                        |p: (Digest, Round)| anchored(p.1),
                    ),
                    ..old(self)@
                })
            }),
    {
        let ghost cache = self.history_cache@;
        let anchors = &self.anchors;
        let ghost anchored = |r: Round|
            (anchors@.contains_key(lane_of(r)) && anchors@[lane_of(r)] == r) || r >= horizon;
        let ghost versions = |r: Round, v: u64| anchored(r);
        let keep = |r: &Round, _v: &u64| -> (keep: bool)
            ensures
                keep == versions(*r, *_v),
            {
                keeps_anchor(anchors, horizon, *r)
            };
        self.anchor_versions.retain(keep, Ghost(versions));
        let keep = |r: &Round| -> (keep: bool)
            ensures
                keep == anchored(*r),
            {
                keeps_anchor(anchors, horizon, *r)
            };
        self.dirty_anchors.retain(keep, Ghost(anchored));
        let ghost histories = |r: Round, h: Arc<History>| anchored(r);
        let keep = |r: &Round, _h: &Arc<History>| -> (keep: bool)
            ensures
                keep == histories(*r, *_h),
            {
                keeps_anchor(anchors, horizon, *r)
            };
        self.history_cache.retain(keep, Ghost(histories));
        let ghost decisions = |k: (Round, Round), v: FallbackDecision|
            anchored(k.0) && k.1 >= horizon;
        let keep = |k: &(Round, Round), _v: &FallbackDecision| -> (keep: bool)
            ensures
                keep == decisions(*k, *_v),
            {
                keeps_anchor(anchors, horizon, k.0) && k.1 >= horizon
            };
        self.decision_cache.retain(keep, Ghost(decisions));
        let ghost used = |p: (Digest, Round)| anchored(p.1) && observed@.contains_key(p.0);
        let keep = |p: &(Digest, Round)| -> (keep: bool)
            ensures
                keep == used(*p),
            {
                keeps_anchor(anchors, horizon, p.1) && observed.contains_key(&p.0)
            };
        self.vertex_users.retain(keep, Ghost(used));
        let ghost waited = |p: (Digest, Round)| anchored(p.1);
        let keep = |p: &(Digest, Round)| -> (keep: bool)
            ensures
                keep == waited(*p),
            {
                keeps_anchor(anchors, horizon, p.1)
            };
        self.evidence_waiters.retain(keep, Ghost(waited));
        proof {
            let seen = cache.map_values(|h: Arc<History>| (*h)@);
            assert(self.history_cache@.map_values(|h: Arc<History>| (*h)@) =~= keep_where(
                seen,
                |r: Round, h: HistoryView| anchored(r),
            ));
        }
    }

    /// Nobody waits for a block of the Dag.
    fn forget_waiters(&mut self, live: &OrdSet<Digest>)
        ensures
            final(self)@ == (FallbackView {
                forced_waiters: keep_in(
                    old(self)@.forced_waiters,
                    |p: (Digest, Round)| !live@.contains(p.0),
                ),
                ..old(self)@
            }),
    {
        let ghost waiting = |p: (Digest, Round)| !live@.contains(p.0);
        let keep = |p: &(Digest, Round)| -> (keep: bool)
            ensures
                keep == waiting(*p),
            {
                !live.contains(&p.0)
            };
        self.forced_waiters.retain(keep, Ghost(waiting));
    }
}

impl State {
    /// Raises the watermarks over a committed sequence, and forgets what lies
    /// more than `gc_depth` rounds below the highest of them.
    pub fn update(&mut self, certificates: &Vec<Certificate>, gc_depth: Round)
        requires
            old(self)@.wf(),
        ensures
            final(self)@ == old(self)@.update(certificates@, gc_depth),
            final(self)@.wf(),
            old(self)@.keeps(final(self)@),
    {
        let ghost start = self@;
        let ghost marks = raise(start.commits.last_committed, certificates@);
        self.raise_watermarks(certificates);
        proof {
            lemma_raise(start.commits.last_committed, certificates@);
            if marks == Map::<PublicKey, Round>::empty() {
                assert(start.commits.last_committed =~= Map::<PublicKey, Round>::empty()) by {
                    assert forall|k: PublicKey| !start.commits.last_committed.contains_key(k) by {
                        if start.commits.last_committed.contains_key(k) {
                            assert(marks.contains_key(k));
                        }
                    }
                }
            }
        }
        let latest = find_highest(&self.commits.last_committed);
        self.commits.last_committed_round = latest;
        let horizon: Round = if latest > gc_depth {
            latest - gc_depth
        } else {
            0
        };
        self.graph.forget_slots(&self.commits.last_committed, horizon);
        self.graph.forget_observed(horizon);
        let live = self.live_digests();
        let ghost dag = self@.graph.dag;
        self.fallback.forget_waiters(&live);
        self.fallback.forget_anchors(horizon, &self.graph.observed);
        self.graph.forget_digests(live);
        let ghost recent = |r: Round, n: u8| r >= horizon;
        let keep = |r: &Round, _n: &u8| -> (keep: bool)
            ensures
                keep == recent(*r, *_n),
            {
                *r >= horizon
            };
        self.commits.rules.retain(keep, Ghost(recent));
        proof {
            let goal = start.update(certificates@, gc_depth);
            assert(dag =~= goal.graph.dag);
            assert(live@ =~= goal.graph.dag_digests);
            assert(self@.graph.observed =~= goal.graph.observed);
            let seen = self@.graph.observed;
            assert((|d: Digest| seen.contains_key(d)) =~= (|d: Digest|
                goal.graph.observed.contains_key(d)));
            assert(self@.graph =~= goal.graph);
            assert(self@.fallback =~= goal.fallback);
            assert(self@.commits =~= goal.commits);
            start.lemma_update(certificates@, gc_depth);
            start.lemma_update_keeps(certificates@, gc_depth);
        }
    }
}

impl StateView {
    /// Garbage collection keeps the state well-formed.
    pub proof fn lemma_update(self, sequence: Seq<Certificate>, gc_depth: Round)
        requires
            self.wf(),
        ensures
            self.update(sequence, gc_depth).wf(),
            self.carries(self.update(sequence, gc_depth)),
    {
        let after = self.update(sequence, gc_depth);
        lemma_raise(self.commits.last_committed, sequence);
        assert(after.commits.last_committed != Map::<PublicKey, Round>::empty()) by {
            if after.commits.last_committed == Map::<PublicKey, Round>::empty() {
                assert(self.commits.last_committed =~= Map::<PublicKey, Round>::empty()) by {
                    assert forall|k: PublicKey| !self.commits.last_committed.contains_key(k) by {
                        if self.commits.last_committed.contains_key(k) {
                            assert(after.commits.last_committed.contains_key(k));
                        }
                    }
                }
            }
        }
        assert(after.graph.observed.dom().subset_of(self.graph.observed.dom()));
        vstd::set_lib::lemma_set_subset_finite(
            self.graph.observed.dom(),
            after.graph.observed.dom(),
        );
        assert forall|d: Digest| after.graph.dag_digests.contains(d)
            == after.graph.dag_by_digest.contains_key(d) by {
            if after.graph.dag_digests.contains(d) {
                let s = choose|s: Slot| #[trigger]
                    after.graph.dag.contains_key(s) && after.graph.dag[s].digest() == d;
                assert(self.graph.dag.contains_key(s));
            }
        }
        assert(after.graph.dag_digests =~= after.graph.dag_by_digest.dom());
        assert forall|s: Slot| #[trigger] after.graph.dag.contains_key(s) implies after.graph.dag[s].slot()
            == s && after.settled(after.graph.dag[s]) && after.graph.dag_by_digest.contains_key(
            after.graph.dag[s].digest(),
        ) by {
            assert(self.graph.dag.contains_key(s));
            assert(after.graph.dag_digests.contains(after.graph.dag[s].digest()));
        }
        assert(after.placed());
        assert(after.closed_paths());
        assert(after.tracked_leaders());
        assert forall|d: Digest| after.graph.dag_digests.contains(
            d,
        ) implies self.graph.dag_digests.contains(d) by {
            assert(self.graph.dag_by_digest.contains_key(d));
        }
        assert(self.heeds() ==> after.heeds()) by {
            reveal(heeded);
        }
    }
}

} // verus!
