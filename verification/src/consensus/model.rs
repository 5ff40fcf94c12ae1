//! The mathematical model of the consensus state.
//!
//! [`StateView`] holds the contents of every collection of the state as a plain
//! map, set or sequence. Its methods define what each step of the protocol does
//! to them.
use crate::ordered::{image, in_order, keep_in, keep_where, without};
use crate::types::{Certificate, Digest, Header, PublicKey, Round, Slot, LAST_ROUND};
use vstd::prelude::*;

verus! {

/// A target that blocks of one round support: the round and the target.
pub type Support = (Round, Digest);

/// A cached decision on a leader, with the evidence revision it was made at.
#[derive(Clone, Copy, Debug, PartialEq, Eq, Structural)]
pub struct FallbackDecision {
    /// The evidence revision of the anchor.
    pub version: u64,
    /// Whether the leader is committed.
    pub commit: bool,
}

/// The causal history of a recovery anchor, by round.
#[verifier::ext_equal]
pub struct HistoryView {
    /// The evidence revision of the anchor.
    pub version: u64,
    /// Whether everything that the history refers to has been observed.
    pub complete: bool,
    /// The observed blocks of the history with their rounds.
    pub by_round: Set<(Round, Digest)>,
}

/// The blocks and the indexes over them.
#[verifier::ext_equal]
pub struct GraphView {
    pub dag: Map<Slot, Certificate>,
    pub dag_by_digest: Map<Digest, Certificate>,
    pub dag_digests: Set<Digest>,
    pub vdag: Map<Slot, Certificate>,
    pub grade_two: Set<Digest>,
    pub observed: Map<Digest, Certificate>,
    pub observed_by_round: Map<Slot, Digest>,
    pub strong_indexed: Set<Digest>,
    pub strong_ancestors: Set<(Digest, Digest)>,
    pub strong_children: Set<(Digest, Digest)>,
    pub observed_strong_support: Set<(Support, PublicKey)>,
    pub dag_strong_support: Set<(Support, PublicKey)>,
    pub observed_direct_support: Set<(Support, PublicKey)>,
    pub dag_direct_support: Set<(Support, PublicKey)>,
    pub missing_dependencies: Map<Digest, usize>,
    pub dependency_waiters: Set<(Digest, Digest)>,
    pub promotion_queue: Seq<Digest>,
    pub homes: Map<Digest, Slot>,
}

/// The pessimistic finalization of leaders.
#[verifier::ext_equal]
pub struct FallbackView {
    pub stack: Set<Round>,
    pub anchors: Map<Round, Round>,
    pub evidence_version: u64,
    pub anchor_versions: Map<Round, u64>,
    pub dirty_anchors: Set<Round>,
    pub history_cache: Map<Round, HistoryView>,
    pub decision_cache: Map<(Round, Round), FallbackDecision>,
    pub vertex_users: Set<(Digest, Round)>,
    pub evidence_waiters: Set<(Digest, Round)>,
    pub recovery: Set<Round>,
    pub missing_requests: Map<Round, u64>,
    pub forced_waiters: Set<(Digest, Round)>,
}

/// The fate of leaders and what has been ordered.
#[verifier::ext_equal]
pub struct CommitView {
    pub last_committed_round: Round,
    pub last_committed: Map<PublicKey, Round>,
    pub leaders: Map<Round, PublicKey>,
    pub committed: Set<Round>,
    pub skipped: Set<Round>,
    pub pending: Map<Round, Certificate>,
    pub ready_at: Map<Round, u128>,
    pub rules: Map<Round, u8>,
    pub order: Map<Round, Seq<Certificate>>,
    pub ready: Set<Round>,
    pub dirty_leaders: Set<Round>,
    pub highest_advanced_round: Round,
    pub requests: Seq<(Round, PublicKey)>,
    pub outbox: Seq<Seq<Certificate>>,
}

/// The contents of the consensus state.
#[verifier::ext_equal]
pub struct StateView {
    pub graph: GraphView,
    pub fallback: FallbackView,
    pub commits: CommitView,
}

/// The fallback lane of a round.
pub open spec fn lane_of(round: Round) -> Round {
    (round % 3) as Round
}

/// A walk along `edges`.
pub open spec fn is_walk(edges: Set<(Digest, Digest)>, p: Seq<Digest>) -> bool {
    forall|i: int| 0 <= i < p.len() - 1 ==> edges.contains((#[trigger] p[i], p[i + 1]))
}

/// Whether `to` is `from` or follows from it along `edges`.
pub open spec fn leads_to(edges: Set<(Digest, Digest)>, from: Digest, to: Digest) -> bool {
    exists|p: Seq<Digest>|
        #![trigger is_walk(edges, p)]
        p.len() > 0 && p[0] == from && p.last() == to && is_walk(edges, p)
}

/// A path along `edges`.
pub open spec fn is_path(edges: spec_fn(Digest) -> Set<Digest>, p: Seq<Digest>) -> bool {
    forall|i: int| 0 <= i < p.len() - 1 ==> edges(#[trigger] p[i]).contains(p[i + 1])
}

/// Whether a path leads from one of `roots` to `to`.
pub open spec fn reaches(
    roots: Set<Digest>,
    edges: spec_fn(Digest) -> Set<Digest>,
    to: Digest,
) -> bool {
    exists|p: Seq<Digest>|
        #![trigger is_path(edges, p)]
        p.len() > 0 && roots.contains(p[0]) && p.last() == to && is_path(edges, p)
}

/// `versions` with all of `rounds` at version `v`.
pub open spec fn stamp(versions: Map<Round, u64>, rounds: Set<Round>, v: u64) -> Map<Round, u64> {
    Map::new(
        |r: Round| rounds.contains(r) || versions.contains_key(r),
        |r: Round|
            if rounds.contains(r) {
                v
            } else {
                versions[r]
            },
    )
}

/// The edges that `header` adds, towards its strong parents.
pub open spec fn strong_edges(header: Header) -> Set<(Digest, Digest)> {
    Set::new(|p: (Digest, Digest)| header.parents@.contains(p.0) && p.1 == header.block)
}

/// The direct support that the author of `header` gives to its strong parents.
pub open spec fn direct_support(header: Header) -> Set<(Support, PublicKey)> {
    Set::new(
        |p: (Support, PublicKey)|
            p.0.0 == header.round && header.parents@.contains(p.0.1) && p.1 == header.author,
    )
}

/// The watermarks after `certificates` have been committed in turn.
pub open spec fn raise(
    marks: Map<PublicKey, Round>,
    certificates: Seq<Certificate>,
) -> Map<PublicKey, Round>
    decreases certificates.len(),
{
    if certificates.len() == 0 {
        marks
    } else {
        let before = raise(marks, certificates.drop_last());
        let c = certificates.last();
        let mark = if before.contains_key(c.origin()) && before[c.origin()] > c.round() {
            before[c.origin()]
        } else {
            c.round()
        };
        before.insert(c.origin(), mark)
    }
}

/// Whether `r` is the highest of the watermarks.
pub open spec fn is_highest_mark(marks: Map<PublicKey, Round>, r: Round) -> bool {
    &&& exists|k: PublicKey| #[trigger] marks.contains_key(k) && marks[k] == r
    &&& forall|k: PublicKey| #[trigger] marks.contains_key(k) ==> marks[k] <= r
}

/// The highest of the watermarks.
pub open spec fn highest_mark(marks: Map<PublicKey, Round>) -> Round {
    choose|r: Round| is_highest_mark(marks, r)
}

/// Whether the leader of `round` is committed or skipped.
pub open spec fn decided(committed: Set<Round>, skipped: Set<Round>, round: Round) -> bool {
    committed.contains(round) || skipped.contains(round)
}

/// Whether the leaders of all rounds below `round` are committed or skipped.
pub open spec fn decided_below(committed: Set<Round>, skipped: Set<Round>, round: Round) -> bool {
    forall|q: Round| 0 < q < round ==> #[trigger] decided(committed, skipped, q)
}

/// Whether every leader before a committed one is committed or skipped.
pub open spec fn in_turn(committed: Set<Round>, skipped: Set<Round>) -> bool {
    forall|r: Round| #[trigger]
        committed.contains(r) && r > 0 ==> decided_below(committed, skipped, r)
}

/// Whether every pending leader that can be committed is among the ready ones.
#[verifier::opaque]
pub open spec fn heeded(
    pending: Map<Round, Certificate>,
    committed: Set<Round>,
    skipped: Set<Round>,
    dag_digests: Set<Digest>,
    ready: Set<Round>,
) -> bool {
    forall|r: Round| #[trigger]
        pending.contains_key(r) && r > 0 && decided_below(committed, skipped, r)
            && dag_digests.contains(pending[r].digest()) ==> ready.contains(r)
}

/// Further decisions leave the order of commits alone, if what is committed by
/// them has nothing open before it.
pub proof fn lemma_in_turn(
    committed: Set<Round>,
    skipped: Set<Round>,
    more_committed: Set<Round>,
    more_skipped: Set<Round>,
)
    requires
        in_turn(committed, skipped),
        committed.subset_of(more_committed),
        skipped.subset_of(more_skipped),
        forall|r: Round| #[trigger]
            more_committed.contains(r) && !committed.contains(r) ==> decided_below(
                committed,
                skipped,
                r,
            ),
    ensures
        in_turn(more_committed, more_skipped),
{
    assert forall|r: Round| #[trigger] more_committed.contains(r) && r > 0 implies decided_below(
        more_committed,
        more_skipped,
        r,
    ) by {
        assert(decided_below(committed, skipped, r));
        assert forall|q: Round| 0 < q < r implies #[trigger] decided(
            more_committed,
            more_skipped,
            q,
        ) by {
            assert(decided(committed, skipped, q));
        }
    }
}

impl StateView {
    // ----- Validity -----

    /// The slot of a stored block is the one that its digest stands for.
    pub open spec fn settled(self, c: Certificate) -> bool {
        &&& self.graph.homes.contains_key(c.digest())
        &&& self.graph.homes[c.digest()] == c.slot()
    }

    /// A block that can be taken in: its round can be looked ahead from, and
    /// its digest does not stand for another slot.
    pub open spec fn admissible(self, c: Certificate) -> bool {
        &&& c.round() <= LAST_ROUND
        &&& self.graph.homes.contains_key(c.digest()) ==> self.graph.homes[c.digest()] == c.slot()
    }

    /// Blocks stand under their own digest and slot, every digest stands for one
    /// slot, and the blocks of the Dag have been observed.
    pub open spec fn placed(self) -> bool {
        &&& forall|d: Digest| #[trigger]
            self.graph.homes.contains_key(d) ==> self.graph.homes[d].0 <= LAST_ROUND
        &&& forall|d: Digest| #[trigger]
            self.graph.observed.contains_key(d) ==> self.graph.observed[d].digest() == d
                && self.settled(self.graph.observed[d])
        &&& forall|d: Digest| #[trigger]
            self.graph.dag_by_digest.contains_key(d) ==> self.graph.dag_by_digest[d].digest() == d
                && self.settled(self.graph.dag_by_digest[d]) && self.graph.observed.contains_key(d)
        &&& forall|s: Slot| #[trigger]
            self.graph.dag.contains_key(s) ==> self.graph.dag[s].slot() == s && self.settled(
                self.graph.dag[s],
            ) && self.graph.dag_by_digest.contains_key(self.graph.dag[s].digest())
        &&& forall|s: Slot| #[trigger]
            self.graph.vdag.contains_key(s) ==> self.graph.vdag[s].slot() == s && self.settled(
                self.graph.vdag[s],
            )
        &&& forall|s: Slot| #[trigger]
            self.graph.observed_by_round.contains_key(s) ==> self.graph.homes.contains_key(
                self.graph.observed_by_round[s],
            ) && self.graph.homes[self.graph.observed_by_round[s]] == s
        &&& self.graph.dag_digests == self.graph.dag_by_digest.dom()
    }

    /// The index of strong paths is closed: what a block reaches, its strong
    /// children reach.
    pub open spec fn closed_paths(self) -> bool {
        &&& forall|p: Digest, c: Digest, a: Digest|
            #![trigger self.graph.strong_children.contains((p, c)), self.graph.strong_ancestors.contains((p, a))]
            self.graph.strong_children.contains((p, c)) && self.graph.strong_ancestors.contains(
                (p, a),
            ) ==> self.graph.strong_ancestors.contains((c, a))
        &&& forall|p: (Digest, Digest)| #[trigger]
            self.graph.strong_children.contains(p) ==> self.graph.strong_indexed.contains(p.1)
        &&& forall|p: (Digest, Digest)| #[trigger]
            self.graph.strong_ancestors.contains(p) ==> self.graph.strong_indexed.contains(p.0)
    }

    /// Leaders are tracked under their rounds.
    pub open spec fn tracked_leaders(self) -> bool {
        &&& self.commits.last_committed != Map::<PublicKey, Round>::empty()
        &&& forall|r: Round| #[trigger]
            self.commits.pending.contains_key(r) ==> self.commits.pending[r].round() == r
                && self.settled(self.commits.pending[r])
        &&& forall|r: Round| #[trigger] self.commits.dirty_leaders.contains(r) ==> r <= LAST_ROUND
        &&& forall|r: Round| #[trigger]
            self.commits.rules.contains_key(r) ==> self.commits.pending.contains_key(r)
                || self.commits.skipped.contains(r) || self.commits.committed.contains(r)
        &&& forall|l: Round| #[trigger]
            self.fallback.anchors.contains_key(l) ==> lane_of(self.fallback.anchors[l]) == l
                && self.fallback.anchors[l] <= LAST_ROUND
        &&& forall|p: (Digest, Round)| #[trigger]
            self.fallback.forced_waiters.contains(p) ==> p.1 <= LAST_ROUND
    }

    /// No block is both in VDag and in the Dag.
    pub open spec fn separate(self) -> bool {
        forall|s: Slot| #[trigger]
            self.graph.vdag.contains_key(s) ==> !self.graph.dag_digests.contains(
                self.graph.vdag[s].digest(),
            )
    }

    /// Every leader before a committed one is committed or skipped.
    pub open spec fn consecutive(self) -> bool {
        in_turn(self.commits.committed, self.commits.skipped)
    }

    /// What every operation relies on and keeps.
    pub open spec fn wf(self) -> bool {
        &&& self.graph.observed.dom().finite()
        &&& self.commits.pending.dom().finite()
        &&& self.commits.ready.finite()
        &&& self.placed()
        &&& self.separate()
        &&& self.closed_paths()
        &&& self.tracked_leaders()
        &&& self.consecutive()
    }

    // ----- The beginning -----

    /// No block at all. The genesis round is committed.
    pub open spec fn blank() -> StateView {
        StateView {
            graph: GraphView {
                dag: Map::empty(),
                dag_by_digest: Map::empty(),
                dag_digests: Set::empty(),
                vdag: Map::empty(),
                grade_two: Set::empty(),
                observed: Map::empty(),
                observed_by_round: Map::empty(),
                strong_indexed: Set::empty(),
                strong_ancestors: Set::empty(),
                strong_children: Set::empty(),
                observed_strong_support: Set::empty(),
                dag_strong_support: Set::empty(),
                observed_direct_support: Set::empty(),
                dag_direct_support: Set::empty(),
                missing_dependencies: Map::empty(),
                dependency_waiters: Set::empty(),
                promotion_queue: Seq::empty(),
                homes: Map::empty(),
            },
            fallback: FallbackView {
                stack: Set::empty(),
                anchors: Map::empty(),
                evidence_version: 0,
                anchor_versions: Map::empty(),
                dirty_anchors: Set::empty(),
                history_cache: Map::empty(),
                decision_cache: Map::empty(),
                vertex_users: Set::empty(),
                evidence_waiters: Set::empty(),
                recovery: Set::empty(),
                missing_requests: Map::empty(),
                forced_waiters: Set::empty(),
            },
            commits: CommitView {
                last_committed_round: 0,
                last_committed: Map::empty(),
                leaders: Map::empty(),
                committed: set![0],
                skipped: Set::empty(),
                pending: Map::empty(),
                ready_at: Map::empty(),
                rules: Map::empty(),
                order: Map::empty(),
                ready: Set::empty(),
                dirty_leaders: Set::empty(),
                highest_advanced_round: 1,
                requests: Seq::empty(),
                outbox: Seq::empty(),
            },
        }
    }

    /// Seats one genesis block, which is in the Dag and committed.
    pub open spec fn seat(self, c: Certificate) -> StateView {
        StateView {
            graph: GraphView {
                dag: self.graph.dag.insert(c.slot(), c),
                dag_by_digest: self.graph.dag_by_digest.insert(c.digest(), c),
                dag_digests: self.graph.dag_digests.insert(c.digest()),
                observed: self.graph.observed.insert(c.digest(), c),
                observed_by_round: self.graph.observed_by_round.insert(c.slot(), c.digest()),
                homes: self.graph.homes.insert(c.digest(), c.slot()),
                ..self.graph
            },
            commits: CommitView {
                last_committed: self.commits.last_committed.insert(c.origin(), c.round()),
                ..self.commits
            },
            ..self
        }
    }

    /// The state in which only the genesis blocks are known.
    pub open spec fn initial(genesis: Seq<Certificate>) -> StateView
        decreases genesis.len(),
    {
        if genesis.len() == 0 {
            Self::blank()
        } else {
            Self::initial(genesis.drop_last()).seat(genesis.last())
        }
    }

    // ----- Leaders -----

    /// A leader round that is neither decided nor waiting to be committed.
    pub open spec fn unresolved(self, round: Round) -> bool {
        &&& !self.commits.committed.contains(round)
        &&& !self.commits.skipped.contains(round)
        &&& !self.commits.rules.contains_key(round)
        &&& !self.commits.pending.contains_key(round)
    }

    /// The leaders of all rounds before are committed or skipped.
    pub open spec fn predecessor_resolved(self, round: Round) -> bool {
        &&& round > 0
        &&& decided_below(self.commits.committed, self.commits.skipped, round)
    }

    /// A pending leader whose predecessors are resolved becomes ready.
    pub open spec fn wake_pending(self, round: Round) -> StateView {
        if self.commits.pending.contains_key(round) && self.predecessor_resolved(round) {
            StateView {
                commits: CommitView { ready: self.commits.ready.insert(round), ..self.commits },
                ..self
            }
        } else {
            self
        }
    }

    /// The lowest pending leader becomes ready if its predecessors are resolved.
    /// No later one can be, as it has the lowest before it.
    pub open spec fn wake_lowest(self) -> StateView {
        if self.commits.pending.dom().len() == 0 {
            self
        } else {
            self.wake_pending(in_order(self.commits.pending.dom())[0])
        }
    }

    /// Skips the leader of `round`.
    pub open spec fn mark_skipped(self, round: Round) -> StateView {
        let skipped = StateView {
            commits: CommitView { skipped: self.commits.skipped.insert(round), ..self.commits },
            ..self
        };
        if self.commits.skipped.contains(round) {
            skipped
        } else {
            skipped.wake_lowest()
        }
    }

    /// Notes when the leader of `round` first satisfies a commit rule.
    pub open spec fn note_ready(self, round: Round, now_ms: u128) -> StateView {
        if self.commits.ready_at.contains_key(round) {
            self
        } else {
            StateView {
                commits: CommitView {
                    ready_at: self.commits.ready_at.insert(round, now_ms),
                    ..self.commits
                },
                ..self
            }
        }
    }

    // ----- Recovery anchors -----

    /// Whether `round` is the active anchor of its lane.
    pub open spec fn is_anchor(self, round: Round) -> bool {
        &&& self.fallback.anchors.contains_key(lane_of(round))
        &&& self.fallback.anchors[lane_of(round)] == round
    }

    /// An active anchor is to be evaluated again at the current evidence.
    pub open spec fn mark_anchor_dirty(self, round: Round) -> StateView {
        if self.is_anchor(round) {
            StateView {
                fallback: FallbackView {
                    anchor_versions: self.fallback.anchor_versions.insert(
                        round,
                        self.fallback.evidence_version,
                    ),
                    dirty_anchors: self.fallback.dirty_anchors.insert(round),
                    ..self.fallback
                },
                ..self
            }
        } else {
            self
        }
    }

    /// All active anchors among `rounds` are to be evaluated again.
    pub open spec fn mark_anchors_dirty(self, rounds: Set<Round>) -> StateView {
        let active = keep_in(rounds, |r: Round| self.is_anchor(r));
        StateView {
            fallback: FallbackView {
                anchor_versions: stamp(
                    self.fallback.anchor_versions,
                    active,
                    self.fallback.evidence_version,
                ),
                dirty_anchors: self.fallback.dirty_anchors.union(active),
                ..self.fallback
            },
            ..self
        }
    }

    /// Anchors are marked one by one.
    pub proof fn lemma_mark_one_more(self, rounds: Set<Round>, round: Round)
        ensures
            self.mark_anchors_dirty(rounds).mark_anchor_dirty(round) == self.mark_anchors_dirty(
                rounds.insert(round),
            ),
            self.mark_anchors_dirty(Set::empty()) == self,
    {
        assert(self.mark_anchors_dirty(rounds).mark_anchor_dirty(round)
            =~= self.mark_anchors_dirty(rounds.insert(round)));
        assert(self.mark_anchors_dirty(Set::empty()) =~= self);
    }

    /// The active anchors whose decisions rest on or wait for one of `digests`.
    pub open spec fn users_of(self, digests: Set<Digest>) -> Set<Round> {
        Set::new(
            |a: Round|
                self.is_anchor(a) && exists|d: Digest| #[trigger]
                    digests.contains(d) && (self.fallback.vertex_users.contains((d, a))
                        || self.fallback.evidence_waiters.contains((d, a))),
        )
    }

    /// What is known of `digests` has changed.
    pub open spec fn wake_users(self, digests: Set<Digest>) -> StateView {
        let users = self.users_of(digests);
        StateView {
            fallback: FallbackView {
                anchor_versions: stamp(
                    self.fallback.anchor_versions,
                    users,
                    self.fallback.evidence_version,
                ),
                dirty_anchors: self.fallback.dirty_anchors.union(users),
                evidence_waiters: keep_in(
                    self.fallback.evidence_waiters,
                    |p: (Digest, Round)| !digests.contains(p.0),
                ),
                ..self.fallback
            },
            ..self
        }
    }

    /// The users of one block are those in its two lists.
    pub proof fn lemma_wake_one(self, digest: Digest, users: Seq<Round>, waiters: Seq<Round>)
        requires
            users.to_set() == image(self.fallback.vertex_users, digest),
            waiters.to_set() == image(self.fallback.evidence_waiters, digest),
        ensures
            (StateView {
                fallback: FallbackView {
                    evidence_waiters: without(self.fallback.evidence_waiters, digest),
                    ..self.fallback
                },
                ..self
            }).mark_anchors_dirty((users + waiters).to_set()) == self.wake_users(set![digest]),
    {
        let all = (users + waiters).to_set();
        let forgotten = StateView {
            fallback: FallbackView {
                evidence_waiters: without(self.fallback.evidence_waiters, digest),
                ..self.fallback
            },
            ..self
        };
        assert forall|a: Round| all.contains(a) == (image(
            self.fallback.vertex_users,
            digest,
        ).contains(a) || image(self.fallback.evidence_waiters, digest).contains(a)) by {
            if (users + waiters).contains(a) {
                let i = choose|i: int|
                    0 <= i < (users + waiters).len() && (users + waiters)[i] == a;
                if i < users.len() {
                    assert(users.to_set().contains(users[i]));
                } else {
                    assert(waiters.to_set().contains(waiters[i - users.len()]));
                }
            }
            if users.to_set().contains(a) {
                let i = choose|i: int| 0 <= i < users.len() && users[i] == a;
                assert((users + waiters)[i] == a);
            }
            if waiters.to_set().contains(a) {
                let i = choose|i: int| 0 <= i < waiters.len() && waiters[i] == a;
                assert((users + waiters)[users.len() + i] == a);
            }
        }
        assert(set![digest].contains(digest));
        assert(keep_in(all, |r: Round| forgotten.is_anchor(r)) =~= self.users_of(set![digest]));
        assert(forgotten.mark_anchors_dirty(all) =~= self.wake_users(set![digest]));
    }

    /// Waking users reads and changes the fallback state alone.
    pub proof fn lemma_wake_local(self, other: StateView, digests: Set<Digest>)
        requires
            self.fallback == other.fallback,
        ensures
            self.users_of(digests) == other.users_of(digests),
            self.wake_users(digests).fallback == other.wake_users(digests).fallback,
    {
        assert(self.users_of(digests) =~= other.users_of(digests));
        assert(self.wake_users(digests).fallback =~= other.wake_users(digests).fallback);
    }

    /// Waking the users of two sets of blocks in turn wakes those of both.
    pub proof fn lemma_wake_twice(self, a: Set<Digest>, b: Set<Digest>)
        ensures
            self.wake_users(a).wake_users(b) == self.wake_users(a.union(b)),
    {
        let once = self.wake_users(a);
        let both = self.users_of(a).union(once.users_of(b));
        assert forall|r: Round| both.contains(r) == self.users_of(a.union(b)).contains(r) by {
            if self.users_of(a).contains(r) {
                let d = choose|d: Digest| #[trigger]
                    a.contains(d) && (self.fallback.vertex_users.contains((d, r))
                        || self.fallback.evidence_waiters.contains((d, r)));
                assert(a.union(b).contains(d));
            }
            if once.users_of(b).contains(r) {
                let d = choose|d: Digest| #[trigger]
                    b.contains(d) && (once.fallback.vertex_users.contains((d, r))
                        || once.fallback.evidence_waiters.contains((d, r)));
                assert(a.union(b).contains(d));
            }
            if self.users_of(a.union(b)).contains(r) {
                let d = choose|d: Digest| #[trigger]
                    a.union(b).contains(d) && (self.fallback.vertex_users.contains((d, r))
                        || self.fallback.evidence_waiters.contains((d, r)));
                if a.contains(d) {
                } else {
                    assert(b.contains(d));
                }
            }
        }
        assert(both =~= self.users_of(a.union(b)));
        assert(once.wake_users(b) =~= self.wake_users(a.union(b)));
    }

    // ----- Strong paths -----

    /// The strong ancestors that a block gains from its parents.
    pub open spec fn inherited(self, header: Header) -> Set<Digest> {
        Set::new(
            |a: Digest|
                header.parents@.contains(a) || exists|p: Digest| #[trigger]
                    header.parents@.contains(p) && self.graph.strong_ancestors.contains((p, a)),
        )
    }

    /// The ancestor pairs that appear when `source` gains `additions`: all
    /// descendants of `source` gain them too.
    pub open spec fn fresh_pairs(self, source: Digest, additions: Set<Digest>) -> Set<
        (Digest, Digest),
    > {
        Set::new(
            |p: (Digest, Digest)|
                leads_to(self.graph.strong_children, source, p.0) && additions.contains(p.1)
                    && !self.graph.strong_ancestors.contains(p),
        )
    }

    /// The support that the observed blocks among the first components of
    /// `pairs` give to the second components. With `in_dag`, only blocks of
    /// the Dag count.
    pub open spec fn path_support(self, pairs: Set<(Digest, Digest)>, in_dag: bool) -> Set<
        (Support, PublicKey),
    > {
        Set::new(
            |x: (Support, PublicKey)|
                exists|d: Digest|
                    #![trigger self.graph.observed.contains_key(d)]
                    self.graph.observed.contains_key(d) && pairs.contains((d, x.0.1))
                        && self.graph.observed[d].round() == x.0.0
                        && self.graph.observed[d].origin() == x.1 && (in_dag ==> self.graph.dag_digests.contains(d)),
        )
    }

    /// Enters `pairs` as strong ancestors.
    pub open spec fn grow(self, pairs: Set<(Digest, Digest)>) -> StateView {
        let indexed = StateView {
            graph: GraphView {
                strong_ancestors: self.graph.strong_ancestors.union(pairs),
                observed_strong_support: self.graph.observed_strong_support.union(
                    self.path_support(pairs, false),
                ),
                dag_strong_support: self.graph.dag_strong_support.union(
                    self.path_support(pairs, true),
                ),
                ..self.graph
            },
            ..self
        };
        indexed.wake_users(first_of(pairs))
    }

    /// The rounds of the observed blocks that observed blocks support by `pairs`.
    pub open spec fn supported(self, pairs: Set<(Digest, Digest)>) -> Set<Round> {
        Set::new(
            |r: Round|
                exists|p: (Digest, Digest)| #[trigger]
                    pairs.contains(p) && self.graph.observed.contains_key(p.0)
                        && self.graph.observed.contains_key(p.1) && self.graph.observed[p.1].round()
                        == r,
        )
    }

    /// Begins the index of a block.
    pub open spec fn index_block(self, digest: Digest) -> StateView {
        StateView {
            graph: GraphView {
                strong_indexed: self.graph.strong_indexed.insert(digest),
                ..self.graph
            },
            ..self
        }
    }

    /// Gives `additions` as strong ancestors to `source` and its descendants.
    pub open spec fn propagate(self, source: Digest, additions: Set<Digest>) -> StateView {
        self.index_block(source).grow(self.fresh_pairs(source, additions))
    }

    /// The rounds of the observed blocks that gain support by `propagate`.
    pub open spec fn newly_supported(self, source: Digest, additions: Set<Digest>) -> Set<Round> {
        self.supported(self.fresh_pairs(source, additions))
    }

    /// Enters the strong edges of a block.
    pub open spec fn add_edges(self, header: Header) -> StateView {
        StateView {
            graph: GraphView {
                observed_direct_support: self.graph.observed_direct_support.union(
                    direct_support(header),
                ),
                strong_children: self.graph.strong_children.union(strong_edges(header)),
                ..self.graph
            },
            ..self
        }
    }

    /// Indexes the strong paths through a block.
    pub open spec fn index_strong_paths(self, header: Header) -> StateView {
        self.add_edges(header).propagate(header.block, self.inherited(header))
    }

    // ----- Promotion into the Dag -----

    /// The waiters on `digest` that miss nothing else and have grade 2.
    pub open spec fn woken(self, digest: Digest) -> Seq<Digest> {
        in_order(image(self.graph.dependency_waiters, digest)).filter(
            |w: Digest|
                self.graph.missing_dependencies.contains_key(w)
                    && self.graph.missing_dependencies[w] <= 1 && self.graph.grade_two.contains(w),
        )
    }

    /// The missing dependencies once the waiters on `digest` have it.
    pub open spec fn fewer_missing(self, digest: Digest) -> Map<Digest, usize> {
        Map::new(
            |w: Digest| self.graph.missing_dependencies.contains_key(w),
            |w: Digest|
                if self.graph.dependency_waiters.contains((digest, w))
                    && self.graph.missing_dependencies[w] > 0 {
                    (self.graph.missing_dependencies[w] - 1) as usize
                } else {
                    self.graph.missing_dependencies[w]
                },
        )
    }

    /// The rounds whose leaders a new Dag block of `round` may decide.
    pub open spec fn judged_by(round: Round) -> Set<Round> {
        Set::new(|r: Round| 1 <= r && (r + 1 == round || r + 2 == round))
    }

    /// Records that a block has been seen, keeping an earlier copy of it.
    pub open spec fn acquaint(self, c: Certificate) -> StateView {
        StateView {
            graph: GraphView {
                observed_by_round: self.graph.observed_by_round.insert(c.slot(), c.digest()),
                observed: if self.graph.observed.contains_key(c.digest()) {
                    self.graph.observed
                } else {
                    self.graph.observed.insert(c.digest(), c)
                },
                homes: self.graph.homes.insert(c.digest(), c.slot()),
                ..self.graph
            },
            ..self
        }
    }

    /// Moves a block into the slot of the Dag, out of VDag.
    pub open spec fn enter_slot(self, c: Certificate) -> StateView {
        StateView {
            graph: GraphView {
                vdag: if self.graph.vdag.contains_key(c.slot())
                    && self.graph.vdag[c.slot()].digest() == c.digest() {
                    self.graph.vdag.remove(c.slot())
                } else {
                    self.graph.vdag
                },
                dag: self.graph.dag.insert(c.slot(), c),
                dag_by_digest: self.graph.dag_by_digest.insert(c.digest(), c),
                dag_digests: self.graph.dag_digests.insert(c.digest()),
                ..self.graph
            },
            ..self
        }
    }

    /// What a block that is new to the Dag changes: the support it gives, the
    /// leaders it may decide and the blocks that waited for it.
    pub open spec fn settle(self, c: Certificate) -> StateView {
        let d = c.digest();
        StateView {
            graph: GraphView {
                dag_strong_support: self.graph.dag_strong_support.union(
                    Set::new(
                        |x: (Support, PublicKey)|
                            x.0.0 == c.round() && x.1 == c.origin()
                                && self.graph.strong_ancestors.contains((d, x.0.1)),
                    ),
                ),
                dag_direct_support: self.graph.dag_direct_support.union(direct_support(*c.header)),
                missing_dependencies: self.fewer_missing(d),
                dependency_waiters: without(self.graph.dependency_waiters, d),
                promotion_queue: self.graph.promotion_queue + self.woken(d),
                ..self.graph
            },
            commits: CommitView {
                dirty_leaders: self.commits.dirty_leaders.union(Self::judged_by(c.round())),
                ..self.commits
            },
            ..self
        }
    }

    /// Promotes a block into the Dag.
    pub open spec fn promote(self, c: Certificate) -> StateView {
        let entered = self.acquaint(c).enter_slot(c);
        if self.graph.dag_digests.contains(c.digest()) {
            entered
        } else {
            entered.settle(c).wake_pending(c.round())
        }
    }

    // ----- Causal history into the Dag -----

    /// The observed dependencies of `c` that are not in the Dag yet.
    pub open spec fn loose_ancestors(self, c: Certificate) -> Seq<Certificate> {
        c.header.dependencies().filter(
            |d: Digest|
                !self.graph.dag_digests.contains(d) && self.graph.observed.contains_key(d),
        ).map_values(|d: Digest| self.graph.observed[d])
    }

    /// The dependencies of `c` that nobody has seen yet.
    pub open spec fn unseen(self, c: Certificate) -> Set<Digest> {
        Set::new(
            |d: Digest|
                c.header.depends_on(d) && !self.graph.dag_digests.contains(d)
                    && !self.graph.observed.contains_key(d),
        )
    }

    /// The leader of `owner` waits for the dependencies of `c` that nobody has
    /// seen.
    pub open spec fn await_unseen(self, c: Certificate, owner: Round) -> StateView {
        StateView {
            fallback: FallbackView {
                forced_waiters: self.fallback.forced_waiters.union(
                    Set::new(|p: (Digest, Round)| self.unseen(c).contains(p.0) && p.1 == owner),
                ),
                ..self.fallback
            },
            ..self
        }
    }

    /// Admits one block for the leader of `owner`.
    pub open spec fn admit_one(self, c: Certificate, owner: Round) -> StateView {
        let waiting = self.await_unseen(c, owner);
        if self.graph.dag_digests.contains(c.digest()) {
            waiting
        } else {
            waiting.promote(c)
        }
    }

    /// The digests that an admission may still have to visit.
    pub open spec fn to_visit(self, pending: Seq<Certificate>, visited: Set<Digest>) -> Set<Digest> {
        self.graph.observed.dom().union(
            pending.map_values(|c: Certificate| c.digest()).to_set(),
        ).difference(visited)
    }

    /// The observed blocks stand under their digests.
    pub open spec fn keyed(self) -> bool {
        &&& self.graph.observed.dom().finite()
        &&& forall|d: Digest| #[trigger]
            self.graph.observed.contains_key(d) ==> self.graph.observed[d].digest() == d
    }

    /// Admits the blocks on the stack `pending` and their ancestors, depth
    /// first and each once.
    pub open spec fn admit_all(
        self,
        pending: Seq<Certificate>,
        visited: Set<Digest>,
        owner: Round,
    ) -> StateView
        decreases self.to_visit(pending, visited).len(), pending.len(),
        when self.keyed() via Self::admit_all_decreases
    {
        if pending.len() == 0 {
            self
        } else {
            let c = pending.last();
            if visited.contains(c.digest()) {
                self.admit_all(pending.drop_last(), visited, owner)
            } else {
                self.admit_one(c, owner).admit_all(
                    pending.drop_last() + self.loose_ancestors(c),
                    visited.insert(c.digest()),
                    owner,
                )
            }
        }
    }

    #[via_fn]
    proof fn admit_all_decreases(
        self,
        pending: Seq<Certificate>,
        visited: Set<Digest>,
        owner: Round,
    ) {
        if pending.len() > 0 {
            self.lemma_admit_step(pending, visited, owner);
        }
    }

    /// Every step of an admission leaves less to visit.
    pub proof fn lemma_admit_step(
        self,
        pending: Seq<Certificate>,
        visited: Set<Digest>,
        owner: Round,
    )
        requires
            self.keyed(),
            pending.len() > 0,
        ensures
            self.admit_one(pending.last(), owner).keyed(),
            visited.contains(pending.last().digest()) ==> self.to_visit(
                pending.drop_last(),
                visited,
            ).len() <= self.to_visit(pending, visited).len(),
            !visited.contains(pending.last().digest()) ==> self.admit_one(
                pending.last(),
                owner,
            ).to_visit(
                pending.drop_last() + self.loose_ancestors(pending.last()),
                visited.insert(pending.last().digest()),
            ).len() < self.to_visit(pending, visited).len(),
    {
        let c = pending.last();
        let digests = pending.map_values(|c: Certificate| c.digest());
        let rest = pending.drop_last();
        let rest_digests = rest.map_values(|c: Certificate| c.digest());
        vstd::seq_lib::seq_to_set_is_finite(digests);
        assert(digests[digests.len() - 1] == c.digest());
        assert(digests.contains(c.digest()));
        assert forall|d: Digest| rest_digests.contains(d) implies digests.contains(d) by {
            let i = choose|i: int| 0 <= i < rest_digests.len() && rest_digests[i] == d;
            assert(digests[i] == d);
        }
        if visited.contains(c.digest()) {
            assert(self.to_visit(rest, visited).subset_of(self.to_visit(pending, visited)));
            vstd::set_lib::lemma_len_subset(
                self.to_visit(rest, visited),
                self.to_visit(pending, visited),
            );
        } else {
            let next = self.admit_one(c, owner);
            let loose = self.loose_ancestors(c);
            let stack = rest + loose;
            let stack_digests = stack.map_values(|c: Certificate| c.digest());
            let after = next.to_visit(stack, visited.insert(c.digest()));
            let before = self.to_visit(pending, visited);
            assert forall|d: Digest| after.contains(d) implies before.contains(d) by {
                if stack_digests.contains(d) {
                    let i = choose|i: int| 0 <= i < stack_digests.len() && stack_digests[i] == d;
                    if i < rest.len() {
                        assert(rest_digests[i] == d);
                        assert(rest_digests.contains(d));
                    } else {
                        assert(stack[i] == loose[i - rest.len()]);
                        self.lemma_loose_ancestors(c, i - rest.len());
                    }
                }
            }
            assert(!after.contains(c.digest()));
            assert(before.contains(c.digest()));
            assert(after.subset_of(before.remove(c.digest())));
            vstd::set_lib::lemma_len_subset(after, before.remove(c.digest()));
        }
    }

    /// A loose ancestor is an observed dependency outside the Dag.
    pub proof fn lemma_loose_ancestors(self, c: Certificate, i: int)
        requires
            self.keyed(),
            0 <= i < self.loose_ancestors(c).len(),
        ensures
            self.graph.observed.contains_key(self.loose_ancestors(c)[i].digest()),
            self.loose_ancestors(c)[i] == self.graph.observed[self.loose_ancestors(c)[i].digest()],
            c.header.depends_on(self.loose_ancestors(c)[i].digest()),
            !self.graph.dag_digests.contains(self.loose_ancestors(c)[i].digest()),
    {
        let keep = |d: Digest|
            !self.graph.dag_digests.contains(d) && self.graph.observed.contains_key(d);
        let kept = c.header.dependencies().filter(keep);
        c.header.dependencies().lemma_filter_pred(keep, i);
        assert(kept.contains(kept[i]));
        c.header.dependencies().lemma_filter_contains_rev(keep, kept[i]);
        c.header.lemma_dependencies();
    }

    /// Admits `root` and every ancestor that has been observed.
    pub open spec fn force(self, root: Certificate, owner: Round) -> StateView {
        self.admit_all(seq![root], Set::empty(), owner)
    }

    /// Admits `root` for each of `owners` in turn.
    pub open spec fn force_for(self, root: Certificate, owners: Seq<Round>) -> StateView
        decreases owners.len(),
    {
        if owners.len() == 0 {
            self
        } else {
            self.force_for(root, owners.drop_last()).force(root, owners.last())
        }
    }
}

impl StateView {
    // ----- Deliveries -----

    /// Records the newest copy of a block.
    pub open spec fn record(self, c: Certificate) -> StateView {
        StateView {
            graph: GraphView {
                observed_by_round: self.graph.observed_by_round.insert(c.slot(), c.digest()),
                observed: self.graph.observed.insert(c.digest(), c),
                homes: self.graph.homes.insert(c.digest(), c.slot()),
                ..self.graph
            },
            ..self
        }
    }

    /// The next revision of the evidence.
    pub open spec fn revise(self) -> StateView {
        StateView {
            fallback: FallbackView {
                evidence_version: if self.fallback.evidence_version == u64::MAX {
                    0
                } else {
                    (self.fallback.evidence_version + 1) as u64
                },
                ..self.fallback
            },
            ..self
        }
    }

    /// A first observation, up to the leaders that waited for the block.
    pub open spec fn learn(self, c: Certificate) -> StateView {
        self.record(c).revise().wake_users(set![c.digest()]).index_strong_paths(*c.header)
    }

    /// The leaders that wait for a block in their causal history.
    pub open spec fn owners_of(self, digest: Digest) -> Set<Round> {
        image(self.fallback.forced_waiters, digest)
    }

    /// Nobody waits for `digest` any more.
    pub open spec fn release(self, digest: Digest) -> StateView {
        StateView {
            fallback: FallbackView {
                forced_waiters: without(self.fallback.forced_waiters, digest),
                ..self.fallback
            },
            ..self
        }
    }

    /// Observes a block at any stage of its broadcast. A repeated observation
    /// only replaces the copy of the block. A first one is indexed, and is
    /// admitted for the leaders that waited for it.
    pub open spec fn observe(self, c: Certificate) -> StateView {
        if self.graph.observed.contains_key(c.digest()) {
            self.record(c)
        } else {
            let learned = self.learn(c);
            learned.release(c.digest()).force_for(c, in_order(learned.owners_of(c.digest())))
        }
    }

    /// The rounds of the observed blocks that `header` references virtually.
    pub open spec fn virtual_targets(self, header: Header) -> Set<Round> {
        Set::new(
            |r: Round|
                exists|t: Digest| #[trigger]
                    header.virtual_edges@.contains(t) && self.graph.observed.contains_key(t)
                        && self.graph.observed[t].round() == r,
        )
    }

    /// The rounds of the leaders that an observation may decide.
    pub open spec fn observe_dirties(self, c: Certificate) -> Set<Round> {
        if self.graph.observed.contains_key(c.digest()) {
            Set::empty()
        } else {
            let indexed = self.record(c).revise().wake_users(set![c.digest()]);
            indexed.add_edges(*c.header).newly_supported(
                c.digest(),
                indexed.inherited(*c.header),
            ).insert(c.round()).union(self.record(c).virtual_targets(*c.header)).union(
                self.owners_of(c.digest()),
            )
        }
    }

    /// The dependencies of `header` that are not in the Dag.
    pub open spec fn missing(self, header: Header) -> Set<Digest> {
        Set::new(|d: Digest| header.depends_on(d) && !self.graph.dag_digests.contains(d))
    }

    /// Whether VDag holds exactly this block in its slot.
    pub open spec fn in_vdag(self, c: Certificate) -> bool {
        &&& self.graph.vdag.contains_key(c.slot())
        &&& self.graph.vdag[c.slot()].digest() == c.digest()
    }

    /// A new VDag block waits for its missing dependencies.
    pub open spec fn await_dependencies(self, c: Certificate) -> StateView {
        let d = c.digest();
        let missing = self.missing(*c.header);
        StateView {
            graph: GraphView {
                dependency_waiters: self.graph.dependency_waiters.union(
                    Set::new(|p: (Digest, Digest)| missing.contains(p.0) && p.1 == d),
                ),
                missing_dependencies: self.graph.missing_dependencies.insert(
                    d,
                    missing.len() as usize,
                ),
                promotion_queue: if missing.len() == 0 && self.graph.grade_two.contains(d) {
                    self.graph.promotion_queue.push(d)
                } else {
                    self.graph.promotion_queue
                },
                ..self.graph
            },
            ..self
        }
    }

    /// Puts a block into VDag.
    pub open spec fn enter_vdag(self, c: Certificate) -> StateView {
        let waiting = if self.in_vdag(c) {
            self
        } else {
            self.await_dependencies(c)
        };
        StateView {
            graph: GraphView {
                vdag: waiting.graph.vdag.insert(c.slot(), c),
                homes: waiting.graph.homes.insert(c.digest(), c.slot()),
                ..waiting.graph
            },
            ..waiting
        }
    }

    /// Delivers a block at grade 1. A block that is in the Dag stays there.
    pub open spec fn insert_grade_one(self, c: Certificate) -> StateView {
        if self.graph.dag_digests.contains(c.digest()) {
            self
        } else {
            self.enter_vdag(c).observe(c)
        }
    }

    /// The rounds of the leaders that a grade-1 delivery may decide.
    pub open spec fn grade_one_dirties(self, c: Certificate) -> Set<Round> {
        if self.graph.dag_digests.contains(c.digest()) {
            Set::empty()
        } else {
            self.enter_vdag(c).observe_dirties(c)
        }
    }

    /// Whether nothing that a block depends on is missing.
    pub open spec fn misses_nothing(self, digest: Digest) -> bool {
        &&& self.graph.missing_dependencies.contains_key(digest)
        &&& self.graph.missing_dependencies[digest] == 0
    }

    /// Delivers grade 2 for a digest.
    pub open spec fn mark_grade_two(self, digest: Digest) -> StateView {
        StateView {
            graph: GraphView {
                grade_two: self.graph.grade_two.insert(digest),
                promotion_queue: if !self.graph.grade_two.contains(digest) && self.misses_nothing(
                    digest,
                ) && self.graph.observed.contains_key(digest) {
                    self.graph.promotion_queue.push(digest)
                } else {
                    self.graph.promotion_queue
                },
                ..self.graph
            },
            ..self
        }
    }

    /// Whether a queued block enters the Dag: it has grade 2, misses nothing
    /// and is not there yet.
    pub open spec fn promotable(self, digest: Digest) -> bool {
        &&& !self.graph.dag_digests.contains(digest)
        &&& self.graph.grade_two.contains(digest)
        &&& self.misses_nothing(digest)
        &&& self.graph.observed.contains_key(digest)
    }

    /// Takes the first block off the promotion queue.
    pub open spec fn dequeue(self) -> StateView {
        StateView {
            graph: GraphView {
                promotion_queue: self.graph.promotion_queue.skip(1),
                ..self.graph
            },
            ..self
        }
    }

    /// Promotes a block off the queue.
    pub open spec fn promote_queued(self, digest: Digest) -> StateView {
        let promoted = self.promote(self.graph.observed[digest]);
        StateView {
            graph: GraphView {
                missing_dependencies: promoted.graph.missing_dependencies.remove(digest),
                ..promoted.graph
            },
            ..promoted
        }
    }

    /// The observed blocks outside the Dag.
    pub open spec fn outside(self) -> Set<Digest> {
        self.graph.observed.dom().difference(self.graph.dag_digests)
    }

    /// Works off the promotion queue: the state and the promoted blocks.
    pub open spec fn promote_ready(self) -> (StateView, Seq<Certificate>)
        decreases self.outside().len(), self.graph.promotion_queue.len(),
        when self.keyed() via Self::promote_ready_decreases
    {
        if self.graph.promotion_queue.len() == 0 {
            (self, Seq::empty())
        } else {
            let d = self.graph.promotion_queue[0];
            if self.promotable(d) {
                let (after, others) = self.dequeue().promote_queued(d).promote_ready();
                (after, seq![self.graph.observed[d]] + others)
            } else {
                self.dequeue().promote_ready()
            }
        }
    }

    #[via_fn]
    proof fn promote_ready_decreases(self) {
        if self.graph.promotion_queue.len() > 0 {
            self.lemma_promote_step();
        }
    }

    /// Every promotion leaves fewer blocks outside the Dag.
    pub proof fn lemma_promote_step(self)
        requires
            self.keyed(),
            self.graph.promotion_queue.len() > 0,
        ensures
            self.dequeue().keyed(),
            self.dequeue().outside() == self.outside(),
            self.promotable(self.graph.promotion_queue[0]) ==> self.dequeue().promote_queued(
                self.graph.promotion_queue[0],
            ).keyed() && self.dequeue().promote_queued(self.graph.promotion_queue[0]).outside().len()
                < self.outside().len(),
    {
        let d = self.graph.promotion_queue[0];
        assert(self.dequeue().outside() == self.outside());
        if self.promotable(d) {
            let next = self.dequeue().promote_queued(d);
            assert(self.outside().contains(d));
            assert(next.outside().subset_of(self.outside().remove(d)));
            vstd::set_lib::lemma_len_subset(next.outside(), self.outside().remove(d));
        }
    }

    // ----- Garbage collection -----

    /// Whether a round is recent enough to be kept.
    pub open spec fn recent(round: Round, gc_depth: Round, latest: Round) -> bool {
        round + gc_depth >= latest
    }

    /// Moves the watermarks over a committed sequence and forgets what lies
    /// `gc_depth` rounds below the highest of them.
    pub open spec fn update(self, sequence: Seq<Certificate>, gc_depth: Round) -> StateView {
        let marks = raise(self.commits.last_committed, sequence);
        let latest = highest_mark(marks);
        let recent = |r: Round| Self::recent(r, gc_depth, latest);
        let live_slot = |s: Slot, c: Certificate|
            (marks.contains_key(s.1) ==> s.0 >= marks[s.1]) && recent(s.0);
        let anchored = |r: Round| self.is_anchor(r) || recent(r);
        let dag = keep_where(self.graph.dag, live_slot);
        let live = Set::new(
            |d: Digest| exists|s: Slot| #[trigger] dag.contains_key(s) && dag[s].digest() == d,
        );
        let observed = keep_where(
            self.graph.observed,
            |d: Digest, c: Certificate| recent(c.round()),
        );
        let seen = |d: Digest| observed.contains_key(d);
        let fresh_support = |x: (Support, PublicKey)| recent(x.0.0);
        StateView {
            graph: GraphView {
                dag,
                vdag: keep_where(self.graph.vdag, live_slot),
                observed,
                strong_indexed: keep_in(self.graph.strong_indexed, seen),
                strong_ancestors: keep_in(
                    self.graph.strong_ancestors,
                    |p: (Digest, Digest)| seen(p.0),
                ),
                strong_children: keep_in(
                    self.graph.strong_children,
                    |p: (Digest, Digest)| seen(p.1),
                ),
                observed_strong_support: keep_in(self.graph.observed_strong_support, fresh_support),
                dag_strong_support: keep_in(self.graph.dag_strong_support, fresh_support),
                observed_direct_support: keep_in(self.graph.observed_direct_support, fresh_support),
                dag_direct_support: keep_in(self.graph.dag_direct_support, fresh_support),
                dag_by_digest: keep_where(
                    self.graph.dag_by_digest,
                    |d: Digest, c: Certificate| live.contains(d),
                ),
                dag_digests: live,
                missing_dependencies: keep_where(
                    self.graph.missing_dependencies,
                    |d: Digest, n: usize| seen(d),
                ),
                dependency_waiters: keep_in(
                    self.graph.dependency_waiters,
                    |p: (Digest, Digest)| seen(p.1),
                ),
                promotion_queue: self.graph.promotion_queue.filter(seen),
                ..self.graph
            },
            fallback: FallbackView {
                forced_waiters: keep_in(
                    self.fallback.forced_waiters,
                    |p: (Digest, Round)| !live.contains(p.0),
                ),
                anchor_versions: keep_where(
                    self.fallback.anchor_versions,
                    |r: Round, v: u64| anchored(r),
                ),
                dirty_anchors: keep_in(self.fallback.dirty_anchors, anchored),
                history_cache: keep_where(
                    self.fallback.history_cache,
                    |r: Round, h: HistoryView| anchored(r),
                ),
                decision_cache: keep_where(
                    self.fallback.decision_cache,
                    |k: (Round, Round), v: FallbackDecision| anchored(k.0) && recent(k.1),
                ),
                vertex_users: keep_in(
                    self.fallback.vertex_users,
                    |p: (Digest, Round)| anchored(p.1) && seen(p.0),
                ),
                evidence_waiters: keep_in(
                    self.fallback.evidence_waiters,
                    |p: (Digest, Round)| anchored(p.1),
                ),
                ..self.fallback
            },
            commits: CommitView {
                last_committed: marks,
                last_committed_round: latest,
                rules: keep_where(self.commits.rules, |r: Round, n: u8| recent(r)),
                ..self.commits
            },
        }
    }

    // ----- Causal history of an anchor -----

    /// The strong and weak edges of an observed block.
    pub open spec fn causal_edges(self) -> spec_fn(Digest) -> Set<Digest> {
        |d: Digest|
            if self.graph.observed.contains_key(d) {
                self.graph.observed[d].header.dependency_set()
            } else {
                Set::empty()
            }
    }

    /// Whether the causal history of `header` refers to `digest`.
    pub open spec fn in_history(self, header: Header, digest: Digest) -> bool {
        reaches(header.dependency_set(), self.causal_edges(), digest)
    }

    /// The digests that the virtual edges of `header` and of its observed
    /// history refer to.
    pub open spec fn virtual_evidence(self, header: Header) -> Set<Digest> {
        Set::new(
            |t: Digest|
                header.virtual_edges@.contains(t) || exists|d: Digest| #[trigger]
                    self.graph.observed.contains_key(d) && self.in_history(header, d)
                        && self.graph.observed[d].header.virtual_edges@.contains(t),
        )
    }

    /// What the evidence on `header` lacks.
    pub open spec fn lacking(self, header: Header) -> Set<Digest> {
        Set::new(
            |d: Digest|
                !self.graph.observed.contains_key(d) && (self.in_history(header, d)
                    || self.virtual_evidence(header).contains(d)),
        )
    }

    /// The observed causal history of `header`.
    pub open spec fn known_history(self, header: Header) -> Set<Digest> {
        Set::new(|d: Digest| self.graph.observed.contains_key(d) && self.in_history(header, d))
    }

    /// The evidence revision that decisions of an anchor are made at.
    pub open spec fn version_of(self, anchor: Round) -> u64 {
        if self.fallback.anchor_versions.contains_key(anchor) {
            self.fallback.anchor_versions[anchor]
        } else {
            self.fallback.evidence_version
        }
    }

    /// Whether the cached history of an anchor is current.
    pub open spec fn history_cached(self, anchor: Round) -> bool {
        &&& self.fallback.history_cache.contains_key(anchor)
        &&& self.fallback.history_cache[anchor].version == self.version_of(anchor)
    }

    /// The history of an anchor, found anew.
    pub open spec fn traversed(self, anchor: Certificate) -> HistoryView {
        HistoryView {
            version: self.version_of(anchor.round()),
            complete: self.lacking(*anchor.header) == Set::<Digest>::empty(),
            by_round: Set::new(
                |x: (Round, Digest)|
                    self.known_history(*anchor.header).contains(x.1)
                        && self.graph.observed[x.1].round() == x.0,
            ),
        }
    }

    /// The history that decisions of an anchor are made on.
    pub open spec fn history_of(self, anchor: Certificate) -> HistoryView {
        if self.history_cached(anchor.round()) {
            self.fallback.history_cache[anchor.round()]
        } else {
            self.traversed(anchor)
        }
    }

    /// Looks the history of an anchor up. A traversal is cached, and the anchor
    /// is woken by every block that it met or missed.
    pub open spec fn snapshot(self, anchor: Certificate) -> StateView {
        let round = anchor.round();
        if self.history_cached(round) {
            self
        } else {
            StateView {
                fallback: FallbackView {
                    evidence_waiters: self.fallback.evidence_waiters.union(
                        Set::new(
                            |p: (Digest, Round)|
                                self.lacking(*anchor.header).contains(p.0) && p.1 == round,
                        ),
                    ),
                    vertex_users: self.fallback.vertex_users.union(
                        Set::new(
                            |p: (Digest, Round)|
                                self.known_history(*anchor.header).contains(p.0) && p.1 == round,
                        ),
                    ),
                    history_cache: self.fallback.history_cache.insert(
                        round,
                        self.traversed(anchor),
                    ),
                    ..self.fallback
                },
                ..self
            }
        }
    }

    /// The cached decision of an anchor on a leader, if it was made at the
    /// evidence revision `version`.
    pub open spec fn cached_decision(self, anchor: Round, target: Round, version: u64) -> Option<
        bool,
    > {
        let key = (anchor, target);
        if self.fallback.decision_cache.contains_key(key)
            && self.fallback.decision_cache[key].version == version {
            Some(self.fallback.decision_cache[key].commit)
        } else {
            None
        }
    }
}

/// The first components of a relation.
pub open spec fn first_of(pairs: Set<(Digest, Digest)>) -> Set<Digest> {
    Set::new(|d: Digest| exists|a: Digest| pairs.contains((d, a)))
}

} // verus!
