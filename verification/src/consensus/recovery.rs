//! Leaders whose block is missing.
use crate::consensus::commit::Time;
use crate::consensus::model::{CommitView, FallbackView, StateView};
use crate::consensus::rules::Consensus;
use crate::consensus::state::State;
use crate::ordered::{group_ordered, in_order, lemma_filter_take, lemma_take_contains, OrdSet};
use crate::types::{Certificate, PublicKey, Round};
use vstd::prelude::*;

verus! {

/// How long to wait before asking again for a missing leader, in milliseconds.
pub const LEADER_RETRY_DELAY: u64 = 300;

/// Whether a retry can be dated from `now`.
pub open spec fn datable(now: Time) -> bool {
    now.mono_ms <= u64::MAX - LEADER_RETRY_DELAY
}

impl StateView {
    /// The block of the leader of `round` is not sought any more.
    pub open spec fn abandon(self, round: Round) -> StateView {
        StateView {
            fallback: FallbackView {
                recovery: self.fallback.recovery.remove(round),
                missing_requests: self.fallback.missing_requests.remove(round),
                ..self.fallback
            },
            ..self
        }
    }

    /// Asks for the block of the leader of `round`, and again after a while.
    pub open spec fn ask(self, round: Round, leader: PublicKey, now: Time) -> StateView {
        StateView {
            fallback: FallbackView {
                missing_requests: self.fallback.missing_requests.insert(
                    round,
                    (now.mono_ms + LEADER_RETRY_DELAY) as u64,
                ),
                ..self.fallback
            },
            commits: CommitView {
                requests: self.commits.requests.push((round, leader)),
                ..self.commits
            },
            ..self
        }
    }

    /// The block of the leader of `round` is being recovered.
    pub open spec fn recover(self, round: Round) -> StateView {
        StateView {
            fallback: FallbackView {
                recovery: self.fallback.recovery.insert(round),
                ..self.fallback
            },
            ..self
        }
    }
}

/// Why a pending leader is not committed yet.
#[derive(Clone, Copy, Debug, PartialEq, Eq)]
pub struct Blocker {
    /// The round of the pending leader.
    pub round: Round,
    /// Whether the leaders of all rounds before are committed or skipped.
    pub predecessor_ready: bool,
    /// Whether the block of the leader is in the Dag.
    pub in_dag: bool,
}

impl Consensus {
    /// Asks for the block of the leader of `round` if it is missing and nobody
    /// has asked.
    pub open spec fn request(&self, s: StateView, round: Round, now: Time) -> StateView {
        if s.commits.skipped.contains(round) || self.sighted(s, round) is Some {
            s.abandon(round)
        } else if s.fallback.recovery.contains(round) {
            s
        } else {
            s.recover(round).ask(round, self.lead(round), now)
        }
    }

    /// Asking for a block keeps the state well-formed and advances it.
    pub proof fn lemma_request(&self, s: StateView, round: Round, now: Time)
        requires
            s.wf(),
        ensures
            self.request(s, round, now).wf(),
            s.advances(self.request(s, round, now)),
            s.calm(self.request(s, round, now)),
            s.keeps(self.request(s, round, now)),
    {
        s.lemma_same_graph(self.request(s, round, now));
    }

    /// Queues a request for the block of the leader of `round`.
    fn send_leader_request(&self, round: Round, now: Time, state: &mut State)
        requires
            self.wf(),
            datable(now),
        ensures
            final(state)@ == old(state)@.ask(round, self.lead(round), now),
    {
        let authority = self.ordering_leader_authority(round);
        state.commits.requests.push((round, authority));
        state.fallback.missing_requests.insert(round, now.mono_ms + LEADER_RETRY_DELAY);
    }

    /// Asks for the block of the leader of `round` if it is missing and nobody
    /// has asked.
    pub fn request_missing_leader(&self, round: Round, now: Time, state: &mut State)
        requires
            self.wf(),
            old(state)@.wf(),
            datable(now),
        ensures
            final(state)@ == self.request(old(state)@, round, now),
            final(state)@.wf(),
            old(state)@.advances(final(state)@),
            old(state)@.calm(final(state)@),
            old(state)@.keeps(final(state)@),
    {
        proof {
            self.lemma_request(state@, round, now);
        }
        if state.commits.skipped.contains(&round) || self.observed_leader(round, state).is_some() {
            state.fallback.recovery.remove(&round);
            state.fallback.missing_requests.remove(&round);
            return ;
        }
        let ghost before = state@;
        if !state.fallback.recovery.insert(round) {
            proof {
                assert(state@ =~= before);
            }
            return ;
        }
        self.send_leader_request(round, now, state);
    }

    /// Asks again for the block of the leader of `round` if it is still sought.
    pub open spec fn retry_one(&self, s: StateView, round: Round, now: Time) -> StateView {
        if s.commits.skipped.contains(round) || self.sighted(s, round) is Some
            || !s.fallback.recovery.contains(round) {
            s.abandon(round)
        } else {
            s.ask(round, self.lead(round), now)
        }
    }

    /// Asks again in turn.
    pub open spec fn retry_each(&self, s: StateView, rounds: Seq<Round>, now: Time) -> StateView
        decreases rounds.len(),
    {
        if rounds.len() == 0 {
            s
        } else {
            self.retry_one(self.retry_each(s, rounds.drop_last(), now), rounds.last(), now)
        }
    }

    /// The leaders whose retry is due, in the order of their rounds.
    pub open spec fn due(s: StateView, now: Time) -> Seq<Round> {
        in_order(s.fallback.missing_requests.dom()).filter(
            |r: Round| s.fallback.missing_requests[r] <= now.mono_ms,
        )
    }

    /// Asks again for every missing leader whose retry is due.
    pub open spec fn retry(&self, s: StateView, now: Time) -> StateView {
        self.retry_each(s, Self::due(s, now), now)
    }

    /// The missing leaders whose retry is due.
    fn due_rounds(&self, now: Time, state: &State) -> (result: Vec<Round>)
        ensures
            result@ == Self::due(state@, now),
    {
        let ghost due = |r: Round| state@.fallback.missing_requests[r] <= now.mono_ms;
        let rounds = state.fallback.missing_requests.keys();
        let mut result: Vec<Round> = Vec::new();
        let mut i: usize = 0;
        proof {
            reveal(Seq::filter);
            assert(rounds@.take(0).filter(due) =~= Seq::empty());
        }
        while i < rounds.len()
            invariant
                i <= rounds@.len(),
                due == (|r: Round| state@.fallback.missing_requests[r] <= now.mono_ms),
                rounds@.to_set() == state@.fallback.missing_requests.dom(),
                result@ == rounds@.take(i as int).filter(due),
            decreases rounds@.len() - i,
        {
            proof {
                lemma_filter_take(rounds@, due, i as int);
                assert(rounds@.to_set().contains(rounds@[i as int]));
            }
            if let Some(deadline) = state.fallback.missing_requests.get(&rounds[i]) {
                if *deadline <= now.mono_ms {
                    result.push(rounds[i]);
                }
            }
            i += 1;
        }
        proof {
            assert(rounds@.take(rounds@.len() as int) =~= rounds@);
        }
        result
    }

    /// Asks again for every missing leader whose retry is due.
    pub fn retry_missing_leaders(&self, now: Time, state: &mut State)
        requires
            self.wf(),
            old(state)@.wf(),
            datable(now),
        ensures
            final(state)@ == self.retry(old(state)@, now),
            final(state)@.wf(),
            old(state)@.keeps(final(state)@),
    {
        let ghost start = state@;
        let rounds = self.due_rounds(now, state);
        let mut i: usize = 0;
        proof {
            assert(rounds@.take(0) =~= Seq::empty());
        }
        while i < rounds.len()
            invariant
                self.wf(),
                datable(now),
                i <= rounds@.len(),
                state@ == self.retry_each(start, rounds@.take(i as int), now),
                state@.wf(),
                start.keeps(state@),
            decreases rounds@.len() - i,
        {
            let round = rounds[i];
            let ghost before = state@;
            proof {
                assert(rounds@.take(i + 1).drop_last() =~= rounds@.take(i as int));
                before.lemma_same_graph(self.retry_one(before, round, now));
                start.lemma_keeps(before, self.retry_one(before, round, now));
            }
            if state.commits.skipped.contains(&round) || self.observed_leader(
                round,
                state,
            ).is_some() || !state.fallback.recovery.contains(&round) {
                state.fallback.recovery.remove(&round);
                state.fallback.missing_requests.remove(&round);
            } else {
                self.send_leader_request(round, now, state);
            }
            i += 1;
        }
        proof {
            assert(rounds@.take(rounds@.len() as int) =~= rounds@);
        }
    }

    /// When the next retry is due.
    pub fn next_retry(&self, state: &State) -> (result: Option<u64>)
        ensures
            match result {
                Some(deadline) => (exists|r: Round| #[trigger]
                    state@.fallback.missing_requests.contains_key(r)
                        && state@.fallback.missing_requests[r] == deadline) && forall|r: Round|
                 #[trigger]
                    state@.fallback.missing_requests.contains_key(r) ==> deadline
                        <= state@.fallback.missing_requests[r],
                None => state@.fallback.missing_requests == Map::<Round, u64>::empty(),
            },
    {
        broadcast use group_ordered;

        let requests = &state.fallback.missing_requests;
        let ghost rounds = requests.key_seq();
        let count = requests.len();
        if count == 0 {
            proof {
                assert forall|r: Round| !requests@.contains_key(r) by {
                    if requests@.contains_key(r) {
                        assert(rounds.to_set().contains(r));
                    }
                }
                assert(requests@ =~= Map::<Round, u64>::empty());
            }
            return None;
        }
        let mut deadline: u64 = *requests.value_at(0);
        let mut i: usize = 1;
        while i < count
            invariant
                rounds == requests.key_seq(),
                count == rounds.len(),
                1 <= i <= count,
                exists|r: Round| #[trigger]
                    requests@.contains_key(r) && requests@[r] == deadline,
                forall|j: int| 0 <= j < i ==> deadline <= requests@[#[trigger] rounds[j]],
            decreases count - i,
        {
            let other = *requests.value_at(i);
            if other < deadline {
                deadline = other;
            }
            i += 1;
        }
        proof {
            assert forall|r: Round| #[trigger] requests@.contains_key(r) implies deadline
                <= requests@[r] by {
                assert(rounds.to_set().contains(r));
                let j = choose|j: int| 0 <= j < rounds.len() && rounds[j] == r;
                assert(deadline <= requests@[rounds[j]]);
            }
            assert(requests@ == state@.fallback.missing_requests);
        }
        Some(deadline)
    }

    /// Admits the block of a leader that is pending or being recovered, as soon
    /// as it is seen at any stage of its broadcast.
    pub open spec fn promote_pending(&self, s: StateView, round: Round) -> StateView {
        if !s.commits.pending.contains_key(round) && !s.fallback.recovery.contains(round) {
            s
        } else {
            match self.sighted(s, round) {
                Some(leader) => {
                    let forced = s.force(leader, round);
                    StateView {
                        fallback: FallbackView {
                            missing_requests: forced.fallback.missing_requests.remove(round),
                            ..forced.fallback
                        },
                        ..forced
                    }
                },
                None => s,
            }
        }
    }

    /// Admits the block of a leader that is pending or being recovered, as soon
    /// as it is seen at any stage of its broadcast.
    pub fn promote_observed_pending_leader(&self, round: Round, state: &mut State)
        requires
            self.wf(),
            old(state)@.wf(),
        ensures
            final(state)@ == self.promote_pending(old(state)@, round),
            final(state)@.wf(),
            old(state)@.keeps(final(state)@),
    {
        if !state.commits.pending.contains_key(&round) && !state.fallback.recovery.contains(
            &round,
        ) {
            return ;
        }
        if let Some(leader) = self.observed_leader(round, state) {
            let ghost start = state@;
            proof {
                self.lemma_sighted(state@, round);
                self.lemma_sighted_held(state@, round);
            }
            state.force_observed_history_to_dag(leader.clone(), round);
            let ghost forced = state@;
            state.fallback.missing_requests.remove(&round);
            proof {
                start.lemma_keeps_held(leader, forced);
                assert(forced.tracked_leaders());
                assert(state@.fallback.anchors == forced.fallback.anchors);
                assert(state@.fallback.forced_waiters == forced.fallback.forced_waiters);
                forced.lemma_same_graph(state@);
                start.lemma_keeps(forced, state@);
            }
        }
    }

    /// The histories of the pending leaders among `rounds`, put in order anew.
    pub open spec fn refreshed(&self, s: StateView, rounds: Set<Round>) -> StateView {
        StateView {
            commits: CommitView {
                order: Map::new(
                    |r: Round|
                        s.commits.order.contains_key(r) || (rounds.contains(r)
                            && s.commits.pending.contains_key(r)),
                    |r: Round|
                        if rounds.contains(r) && s.commits.pending.contains_key(r) {
                            s.order_dag(s.commits.pending[r], self.gc_depth)
                        } else {
                            s.commits.order[r]
                        },
                ),
                ..s.commits
            },
            ..s
        }
    }

    /// Puts the histories of the pending leaders among `rounds` in order anew.
    pub fn refresh_pending_orders(&self, rounds: &OrdSet<Round>, state: &mut State)
        requires
            old(state)@.wf(),
        ensures
            final(state)@ == self.refreshed(old(state)@, rounds@),
            final(state)@.wf(),
            old(state)@.keeps(final(state)@),
    {
        broadcast use group_ordered;

        let ghost start = state@;
        let list = rounds.items();
        let mut i: usize = 0;
        proof {
            assert(self.refreshed(start, Set::empty()) =~= start);
            assert(list@.take(0).to_set() =~= Set::empty());
        }
        while i < list.len()
            invariant
                i <= list@.len(),
                start.graph.dag_by_digest.dom().finite(),
                state@ == self.refreshed(start, list@.take(i as int).to_set()),
            decreases list@.len() - i,
        {
            let ghost before = state@;
            let round = list[i];
            let ghost done = list@.take(i as int).to_set();
            let ghost more = list@.take(i + 1).to_set();
            proof {
                lemma_take_contains(list@, i as int);
                assert(more =~= done.insert(round));
            }
            let leader = match state.commits.pending.get(&round) {
                Some(leader) => Some(leader.clone()),
                None => None,
            };
            if let Some(leader) = leader {
                let ordered = self.order_dag(&leader, state);
                let ghost orders = state.commits.order@;
                state.commits.order.insert(round, ordered);
                proof {
                    before.lemma_order_local(start, leader, self.gc_depth);
                    assert(state.commits.order@.map_values(|v: Vec<Certificate>| v@)
                        =~= orders.map_values(|v: Vec<Certificate>| v@).insert(round, ordered@));
                }
            }
            proof {
                assert(state@ =~= self.refreshed(start, more));
            }
            i += 1;
        }
        proof {
            assert(list@.take(list@.len() as int) =~= list@);
            start.lemma_same_graph(state@);
            self.lemma_refreshed_keeps(start, rounds@);
        }
    }

    /// Whether a pending leader cannot be committed yet, and why.
    pub open spec fn blocker(s: StateView, round: Round) -> Blocker {
        Blocker {
            round,
            predecessor_ready: s.predecessor_resolved(round),
            in_dag: s.graph.dag_digests.contains(s.commits.pending[round].digest()),
        }
    }

    /// The pending leaders that cannot be committed yet, in the order of their
    /// rounds.
    pub open spec fn blockers(s: StateView) -> Seq<Blocker> {
        in_order(s.commits.pending.dom()).filter(|r: Round| !s.can_commit(r)).map_values(
            |r: Round| Self::blocker(s, r),
        )
    }

    /// The pending leaders that cannot be committed yet, and why.
    pub fn pending_blockers(&self, state: &State) -> (result: Vec<Blocker>)
        requires
            state@.wf(),
        ensures
            result@ == Self::blockers(state@),
    {
        let ghost s = state@;
        let ghost blocked = |r: Round| !s.can_commit(r);
        let ghost report = |r: Round| Self::blocker(s, r);
        let rounds = state.commits.pending.keys();
        let mut result: Vec<Blocker> = Vec::new();
        let mut i: usize = 0;
        proof {
            reveal(Seq::filter);
            assert(rounds@.take(0).filter(blocked).map_values(report) =~= Seq::empty());
        }
        while i < rounds.len()
            invariant
                i <= rounds@.len(),
                s == state@,
                s.consecutive(),
                blocked == (|r: Round| !s.can_commit(r)),
                report == (|r: Round| Self::blocker(s, r)),
                rounds@.to_set() == s.commits.pending.dom(),
                result@ == rounds@.take(i as int).filter(blocked).map_values(report),
            decreases rounds@.len() - i,
        {
            let round = rounds[i];
            let ghost front = rounds@.take(i as int).filter(blocked);
            proof {
                lemma_filter_take(rounds@, blocked, i as int);
                assert(rounds@.to_set().contains(round));
                assert(front.push(round).map_values(report) =~= front.map_values(report).push(
                    report(round),
                ));
            }
            if let Some(leader) = state.commits.pending.get(&round) {
                let predecessor_ready = state.predecessor_resolved(round);
                let in_dag = state.graph.dag_digests.contains(&leader.digest());
                if !predecessor_ready || !in_dag {
                    result.push(Blocker { round, predecessor_ready, in_dag });
                }
            }
            i += 1;
        }
        proof {
            assert(rounds@.take(rounds@.len() as int) =~= rounds@);
        }
        result
    }
}

} // verus!
