//! What holds of the consensus as a whole.
use crate::committee::Committee;
use crate::consensus::commit::Time;
use crate::consensus::model::{
    decided, decided_below, first_of, heeded, FallbackDecision, StateView, Support,
};
use crate::consensus::recovery::datable;
use crate::consensus::rules::Consensus;
use crate::consensus::setup::is_genesis;
use crate::ordered::{in_order, lemma_in_order_of};
use crate::types::{Certificate, Digest, PublicKey, Round, Slot};
use vstd::prelude::*;

verus! {

impl StateView {
    /// At the start the Dag is the genesis, VDag is empty, and the indexes are
    /// exact.
    pub proof fn law_start(genesis: Seq<Certificate>)
        requires
            is_genesis(genesis),
            genesis.len() > 0,
            forall|i: int|
                0 <= i < genesis.len() ==> (#[trigger] genesis[i]).header.parents@ == Set::<
                    Digest,
                >::empty(),
        ensures
            Self::initial(genesis).wf(),
            Self::initial(genesis).decided_once(),
            Self::initial(genesis).attentive(),
            Self::initial(genesis).exact_paths(),
            Self::initial(genesis).graph.exact_support(),
            Self::initial(genesis).tracks(Self::initial(genesis).graph.dag_digests),
            Self::initial(genesis).graph.witnessed(),
    {
        let s = Self::initial(genesis);
        Self::lemma_initial(genesis);
        Self::lemma_seated(genesis);
        assert(s.heeds()) by {
            reveal(heeded);
        }
        assert forall|x: (Support, PublicKey)| !s.graph.backs(x.0.0, x.0.1, x.1) by {
            if s.graph.backs(x.0.0, x.0.1, x.1) {
                let d = choose|d: Digest| #[trigger]
                    s.graph.observed.contains_key(d) && s.graph.observed[d].round() == x.0.0
                        && s.graph.observed[d].origin() == x.1
                        && s.graph.observed[d].header.parents@.contains(x.0.1);
                let i = choose|i: int|
                    0 <= i < genesis.len() && (#[trigger] genesis[i]) == s.graph.observed[d];
                assert(genesis[i].header.parents@ == Set::<Digest>::empty());
            }
        }
    }

    /// Seating genesis blocks touches no index.
    pub proof fn lemma_seated(genesis: Seq<Certificate>)
        ensures
            ({
                let s = Self::initial(genesis);
                let b = Self::blank();
                &&& s.fallback == b.fallback
                &&& s.graph.vdag == b.graph.vdag
                &&& s.graph.strong_ancestors == b.graph.strong_ancestors
                &&& s.graph.strong_children == b.graph.strong_children
                &&& s.graph.observed_strong_support == b.graph.observed_strong_support
                &&& s.graph.observed_direct_support == b.graph.observed_direct_support
                &&& s.graph.missing_dependencies == b.graph.missing_dependencies
                &&& s.graph.dependency_waiters == b.graph.dependency_waiters
                &&& s.commits.committed == b.commits.committed
                &&& s.commits.pending == b.commits.pending
                &&& s.commits.skipped == b.commits.skipped
                &&& forall|d: Digest| #[trigger]
                    s.graph.observed.contains_key(d) ==> exists|i: int|
                        0 <= i < genesis.len() && (#[trigger] genesis[i]) == s.graph.observed[d]
            }),
        decreases genesis.len(),
    {
        if genesis.len() > 0 {
            let front = genesis.drop_last();
            Self::lemma_seated(front);
            let s = Self::initial(genesis);
            let before = Self::initial(front);
            assert forall|d: Digest| #[trigger]
                s.graph.observed.contains_key(d) implies exists|i: int|
                0 <= i < genesis.len() && (#[trigger] genesis[i]) == s.graph.observed[d] by {
                if d == genesis.last().digest() {
                    assert(genesis[genesis.len() - 1] == s.graph.observed[d]);
                } else {
                    let i = choose|i: int|
                        0 <= i < front.len() && (#[trigger] front[i]) == before.graph.observed[d];
                    assert(genesis[i] == s.graph.observed[d]);
                }
            }
        }
    }

    /// No block is both in VDag and in the Dag.
    pub proof fn law_block_is_in_one_dag(self, slot: Slot)
        requires
            self.wf(),
            self.graph.vdag.contains_key(slot),
        ensures
            !self.graph.dag_digests.contains(self.graph.vdag[slot].digest()),
            !self.graph.dag_by_digest.contains_key(self.graph.vdag[slot].digest()),
    {
    }

    /// A leader is committed only when the leaders of all rounds before it are
    /// committed or skipped.
    pub proof fn law_leaders_commit_in_order(self, round: Round, before: Round)
        requires
            self.wf(),
            self.commits.committed.contains(round),
            0 < before < round,
        ensures
            self.commits.committed.contains(before) || self.commits.skipped.contains(before),
    {
        assert(decided_below(self.commits.committed, self.commits.skipped, round));
        assert(decided(self.commits.committed, self.commits.skipped, before));
    }

    /// Behind a committed leader none is committed any more: what comes out
    /// later belongs to later leaders.
    pub proof fn law_no_leader_is_overtaken(self, after: StateView, round: Round, before: Round)
        requires
            self.wf(),
            self.decided_once(),
            self.carries(after),
            self.commits.committed.contains(round),
            0 < before < round,
            after.commits.committed.contains(before),
        ensures
            self.commits.committed.contains(before),
    {
        self.law_leaders_commit_in_order(round, before);
    }

    /// Of two sequences handed out one after the other, no two blocks are of the
    /// same author and round. So no digest is handed out in two of them.
    pub proof fn law_no_block_is_committed_twice(
        self,
        after: StateView,
        i: int,
        j: int,
        k: int,
        l: int,
    )
        requires
            self.carries(after),
            self.commits.outbox.len() <= i < k < after.commits.outbox.len(),
            0 <= j < after.commits.outbox[i].len(),
            0 <= l < after.commits.outbox[k].len(),
        ensures
            after.commits.outbox[i][j].slot() != after.commits.outbox[k][l].slot(),
            after.settled(after.commits.outbox[i][j]) && after.settled(after.commits.outbox[k][l])
                ==> after.commits.outbox[i][j].digest() != after.commits.outbox[k][l].digest(),
    {
    }

    /// What has been handed out in one step is not handed out in a later one.
    pub proof fn law_no_block_is_committed_again(
        self,
        midway: StateView,
        cleared: StateView,
        after: StateView,
        i: int,
        j: int,
        k: int,
        l: int,
    )
        requires
            self.carries(midway),
            cleared.commits.last_committed == midway.commits.last_committed,
            cleared.carries(after),
            self.commits.outbox.len() <= i < midway.commits.outbox.len(),
            0 <= j < midway.commits.outbox[i].len(),
            cleared.commits.outbox.len() <= k < after.commits.outbox.len(),
            0 <= l < after.commits.outbox[k].len(),
        ensures
            midway.commits.outbox[i][j].slot() != after.commits.outbox[k][l].slot(),
    {
        let c = midway.commits.outbox[i][j];
        let d = after.commits.outbox[k][l];
        assert(!midway.above_mark(c));
        assert(cleared.above_mark(d));
    }

    /// A decision on a leader is final, and no leader is both committed and
    /// skipped.
    pub proof fn law_decisions_are_final(self, after: StateView, round: Round)
        requires
            self.carries(after),
            self.decided_once(),
        ensures
            self.commits.committed.contains(round) ==> after.commits.committed.contains(round)
                && !after.commits.skipped.contains(round),
            self.commits.skipped.contains(round) ==> after.commits.skipped.contains(round)
                && !after.commits.committed.contains(round),
            after.decided_once(),
    {
    }

    /// Observing a block again only replaces the copy of it.
    pub proof fn law_repeated_observation_replaces_the_copy(self, c: Certificate)
        requires
            self.wf(),
            self.admissible(c),
            self.graph.observed.contains_key(c.digest()),
        ensures
            self.observe(c).graph.observed == self.graph.observed.insert(c.digest(), c),
            self.observe(c).graph.homes == self.graph.homes,
            self.observe(c).graph.dag == self.graph.dag,
            self.observe(c).graph.vdag == self.graph.vdag,
            self.observe(c).graph.strong_ancestors == self.graph.strong_ancestors,
            self.observe(c).graph.observed_strong_support == self.graph.observed_strong_support,
            self.observe(c).graph.observed_direct_support == self.graph.observed_direct_support,
            self.observe(c).fallback == self.fallback,
            self.observe(c).commits == self.commits,
            self.observe_dirties(c) == Set::<Round>::empty(),
    {
        let held = self.graph.observed[c.digest()];
        assert(self.settled(held));
        assert(self.observe(c).graph.homes =~= self.graph.homes);
    }

    /// A later delivery at grade 1 does not put a Dag block back into VDag.
    pub proof fn law_dag_block_stays(self, c: Certificate)
        requires
            self.graph.dag_digests.contains(c.digest()),
        ensures
            self.insert_grade_one(c) == self,
            self.grade_one_dirties(c) == Set::<Round>::empty(),
    {
    }

    /// The history of an anchor is traversed once per evidence revision.
    pub proof fn law_history_is_reused(self, anchor: Certificate)
        ensures
            self.snapshot(anchor).history_cached(anchor.round()),
            self.snapshot(anchor).history_of(anchor) == self.history_of(anchor),
            self.snapshot(anchor).snapshot(anchor) == self.snapshot(anchor),
    {
    }

    /// A remembered decision stands at the revision it was made at, and at no
    /// other.
    pub proof fn law_decision_needs_its_revision(
        self,
        anchor: Round,
        target: Round,
        decision: FallbackDecision,
        version: u64,
    )
        ensures
            self.remember(anchor, target, decision).cached_decision(anchor, target, version) == (
            if version == decision.version {
                Some(decision.commit)
            } else {
                None
            }),
    {
    }

    /// A block that an anchor neither rests on nor waits for, itself or through
    /// a block whose ancestors it extends, leaves the anchor alone.
    pub proof fn law_unrelated_block_leaves_anchor(self, c: Certificate, anchor: Round)
        requires
            !self.graph.observed.contains_key(c.digest()),
            forall|d: Digest|
                #![trigger self.fallback.vertex_users.contains((d, anchor))]
                #![trigger self.fallback.evidence_waiters.contains((d, anchor))]
                self.extended_by(c).contains(d) ==> !self.fallback.vertex_users.contains(
                    (d, anchor),
                ) && !self.fallback.evidence_waiters.contains((d, anchor)),
        ensures
            self.learn(c).fallback.dirty_anchors.contains(anchor)
                == self.fallback.dirty_anchors.contains(anchor),
            self.learn(c).fallback.anchor_versions.contains_key(anchor)
                == self.fallback.anchor_versions.contains_key(anchor),
            self.fallback.anchor_versions.contains_key(anchor)
                ==> self.learn(c).fallback.anchor_versions[anchor]
                == self.fallback.anchor_versions[anchor],
    {
        let woken = self.record(c).revise().wake_users(set![c.digest()]);
        let edged = woken.add_edges(c.content());
        let pairs = edged.fresh_pairs(c.digest(), woken.inherited(c.content()));
        let firsts = first_of(pairs);
        let first = self.record(c).revise();
        assert(self.extended_by(c).contains(c.digest()));
        assert(!first.users_of(set![c.digest()]).contains(anchor));
        assert(edged.fallback == woken.fallback);
        let indexed = StateView {
            graph: self.learn(c).graph,
            ..edged
        };
        assert(self.learn(c).fallback == indexed.wake_users(firsts).fallback) by {
            edged.lemma_grown_fallback(c.digest(), pairs);
            indexed.lemma_wake_local(edged.index_block(c.digest()), firsts);
        }
        assert(!indexed.users_of(firsts).contains(anchor)) by {
            if indexed.users_of(firsts).contains(anchor) {
                let d = choose|d: Digest| #[trigger]
                    firsts.contains(d) && (indexed.fallback.vertex_users.contains((d, anchor))
                        || indexed.fallback.evidence_waiters.contains((d, anchor)));
                assert(self.extended_by(c).contains(d));
            }
        }
    }

    /// The blocks whose strong ancestors the first observation of `c` extends,
    /// and `c` itself.
    pub open spec fn extended_by(self, c: Certificate) -> Set<Digest> {
        let woken = self.record(c).revise().wake_users(set![c.digest()]);
        first_of(
            woken.add_edges(*c.header).fresh_pairs(c.digest(), woken.inherited(*c.header)),
        ).insert(c.digest())
    }

    /// Growing the index wakes the users of the extended blocks.
    proof fn lemma_grown_fallback(self, source: Digest, pairs: Set<(Digest, Digest)>)
        ensures
            self.index_block(source).grow(pairs).fallback == self.index_block(source).wake_users(
                first_of(pairs),
            ).fallback,
    {
        let s = self.index_block(source);
        let indexed = StateView { graph: s.grow(pairs).graph, ..s };
        s.lemma_wake_local(indexed, first_of(pairs));
    }
}

impl Consensus {
    /// A skipped leader is not recovered, its block is not asked for, and it is
    /// not evaluated again. It counts as decided by rule 3.
    pub proof fn law_skipped_leader_is_not_sought(&self, s: StateView, round: Round, now: Time)
        requires
            s.wf(),
            s.unresolved(round),
        ensures
            ({
                let after = s.skip_leader(round);
                &&& after.commits.skipped.contains(round)
                &&& !after.fallback.recovery.contains(round)
                &&& !after.fallback.missing_requests.contains_key(round)
                &&& !after.fallback.stack.contains(round)
                &&& !after.commits.dirty_leaders.contains(round)
                &&& after.commits.rules.contains_key(round) && after.commits.rules[round] == 3
                &&& self.request(after, round, now).commits.requests == after.commits.requests
                &&& !self.request(after, round, now).fallback.recovery.contains(round)
            }),
    {
    }

    /// The block of a missing leader is asked for at once, and asked for again
    /// when 300 milliseconds have passed, not before.
    pub proof fn law_missing_leader_is_asked_for_again(
        &self,
        s: StateView,
        round: Round,
        now: Time,
        later: Time,
    )
        requires
            datable(now),
            s.fallback.missing_requests.dom().finite(),
            !s.commits.skipped.contains(round),
            self.sighted(s, round) is None,
            !s.fallback.recovery.contains(round),
        ensures
            self.request(s, round, now).commits.requests == s.commits.requests.push(
                (round, self.lead(round)),
            ),
            Self::due(self.request(s, round, now), later).contains(round) <==> later.mono_ms
                >= now.mono_ms + 300,
            self.retry_one(self.request(s, round, now), round, later).commits.requests
                == s.commits.requests.push((round, self.lead(round))).push(
                (round, self.lead(round)),
            ),
    {
        let after = self.request(s, round, now);
        let asked = after.fallback.missing_requests.dom();
        let all = in_order(asked);
        let past = |r: Round| after.fallback.missing_requests[r] <= later.mono_ms;
        lemma_in_order_of(asked);
        assert(asked.contains(round));
        assert(all.to_set().contains(round));
        let i = choose|i: int| 0 <= i < all.len() && all[i] == round;
        if past(round) {
            all.lemma_filter_contains(past, i);
        }
        if all.filter(past).contains(round) {
            let k = choose|k: int|
                0 <= k < all.filter(past).len() && all.filter(past)[k] == round;
            all.lemma_filter_pred(past, k);
        }
        assert(self.sighted(after, round) == self.sighted(s, round));
    }

    /// A leader that is decided or waits for its commit is not checked again.
    pub proof fn law_resolved_leader_is_not_rechecked(&self, s: StateView, round: Round, now: Time)
        requires
            s.resolved(round),
            round < Round::MAX - 1,
        ensures
            self.rule_one(s, (round + 1) as Round, now) == s,
            self.rule_two(s, (round + 2) as Round, now) == s,
    {
    }

    /// Entering a round again, or an earlier one, changes nothing where nothing
    /// is left to evaluate.
    pub proof fn law_stale_round_changes_nothing(&self, s: StateView, target: Round, now: Time)
        requires
            s.clean(),
            target <= s.commits.highest_advanced_round,
        ensures
            self.advance(s, target, now) == s,
    {
        assert(in_order(Set::<Round>::empty()) =~= Seq::empty()) by {
            lemma_in_order_of(Set::<Round>::empty());
            let all = in_order(Set::<Round>::empty());
            if all.len() > 0 {
                assert(all.to_set().contains(all[0]));
            }
        }
        assert(s.clear_leaders() =~= s);
        assert(self.judge_each(s, Seq::empty(), now) == s);
        assert(self.evaluate_dirty(s, now) == s);
        assert(self.pass(s, now) == s);
        assert(self.passes(s, 0, now) == s);
        assert(self.passes(s, 1, now) == s);
        assert(self.takes(s, 1, now));
        self.lemma_takes(s, 1, now);
    }
}

impl Committee {
    /// In every turn the authorities lead in the order of their keys.
    pub proof fn law_leaders_follow_the_keys(&self, turns: int, i: int)
        requires
            self.wf(),
            0 <= i < self.members().len(),
        ensures
            self.turn(turns * self.members().len() + i) == self.members()[i],
    {
        let n = self.members().len() as int;
        vstd::arithmetic::div_mod::lemma_mod_multiples_vanish(turns, i, n);
        vstd::arithmetic::div_mod::lemma_small_mod(i as nat, n as nat);
        assert(turns * n + i == n * turns + i) by (nonlinear_arith);
    }

    /// Leadership returns to an authority after a full turn, and every authority
    /// leads once in each.
    pub proof fn law_leaders_rotate(&self, round: int, i: int)
        requires
            self.wf(),
            0 <= i < self.members().len(),
        ensures
            self.turn(round + self.members().len()) == self.turn(round),
            exists|k: int|
                0 <= k < self.members().len() && #[trigger] self.turn(round + k)
                    == self.members()[i],
    {
        let n = self.members().len() as int;
        vstd::arithmetic::div_mod::lemma_mod_add_multiples_vanish(round, n);
        let k = (i - round) % n;
        vstd::arithmetic::div_mod::lemma_add_mod_noop_right(round, i - round, n);
        vstd::arithmetic::div_mod::lemma_small_mod(i as nat, n as nat);
        assert(self.turn(round + k) == self.members()[i]);
    }
}

} // verus!
