//! The evidence that the commit rules weigh.
use crate::committee::Committee;
use crate::consensus::model::{reaches, StateView};
use crate::consensus::paths::search;
use crate::consensus::state::{History, State};
use crate::ordered::{group_ordered, image, in_order, lemma_take_contains, OrdSet};
use crate::types::{Certificate, Digest, Header, PublicKey, Round, Slot, Stake};
use vstd::prelude::*;

verus! {

/// How the leader of a round is elected.
#[derive(Clone, Copy, Debug, PartialEq, Eq, Structural)]
pub enum Election {
    /// The authorities lead in turn, in the order of their keys.
    RoundRobin,
    /// The first authority leads every round.
    Fixed,
}

/// The rounds in which commit rules are withheld to model an adversary.
pub struct Schedule {
    /// Leader rounds that neither rule 1 nor rule 2 may commit.
    pub adversarial: OrdSet<Round>,
    /// Leader rounds that rule 1 may not commit.
    pub deferred: OrdSet<Round>,
}

/// The consensus rules of one committee.
pub struct Consensus {
    /// The committee information.
    pub committee: Committee,
    /// The depth of the garbage collector.
    pub gc_depth: Round,
    /// How leaders are elected.
    pub election: Election,
    /// The rounds in which commit rules are withheld.
    pub schedule: Schedule,
}

impl StateView {
    /// Whether a block references a block of `leader` in `leader_round`
    /// virtually.
    pub open spec fn points_at(self, c: Certificate, leader_round: Round, leader: PublicKey) -> bool {
        exists|t: Digest| #[trigger]
            c.header.virtual_edges@.contains(t) && self.graph.observed.contains_key(t)
                && self.graph.observed[t].round() == leader_round
                && self.graph.observed[t].origin() == leader
    }

    /// Whether an observed block among `digests` references the leader
    /// virtually.
    pub open spec fn any_points_at(
        self,
        digests: Set<Digest>,
        leader_round: Round,
        leader: PublicKey,
    ) -> bool {
        exists|d: Digest| #[trigger]
            digests.contains(d) && self.graph.observed.contains_key(d) && self.points_at(
                self.graph.observed[d],
                leader_round,
                leader,
            )
    }

    /// The strong parents of the observed blocks among `digests`.
    pub open spec fn grandparents(self, digests: Set<Digest>) -> Set<Digest> {
        Set::new(
            |g: Digest|
                exists|d: Digest| #[trigger]
                    digests.contains(d) && self.graph.observed.contains_key(d)
                        && self.graph.observed[d].header.parents@.contains(g),
        )
    }

    /// A virtual path: one or two strong edges, then a virtual edge to the
    /// leader.
    pub open spec fn virtual_path(self, c: Certificate, leader_round: Round, leader: PublicKey) -> bool {
        ||| self.any_points_at(c.header.parents@, leader_round, leader)
        ||| self.any_points_at(self.grandparents(c.header.parents@), leader_round, leader)
    }

    /// One strong edge, then one virtual edge to `target`.
    pub open spec fn two_hops(self, c: Certificate, target: Digest) -> bool {
        exists|p: Digest| #[trigger]
            c.header.parents@.contains(p) && self.graph.observed.contains_key(p)
                && self.graph.observed[p].header.virtual_edges@.contains(target)
    }

    /// The strong edges of an observed block.
    pub open spec fn strong_parents(self) -> spec_fn(Digest) -> Set<Digest> {
        |d: Digest|
            if self.graph.observed.contains_key(d) {
                self.graph.observed[d].header.parents@
            } else {
                Set::empty()
            }
    }

    /// Whether a strong path leads from a block to `target`: by the index where
    /// the block is indexed.
    pub open spec fn strong_path(self, c: Certificate, target: Digest) -> bool {
        if self.graph.strong_indexed.contains(c.digest()) {
            self.graph.strong_ancestors.contains((c.digest(), target))
        } else {
            reaches(c.header.parents@, self.strong_parents(), target)
        }
    }

    /// The authors of Dag blocks of round `q` that reach `target` strongly or
    /// by two hops.
    pub open spec fn strong_or_virtual(self, q: Round, target: Digest) -> Set<PublicKey> {
        Set::new(
            |a: PublicKey|
                self.graph.dag.contains_key((q, a)) && (self.graph.dag_strong_support.contains(
                    ((q, target), a),
                ) || self.two_hops(self.graph.dag[(q, a)], target)),
        )
    }
}

impl Consensus {
    /// The committee is valid.
    pub open spec fn wf(&self) -> bool {
        self.committee.wf()
    }

    // ----- Leaders -----

    /// The leader of a round, by the election in force.
    pub open spec fn lead(&self, round: Round) -> PublicKey {
        match self.election {
            Election::RoundRobin => self.committee.turn(round as int),
            Election::Fixed => self.committee.members()[0],
        }
    }

    /// The authority designated as leader of a round, in turn by key.
    pub fn leader_authority(&self, round: Round) -> (result: PublicKey)
        requires
            self.wf(),
        ensures
            result == self.committee.turn(round as int),
    {
        self.committee.on_turn(round)
    }

    /// The authority whose block the commit rules take as the leader's.
    pub fn ordering_leader_authority(&self, round: Round) -> (result: PublicKey)
        requires
            self.wf(),
        ensures
            result == self.lead(round),
    {
        match self.election {
            Election::RoundRobin => self.leader_authority(round),
            Election::Fixed => self.committee.authorities.key_at(0),
        }
    }

    /// The block of the leader of `round`, if it is in the Dag.
    pub open spec fn spec_leader(&self, s: StateView, round: Round) -> Option<Certificate> {
        let slot: Slot = (round, self.lead(round));
        if s.graph.dag.contains_key(slot) {
            Some(s.graph.dag[slot])
        } else {
            None
        }
    }

    /// The block of the leader of `round`, if it is in the Dag.
    pub fn leader(&self, round: Round, state: &State) -> (result: Option<Certificate>)
        requires
            self.wf(),
        ensures
            result == self.spec_leader(state@, round),
    {
        let slot = (round, self.ordering_leader_authority(round));
        match state.graph.dag.get(&slot) {
            Some(block) => Some(block.clone()),
            None => None,
        }
    }

    /// The block of the leader of `round`, in the Dag or in VDag.
    pub open spec fn delivered(&self, s: StateView, round: Round) -> Option<Certificate> {
        let slot: Slot = (round, self.lead(round));
        if s.graph.dag.contains_key(slot) {
            Some(s.graph.dag[slot])
        } else if s.graph.vdag.contains_key(slot) {
            Some(s.graph.vdag[slot])
        } else {
            None
        }
    }

    /// The block of the leader of `round`, at any stage of its broadcast.
    pub open spec fn sighted(&self, s: StateView, round: Round) -> Option<Certificate> {
        let slot: Slot = (round, self.lead(round));
        if self.delivered(s, round) is Some {
            self.delivered(s, round)
        } else if s.graph.observed_by_round.contains_key(slot) && s.graph.observed.contains_key(
            s.graph.observed_by_round[slot],
        ) {
            Some(s.graph.observed[s.graph.observed_by_round[slot]])
        } else {
            None
        }
    }

    /// A sighted leader is settled in its slot.
    pub proof fn lemma_sighted(&self, s: StateView, round: Round)
        requires
            s.placed(),
        ensures
            self.sighted(s, round) is Some ==> {
                let c = self.sighted(s, round)->0;
                &&& s.settled(c)
                &&& s.admissible(c)
                &&& c.slot() == (round, self.lead(round))
                &&& c.round() == round
            },
    {
        let slot: Slot = (round, self.lead(round));
        if self.sighted(s, round) is Some {
            if s.graph.dag.contains_key(slot) {
            } else if s.graph.vdag.contains_key(slot) {
            } else {
                assert(s.graph.observed_by_round.contains_key(slot));
                assert(s.graph.observed.contains_key(s.graph.observed_by_round[slot]));
            }
        }
    }

    /// The block of the leader of `round`, in the Dag or in VDag.
    pub fn delivered_leader(&self, round: Round, state: &State) -> (result: Option<Certificate>)
        requires
            self.wf(),
        ensures
            result == self.delivered(state@, round),
    {
        let slot = (round, self.ordering_leader_authority(round));
        match state.graph.dag.get(&slot) {
            Some(block) => Some(block.clone()),
            None => match state.graph.vdag.get(&slot) {
                Some(block) => Some(block.clone()),
                None => None,
            },
        }
    }

    /// The block of the leader of `round`, at any stage of its broadcast.
    pub fn observed_leader(&self, round: Round, state: &State) -> (result: Option<Certificate>)
        requires
            self.wf(),
        ensures
            result == self.sighted(state@, round),
    {
        let delivered = self.delivered_leader(round, state);
        if delivered.is_some() {
            return delivered;
        }
        let slot = (round, self.ordering_leader_authority(round));
        match state.graph.observed_by_round.get(&slot) {
            Some(digest) => match state.graph.observed.get(digest) {
                Some(block) => Some(block.clone()),
                None => None,
            },
            None => None,
        }
    }

    /// Whether a block has a strong edge to the leader of the round before.
    pub open spec fn backs_previous(&self, s: StateView, block: Certificate) -> bool {
        &&& block.round() >= 2
        &&& self.sighted(s, (block.round() - 1) as Round) is Some
        &&& block.header.parents@.contains(
            (self.sighted(s, (block.round() - 1) as Round)->0).digest(),
        )
    }

    /// Whether a block has a strong edge to the leader of the round before.
    pub fn directly_supports_previous_leader(&self, block: &Certificate, state: &State) -> (result:
        bool)
        requires
            self.wf(),
        ensures
            result == self.backs_previous(state@, *block),
    {
        if block.round() < 2 {
            return false;
        }
        match self.observed_leader(block.round() - 1, state) {
            Some(leader) => block.header.parents.contains(&leader.digest()),
            None => false,
        }
    }

    // ----- Support -----

    /// The stake of the blocks of `round` with a strong edge to a leader:
    /// observed at any stage, and in the Dag. Every author counts once.
    pub fn strong_support_stake(&self, round: Round, leader_digest: &Digest, state: &State)
        -> (result: (Stake, Stake))
        requires
            self.wf(),
        ensures
            result.0 == self.committee.weight(
                image(state@.graph.observed_direct_support, (round, *leader_digest)),
            ),
            result.1 == self.committee.weight(
                image(state@.graph.dag_direct_support, (round, *leader_digest)),
            ),
    {
        let target = (round, *leader_digest);
        let observed = state.graph.observed_direct_support.image(&target);
        let in_dag = state.graph.dag_direct_support.image(&target);
        (self.committee.stake_of(&observed), self.committee.stake_of(&in_dag))
    }

    /// One strong edge, then one virtual edge to `target`.
    pub fn has_two_hop_virtual_path(&self, block: &Certificate, target: &Digest, state: &State)
        -> (result: bool)
        ensures
            result == state@.two_hops(*block, *target),
    {
        let parents = block.header.parents.items();
        let mut i: usize = 0;
        while i < parents.len()
            invariant
                i <= parents@.len(),
                parents@.to_set() == block.header.parents@,
                forall|j: int|
                    0 <= j < i ==> !(state@.graph.observed.contains_key(#[trigger] parents@[j])
                        && state@.graph.observed[parents@[j]].header.virtual_edges@.contains(
                        *target,
                    )),
            decreases parents@.len() - i,
        {
            if let Some(parent) = state.graph.observed.get(&parents[i]) {
                if parent.header.virtual_edges.contains(target) {
                    proof {
                        assert(parents@.to_set().contains(parents@[i as int]));
                    }
                    return true;
                }
            }
            i += 1;
        }
        proof {
            assert forall|p: Digest| #[trigger]
                block.header.parents@.contains(p) implies !(state@.graph.observed.contains_key(p)
                && state@.graph.observed[p].header.virtual_edges@.contains(*target)) by {
                assert(parents@.to_set().contains(p));
                let j = choose|j: int| 0 <= j < parents@.len() && parents@[j] == p;
                assert(parents@[j] == p);
            }
        }
        false
    }

    /// The authors of Dag blocks of round `q` that reach a leader strongly or
    /// by two hops.
    fn strong_or_virtual_support(&self, q: Round, leader_digest: &Digest, state: &State) -> (result:
        OrdSet<PublicKey>)
        ensures
            result@ == state@.strong_or_virtual(q, *leader_digest),
    {
        broadcast use group_ordered;

        let ghost slots = state.graph.dag.key_seq();
        let ghost goal = state@.strong_or_virtual(q, *leader_digest);
        let target = (q, *leader_digest);
        let mut result: OrdSet<PublicKey> = OrdSet::new();
        let count = state.graph.dag.len();
        let mut i: usize = 0;
        while i < count
            invariant
                count == slots.len(),
                slots == state.graph.dag.key_seq(),
                slots.to_set() == state@.graph.dag.dom(),
                goal == state@.strong_or_virtual(q, *leader_digest),
                target == (q, *leader_digest),
                i <= count,
                forall|a: PublicKey| #[trigger]
                    result@.contains(a) <==> goal.contains(a) && slots.take(i as int).contains(
                        (q, a),
                    ),
            decreases count - i,
        {
            let slot = state.graph.dag.key_at(i);
            let ghost had = result@;
            proof {
                lemma_take_contains(slots, i as int);
            }
            if slot.0 == q {
                let block = state.graph.dag.value_at(i);
                if state.graph.dag_strong_support.contains(&target, &slot.1)
                    || self.has_two_hop_virtual_path(block, leader_digest, state) {
                    result.insert(slot.1);
                }
            }
            i += 1;
        }
        proof {
            assert(slots.take(slots.len() as int) =~= slots);
            assert forall|a: PublicKey| result@.contains(a) == goal.contains(a) by {
                if goal.contains(a) {
                    assert(slots.to_set().contains((q, a)));
                }
            }
            assert(result@ =~= goal);
        }
        result
    }

    /// The stake that supports a leader in round `q`: by observed strong paths,
    /// by strong paths of Dag blocks, and by strong paths or two hops of Dag
    /// blocks. Every author counts once.
    pub fn rule_two_support_stake(&self, q: Round, leader_digest: &Digest, state: &State)
        -> (result: (Stake, Stake, Stake))
        requires
            self.wf(),
        ensures
            result.0 == self.committee.weight(
                image(state@.graph.observed_strong_support, (q, *leader_digest)),
            ),
            result.1 == self.committee.weight(
                image(state@.graph.dag_strong_support, (q, *leader_digest)),
            ),
            result.2 == self.committee.weight(state@.strong_or_virtual(q, *leader_digest)),
    {
        let target = (q, *leader_digest);
        let observed = state.graph.observed_strong_support.image(&target);
        let in_dag = state.graph.dag_strong_support.image(&target);
        let reaching = self.strong_or_virtual_support(q, leader_digest, state).items();
        (
            self.committee.stake_of(&observed),
            self.committee.stake_of(&in_dag),
            self.committee.stake_of(&reaching),
        )
    }

    // ----- Fallback votes -----

    /// Whether a strong path leads from a block to `target`.
    pub fn has_strong_path(&self, block: &Certificate, target: &Digest, state: &State) -> (result:
        bool)
        ensures
            result == state@.strong_path(*block, *target),
    {
        broadcast use group_ordered;

        let digest = block.digest();
        if state.graph.strong_indexed.contains(&digest) {
            return state.graph.strong_ancestors.contains(&digest, target);
        }
        let ghost edges = state@.strong_parents();
        let next = |d: &Digest| -> (parents: Vec<Digest>)
            ensures
                parents@.to_set() == edges(*d),
            {
                match state.graph.observed.get(d) {
                    Some(parent) => parent.header.parents.items(),
                    None => {
                        let none: Vec<Digest> = Vec::new();
                        proof {
                            assert(none@.to_set() =~= Set::<Digest>::empty());
                        }
                        none
                    },
                }
            };
        search(
            block.header.parents.items(),
            target,
            next,
            Ghost(edges),
            Ghost(state@.graph.observed.dom()),
        )
    }

    /// Whether a block references the leader's block virtually.
    fn references_leader(
        &self,
        block: &Certificate,
        leader_round: Round,
        leader: PublicKey,
        state: &State,
    ) -> (result: bool)
        ensures
            result == state@.points_at(*block, leader_round, leader),
    {
        let targets = block.header.virtual_edges.items();
        let mut i: usize = 0;
        while i < targets.len()
            invariant
                i <= targets@.len(),
                targets@.to_set() == block.header.virtual_edges@,
                forall|j: int|
                    0 <= j < i ==> !(state@.graph.observed.contains_key(#[trigger] targets@[j])
                        && state@.graph.observed[targets@[j]].round() == leader_round
                        && state@.graph.observed[targets@[j]].origin() == leader),
            decreases targets@.len() - i,
        {
            if let Some(endpoint) = state.graph.observed.get(&targets[i]) {
                if endpoint.round() == leader_round && endpoint.origin() == leader {
                    proof {
                        assert(targets@.to_set().contains(targets@[i as int]));
                    }
                    return true;
                }
            }
            i += 1;
        }
        proof {
            assert forall|t: Digest| #[trigger]
                block.header.virtual_edges@.contains(t) implies !(
            state@.graph.observed.contains_key(t) && state@.graph.observed[t].round()
                == leader_round && state@.graph.observed[t].origin() == leader) by {
                assert(targets@.to_set().contains(t));
                let j = choose|j: int| 0 <= j < targets@.len() && targets@[j] == t;
                assert(targets@[j] == t);
            }
        }
        false
    }

    /// Whether an observed block of the frontier references the leader's block
    /// virtually. If none does, hands back the strong parents of the frontier.
    fn scan_frontier(
        &self,
        frontier: &Vec<Digest>,
        leader_round: Round,
        leader: PublicKey,
        state: &State,
    ) -> (result: Option<Vec<Digest>>)
        ensures
            result is None == state@.any_points_at(frontier@.to_set(), leader_round, leader),
            result is Some ==> (result->0)@.to_set() == state@.grandparents(frontier@.to_set()),
    {
        let mut next: Vec<Digest> = Vec::new();
        let mut i: usize = 0;
        while i < frontier.len()
            invariant
                i <= frontier@.len(),
                forall|j: int|
                    0 <= j < i ==> !(state@.graph.observed.contains_key(#[trigger] frontier@[j])
                        && state@.points_at(
                        state@.graph.observed[frontier@[j]],
                        leader_round,
                        leader,
                    )),
                forall|g: Digest| #[trigger]
                    next@.contains(g) <==> exists|j: int|
                        0 <= j < i && state@.graph.observed.contains_key(#[trigger] frontier@[j])
                            && state@.graph.observed[frontier@[j]].header.parents@.contains(g),
            decreases frontier@.len() - i,
        {
            if let Some(vertex) = state.graph.observed.get(&frontier[i]) {
                if self.references_leader(vertex, leader_round, leader, state) {
                    proof {
                        assert(frontier@.to_set().contains(frontier@[i as int]));
                    }
                    return None;
                }
                let ghost had = next@;
                let mut parents = vertex.header.parents.items();
                let ghost added = parents@;
                next.append(&mut parents);
                proof {
                    assert forall|g: Digest| #[trigger]
                        next@.contains(g) <==> exists|j: int|
                            0 <= j < i + 1 && state@.graph.observed.contains_key(
                                #[trigger] frontier@[j],
                            ) && state@.graph.observed[frontier@[j]].header.parents@.contains(g) by {
                        assert(added.to_set().contains(g) == added.contains(g));
                        if next@.contains(g) {
                            let k = choose|k: int| 0 <= k < next@.len() && next@[k] == g;
                            if k < had.len() {
                                assert(had[k] == g);
                                assert(had.contains(g));
                                let j = choose|j: int|
                                    0 <= j < i && state@.graph.observed.contains_key(
                                        #[trigger] frontier@[j],
                                    ) && state@.graph.observed[frontier@[j]].header.parents@.contains(
                                        g,
                                    );
                                assert(state@.graph.observed.contains_key(frontier@[j]));
                            } else {
                                assert(added[k - had.len()] == g);
                                assert(state@.graph.observed.contains_key(frontier@[i as int]));
                            }
                        }
                        if exists|j: int|
                            0 <= j < i + 1 && state@.graph.observed.contains_key(
                                #[trigger] frontier@[j],
                            ) && state@.graph.observed[frontier@[j]].header.parents@.contains(g) {
                            let j = choose|j: int|
                                0 <= j < i + 1 && state@.graph.observed.contains_key(
                                    #[trigger] frontier@[j],
                                ) && state@.graph.observed[frontier@[j]].header.parents@.contains(g);
                            if j < i {
                                assert(had.contains(g));
                                let k = choose|k: int| 0 <= k < had.len() && had[k] == g;
                                assert(next@[k] == g);
                            } else {
                                assert(added.contains(g));
                                let k = choose|k: int| 0 <= k < added.len() && added[k] == g;
                                assert(next@[had.len() + k] == g);
                            }
                        }
                    }
                }
            }
            i += 1;
        }
        proof {
            let all = frontier@.to_set();
            assert forall|d: Digest| #[trigger] all.contains(d) implies !(
            state@.graph.observed.contains_key(d) && state@.points_at(
                state@.graph.observed[d],
                leader_round,
                leader,
            )) by {
                let j = choose|j: int| 0 <= j < frontier@.len() && frontier@[j] == d;
                assert(frontier@[j] == d);
            }
            assert forall|g: Digest| next@.to_set().contains(g) == state@.grandparents(
                all,
            ).contains(g) by {
                if next@.contains(g) {
                    let j = choose|j: int|
                        0 <= j < frontier@.len() && state@.graph.observed.contains_key(
                            #[trigger] frontier@[j],
                        ) && state@.graph.observed[frontier@[j]].header.parents@.contains(g);
                    assert(all.contains(frontier@[j]));
                }
                if state@.grandparents(all).contains(g) {
                    let d = choose|d: Digest| #[trigger]
                        all.contains(d) && state@.graph.observed.contains_key(d)
                            && state@.graph.observed[d].header.parents@.contains(g);
                    let j = choose|j: int| 0 <= j < frontier@.len() && frontier@[j] == d;
                    assert(state@.graph.observed.contains_key(frontier@[j]));
                    assert(next@.contains(g));
                }
            }
            assert(next@.to_set() =~= state@.grandparents(all));
        }
        Some(next)
    }

    /// Whether one or two strong edges and then a virtual edge lead from a
    /// block to the leader's block.
    pub fn virtual_path_to_leader(
        &self,
        block: &Certificate,
        leader_round: Round,
        leader: PublicKey,
        state: &State,
    ) -> (result: bool)
        ensures
            result == state@.virtual_path(*block, leader_round, leader),
    {
        let parents = block.header.parents.items();
        match self.scan_frontier(&parents, leader_round, leader, state) {
            None => true,
            Some(next) => self.scan_frontier(&next, leader_round, leader, state).is_none(),
        }
    }

    /// The authors of the observed blocks in `list` that vote, counted in turn
    /// until their stake guarantees an honest voter.
    pub open spec fn counted(
        &self,
        s: StateView,
        list: Seq<Digest>,
        votes: spec_fn(Certificate) -> bool,
    ) -> Set<PublicKey>
        decreases list.len(),
    {
        if list.len() == 0 {
            Set::empty()
        } else {
            let before = self.counted(s, list.drop_last(), votes);
            let d = list.last();
            if self.committee.weight(before) < self.committee.validity()
                && s.graph.observed.contains_key(d) && votes(s.graph.observed[d]) {
                before.insert(s.graph.observed[d].origin())
            } else {
                before
            }
        }
    }

    /// Counts the stake of the voters in `list`.
    fn count_votes<F: Fn(&Certificate) -> bool>(
        &self,
        list: &Vec<Digest>,
        votes: F,
        Ghost(p): Ghost<spec_fn(Certificate) -> bool>,
        state: &State,
    ) -> (stake: Stake)
        requires
            self.wf(),
            forall|c: Certificate| #[trigger] votes.requires((&c,)),
            forall|c: Certificate, b: bool| #[trigger] votes.ensures((&c,), b) ==> b == p(c),
        ensures
            stake == self.committee.weight(self.counted(state@, list@, p)),
    {
        let validity = self.committee.validity_threshold();
        let mut voters: OrdSet<PublicKey> = OrdSet::new();
        let mut stake: Stake = 0;
        let mut i: usize = 0;
        proof {
            self.committee.lemma_weight_empty();
            assert(list@.take(0) =~= Seq::empty());
        }
        while i < list.len()
            invariant
                self.wf(),
                forall|c: Certificate| #[trigger] votes.requires((&c,)),
                forall|c: Certificate, b: bool| #[trigger] votes.ensures((&c,), b) ==> b == p(c),
                validity == self.committee.validity(),
                i <= list@.len(),
                voters@ == self.counted(state@, list@.take(i as int), p),
                stake == self.committee.weight(voters@),
            decreases list@.len() - i,
        {
            proof {
                assert(list@.take(i + 1).drop_last() =~= list@.take(i as int));
            }
            if stake < validity {
                if let Some(block) = state.graph.observed.get(&list[i]) {
                    if votes(block) {
                        let proposer = block.origin();
                        let ghost had = voters@;
                        proof {
                            if !had.contains(proposer) {
                                self.committee.lemma_weight_insert(had, proposer);
                            }
                            self.committee.lemma_weight_monotone(
                                had.insert(proposer),
                                Set::full(),
                            );
                        }
                        if voters.insert(proposer) {
                            stake = stake + self.committee.stake(&proposer);
                        } else {
                            proof {
                                assert(had.insert(proposer) =~= had);
                            }
                        }
                    }
                }
            }
            i += 1;
        }
        proof {
            assert(list@.take(list@.len() as int) =~= list@);
        }
        stake
    }

    /// The strong parents of a block that vote for a leader by a virtual path.
    pub open spec fn direct_voters(
        &self,
        s: StateView,
        header: Header,
        leader_round: Round,
        leader: PublicKey,
    ) -> Set<PublicKey> {
        self.counted(
            s,
            in_order(header.parents@),
            |c: Certificate| s.virtual_path(c, leader_round, leader),
        )
    }

    /// The stake of the strong parents of a block that vote for a leader.
    fn parent_votes(
        &self,
        header: &Header,
        leader_round: Round,
        leader: PublicKey,
        state: &State,
    ) -> (stake: Stake)
        requires
            self.wf(),
        ensures
            stake == self.committee.weight(
                self.direct_voters(state@, *header, leader_round, leader),
            ),
    {
        let ghost p = |c: Certificate| state@.virtual_path(c, leader_round, leader);
        let votes = |c: &Certificate| -> (result: bool)
            ensures
                result == p(*c),
            {
                self.virtual_path_to_leader(c, leader_round, leader, state)
            };
        let parents = header.parents.items();
        self.count_votes(&parents, votes, Ghost(p), state)
    }

    /// The stake of the strong parents of an anchor that vote for a leader by a
    /// virtual path. Every author counts once.
    pub fn direct_fallback_stake(
        &self,
        anchor: &Certificate,
        leader_round: Round,
        leader: PublicKey,
        state: &State,
    ) -> (stake: Stake)
        requires
            self.wf(),
        ensures
            stake == self.committee.weight(
                self.direct_voters(state@, anchor.content(), leader_round, leader),
            ),
    {
        self.parent_votes(&anchor.header, leader_round, leader, state)
    }

    /// The stake of the strong parents of a block in the history of an anchor
    /// that vote for a leader by a virtual path.
    pub fn indirect_inner_stake(
        &self,
        vertex: &Certificate,
        leader_round: Round,
        leader: PublicKey,
        state: &State,
    ) -> (stake: Stake)
        requires
            self.wf(),
        ensures
            stake == self.committee.weight(
                self.direct_voters(state@, vertex.content(), leader_round, leader),
            ),
    {
        self.parent_votes(&vertex.header, leader_round, leader, state)
    }

    /// Whether a block in the history of an anchor votes for a leader: by a
    /// strong path, or because enough of its strong parents do.
    pub open spec fn votes_indirectly(
        &self,
        s: StateView,
        target: Option<Certificate>,
        leader_round: Round,
        leader: PublicKey,
        c: Certificate,
    ) -> bool {
        &&& c.round() == leader_round + 3
        &&& (target is Some && s.strong_path(c, (target->0).digest())) || self.committee.weight(
            self.direct_voters(s, c.content(), leader_round, leader),
        ) >= self.committee.validity()
    }

    /// The blocks three rounds above a leader in the history of an anchor that
    /// vote for it.
    pub open spec fn indirect_voters(
        &self,
        s: StateView,
        by_round: Set<(Round, Digest)>,
        target: Option<Certificate>,
        leader_round: Round,
        leader: PublicKey,
    ) -> Set<PublicKey> {
        self.counted(
            s,
            in_order(image(by_round, (leader_round + 3) as Round)),
            |c: Certificate| self.votes_indirectly(s, target, leader_round, leader, c),
        )
    }

    /// The stake of the blocks three rounds above a leader in the history of an
    /// anchor that vote for it. Every author counts once.
    pub fn indirect_fallback_stake(
        &self,
        history: &History,
        target: &Option<Certificate>,
        leader_round: Round,
        leader: PublicKey,
        state: &State,
    ) -> (stake: Stake)
        requires
            self.wf(),
            leader_round + 3 <= Round::MAX,
        ensures
            stake == self.committee.weight(
                self.indirect_voters(state@, history@.by_round, *target, leader_round, leader),
            ),
    {
        let history_round: Round = leader_round + 3;
        let validity = self.committee.validity_threshold();
        let ghost p = |c: Certificate|
            self.votes_indirectly(state@, *target, leader_round, leader, c);
        let votes = |c: &Certificate| -> (result: bool)
            ensures
                result == p(*c),
            {
                if c.round() != history_round {
                    false
                } else {
                    let strong = match target {
                        Some(target) => self.has_strong_path(c, &target.digest(), state),
                        None => false,
                    };
                    strong || self.indirect_inner_stake(c, leader_round, leader, state) >= validity
                }
            };
        let vertices = history.by_round.image(&history_round);
        self.count_votes(&vertices, votes, Ghost(p), state)
    }

    /// Everybody in `list` who votes.
    pub open spec fn all_voters(
        &self,
        s: StateView,
        list: Seq<Digest>,
        votes: spec_fn(Certificate) -> bool,
    ) -> Set<PublicKey> {
        Set::new(
            |a: PublicKey|
                exists|d: Digest| #[trigger]
                    list.contains(d) && s.graph.observed.contains_key(d) && votes(
                        s.graph.observed[d],
                    ) && s.graph.observed[d].origin() == a,
        )
    }

    /// To stop counting once an honest voter is certain changes no decision:
    /// the counted stake reaches the threshold if and only if the stake of all
    /// voters does.
    pub proof fn law_counting_may_stop(
        &self,
        s: StateView,
        list: Seq<Digest>,
        votes: spec_fn(Certificate) -> bool,
    )
        ensures
            self.committee.weight(self.counted(s, list, votes)) >= self.committee.validity()
                <==> self.committee.weight(self.all_voters(s, list, votes))
                >= self.committee.validity(),
    {
        self.lemma_counted(s, list, votes);
        self.committee.lemma_weight_monotone(
            self.counted(s, list, votes),
            self.all_voters(s, list, votes),
        );
    }

    proof fn lemma_counted(
        &self,
        s: StateView,
        list: Seq<Digest>,
        votes: spec_fn(Certificate) -> bool,
    )
        ensures
            self.counted(s, list, votes).subset_of(self.all_voters(s, list, votes)),
            self.committee.weight(self.counted(s, list, votes)) < self.committee.validity()
                ==> self.counted(s, list, votes) == self.all_voters(s, list, votes),
        decreases list.len(),
    {
        let counted = self.counted(s, list, votes);
        let all = self.all_voters(s, list, votes);
        if list.len() == 0 {
            assert(counted =~= all);
        } else {
            let front = list.drop_last();
            let d = list.last();
            let before = self.counted(s, front, votes);
            self.lemma_counted(s, front, votes);
            self.committee.lemma_weight_monotone(before, counted);
            assert(list.contains(list[list.len() - 1]));
            assert forall|a: PublicKey| self.all_voters(s, front, votes).contains(
                a,
            ) implies all.contains(a) by {
                let x = choose|x: Digest| #[trigger]
                    front.contains(x) && s.graph.observed.contains_key(x) && votes(
                        s.graph.observed[x],
                    ) && s.graph.observed[x].origin() == a;
                let i = choose|i: int| 0 <= i < front.len() && front[i] == x;
                assert(list[i] == x);
                assert(list.contains(x));
            }
            if self.committee.weight(counted) < self.committee.validity() {
                assert forall|a: PublicKey| all.contains(a) implies counted.contains(a) by {
                    let x = choose|x: Digest| #[trigger]
                        list.contains(x) && s.graph.observed.contains_key(x) && votes(
                            s.graph.observed[x],
                        ) && s.graph.observed[x].origin() == a;
                    let i = choose|i: int| 0 <= i < list.len() && list[i] == x;
                    if i < front.len() {
                        assert(front[i] == x);
                        assert(front.contains(x));
                        assert(self.all_voters(s, front, votes).contains(a));
                    }
                }
                assert(counted =~= all);
            }
        }
    }
}

} // verus!
