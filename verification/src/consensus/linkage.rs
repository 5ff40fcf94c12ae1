//! Paths between leaders of the Dag.
use crate::consensus::model::{reaches, StateView};
use crate::consensus::paths::search;
use crate::consensus::rules::Consensus;
use crate::consensus::state::State;
use crate::ordered::group_ordered;
use crate::types::{Certificate, Digest, PublicKey, Round, Slot};
use vstd::prelude::*;

verus! {

/// Whether a block among `tips` has a strong edge to `digest`.
pub open spec fn referenced(tips: Set<Certificate>, digest: Digest) -> bool {
    exists|x: Certificate| #[trigger] tips.contains(x) && x.header.parents@.contains(digest)
}

impl StateView {
    /// The Dag blocks of `round` that strong edges through the Dag, one round at
    /// a time, lead to from `leader`.
    pub open spec fn tips(self, leader: Certificate, round: int) -> Set<Certificate>
        decreases leader.round() - round,
    {
        if round >= leader.round() {
            set![leader]
        } else {
            let above = self.tips(leader, round + 1);
            Set::new(
                |c: Certificate|
                    exists|a: PublicKey| #[trigger]
                        self.graph.dag.contains_key((round as Round, a))
                            && self.graph.dag[(round as Round, a)] == c && referenced(
                            above,
                            c.digest(),
                        ),
            )
        }
    }

    /// Whether strong edges lead from `leader` to `prev` one round at a time.
    pub open spec fn linked(self, leader: Certificate, prev: Certificate) -> bool {
        exists|c: Certificate| #[trigger]
            self.tips(leader, prev.round() as int).contains(c) && c.digest() == prev.digest()
    }

    /// Whether the Dag holds a block of `round`.
    pub open spec fn has_round(self, round: Round) -> bool {
        exists|a: PublicKey| #[trigger] self.graph.dag.contains_key((round, a))
    }

    /// Whether the block that `digest` stands for is in its slot of the Dag.
    pub open spec fn slotted(self, digest: Digest) -> bool {
        &&& self.graph.homes.contains_key(digest)
        &&& self.graph.dag.contains_key(self.graph.homes[digest])
        &&& self.graph.dag[self.graph.homes[digest]].digest() == digest
    }

    /// The block of a digest stands in the slot that the digest stands for, or
    /// in none.
    pub proof fn law_digest_has_one_slot(self, digest: Digest)
        requires
            self.placed(),
        ensures
            self.slotted(digest) <==> exists|s: Slot| #[trigger]
                self.graph.dag.contains_key(s) && self.graph.dag[s].digest() == digest,
    {
        if exists|s: Slot| #[trigger]
            self.graph.dag.contains_key(s) && self.graph.dag[s].digest() == digest {
            let s = choose|s: Slot| #[trigger]
                self.graph.dag.contains_key(s) && self.graph.dag[s].digest() == digest;
            assert(self.settled(self.graph.dag[s]));
        }
    }

    /// The strong and weak edges of a block in its slot of the Dag.
    pub open spec fn slot_edges(self) -> spec_fn(Digest) -> Set<Digest> {
        |d: Digest|
            if self.slotted(d) {
                self.graph.dag[self.graph.homes[d]].header.dependency_set()
            } else {
                Set::empty()
            }
    }

    /// Whether strong and weak edges through the Dag lead from `leader` to
    /// `prev`.
    pub open spec fn linked_by_strong_or_weak(self, leader: Certificate, prev: Certificate) -> bool {
        ||| leader.digest() == prev.digest()
        ||| reaches(leader.header.dependency_set(), self.slot_edges(), prev.digest())
    }
}

impl Consensus {
    /// Whether one of `tips` has a strong edge to `digest`.
    fn is_referenced(&self, tips: &Vec<Certificate>, digest: &Digest) -> (result: bool)
        ensures
            result == referenced(tips@.to_set(), *digest),
    {
        let mut i: usize = 0;
        while i < tips.len()
            invariant
                i <= tips@.len(),
                forall|j: int|
                    0 <= j < i ==> !(#[trigger] tips@[j]).header.parents@.contains(*digest),
            decreases tips@.len() - i,
        {
            if tips[i].header.parents.contains(digest) {
                proof {
                    assert(tips@.to_set().contains(tips@[i as int]));
                }
                return true;
            }
            i += 1;
        }
        proof {
            assert forall|x: Certificate| #[trigger]
                tips@.to_set().contains(x) implies !x.header.parents@.contains(*digest) by {
                let j = choose|j: int| 0 <= j < tips@.len() && tips@[j] == x;
                assert(tips@[j] == x);
            }
        }
        false
    }

    /// The Dag blocks of `round` that one of `tips` has a strong edge to.
    fn descend(&self, tips: &Vec<Certificate>, round: Round, state: &State) -> (result: Vec<
        Certificate,
    >)
        ensures
            forall|c: Certificate| #[trigger]
                result@.contains(c) <==> exists|a: PublicKey| #[trigger]
                    state@.graph.dag.contains_key((round, a)) && state@.graph.dag[(round, a)] == c
                        && referenced(tips@.to_set(), c.digest()),
    {
        broadcast use group_ordered;

        let ghost slots = state.graph.dag.key_seq();
        let ghost dag = state@.graph.dag;
        let ghost above = tips@.to_set();
        let mut result: Vec<Certificate> = Vec::new();
        let count = state.graph.dag.len();
        let mut i: usize = 0;
        while i < count
            invariant
                count == slots.len(),
                slots == state.graph.dag.key_seq(),
                dag == state@.graph.dag,
                above == tips@.to_set(),
                i <= count,
                forall|c: Certificate| #[trigger]
                    result@.contains(c) <==> exists|j: int|
                        0 <= j < i && (#[trigger] slots[j]).0 == round && dag[slots[j]] == c
                            && referenced(above, c.digest()),
            decreases count - i,
        {
            let slot = state.graph.dag.key_at(i);
            let block = state.graph.dag.value_at(i);
            let ghost had = result@;
            if slot.0 == round && self.is_referenced(tips, &block.digest()) {
                result.push(block.clone());
                proof {
                    assert(result@[had.len() as int] == *block);
                }
            }
            proof {
                assert forall|c: Certificate| #[trigger]
                    result@.contains(c) <==> exists|j: int|
                        0 <= j < i + 1 && (#[trigger] slots[j]).0 == round && dag[slots[j]] == c
                            && referenced(above, c.digest()) by {
                    if result@.contains(c) {
                        let k = choose|k: int| 0 <= k < result@.len() && result@[k] == c;
                        if k < had.len() {
                            assert(had[k] == c);
                            assert(had.contains(c));
                            let j = choose|j: int|
                                0 <= j < i && (#[trigger] slots[j]).0 == round && dag[slots[j]] == c
                                    && referenced(above, c.digest());
                            assert(slots[j].0 == round);
                        } else {
                            assert(slots[i as int].0 == round);
                        }
                    }
                    if exists|j: int|
                        0 <= j < i + 1 && (#[trigger] slots[j]).0 == round && dag[slots[j]] == c
                            && referenced(above, c.digest()) {
                        let j = choose|j: int|
                            0 <= j < i + 1 && (#[trigger] slots[j]).0 == round && dag[slots[j]] == c
                                && referenced(above, c.digest());
                        if j < i {
                            assert(had.contains(c));
                            let k = choose|k: int| 0 <= k < had.len() && had[k] == c;
                            assert(result@[k] == c);
                        }
                    }
                }
            }
            i += 1;
        }
        proof {
            assert forall|c: Certificate| #[trigger]
                result@.contains(c) <==> exists|a: PublicKey| #[trigger]
                    dag.contains_key((round, a)) && dag[(round, a)] == c && referenced(
                        above,
                        c.digest(),
                    ) by {
                if result@.contains(c) {
                    let j = choose|j: int|
                        0 <= j < slots.len() && (#[trigger] slots[j]).0 == round && dag[slots[j]]
                            == c && referenced(above, c.digest());
                    assert(slots.to_set().contains(slots[j]));
                    assert(slots[j] == (round, slots[j].1));
                    assert(dag.contains_key((round, slots[j].1)));
                }
                if exists|a: PublicKey| #[trigger]
                    dag.contains_key((round, a)) && dag[(round, a)] == c && referenced(
                        above,
                        c.digest(),
                    ) {
                    let a = choose|a: PublicKey| #[trigger]
                        dag.contains_key((round, a)) && dag[(round, a)] == c && referenced(
                            above,
                            c.digest(),
                        );
                    assert(slots.to_set().contains((round, a)));
                    let j = choose|j: int| 0 <= j < slots.len() && slots[j] == (round, a);
                    assert(slots[j].0 == round);
                }
            }
        }
        result
    }

    /// Whether strong edges lead from one leader to another one round at a
    /// time. The Dag must hold the rounds between them.
    pub fn linked(&self, leader: &Certificate, prev_leader: &Certificate, state: &State) -> (result:
        bool)
        requires
            forall|r: Round| #![trigger state@.has_round(r)]
                prev_leader.round() <= r < leader.round() ==> state@.has_round(r),
        ensures
            result == state@.linked(*leader, *prev_leader),
    {
        let mut tips: Vec<Certificate> = Vec::new();
        tips.push(leader.clone());
        let mut round: Round = if prev_leader.round() < leader.round() {
            leader.round()
        } else {
            prev_leader.round()
        };
        proof {
            assert(tips@ =~= seq![*leader]);
            assert(tips@.to_set() =~= set![*leader]) by {
                assert(tips@[0] == *leader);
            }
        }
        while round > prev_leader.round()
            invariant
                prev_leader.round() <= round,
                round > prev_leader.round() ==> round <= leader.round(),
                tips@.to_set() == state@.tips(*leader, round as int),
            decreases round,
        {
            let ghost above = tips@;
            round -= 1;
            tips = self.descend(&tips, round, state);
            proof {
                let expected = state@.tips(*leader, round as int);
                assert forall|c: Certificate| tips@.to_set().contains(c) == expected.contains(c) by {
                    assert(tips@.to_set().contains(c) == tips@.contains(c));
                }
                assert(tips@.to_set() =~= expected);
            }
        }
        let mut i: usize = 0;
        while i < tips.len()
            invariant
                i <= tips@.len(),
                tips@.to_set() == state@.tips(*leader, prev_leader.round() as int),
                forall|j: int|
                    0 <= j < i ==> (#[trigger] tips@[j]).digest() != prev_leader.digest(),
            decreases tips@.len() - i,
        {
            if tips[i].digest() == prev_leader.digest() {
                proof {
                    assert(tips@.to_set().contains(tips@[i as int]));
                }
                return true;
            }
            i += 1;
        }
        proof {
            assert forall|c: Certificate| #[trigger]
                state@.tips(*leader, prev_leader.round() as int).contains(c) implies c.digest()
                != prev_leader.digest() by {
                assert(tips@.to_set().contains(c));
                let j = choose|j: int| 0 <= j < tips@.len() && tips@[j] == c;
                assert(tips@[j] == c);
            }
        }
        false
    }

    /// Whether any combination of strong and weak edges through the Dag leads
    /// from one leader to another. Weak edges may skip rounds.
    pub fn linked_by_strong_or_weak(
        &self,
        leader: &Certificate,
        prev_leader: &Certificate,
        state: &State,
    ) -> (result: bool)
        requires
            state@.wf(),
        ensures
            result == state@.linked_by_strong_or_weak(*leader, *prev_leader),
    {
        broadcast use group_ordered;

        let target = prev_leader.digest();
        if leader.digest() == target {
            return true;
        }
        let ghost edges = state@.slot_edges();
        let next = |d: &Digest| -> (dependencies: Vec<Digest>)
            ensures
                dependencies@.to_set() == edges(*d),
            {
                let mut found: Vec<Digest> = Vec::new();
                proof {
                    assert(found@.to_set() =~= Set::<Digest>::empty());
                }
                if let Some(home) = state.graph.homes.get(d) {
                    if let Some(block) = state.graph.dag.get(home) {
                        if block.digest() == *d {
                            found = block.header.edges();
                            proof {
                                block.header.lemma_dependencies();
                                assert forall|x: Digest| found@.to_set().contains(x)
                                    == block.header.dependency_set().contains(x) by {
                                    assert(block.header.dependencies().contains(x)
                                        == block.header.depends_on(x));
                                }
                                assert(found@.to_set() =~= block.header.dependency_set());
                            }
                        }
                    }
                }
                found
            };
        let roots = leader.header.edges();
        proof {
            leader.header.lemma_dependencies();
            assert forall|x: Digest| roots@.to_set().contains(x)
                == leader.header.dependency_set().contains(x) by {
                assert(leader.header.dependencies().contains(x) == leader.header.depends_on(x));
            }
            assert(roots@.to_set() =~= leader.header.dependency_set());
        }
        search(roots, &target, next, Ghost(edges), Ghost(state@.graph.homes.dom()))
    }

    /// The earlier leaders, from round `r` down in steps of two, that are linked
    /// one to the next from `leader` on.
    pub open spec fn chain(&self, s: StateView, leader: Certificate, r: int) -> Seq<Certificate>
        decreases r,
    {
        if r < s.commits.last_committed_round + 2 {
            Seq::empty()
        } else {
            match self.spec_leader(s, r as Round) {
                Some(prev) => if s.linked(leader, prev) {
                    seq![prev] + self.chain(s, prev, r - 2)
                } else {
                    self.chain(s, leader, r - 2)
                },
                None => self.chain(s, leader, r - 2),
            }
        }
    }

    /// Whether the Dag holds the rounds between the leaders that are tried for a
    /// link, from round `r` down.
    pub open spec fn can_chain(&self, s: StateView, leader: Certificate, r: int) -> bool
        decreases r,
    {
        if r < s.commits.last_committed_round + 2 {
            true
        } else {
            match self.spec_leader(s, r as Round) {
                Some(prev) => {
                    &&& forall|x: Round| #![trigger s.has_round(x)]
                        prev.round() <= x < leader.round() ==> s.has_round(x)
                    &&& if s.linked(leader, prev) {
                        self.can_chain(s, prev, r - 2)
                    } else {
                        self.can_chain(s, leader, r - 2)
                    }
                },
                None => self.can_chain(s, leader, r - 2),
            }
        }
    }

    /// A leader and the linked leaders before it that are not committed, every
    /// second round from the round before the leader on. The Dag must hold the
    /// rounds between the leaders that are tried.
    pub fn order_leaders(&self, leader: &Certificate, state: &State) -> (result: Vec<Certificate>)
        requires
            self.wf(),
            state@.wf(),
            self.can_chain(state@, *leader, leader.round() - 1),
        ensures
            result@ == seq![*leader] + self.chain(state@, *leader, leader.round() - 1),
    {
        let ghost goal = seq![*leader] + self.chain(state@, *leader, leader.round() - 1);
        let latest = state.commits.last_committed_round;
        let mut result: Vec<Certificate> = Vec::new();
        result.push(leader.clone());
        let mut current = leader.clone();
        // One more than the round that is looked at next.
        let mut above: Round = leader.round();
        proof {
            assert(result@ =~= seq![*leader]);
        }
        while above > latest && above - latest > 2
            invariant
                self.wf(),
                state@.wf(),
                latest == state@.commits.last_committed_round,
                above <= leader.round(),
                current.round() <= leader.round(),
                self.can_chain(state@, current, above - 1),
                result@ + self.chain(state@, current, above - 1) == goal,
            decreases above,
        {
            let ghost done = result@;
            let round: Round = above - 1;
            if let Some(prev) = self.leader(round, state) {
                proof {
                    assert(state@.graph.dag.contains_key((round, self.lead(round))));
                    assert(prev.round() == round);
                }
                if self.linked(&current, &prev, state) {
                    result.push(prev.clone());
                    current = prev;
                    proof {
                        assert(result@ + self.chain(state@, current, round - 2) =~= done + (seq![
                            prev,
                        ] + self.chain(state@, prev, round - 2)));
                    }
                }
            }
            above = round - 1;
        }
        proof {
            assert(self.chain(state@, current, above - 1) == Seq::<Certificate>::empty());
            assert(result@ + Seq::<Certificate>::empty() =~= result@);
        }
        result
    }
}

} // verus!
