//! The committee and its quorums.
use crate::ordered::{
    ascending, group_ordered, lemma_ascending_distinct, lemma_take_contains, OrdMap,
};
use crate::types::{PublicKey, Round, Stake};
use vstd::prelude::*;

verus! {

/// The voting power of the members of `voters` among the first `n` authorities.
pub open spec fn weight_upto(
    keys: Seq<PublicKey>,
    stakes: Map<PublicKey, Stake>,
    voters: Set<PublicKey>,
    n: int,
) -> nat
    decreases n,
{
    if n <= 0 {
        0
    } else {
        weight_upto(keys, stakes, voters, n - 1) + (if voters.contains(keys[n - 1]) {
            stakes[keys[n - 1]] as nat
        } else {
            0
        })
    }
}

/// The authorities and their stakes.
#[derive(Debug, PartialEq, Eq)]
pub struct Committee {
    /// The stake of every authority.
    pub authorities: OrdMap<PublicKey, Stake>,
}

impl Committee {
    /// The authorities in the order of their keys.
    pub open spec fn members(&self) -> Seq<PublicKey> {
        self.authorities.key_seq()
    }

    /// The stake of one authority. Strangers have none.
    pub open spec fn spec_stake(&self, name: PublicKey) -> Stake {
        if self.authorities@.contains_key(name) {
            self.authorities@[name]
        } else {
            0
        }
    }

    /// The stake that the authorities in `voters` hold together, each counted
    /// once.
    pub open spec fn weight(&self, voters: Set<PublicKey>) -> nat {
        weight_upto(self.members(), self.authorities@, voters, self.members().len() as int)
    }

    /// The stake of all authorities.
    pub open spec fn total(&self) -> nat {
        self.weight(Set::full())
    }

    /// More than two thirds of the total stake.
    pub open spec fn quorum(&self) -> nat {
        2 * self.total() / 3 + 1
    }

    /// At least one third of the total stake: some holder is honest.
    pub open spec fn validity(&self) -> nat {
        (self.total() + 2) / 3
    }

    /// There is an authority, and the thresholds can be computed.
    pub open spec fn wf(&self) -> bool {
        &&& self.members().len() > 0
        &&& ascending(self.members())
        &&& 2 * self.total() <= u32::MAX
    }

    proof fn lemma_weight_monotone_upto(&self, a: Set<PublicKey>, b: Set<PublicKey>, n: int)
        requires
            a.subset_of(b),
        ensures
            weight_upto(self.members(), self.authorities@, a, n) <= weight_upto(
                self.members(),
                self.authorities@,
                b,
                n,
            ),
        decreases n,
    {
        if n > 0 {
            self.lemma_weight_monotone_upto(a, b, n - 1);
        }
    }

    /// More voters never weigh less.
    pub proof fn lemma_weight_monotone(&self, a: Set<PublicKey>, b: Set<PublicKey>)
        requires
            a.subset_of(b),
        ensures
            self.weight(a) <= self.weight(b),
            self.weight(b) <= self.total(),
    {
        self.lemma_weight_monotone_upto(a, b, self.members().len() as int);
        self.lemma_weight_monotone_upto(b, Set::full(), self.members().len() as int);
    }

    proof fn lemma_weight_empty_upto(&self, n: int)
        ensures
            weight_upto(self.members(), self.authorities@, Set::empty(), n) == 0,
        decreases n,
    {
        if n > 0 {
            self.lemma_weight_empty_upto(n - 1);
        }
    }

    /// Nobody weighs nothing.
    pub proof fn lemma_weight_empty(&self)
        ensures
            self.weight(Set::empty()) == 0,
    {
        self.lemma_weight_empty_upto(self.members().len() as int);
    }

    proof fn lemma_weight_insert_upto(&self, voters: Set<PublicKey>, name: PublicKey, n: int)
        requires
            ascending(self.members()),
            !voters.contains(name),
            0 <= n <= self.members().len(),
        ensures
            weight_upto(self.members(), self.authorities@, voters.insert(name), n) == weight_upto(
                self.members(),
                self.authorities@,
                voters,
                n,
            ) + (if self.members().take(n).contains(name) {
                self.authorities@[name] as nat
            } else {
                0
            }),
        decreases n,
    {
        let keys = self.members();
        if n > 0 {
            self.lemma_weight_insert_upto(voters, name, n - 1);
            lemma_take_contains(keys, n - 1);
            lemma_ascending_distinct(keys);
            assert(n - 1 + 1 == n);
            if keys[n - 1] == name && keys.take(n - 1).contains(name) {
                let front = keys.take(n - 1);
                let j = choose|j: int| 0 <= j < front.len() && front[j] == name;
                assert(keys[j] == name);
            }
        }
    }

    /// A further voter adds its own stake.
    pub proof fn lemma_weight_insert(&self, voters: Set<PublicKey>, name: PublicKey)
        requires
            ascending(self.members()),
            !voters.contains(name),
        ensures
            self.weight(voters.insert(name)) == self.weight(voters) + self.spec_stake(name),
    {
        broadcast use group_ordered;

        let n = self.members().len() as int;
        self.lemma_weight_insert_upto(voters, name, n);
        assert(self.members().take(n) =~= self.members());
        assert(self.members().to_set().contains(name) == self.authorities@.contains_key(name));
    }

    proof fn lemma_weight_split_upto(&self, a: Set<PublicKey>, b: Set<PublicKey>, n: int)
        ensures
            weight_upto(self.members(), self.authorities@, a, n) + weight_upto(
                self.members(),
                self.authorities@,
                b,
                n,
            ) == weight_upto(self.members(), self.authorities@, a.union(b), n) + weight_upto(
                self.members(),
                self.authorities@,
                a.intersect(b),
                n,
            ),
        decreases n,
    {
        if n > 0 {
            self.lemma_weight_split_upto(a, b, n - 1);
        }
    }

    /// Inclusion and exclusion for stake.
    pub proof fn lemma_weight_union(&self, a: Set<PublicKey>, b: Set<PublicKey>)
        ensures
            self.weight(a) + self.weight(b) == self.weight(a.union(b)) + self.weight(
                a.intersect(b),
            ),
    {
        self.lemma_weight_split_upto(a, b, self.members().len() as int);
    }

    /// Whether the authorities in `voters` hold more than two thirds of all
    /// stake.
    pub open spec fn holds_two_thirds(&self, voters: Set<PublicKey>) -> bool {
        3 * self.weight(voters) > 2 * self.weight(self.members().to_set())
    }

    /// Whether the authorities in `voters` hold a third of all stake or more.
    pub open spec fn holds_third(&self, voters: Set<PublicKey>) -> bool {
        3 * self.weight(voters) >= self.weight(self.members().to_set())
    }

    /// Stake adds up: nobody holds nothing, and one more voter adds the stake
    /// of that voter, which is 0 for a stranger. All stake is that of the
    /// authorities.
    pub proof fn law_stake_adds_up(&self, voters: Set<PublicKey>, name: PublicKey)
        requires
            ascending(self.members()),
        ensures
            self.weight(Set::empty()) == 0,
            !voters.contains(name) && self.authorities@.contains_key(name) ==> self.weight(
                voters.insert(name),
            ) == self.weight(voters) + self.authorities@[name],
            !self.authorities@.contains_key(name) ==> self.weight(voters.insert(name))
                == self.weight(voters),
            self.total() == self.weight(self.members().to_set()),
    {
        self.lemma_weight_empty();
        if voters.contains(name) {
            assert(voters.insert(name) =~= voters);
        } else {
            self.lemma_weight_insert(voters, name);
        }
        self.lemma_weight_of_members(self.members().len() as int);
    }

    /// A quorum is more than two thirds of all stake and no more is asked. The
    /// stake that guarantees an honest holder is a third of all.
    pub proof fn law_thresholds(&self, voters: Set<PublicKey>)
        ensures
            self.weight(voters) >= self.quorum() <==> self.holds_two_thirds(voters),
            self.weight(voters) >= self.validity() <==> self.holds_third(voters),
    {
        self.lemma_weight_of_members(self.members().len() as int);
    }

    /// Any two quorums share enough stake to contain an honest authority.
    pub proof fn law_quorums_intersect(&self, a: Set<PublicKey>, b: Set<PublicKey>)
        requires
            self.weight(a) >= self.quorum(),
            self.weight(b) >= self.quorum(),
        ensures
            self.weight(a.intersect(b)) >= self.validity(),
    {
        self.lemma_weight_union(a, b);
        self.lemma_weight_monotone(a.union(b), Set::full());
    }

    /// The authorities outside a quorum are no quorum themselves, nor do they
    /// hold the stake that guarantees an honest holder.
    pub proof fn law_quorum_is_unique(&self, a: Set<PublicKey>, b: Set<PublicKey>)
        requires
            self.weight(a) >= self.quorum(),
            a.disjoint(b),
        ensures
            self.weight(b) < self.quorum(),
            self.weight(b) < self.validity(),
    {
        self.lemma_weight_union(a, b);
        assert(a.intersect(b) =~= Set::empty());
        self.lemma_weight_empty();
        self.lemma_weight_monotone(a.union(b), Set::full());
    }

    /// Senders that hold the stake which no faulty set holds are not all faulty.
    pub proof fn law_some_sender_is_honest(&self, senders: Set<PublicKey>, faulty: Set<PublicKey>)
        requires
            self.weight(senders) >= self.validity(),
            self.weight(faulty) < self.validity(),
        ensures
            exists|a: PublicKey| #[trigger] senders.contains(a) && !faulty.contains(a),
    {
        if senders.subset_of(faulty) {
            self.lemma_weight_monotone(senders, faulty);
        }
        let a = choose|a: PublicKey| #[trigger] senders.contains(a) && !faulty.contains(a);
        assert(senders.contains(a) && !faulty.contains(a));
    }

    /// Forms a committee. There is none without authorities, nor where the
    /// thresholds cannot be computed.
    pub fn new(authorities: OrdMap<PublicKey, Stake>) -> (result: Option<Committee>)
        ensures
            match result {
                Some(committee) => committee.authorities@ == authorities@ && committee.wf(),
                None => !(Committee { authorities }).wf(),
            },
    {
        let committee = Committee { authorities };
        let keys = committee.authorities.keys();
        let mut sum: u64 = 0;
        let mut i: usize = 0;
        while i < keys.len()
            invariant
                i <= keys@.len(),
                committee == (Committee { authorities }),
                keys@ == committee.members(),
                sum == weight_upto(
                    committee.members(),
                    committee.authorities@,
                    Set::full(),
                    i as int,
                ),
                sum <= 0x7fff_ffff,
            decreases keys@.len() - i,
        {
            sum = sum + *committee.authorities.value_at(i) as u64;
            i += 1;
            if sum > 0x7fff_ffff {
                proof {
                    committee.lemma_partial_weight(i as int, keys@.len() as int);
                }
                return None;
            }
        }
        if keys.len() == 0 {
            None
        } else {
            Some(committee)
        }
    }

    proof fn lemma_partial_weight(&self, m: int, n: int)
        requires
            0 <= m <= n,
        ensures
            weight_upto(self.members(), self.authorities@, Set::full(), m) <= weight_upto(
                self.members(),
                self.authorities@,
                Set::full(),
                n,
            ),
        decreases n,
    {
        if m < n {
            self.lemma_partial_weight(m, n - 1);
        }
    }

    /// The stake of `name`.
    pub fn stake(&self, name: &PublicKey) -> (result: Stake)
        ensures
            result == self.spec_stake(*name),
    {
        match self.authorities.get(name) {
            Some(stake) => *stake,
            None => 0,
        }
    }

    /// The number of authorities.
    pub fn size(&self) -> (result: usize)
        ensures
            result == self.members().len(),
    {
        self.authorities.len()
    }

    /// The stake that `voters` hold together.
    pub fn stake_of(&self, voters: &Vec<PublicKey>) -> (result: Stake)
        requires
            self.wf(),
            voters@.no_duplicates(),
        ensures
            result == self.weight(voters@.to_set()),
    {
        let mut sum: Stake = 0;
        let mut i: usize = 0;
        proof {
            self.lemma_weight_empty();
            assert(voters@.take(0).to_set() =~= Set::empty());
        }
        while i < voters.len()
            invariant
                i <= voters@.len(),
                self.wf(),
                voters@.no_duplicates(),
                sum == self.weight(voters@.take(i as int).to_set()),
            decreases voters@.len() - i,
        {
            proof {
                let front = voters@.take(i as int);
                let name = voters@[i as int];
                lemma_take_contains(voters@, i as int);
                assert(voters@.take(i + 1).to_set() =~= front.to_set().insert(name));
                if front.contains(name) {
                    let j = choose|j: int| 0 <= j < front.len() && front[j] == name;
                    assert(voters@[j] == name);
                }
                self.lemma_weight_insert(front.to_set(), name);
                self.lemma_weight_monotone(front.to_set().insert(name), Set::full());
            }
            sum = sum + self.stake(&voters[i]);
            i += 1;
        }
        proof {
            assert(voters@.take(voters@.len() as int) =~= voters@);
        }
        sum
    }

    /// The stake of all authorities.
    fn total_stake(&self) -> (result: Stake)
        requires
            self.wf(),
        ensures
            result == self.total(),
    {
        let keys = self.authorities.keys();
        proof {
            lemma_ascending_distinct(keys@);
            self.lemma_weight_of_members(self.members().len() as int);
        }
        self.stake_of(&keys)
    }

    proof fn lemma_weight_of_members(&self, n: int)
        requires
            0 <= n <= self.members().len(),
        ensures
            weight_upto(self.members(), self.authorities@, self.members().to_set(), n)
                == weight_upto(self.members(), self.authorities@, Set::full(), n),
        decreases n,
    {
        if n > 0 {
            self.lemma_weight_of_members(n - 1);
            assert(self.members().contains(self.members()[n - 1]));
        }
    }

    /// The stake of a quorum (2f+1).
    pub fn quorum_threshold(&self) -> (result: Stake)
        requires
            self.wf(),
        ensures
            result == self.quorum(),
            3 * result > 2 * self.weight(self.members().to_set()) >= 3 * (result - 1),
    {
        proof {
            self.lemma_weight_of_members(self.members().len() as int);
        }
        2 * self.total_stake() / 3 + 1
    }

    /// The stake that guarantees an honest holder (f+1).
    pub fn validity_threshold(&self) -> (result: Stake)
        requires
            self.wf(),
        ensures
            result == self.validity(),
            3 * result >= self.weight(self.members().to_set()) > 3 * (result - 1),
    {
        proof {
            self.lemma_weight_of_members(self.members().len() as int);
        }
        (self.total_stake() + 2) / 3
    }

    /// The authority whose turn it is in `round`, round-robin by key.
    pub open spec fn turn(&self, round: int) -> PublicKey {
        self.members()[round % (self.members().len() as int)]
    }

    /// The authority whose turn it is in `round`.
    pub fn on_turn(&self, round: Round) -> (result: PublicKey)
        requires
            self.wf(),
        ensures
            result == self.turn(round as int),
    {
        let size: u64 = self.size() as u64;
        let at: usize = (round % size) as usize;
        self.authorities.key_at(at)
    }
}

} // verus!
