//! The values that the protocol works on.
use crate::ordered::{group_ordered, Key, OrdSet};
use std::sync::Arc;
use vstd::prelude::*;

verus! {

/// The index of a round of the DAG.
pub type Round = u64;

/// The voting power of an authority.
pub type Stake = u32;

/// Identifies a worker of an authority.
pub type WorkerId = u32;

/// No block of a later round is admitted, so that the rounds that the commit
/// rules look ahead to can be represented.
pub const LAST_ROUND: Round = 0xffff_ffff_ffff_fffc;

/// A 32-byte digest, held as its two big-endian halves.
#[derive(Clone, Copy, Debug, PartialEq, Eq, PartialOrd, Ord, Hash, Default, Structural)]
pub struct Digest {
    /// The first 16 bytes.
    pub hi: u128,
    /// The last 16 bytes.
    pub lo: u128,
}

/// A 32-byte public key, held as its two big-endian halves.
#[derive(Clone, Copy, Debug, PartialEq, Eq, PartialOrd, Ord, Hash, Default, Structural)]
pub struct PublicKey {
    /// The first 16 bytes.
    pub hi: u128,
    /// The last 16 bytes.
    pub lo: u128,
}

impl Key for Digest {
    open spec fn before(self, other: Self) -> bool {
        self.hi < other.hi || (self.hi == other.hi && self.lo < other.lo)
    }

    proof fn irreflexive(a: Self) {
    }

    proof fn transitive(a: Self, b: Self, c: Self) {
    }

    proof fn connected(a: Self, b: Self) {
    }

    fn is_before(&self, other: &Self) -> (result: bool) {
        self.hi < other.hi || (self.hi == other.hi && self.lo < other.lo)
    }

    fn dup(&self) -> (result: Self) {
        *self
    }
}

impl Key for PublicKey {
    open spec fn before(self, other: Self) -> bool {
        self.hi < other.hi || (self.hi == other.hi && self.lo < other.lo)
    }

    proof fn irreflexive(a: Self) {
    }

    proof fn transitive(a: Self, b: Self, c: Self) {
    }

    proof fn connected(a: Self, b: Self) {
    }

    fn is_before(&self, other: &Self) -> (result: bool) {
        self.hi < other.hi || (self.hi == other.hi && self.lo < other.lo)
    }

    fn dup(&self) -> (result: Self) {
        *self
    }
}

/// The place of a block in the DAG: one per round and author.
pub type Slot = (Round, PublicKey);

/// A 64-byte signature, which is carried along and never looked into.
#[derive(Clone, Copy, Debug, PartialEq, Eq, Default)]
pub struct Signature {
    /// The first 32 bytes.
    pub part1: [u8; 32],
    /// The last 32 bytes.
    pub part2: [u8; 32],
}

/// A block header.
#[derive(Debug, PartialEq, Eq)]
pub struct Header {
    /// The digest of the header.
    pub id: Digest,
    /// The digest under which the certified block is referenced: a hash over
    /// the header's `id`, `round` and `author`.
    pub block: Digest,
    /// The authority that proposed the header.
    pub author: PublicKey,
    /// The round of the header.
    pub round: Round,
    /// The batches that the header carries.
    pub payload: Vec<(Digest, WorkerId)>,
    /// Strong edges, to blocks of the previous round.
    pub parents: OrdSet<Digest>,
    /// Weak edges, to older blocks.
    pub weak_edges: OrdSet<Digest>,
    /// Virtual edges, to grade-1 blocks of the previous round.
    pub virtual_edges: OrdSet<Digest>,
    /// The signature of the author.
    pub signature: Signature,
}

impl Header {
    /// The slot of the header.
    pub open spec fn slot(&self) -> Slot {
        (self.round, self.author)
    }

    /// The blocks that must be ordered before this one: its strong edges, then
    /// its weak edges.
    pub open spec fn dependencies(&self) -> Seq<Digest> {
        self.parents.seq() + self.weak_edges.seq()
    }

    /// The strong and weak edges as a set.
    pub open spec fn dependency_set(&self) -> Set<Digest> {
        self.parents@.union(self.weak_edges@)
    }

    /// Whether `digest` is a strong or weak edge.
    pub open spec fn depends_on(&self, digest: Digest) -> bool {
        self.parents@.contains(digest) || self.weak_edges@.contains(digest)
    }

    /// The dependencies in sequence and as a set.
    pub proof fn lemma_dependencies(&self)
        ensures
            forall|d: Digest| #[trigger] self.dependencies().contains(d) <==> self.depends_on(d),
    {
        broadcast use group_ordered;

        let parents = self.parents.seq();
        let weak = self.weak_edges.seq();
        assert forall|d: Digest| #[trigger] self.dependencies().contains(d) <==> self.depends_on(
            d,
        ) by {
            assert(self.parents@.contains(d) == parents.to_set().contains(d));
            assert(self.weak_edges@.contains(d) == weak.to_set().contains(d));
            if self.dependencies().contains(d) {
                let i = choose|i: int|
                    0 <= i < self.dependencies().len() && self.dependencies()[i] == d;
                if i < parents.len() {
                    assert(parents[i] == d);
                } else {
                    assert(weak[i - parents.len()] == d);
                }
            }
            if parents.contains(d) {
                let i = choose|i: int| 0 <= i < parents.len() && parents[i] == d;
                assert(self.dependencies()[i] == d);
            }
            if weak.contains(d) {
                let i = choose|i: int| 0 <= i < weak.len() && weak[i] == d;
                assert(self.dependencies()[parents.len() + i] == d);
            }
        }
    }

    /// Collects the strong edges, then the weak edges.
    pub fn edges(&self) -> (result: Vec<Digest>)
        ensures
            result@ == self.dependencies(),
    {
        let mut result = self.parents.items();
        let mut weak = self.weak_edges.items();
        result.append(&mut weak);
        result
    }
}

/// Calls `Arc::clone`, which makes another pointer to the same value.
#[verifier::external_body]
pub(crate) fn share<T>(shared: &Arc<T>) -> (result: Arc<T>)
    ensures
        result == *shared,
{
    Arc::clone(shared)
}

/// A header with the votes that certify it. A block that was observed before
/// its certificate has no votes.
#[derive(Debug, PartialEq, Eq)]
pub struct Certificate {
    /// The certified header.
    pub header: Arc<Header>,
    /// The votes for the header.
    pub votes: Arc<Vec<(PublicKey, Signature)>>,
}

impl Clone for Certificate {
    fn clone(&self) -> (result: Self)
        ensures
            result == *self,
    {
        Certificate { header: share(&self.header), votes: share(&self.votes) }
    }
}

impl Certificate {
    /// The digest under which the block is referenced.
    pub open spec fn spec_digest(&self) -> Digest {
        self.header.block
    }

    /// The slot of the block.
    pub open spec fn slot(&self) -> Slot {
        self.header.slot()
    }

    /// The header itself.
    pub open spec fn content(&self) -> Header {
        *self.header
    }

    /// The round of the block.
    #[verifier::when_used_as_spec(spec_round)]
    pub fn round(&self) -> (result: Round)
        ensures
            result == self.spec_round(),
    {
        self.header.round
    }

    /// The round of the block.
    pub open spec fn spec_round(&self) -> Round {
        self.header.round
    }

    /// The author of the block.
    #[verifier::when_used_as_spec(spec_origin)]
    pub fn origin(&self) -> (result: PublicKey)
        ensures
            result == self.spec_origin(),
    {
        self.header.author
    }

    /// The author of the block.
    pub open spec fn spec_origin(&self) -> PublicKey {
        self.header.author
    }

    /// The digest under which the block is referenced.
    #[verifier::when_used_as_spec(spec_digest)]
    pub fn digest(&self) -> (result: Digest)
        ensures
            result == self.spec_digest(),
    {
        self.header.block
    }
}

} // verus!
