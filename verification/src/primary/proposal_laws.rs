//! What a node proposes, and that the others accept it.
use crate::committee::Committee;
use crate::ordered::{in_order, lemma_in_order_of};
use crate::primary::aggregators::GatherView;
use crate::primary::machine::{EffectView, Reply, Step};
use crate::primary::messages::DagError;
use crate::primary::node::{Core, CoreView};
use crate::primary::references::{others_fit, parent_stake, reference_error, strong_fit};
use crate::types::{Certificate, Digest, Header, PublicKey, Round, Slot};
use vstd::prelude::*;

verus! {

// ----- The reference check -----

/// The authors of the blocks in `referenced` that are strong parents of a
/// header.
pub open spec fn parent_authors(header: Header, referenced: Seq<Certificate>) -> Set<PublicKey> {
    Set::new(
        |a: PublicKey|
            exists|i: int|
                0 <= i < referenced.len() && (#[trigger] referenced[i]).origin() == a
                    && header.parents@.contains(referenced[i].digest()),
    )
}

/// The stake of the strong parents is at least that of their authors, and just
/// that where no two of them have one author.
proof fn lemma_parent_stake(committee: &Committee, header: Header, referenced: Seq<Certificate>)
    requires
        committee.wf(),
    ensures
        parent_stake(committee, header, referenced) >= committee.weight(
            parent_authors(header, referenced),
        ),
        (forall|i: int, j: int|
            0 <= i < j < referenced.len() ==> (#[trigger] referenced[i]).origin() != (
            #[trigger] referenced[j]).origin()) ==> parent_stake(committee, header, referenced)
            == committee.weight(parent_authors(header, referenced)),
    decreases referenced.len(),
{
    let all = parent_authors(header, referenced);
    if referenced.len() == 0 {
        assert(all =~= Set::empty());
        committee.lemma_weight_empty();
    } else {
        let rest = referenced.drop_last();
        let c = referenced.last();
        let before = parent_authors(header, rest);
        lemma_parent_stake(committee, header, rest);
        assert forall|a: PublicKey| before.contains(a) implies all.contains(a) by {
            let i = choose|i: int|
                0 <= i < rest.len() && (#[trigger] rest[i]).origin() == a
                    && header.parents@.contains(rest[i].digest());
            assert(referenced[i] == rest[i]);
        }
        assert forall|a: PublicKey| all.contains(a) implies before.contains(a) || (
        header.parents@.contains(c.digest()) && a == c.origin()) by {
            let i = choose|i: int|
                0 <= i < referenced.len() && (#[trigger] referenced[i]).origin() == a
                    && header.parents@.contains(referenced[i].digest());
            if i < rest.len() {
                assert(rest[i] == referenced[i]);
            }
        }
        if header.parents@.contains(c.digest()) {
            assert(referenced[referenced.len() - 1] == c);
            assert(all =~= before.insert(c.origin()));
            if before.contains(c.origin()) {
                assert(all =~= before);
                let i = choose|i: int|
                    0 <= i < rest.len() && (#[trigger] rest[i]).origin() == c.origin()
                        && header.parents@.contains(rest[i].digest());
                assert(referenced[i].origin() == referenced[referenced.len() - 1].origin());
            } else {
                committee.lemma_weight_insert(before, c.origin());
            }
        } else {
            assert(all =~= before);
        }
        if forall|i: int, j: int|
            0 <= i < j < referenced.len() ==> (#[trigger] referenced[i]).origin() != (
            #[trigger] referenced[j]).origin() {
            assert forall|i: int, j: int| 0 <= i < j < rest.len() implies (
            #[trigger] rest[i]).origin() != (#[trigger] rest[j]).origin() by {
                assert(referenced[i].origin() != referenced[j].origin());
            }
        }
    }
}

/// A header is accepted if all its strong parents are of the round before and
/// authors of more than two thirds of the stake are among theirs, its weak
/// edges lead two rounds down or further, and its virtual edges lead into the
/// round before.
pub proof fn law_sound_references_are_accepted(
    committee: &Committee,
    header: Header,
    referenced: Seq<Certificate>,
)
    requires
        committee.wf(),
        forall|i: int|
            0 <= i < referenced.len() && header.parents@.contains(
                (#[trigger] referenced[i]).digest(),
            ) ==> referenced[i].round() == header.round - 1,
        committee.holds_two_thirds(parent_authors(header, referenced)),
        forall|i: int|
            0 <= i < referenced.len() && header.weak_edges@.contains(
                (#[trigger] referenced[i]).digest(),
            ) ==> referenced[i].round() <= header.round - 2,
        forall|i: int|
            0 <= i < referenced.len() && header.virtual_edges@.contains(
                (#[trigger] referenced[i]).digest(),
            ) ==> referenced[i].round() == header.round - 1,
    ensures
        reference_error(committee, header, referenced) is None,
{
    lemma_parent_stake(committee, header, referenced);
    committee.law_thresholds(parent_authors(header, referenced));
    assert(strong_fit(header, referenced));
    assert(others_fit(header, referenced));
}

/// A header is refused if a strong or virtual edge does not lead into the round
/// before, if a weak edge leads there or further up, or if the authors of its
/// strong parents, each with one, hold two thirds of the stake or less. A
/// misplaced strong parent makes it malformed whatever else is wrong.
pub proof fn law_unsound_references_are_refused(
    committee: &Committee,
    header: Header,
    referenced: Seq<Certificate>,
    i: int,
)
    requires
        committee.wf(),
        0 <= i < referenced.len(),
    ensures
        header.parents@.contains(referenced[i].digest()) && referenced[i].round() != header.round
            - 1 ==> reference_error(committee, header, referenced) == Some(
            DagError::MalformedHeader(header.id),
        ),
        header.weak_edges@.contains(referenced[i].digest()) && referenced[i].round()
            >= header.round - 1 ==> reference_error(committee, header, referenced) is Some,
        header.virtual_edges@.contains(referenced[i].digest()) && referenced[i].round()
            != header.round - 1 ==> reference_error(committee, header, referenced) is Some,
        (forall|j: int, k: int|
            0 <= j < k < referenced.len() ==> (#[trigger] referenced[j]).origin() != (
            #[trigger] referenced[k]).origin()) && !committee.holds_two_thirds(
            parent_authors(header, referenced),
        ) ==> reference_error(committee, header, referenced) is Some,
        (forall|j: int, k: int|
            0 <= j < k < referenced.len() ==> (#[trigger] referenced[j]).origin() != (
            #[trigger] referenced[k]).origin()) && !committee.holds_two_thirds(
            parent_authors(header, referenced),
        ) && (forall|j: int|
            0 <= j < referenced.len() && header.parents@.contains(
                (#[trigger] referenced[j]).digest(),
            ) ==> referenced[j].round() == header.round - 1) ==> reference_error(
            committee,
            header,
            referenced,
        ) == Some(DagError::HeaderRequiresQuorum(header.id)),
{
    lemma_parent_stake(committee, header, referenced);
    committee.law_thresholds(parent_authors(header, referenced));
    let strong = |d: Digest| header.parents@.contains(d);
    let weak = |d: Digest| header.weak_edges@.contains(d);
    let seen = |d: Digest| header.virtual_edges@.contains(d);
    if header.parents@.contains(referenced[i].digest()) && referenced[i].round() != header.round
        - 1 {
        assert(strong(referenced[i].digest()));
        assert(!strong_fit(header, referenced));
    }
    if header.weak_edges@.contains(referenced[i].digest()) && referenced[i].round() >= header.round
        - 1 {
        assert(weak(referenced[i].digest()));
        assert(!others_fit(header, referenced));
    }
    if header.virtual_edges@.contains(referenced[i].digest()) && referenced[i].round()
        != header.round - 1 {
        assert(seen(referenced[i].digest()));
        assert(!others_fit(header, referenced));
    }
    if forall|j: int|
        0 <= j < referenced.len() && header.parents@.contains((#[trigger] referenced[j]).digest())
            ==> referenced[j].round() == header.round - 1 {
        assert(strong_fit(header, referenced));
    }
}

// ----- The edges that a node proposes -----

impl GatherView {
    /// The gathered digests name grade-2 blocks of `round` by authors that have
    /// been counted, and all of these until they are a quorum. `slots` says
    /// where the block of a digest stands, `delivered` are the blocks of grade 2.
    pub open spec fn names(
        self,
        committee: &Committee,
        slots: spec_fn(Digest) -> Slot,
        delivered: Set<Digest>,
        round: Round,
    ) -> bool {
        &&& forall|i: int|
            0 <= i < self.certificates.len() ==> {
                &&& slots(#[trigger] self.certificates[i]).0 == round
                &&& self.used.contains(slots(self.certificates[i]).1)
                &&& delivered.contains(self.certificates[i])
            }
        &&& !committee.holds_two_thirds(self.used) ==> forall|a: PublicKey| #[trigger]
            self.used.contains(a) ==> self.counts(slots, a)
    }

    /// Whether a gathered digest names a block of `author`.
    pub open spec fn counts(self, slots: spec_fn(Digest) -> Slot, author: PublicKey) -> bool {
        exists|i: int|
            0 <= i < self.certificates.len() && slots(#[trigger] self.certificates[i]).1 == author
    }
}

impl CoreView {
    /// The node has just the grade-2 blocks in `delivered` that none of its
    /// proposals referenced as candidates for weak edges: those in `cited` were
    /// referenced, strongly or weakly. Blocks below `floor` were cleaned up.
    /// `slots` says where the block of a digest stands.
    pub open spec fn tracks_edges(
        self,
        committee: &Committee,
        slots: spec_fn(Digest) -> Slot,
        delivered: Set<Digest>,
        cited: Set<Digest>,
        floor: Round,
    ) -> bool {
        &&& forall|d: Digest| #[trigger]
            self.weak_candidates.contains_key(d) <==> delivered.contains(d) && !cited.contains(d)
                && slots(d).0 >= floor
        &&& forall|d: Digest| #[trigger]
            self.weak_candidates.contains_key(d) ==> self.weak_candidates[d] == slots(d).0
        &&& forall|d: Digest| #[trigger]
            delivered.contains(d) && slots(d).0 >= floor ==> self.grade_two.contains(d)
        &&& self.grade_two.subset_of(delivered)
        &&& cited.subset_of(delivered)
        &&& forall|d: Digest| #[trigger]
            self.certificates.contains_key(d) ==> self.certificates[d].slot() == slots(d)
        &&& forall|r: Round| #[trigger]
            self.gathered.contains_key(r) ==> self.gathered[r].names(
                committee,
                slots,
                delivered,
                r,
            )
        &&& self.weak_candidates.dom().finite()
        &&& self.certificates.dom().finite()
    }

    /// In the beginning there is nothing to propose.
    pub proof fn law_edges_begin_empty(committee: &Committee, slots: spec_fn(Digest) -> Slot)
        ensures
            Self::initial().tracks_edges(committee, slots, Set::empty(), Set::empty(), 0),
    {
    }

    /// A block delivered at grade 2 becomes a candidate for a weak edge, once.
    pub proof fn law_grade_two_is_a_candidate(
        self,
        c: Certificate,
        committee: &Committee,
        slots: spec_fn(Digest) -> Slot,
        delivered: Set<Digest>,
        cited: Set<Digest>,
        floor: Round,
    )
        requires
            self.tracks_edges(committee, slots, delivered, cited, floor),
            slots(c.digest()) == c.slot(),
            c.round() >= floor,
        ensures
            self.deliver_two(c).tracks_edges(
                committee,
                slots,
                delivered.insert(c.digest()),
                cited,
                floor,
            ),
            !delivered.contains(c.digest()) ==> self.deliver_two(c).weak_candidates.contains_key(
                c.digest(),
            ) && self.deliver_two(c).effects == self.effects.push(EffectView::GradeTwo(c)),
            delivered.contains(c.digest()) ==> self.deliver_two(c) == self,
    {
        let d = c.digest();
        let after = self.deliver_two(c);
        let more = delivered.insert(d);
        if self.grade_two.contains(d) {
            assert(more =~= delivered);
        } else {
            assert(!delivered.contains(d));
            assert forall|x: Digest| #[trigger]
                after.weak_candidates.contains_key(x) <==> more.contains(x) && !cited.contains(x)
                    && slots(x).0 >= floor by {
                assert(self.weak_candidates.contains_key(x) <==> delivered.contains(x)
                    && !cited.contains(x) && slots(x).0 >= floor);
            }
            assert forall|r: Round| #[trigger] after.gathered.contains_key(
                r,
            ) implies after.gathered[r].names(committee, slots, more, r) by {
                assert(self.gathered[r].names(committee, slots, delivered, r));
            }
        }
    }

    /// A grade-1 delivery leaves the candidates alone.
    pub proof fn law_grade_one_is_no_candidate(
        self,
        c: Certificate,
        committee: &Committee,
        slots: spec_fn(Digest) -> Slot,
        delivered: Set<Digest>,
        cited: Set<Digest>,
        floor: Round,
    )
        requires
            self.tracks_edges(committee, slots, delivered, cited, floor),
            slots(c.digest()) == c.slot(),
        ensures
            self.deliver(c).tracks_edges(committee, slots, delivered, cited, floor),
    {
    }

    /// A cleanup forgets the candidates below `gc_round` alone, if the node
    /// holds the certificates of the grade-2 blocks from there on.
    pub proof fn law_cleanup_keeps_candidates(
        self,
        gc_round: Round,
        committee: &Committee,
        slots: spec_fn(Digest) -> Slot,
        delivered: Set<Digest>,
        cited: Set<Digest>,
        floor: Round,
    )
        requires
            self.tracks_edges(committee, slots, delivered, cited, floor),
            floor <= gc_round,
            forall|d: Digest| #[trigger]
                delivered.contains(d) && slots(d).0 >= gc_round ==> self.certificates.contains_key(
                    d,
                ),
        ensures
            self.forget(gc_round).tracks_edges(committee, slots, delivered, cited, gc_round),
    {
        let after = self.forget(gc_round);
        assert forall|d: Digest| #[trigger]
            after.weak_candidates.contains_key(d) <==> delivered.contains(d) && !cited.contains(d)
                && slots(d).0 >= gc_round by {
            assert(self.weak_candidates.contains_key(d) <==> delivered.contains(d)
                && !cited.contains(d) && slots(d).0 >= floor);
        }
        assert(after.weak_candidates.dom().subset_of(self.weak_candidates.dom()));
        assert(after.certificates.dom().subset_of(self.certificates.dom()));
        vstd::set_lib::lemma_set_subset_finite(
            self.weak_candidates.dom(),
            after.weak_candidates.dom(),
        );
        vstd::set_lib::lemma_set_subset_finite(self.certificates.dom(), after.certificates.dom());
        assert forall|d: Digest| #[trigger] delivered.contains(d) && slots(d).0
            >= gc_round implies after.grade_two.contains(d) by {
            assert(self.certificates.contains_key(d));
            assert(self.grade_two.contains(d));
        }
    }

    /// Whether a grade-2 block completes its round: with its author, and not
    /// before, the authors counted in the round hold more than two thirds of the
    /// stake.
    pub open spec fn completes_round(self, c: Certificate, committee: &Committee) -> bool {
        let used = self.gathered_in(c.round()).used;
        &&& !committee.holds_two_thirds(used)
        &&& committee.holds_two_thirds(used.insert(c.origin()))
    }

    /// Short of a quorum, a grade-2 block is counted and nothing is proposed.
    pub proof fn law_no_proposal_before_a_quorum(
        self,
        c: Certificate,
        committee: &Committee,
        slots: spec_fn(Digest) -> Slot,
        delivered: Set<Digest>,
        cited: Set<Digest>,
        floor: Round,
    )
        requires
            committee.wf(),
            self.tracks_edges(committee, slots, delivered, cited, floor),
            slots(c.digest()) == c.slot(),
            delivered.contains(c.digest()),
            !self.completes_round(c, committee),
        ensures
            self.advance(c, committee).effects == self.effects,
            self.advance(c, committee).gathered_in(c.round()).used == self.gathered_in(
                c.round(),
            ).used.insert(c.origin()),
            self.advance(c, committee).tracks_edges(committee, slots, delivered, cited, floor),
    {
        let after = self.advance(c, committee);
        let round = c.round();
        let before = self.gathered_in(round);
        let next = before.gather(committee, c);
        committee.law_thresholds(before.used);
        committee.law_thresholds(before.used.insert(c.origin()));
        if before.used.contains(c.origin()) {
            assert(before.used.insert(c.origin()) =~= before.used);
        }
        assert(!before.yields(committee, c));
        assert(before.names(committee, slots, delivered, round));
        committee.lemma_weight_monotone(before.used, next.used);
        committee.law_thresholds(next.used);
        assert(next.names(committee, slots, delivered, round)) by {
            if !before.used.contains(c.origin()) {
                before.lemma_names_more(committee, slots, delivered, c);
            }
        }
        assert forall|r: Round| #[trigger] after.gathered.contains_key(
            r,
        ) implies after.gathered[r].names(committee, slots, delivered, r) by {
            if r != round {
                assert(self.gathered.contains_key(r));
            }
        }
    }

    /// The grade-2 block that completes its round has the node enter the next
    /// round and propose. Its strong parents are blocks of the round, by authors
    /// of more than two thirds of the stake. Its weak edges are exactly the
    /// grade-2 blocks of lower rounds that no proposal of the node referenced
    /// before, strongly or weakly. Its virtual edges are exactly the blocks of
    /// the round that are delivered at grade 1 and not at grade 2. None of the
    /// strong parents and weak edges is referenced again.
    pub proof fn law_proposal_edges(
        self,
        c: Certificate,
        committee: &Committee,
        slots: spec_fn(Digest) -> Slot,
        delivered: Set<Digest>,
        cited: Set<Digest>,
        floor: Round,
    ) -> (edges: (Seq<Digest>, Seq<Digest>, Seq<Digest>))
        requires
            committee.wf(),
            self.tracks_edges(committee, slots, delivered, cited, floor),
            slots(c.digest()) == c.slot(),
            delivered.contains(c.digest()),
            self.completes_round(c, committee),
            c.round() < Round::MAX,
        ensures
            self.advance(c, committee).effects == self.effects.push(
                EffectView::RoundAdvanced((c.round() + 1) as Round),
            ).push(EffectView::Propose(edges.0, edges.1, edges.2, c.round())),
            edges.0 == self.gathered_in(c.round()).certificates.push(c.digest()),
            forall|d: Digest| #[trigger]
                edges.0.contains(d) ==> slots(d).0 == c.round() && delivered.contains(d),
            committee.holds_two_thirds(edges.0.map_values(|d: Digest| slots(d).1).to_set()),
            forall|d: Digest| #[trigger]
                edges.1.contains(d) <==> delivered.contains(d) && !cited.contains(d) && floor
                    <= slots(d).0 < c.round(),
            forall|d: Digest| #[trigger]
                edges.2.contains(d) <==> self.certificates.contains_key(d) && slots(d).0
                    == c.round() && !self.grade_two.contains(d),
            self.advance(c, committee).tracks_edges(
                committee,
                slots,
                delivered,
                cited.union(edges.0.to_set()).union(edges.1.to_set()),
                floor,
            ),
    {
        let after = self.advance(c, committee);
        let round = c.round();
        let before = self.gathered_in(round);
        let parents = before.certificates.push(c.digest());
        let weak = self.weak_edges(round);
        let seen = self.virtual_edges(round);
        let edges = (parents, in_order(weak), in_order(seen));
        committee.law_thresholds(before.used);
        committee.law_thresholds(before.used.insert(c.origin()));
        if before.used.contains(c.origin()) {
            assert(before.used.insert(c.origin()) =~= before.used);
        }
        assert(before.yields(committee, c));
        assert(before.names(committee, slots, delivered, round));
        assert(weak.subset_of(self.weak_candidates.dom()));
        assert(seen.subset_of(self.certificates.dom()));
        vstd::set_lib::lemma_set_subset_finite(self.weak_candidates.dom(), weak);
        vstd::set_lib::lemma_set_subset_finite(self.certificates.dom(), seen);
        lemma_in_order_of(weak);
        lemma_in_order_of(seen);
        assert forall|d: Digest| #[trigger]
            edges.1.contains(d) <==> delivered.contains(d) && !cited.contains(d) && floor <= slots(
                d,
            ).0 < round by {
            assert(edges.1.contains(d) == edges.1.to_set().contains(d));
            assert(edges.1.contains(d) == weak.contains(d));
            assert(self.weak_candidates.contains_key(d) <==> delivered.contains(d)
                && !cited.contains(d) && slots(d).0 >= floor);
        }
        assert forall|d: Digest| #[trigger]
            edges.2.contains(d) <==> self.certificates.contains_key(d) && slots(d).0 == round
                && !self.grade_two.contains(d) by {
            assert(edges.2.contains(d) == edges.2.to_set().contains(d));
            assert(edges.2.contains(d) == seen.contains(d));
        }
        assert forall|d: Digest| #[trigger] parents.contains(d) implies slots(d).0 == round
            && delivered.contains(d) by {
            let i = choose|i: int| 0 <= i < parents.len() && parents[i] == d;
            if i < before.certificates.len() {
                assert(before.certificates[i] == d);
            }
        }
        let authors = parents.map_values(|d: Digest| slots(d).1);
        assert forall|a: PublicKey| before.used.insert(c.origin()).contains(a) implies
            authors.to_set().contains(a) by {
            if a == c.origin() {
                assert(authors[parents.len() - 1] == a);
            } else {
                assert(before.counts(slots, a));
                let i = choose|i: int|
                    0 <= i < before.certificates.len() && slots(#[trigger] before.certificates[i]).1
                        == a;
                assert(parents[i] == before.certificates[i]);
                assert(authors[i] == a);
            }
        }
        committee.lemma_weight_monotone(before.used.insert(c.origin()), authors.to_set());
        let all = cited.union(parents.to_set()).union(edges.1.to_set());
        assert forall|d: Digest| #[trigger]
            after.weak_candidates.contains_key(d) <==> delivered.contains(d) && !all.contains(d)
                && slots(d).0 >= floor by {
            assert(self.weak_candidates.contains_key(d) <==> delivered.contains(d)
                && !cited.contains(d) && slots(d).0 >= floor);
            assert(parents.contains(d) == parents.to_set().contains(d));
            assert(weak.contains(d) == edges.1.to_set().contains(d));
        }
        assert(all.subset_of(delivered)) by {
            assert forall|d: Digest| all.contains(d) implies delivered.contains(d) by {
                if parents.to_set().contains(d) {
                    assert(parents.contains(d));
                }
                if edges.1.to_set().contains(d) {
                    assert(edges.1.contains(d));
                }
            }
        }
        assert(after.weak_candidates.dom().subset_of(self.weak_candidates.dom()));
        vstd::set_lib::lemma_set_subset_finite(
            self.weak_candidates.dom(),
            after.weak_candidates.dom(),
        );
        let next = before.gather(committee, c);
        assert(next.names(committee, slots, delivered, round));
        assert forall|r: Round| #[trigger] after.gathered.contains_key(
            r,
        ) implies after.gathered[r].names(committee, slots, delivered, r) by {
            if r != round {
                assert(self.gathered.contains_key(r));
            }
        }
        edges
    }

    /// A grade-2 block of a completed round that is not among the strong parents
    /// proposed after it is a weak edge of the next proposal, for whatever later
    /// round.
    pub proof fn law_left_out_block_becomes_a_weak_edge(
        self,
        c: Certificate,
        committee: &Committee,
        slots: spec_fn(Digest) -> Slot,
        delivered: Set<Digest>,
        cited: Set<Digest>,
        floor: Round,
        d: Digest,
    ) -> (edges: (Seq<Digest>, Seq<Digest>, Seq<Digest>))
        requires
            committee.wf(),
            self.tracks_edges(committee, slots, delivered, cited, floor),
            slots(c.digest()) == c.slot(),
            delivered.contains(c.digest()),
            self.completes_round(c, committee),
            c.round() < Round::MAX,
            delivered.contains(d),
            !cited.contains(d),
            floor <= slots(d).0 < c.round(),
        ensures
            self.advance(c, committee).effects.last() == EffectView::Propose(
                edges.0,
                edges.1,
                edges.2,
                c.round(),
            ),
            edges.1.contains(d),
            !self.advance(c, committee).weak_candidates.contains_key(d),
    {
        let edges = self.law_proposal_edges(c, committee, slots, delivered, cited, floor);
        assert(edges.1.contains(d));
        assert(edges.1.to_set().contains(d));
        edges
    }

    /// The edges that a node proposes are accepted: a header of the next round
    /// with them passes the reference check, once the blocks that it references
    /// are there.
    pub proof fn law_proposal_is_accepted(
        self,
        c: Certificate,
        committee: &Committee,
        slots: spec_fn(Digest) -> Slot,
        delivered: Set<Digest>,
        cited: Set<Digest>,
        floor: Round,
        header: Header,
        referenced: Seq<Certificate>,
    ) -> (edges: (Seq<Digest>, Seq<Digest>, Seq<Digest>))
        requires
            committee.wf(),
            self.tracks_edges(committee, slots, delivered, cited, floor),
            slots(c.digest()) == c.slot(),
            delivered.contains(c.digest()),
            self.completes_round(c, committee),
            c.round() < Round::MAX,
            forall|i: int|
                0 <= i < referenced.len() ==> slots((#[trigger] referenced[i]).digest())
                    == referenced[i].slot(),
        ensures
            self.advance(c, committee).effects.last() == EffectView::Propose(
                edges.0,
                edges.1,
                edges.2,
                c.round(),
            ),
            header.round == c.round() + 1 && header.parents@ == edges.0.to_set()
                && header.weak_edges@ == edges.1.to_set() && header.virtual_edges@
                == edges.2.to_set() && (forall|d: Digest| #[trigger]
                edges.0.contains(d) ==> holds_block(referenced, d)) ==> reference_error(
                committee,
                header,
                referenced,
            ) is None,
    {
        let edges = self.law_proposal_edges(c, committee, slots, delivered, cited, floor);
        if header.round == c.round() + 1 && header.parents@ == edges.0.to_set()
            && header.weak_edges@ == edges.1.to_set() && header.virtual_edges@ == edges.2.to_set()
            && (forall|d: Digest| #[trigger] edges.0.contains(d) ==> holds_block(referenced, d)) {
            assert forall|i: int|
                0 <= i < referenced.len() && header.parents@.contains(
                    (#[trigger] referenced[i]).digest(),
                ) implies referenced[i].round() == header.round - 1 by {
                assert(edges.0.contains(referenced[i].digest()));
            }
            assert forall|i: int|
                0 <= i < referenced.len() && header.weak_edges@.contains(
                    (#[trigger] referenced[i]).digest(),
                ) implies referenced[i].round() <= header.round - 2 by {
                assert(edges.1.contains(referenced[i].digest()));
            }
            assert forall|i: int|
                0 <= i < referenced.len() && header.virtual_edges@.contains(
                    (#[trigger] referenced[i]).digest(),
                ) implies referenced[i].round() == header.round - 1 by {
                assert(edges.2.contains(referenced[i].digest()));
            }
            let authors = edges.0.map_values(|d: Digest| slots(d).1);
            let found = parent_authors(header, referenced);
            assert forall|a: PublicKey| authors.to_set().contains(a) implies found.contains(a) by {
                let i = choose|i: int| 0 <= i < authors.len() && authors[i] == a;
                let d = edges.0[i];
                assert(edges.0.contains(d));
                assert(holds_block(referenced, d));
                let j = choose|j: int|
                    0 <= j < referenced.len() && (#[trigger] referenced[j]).digest() == d;
                assert(referenced[j].origin() == a);
                assert(edges.0.to_set().contains(d));
            }
            committee.lemma_weight_monotone(authors.to_set(), found);
            law_sound_references_are_accepted(committee, header, referenced);
        }
        edges
    }
}

/// Whether the block of a digest is among `referenced`.
pub open spec fn holds_block(referenced: Seq<Certificate>, d: Digest) -> bool {
    exists|i: int| 0 <= i < referenced.len() && (#[trigger] referenced[i]).digest() == d
}

impl GatherView {
    /// One more author, short of a quorum or after it.
    proof fn lemma_names_more(
        self,
        committee: &Committee,
        slots: spec_fn(Digest) -> Slot,
        delivered: Set<Digest>,
        c: Certificate,
    )
        requires
            self.names(committee, slots, delivered, c.round()),
            slots(c.digest()) == c.slot(),
            delivered.contains(c.digest()),
            !self.used.contains(c.origin()),
            !self.yields(committee, c),
        ensures
            self.gather(committee, c).names(committee, slots, delivered, c.round()),
    {
        let next = self.gather(committee, c);
        let all = next.certificates;
        assert(all == self.certificates.push(c.digest()));
        assert forall|i: int| 0 <= i < all.len() implies {
            &&& slots(#[trigger] all[i]).0 == c.round()
            &&& next.used.contains(slots(all[i]).1)
            &&& delivered.contains(all[i])
        } by {
            if i < self.certificates.len() {
                assert(all[i] == self.certificates[i]);
            }
        }
        if !committee.holds_two_thirds(next.used) {
            committee.lemma_weight_monotone(self.used, next.used);
            assert forall|a: PublicKey| #[trigger] next.used.contains(a) implies next.counts(
                slots,
                a,
            ) by {
                if a == c.origin() {
                    assert(slots(all[all.len() - 1]).1 == a);
                } else {
                    assert(self.counts(slots, a));
                    let i = choose|i: int|
                        0 <= i < self.certificates.len() && slots(
                            #[trigger] self.certificates[i],
                        ).1 == a;
                    assert(all[i] == self.certificates[i]);
                }
            }
        }
    }
}

impl Core {
    /// Work other than a delivery and the count towards the next round leaves
    /// alone what the node may propose.
    pub proof fn law_other_work_leaves_candidates_alone(
        before: CoreView,
        committee: &Committee,
        after: CoreView,
        step: Step,
        reply: Reply,
        name: PublicKey,
        slots: spec_fn(Digest) -> Slot,
        delivered: Set<Digest>,
        cited: Set<Digest>,
        floor: Round,
    )
        requires
            Self::steps(before, committee, after, step),
            before.tracks_edges(committee, slots, delivered, cited, floor),
        ensures
            before.tasks.len() == 0 || !(before.tasks.last() is GradeTwo) ==> after.tracks_edges(
                committee,
                slots,
                delivered,
                cited,
                floor,
            ),
            before.tasks.len() > 0 && !(before.tasks.last() is AwaitReady)
                && !(before.tasks.last() is AwaitDelivery) ==> Self::resumed(
                before.pop(),
                before.tasks.last(),
                reply,
                committee,
                name,
            ).0.tracks_edges(committee, slots, delivered, cited, floor),
    {
    }
}

} // verus!
