//! Votes that add up to a quorum.
use crate::committee::Committee;
use crate::ordered::OrdSet;
use crate::primary::messages::{DagError, Grade, GradeVote, GradedCertificate, Vote};
use crate::types::{share, Certificate, Digest, Header, PublicKey, Signature, Stake};
use std::sync::Arc;
use vstd::prelude::*;

verus! {

/// The contents of an aggregator of votes.
#[verifier::ext_equal]
pub struct TallyView {
    /// The stake counted towards the next quorum.
    pub weight: Stake,
    /// The votes in the order in which they came.
    pub votes: Seq<(PublicKey, Signature)>,
    /// Who has voted.
    pub used: Set<PublicKey>,
}

impl TallyView {
    /// No votes.
    pub open spec fn empty() -> TallyView {
        TallyView { weight: 0, votes: Seq::empty(), used: Set::empty() }
    }

    /// The counted stake is that of all voters until they are a quorum. After
    /// that the quorum is never counted again.
    pub open spec fn wf(self, committee: &Committee) -> bool {
        ||| (self.weight == committee.weight(self.used) && committee.weight(self.used)
            < committee.quorum())
        ||| self.weight + committee.quorum() <= committee.weight(self.used)
    }

    /// Whether the vote of `author` completes the quorum.
    pub open spec fn completes(self, committee: &Committee, author: PublicKey) -> bool {
        &&& committee.weight(self.used) < committee.quorum()
        &&& committee.weight(self.used.insert(author)) >= committee.quorum()
    }

    /// One more vote.
    pub open spec fn count(
        self,
        committee: &Committee,
        author: PublicKey,
        signature: Signature,
    ) -> TallyView {
        TallyView {
            weight: if self.completes(committee, author) {
                0
            } else {
                (self.weight + committee.spec_stake(author)) as Stake
            },
            votes: self.votes.push((author, signature)),
            used: self.used.insert(author),
        }
    }

    /// An empty tally is right.
    pub proof fn lemma_empty(committee: &Committee)
        ensures
            Self::empty().wf(committee),
    {
        committee.lemma_weight_empty();
    }

    /// Counting a new voter keeps the tally right.
    pub proof fn lemma_count(self, committee: &Committee, author: PublicKey, signature: Signature)
        requires
            committee.wf(),
            self.wf(committee),
            !self.used.contains(author),
        ensures
            self.weight + committee.spec_stake(author) <= committee.total(),
            self.count(committee, author, signature).wf(committee),
            self.completes(committee, author) <==> self.weight + committee.spec_stake(author)
                >= committee.quorum(),
    {
        committee.lemma_weight_insert(self.used, author);
        committee.lemma_weight_monotone(self.used.insert(author), Set::full());
    }

    /// Further votes, counted in turn.
    pub open spec fn count_all(self, committee: &Committee, more: Seq<(PublicKey, Signature)>) -> TallyView
        decreases more.len(),
    {
        if more.len() == 0 {
            self
        } else {
            self.count_all(committee, more.drop_last()).count(
                committee,
                more.last().0,
                more.last().1,
            )
        }
    }

    /// A quorum is reached only once: whatever votes follow, an aggregator
    /// whose voters are a quorum is not completed again.
    pub proof fn law_quorum_once(
        self,
        committee: &Committee,
        more: Seq<(PublicKey, Signature)>,
        later: PublicKey,
    )
        requires
            committee.weight(self.used) >= committee.quorum(),
        ensures
            !self.count_all(committee, more).completes(committee, later),
    {
        self.lemma_count_all(committee, more);
        committee.lemma_weight_monotone(self.used, self.count_all(committee, more).used);
    }

    proof fn lemma_count_all(self, committee: &Committee, more: Seq<(PublicKey, Signature)>)
        ensures
            self.used.subset_of(self.count_all(committee, more).used),
        decreases more.len(),
    {
        if more.len() > 0 {
            self.lemma_count_all(committee, more.drop_last());
        }
    }
}

/// Another copy of a list of votes.
fn copy_votes(votes: &Vec<(PublicKey, Signature)>) -> (result: Vec<(PublicKey, Signature)>)
    ensures
        result@ == votes@,
{
    let mut result: Vec<(PublicKey, Signature)> = Vec::new();
    let mut i: usize = 0;
    while i < votes.len()
        invariant
            i <= votes@.len(),
            result@ == votes@.take(i as int),
        decreases votes@.len() - i,
    {
        result.push((votes[i].0, votes[i].1));
        proof {
            assert(votes@.take(i + 1) =~= votes@.take(i as int).push(votes@[i as int]));
        }
        i += 1;
    }
    proof {
        assert(votes@.take(votes@.len() as int) =~= votes@);
    }
    result
}

/// Aggregates votes for a particular header into a certificate.
pub struct VotesAggregator {
    weight: Stake,
    votes: Vec<(PublicKey, Signature)>,
    used: OrdSet<PublicKey>,
}

impl View for VotesAggregator {
    type V = TallyView;

    closed spec fn view(&self) -> TallyView {
        TallyView { weight: self.weight, votes: self.votes@, used: self.used@ }
    }
}

impl VotesAggregator {
    /// No votes.
    pub fn new() -> (result: Self)
        ensures
            result@ == TallyView::empty(),
    {
        let result = VotesAggregator { weight: 0, votes: Vec::new(), used: OrdSet::new() };
        proof {
            assert(result@ =~= TallyView::empty());
        }
        result
    }

    /// Whether a vote is for this header.
    pub open spec fn is_for(vote: Vote, header: Header) -> bool {
        &&& vote.id == header.id
        &&& vote.round == header.round
        &&& vote.origin == header.author
    }

    /// Adds a vote, which is refused if it is for another header or by an
    /// authority that has voted. The vote that completes a quorum yields the
    /// certificate with all votes.
    pub fn append(&mut self, vote: Vote, committee: &Committee, header: &Arc<Header>) -> (result:
        Result<Option<Certificate>, DagError>)
        requires
            committee.wf(),
            old(self)@.wf(committee),
        ensures
            final(self)@.wf(committee),
            match result {
                Err(error) => {
                    &&& final(self)@ == old(self)@
                    &&& if !Self::is_for(vote, **header) {
                        error == DagError::UnexpectedVote(vote.id)
                    } else {
                        old(self)@.used.contains(vote.author) && error == DagError::AuthorityReuse(
                            vote.author,
                        )
                    }
                },
                Ok(certificate) => {
                    &&& Self::is_for(vote, **header)
                    &&& !old(self)@.used.contains(vote.author)
                    &&& final(self)@ == old(self)@.count(committee, vote.author, vote.signature)
                    &&& certificate is Some <==> old(self)@.completes(committee, vote.author)
                    &&& certificate is Some ==> (certificate->0).header == *header && (
                    certificate->0).votes@ == final(self)@.votes
                },
            },
    {
        let author = vote.author;
        if !(vote.id == header.id && vote.round == header.round && vote.origin == header.author) {
            return Err(DagError::UnexpectedVote(vote.id));
        }
        let ghost before = self@;
        if !self.used.insert(author) {
            proof {
                assert(self@ =~= before);
            }
            return Err(DagError::AuthorityReuse(author));
        }
        proof {
            before.lemma_count(committee, author, vote.signature);
        }
        self.votes.push((author, vote.signature));
        self.weight = self.weight + committee.stake(&author);
        if self.weight >= committee.quorum_threshold() {
            self.weight = 0;
            proof {
                assert(self@ =~= before.count(committee, author, vote.signature));
            }
            return Ok(
                Some(
                    Certificate { header: share(header), votes: Arc::new(copy_votes(&self.votes)) },
                ),
            );
        }
        proof {
            assert(self@ =~= before.count(committee, author, vote.signature));
        }
        Ok(None)
    }
}

/// Aggregates signed grade-1 deliveries into a grade-2 proof.
pub struct GradeVotesAggregator {
    weight: Stake,
    votes: Vec<(PublicKey, Signature)>,
    used: OrdSet<PublicKey>,
}

impl View for GradeVotesAggregator {
    type V = TallyView;

    closed spec fn view(&self) -> TallyView {
        TallyView { weight: self.weight, votes: self.votes@, used: self.used@ }
    }
}

impl GradeVotesAggregator {
    /// No votes.
    pub fn new() -> (result: Self)
        ensures
            result@ == TallyView::empty(),
    {
        let result = GradeVotesAggregator { weight: 0, votes: Vec::new(), used: OrdSet::new() };
        proof {
            assert(result@ =~= TallyView::empty());
        }
        result
    }

    /// Whether a grade vote is for this block.
    pub open spec fn is_for(vote: GradeVote, certificate: Certificate) -> bool {
        &&& vote.id == certificate.digest()
        &&& vote.round == certificate.round()
        &&& vote.origin == certificate.origin()
    }

    /// Adds a grade vote, which is refused if it is for another block or by an
    /// authority that has voted. The vote that completes a quorum yields the
    /// grade-2 proof with all votes.
    pub fn append(&mut self, vote: GradeVote, committee: &Committee, certificate: &Certificate)
        -> (result: Result<Option<GradedCertificate>, DagError>)
        requires
            committee.wf(),
            old(self)@.wf(committee),
        ensures
            final(self)@.wf(committee),
            match result {
                Err(error) => {
                    &&& final(self)@ == old(self)@
                    &&& if !Self::is_for(vote, *certificate) {
                        error == DagError::UnexpectedGradeVote(vote.id)
                    } else {
                        old(self)@.used.contains(vote.author) && error == DagError::AuthorityReuse(
                            vote.author,
                        )
                    }
                },
                Ok(proof_of_two) => {
                    &&& Self::is_for(vote, *certificate)
                    &&& !old(self)@.used.contains(vote.author)
                    &&& final(self)@ == old(self)@.count(committee, vote.author, vote.signature)
                    &&& proof_of_two is Some <==> old(self)@.completes(committee, vote.author)
                    &&& proof_of_two is Some ==> (proof_of_two->0).certificate == *certificate && (
                    proof_of_two->0).grade == Grade::Two
                    &&& proof_of_two is Some ==> (proof_of_two->0).votes@ == final(self)@.votes
                },
            },
    {
        let author = vote.author;
        if !(vote.id == certificate.digest() && vote.round == certificate.round() && vote.origin
            == certificate.origin()) {
            return Err(DagError::UnexpectedGradeVote(vote.id));
        }
        let ghost before = self@;
        if !self.used.insert(author) {
            proof {
                assert(self@ =~= before);
            }
            return Err(DagError::AuthorityReuse(author));
        }
        proof {
            before.lemma_count(committee, author, vote.signature);
        }
        self.weight = self.weight + committee.stake(&author);
        self.votes.push((author, vote.signature));
        if self.weight >= committee.quorum_threshold() {
            self.weight = 0;
            proof {
                assert(self@ =~= before.count(committee, author, vote.signature));
            }
            return Ok(
                Some(
                    GradedCertificate {
                        certificate: certificate.clone(),
                        grade: Grade::Two,
                        votes: Arc::new(copy_votes(&self.votes)),
                    },
                ),
            );
        }
        proof {
            assert(self@ =~= before.count(committee, author, vote.signature));
        }
        Ok(None)
    }
}

/// The contents of an aggregator of certificates.
#[verifier::ext_equal]
pub struct GatherView {
    /// The stake counted towards the next quorum.
    pub weight: Stake,
    /// The digests that have not been handed out, in the order in which they
    /// came.
    pub certificates: Seq<Digest>,
    /// The authors whose certificate has come.
    pub used: Set<PublicKey>,
}

impl GatherView {
    /// No certificates.
    pub open spec fn empty() -> GatherView {
        GatherView { weight: 0, certificates: Seq::empty(), used: Set::empty() }
    }

    /// The tally over the authors.
    pub open spec fn tally(self) -> TallyView {
        TallyView { weight: self.weight, votes: Seq::empty(), used: self.used }
    }

    /// The counted stake is right.
    pub open spec fn wf(self, committee: &Committee) -> bool {
        self.tally().wf(committee)
    }

    /// One more certificate. A second one of the same author counts nothing.
    pub open spec fn gather(self, committee: &Committee, c: Certificate) -> GatherView {
        if self.used.contains(c.origin()) {
            self
        } else if self.tally().completes(committee, c.origin()) {
            GatherView {
                weight: 0,
                certificates: Seq::empty(),
                used: self.used.insert(c.origin()),
            }
        } else {
            GatherView {
                weight: (self.weight + committee.spec_stake(c.origin())) as Stake,
                certificates: self.certificates.push(c.digest()),
                used: self.used.insert(c.origin()),
            }
        }
    }

    /// Whether a certificate completes the quorum.
    pub open spec fn yields(self, committee: &Committee, c: Certificate) -> bool {
        !self.used.contains(c.origin()) && self.tally().completes(committee, c.origin())
    }
}

/// Aggregates certificates and checks whether they are a quorum.
pub struct CertificatesAggregator {
    weight: Stake,
    certificates: Vec<Digest>,
    used: OrdSet<PublicKey>,
}

impl View for CertificatesAggregator {
    type V = GatherView;

    closed spec fn view(&self) -> GatherView {
        GatherView { weight: self.weight, certificates: self.certificates@, used: self.used@ }
    }
}

impl CertificatesAggregator {
    /// No certificates.
    pub fn new() -> (result: Self)
        ensures
            result@ == GatherView::empty(),
    {
        let result = CertificatesAggregator {
            weight: 0,
            certificates: Vec::new(),
            used: OrdSet::new(),
        };
        proof {
            assert(result@ =~= GatherView::empty());
        }
        result
    }

    /// Adds a certificate. The one that completes a quorum yields the digests
    /// gathered so far. A second certificate of one author is passed over.
    pub fn append(&mut self, certificate: Certificate, committee: &Committee) -> (result: Result<
        Option<Vec<Digest>>,
        DagError,
    >)
        requires
            committee.wf(),
            old(self)@.wf(committee),
        ensures
            final(self)@ == old(self)@.gather(committee, certificate),
            final(self)@.wf(committee),
            result is Ok,
            result->Ok_0 is Some <==> old(self)@.yields(committee, certificate),
            result->Ok_0 is Some ==> (result->Ok_0->0)@ == old(self)@.certificates.push(
                certificate.digest(),
            ),
    {
        let origin = certificate.origin();
        let ghost before = self@;
        if !self.used.insert(origin) {
            proof {
                assert(self@ =~= before);
            }
            return Ok(None);
        }
        proof {
            before.tally().lemma_count(committee, origin, arbitrary());
        }
        self.certificates.push(certificate.digest());
        self.weight = self.weight + committee.stake(&origin);
        if self.weight >= committee.quorum_threshold() {
            self.weight = 0;
            let mut drained: Vec<Digest> = Vec::new();
            std::mem::swap(&mut drained, &mut self.certificates);
            proof {
                assert(self@ =~= before.gather(committee, certificate));
                let counted = before.tally().count(committee, origin, arbitrary());
                assert(self@.tally().used == counted.used && self@.tally().weight
                    == counted.weight);
            }
            return Ok(Some(drained));
        }
        proof {
            assert(self@ =~= before.gather(committee, certificate));
            let counted = before.tally().count(committee, origin, arbitrary());
            assert(self@.tally().used == counted.used && self@.tally().weight == counted.weight);
        }
        Ok(None)
    }
}

} // verus!
