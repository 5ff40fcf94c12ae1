use orca::committee::Committee;
use orca::ordered::{OrdMap, OrdSet};
use orca::primary::aggregators::{CertificatesAggregator, GradeVotesAggregator, VotesAggregator};
use orca::primary::machine::{Effect, Question, Reply, Step};
use orca::primary::messages::{DagError, Grade, GradeVote, GradedCertificate, Vote};
use orca::primary::node::Core;
use orca::primary::references::{check_references, sanitize, verify_grade_vote};
use orca::types::{Certificate, Digest, Header, PublicKey, Round, Signature};
use std::collections::BTreeSet;
use std::sync::Arc;

// Fixture
fn keys() -> Vec<PublicKey> {
    (1..=4)
        .map(|i| PublicKey { hi: i, lo: 10 * i })
        .collect()
}

// Fixture
fn committee() -> Committee {
    let mut authorities = OrdMap::new();
    for key in keys() {
        authorities.insert(key, 1);
    }
    Committee::new(authorities).unwrap()
}

fn digest(n: u128) -> Digest {
    Digest { hi: n, lo: n + 1 }
}

fn ord_set(digests: &[Digest]) -> OrdSet<Digest> {
    let mut set = OrdSet::new();
    for x in digests {
        set.insert(*x);
    }
    set
}

// Fixture: a header whose digests are derived from its round and author.
fn header_with(
    author: PublicKey,
    round: Round,
    parents: &[Digest],
    weak_edges: &[Digest],
    virtual_edges: &[Digest],
) -> Arc<Header> {
    let n = 1000 * round as u128 + author.hi;
    Arc::new(Header {
        id: digest(n),
        block: digest(1_000_000 + n),
        author,
        round,
        payload: Vec::new(),
        parents: ord_set(parents),
        weak_edges: ord_set(weak_edges),
        virtual_edges: ord_set(virtual_edges),
        signature: Signature::default(),
    })
}

// Fixture
fn header() -> Arc<Header> {
    header_with(keys()[0], 1, &[], &[], &[])
}

// Fixture
fn certificate(header: &Arc<Header>) -> Certificate {
    Certificate {
        header: header.clone(),
        votes: Arc::new(Vec::new()),
    }
}

// Fixture
fn vote(header: &Header, author: PublicKey) -> Vote {
    Vote {
        id: header.id,
        round: header.round,
        origin: header.author,
        author,
        signature: signature(author),
    }
}

// Fixture
fn grade_vote(certificate: &Certificate, author: PublicKey) -> GradeVote {
    GradeVote {
        id: certificate.digest(),
        round: certificate.round(),
        origin: certificate.origin(),
        author,
        signature: signature(author),
    }
}

fn signature(author: PublicKey) -> Signature {
    Signature {
        part1: [author.hi as u8; 32],
        part2: [author.lo as u8; 32],
    }
}

// Fixture: what a primary finds in its surroundings.
#[derive(Default)]
struct World {
    // The stored blocks.
    blocks: Vec<Certificate>,
    // The headers whose payload is missing.
    missing_payload: BTreeSet<Digest>,
    // The certificates without their ancestors.
    undelivered: BTreeSet<Digest>,
    // The grade-2 blocks without their dependencies.
    unready: BTreeSet<Digest>,
    // Whether the store fails.
    broken: bool,
}

impl World {
    fn answer(&self, core: &Core, question: Question) -> Reply {
        if self.broken {
            return Reply::Failure(DagError::StoreError);
        }
        match question {
            Question::Parents(header) => {
                let mut found = Vec::new();
                for edge in header.edges() {
                    match self.blocks.iter().find(|x| x.digest() == edge) {
                        Some(block) => found.push(block.clone()),
                        None => return Reply::Parents(Vec::new()),
                    }
                }
                for edge in header.virtual_edges.items() {
                    match self.blocks.iter().find(|x| x.digest() == edge) {
                        Some(block) => found.push(block.clone()),
                        None => return Reply::Parents(Vec::new()),
                    }
                }
                Reply::Parents(found)
            }
            Question::Payload(header) => Reply::Payload(self.missing_payload.contains(&header.id)),
            Question::SignVote(_) | Question::SignGrade(..) => {
                Reply::Signature(signature(core.name))
            }
            Question::Delivery(x) => Reply::Delivery(!self.undelivered.contains(&x.digest())),
            Question::Ready(x) => Reply::Ready(!self.unready.contains(&x.digest())),
        }
    }

    // Has a primary do all its work. Returns how it ended.
    fn drive(&self, core: &mut Core) -> Step {
        loop {
            match core.step() {
                Step::Done => (),
                Step::Ask(question) => {
                    let reply = self.answer(core, question);
                    match core.answer(reply) {
                        Step::Done => (),
                        end => return end,
                    }
                }
                end => return end,
            }
        }
    }
}

// Fixture: the blocks of round 0.
fn genesis() -> Vec<Certificate> {
    keys()
        .into_iter()
        .map(|key| certificate(&header_with(key, 0, &[], &[], &[])))
        .collect()
}

fn digests(blocks: &[Certificate]) -> Vec<Digest> {
    blocks.iter().map(|x| x.digest()).collect()
}

// Fixture: a primary that knows the genesis, and its surroundings.
fn node() -> (Core, World) {
    let core = Core::new(keys()[0], committee(), 50);
    let world = World {
        blocks: genesis(),
        ..World::default()
    };
    (core, world)
}

fn first_header(author: PublicKey) -> Arc<Header> {
    header_with(author, 1, &digests(&genesis()), &[], &[])
}

#[test]
fn grade_two_requires_a_quorum() {
    let committee = committee();
    let certificate = certificate(&header());
    let mut aggregator = GradeVotesAggregator::new();
    let mut proof = None;

    for name in keys() {
        let vote = grade_vote(&certificate, name);
        proof = aggregator.append(vote, &committee, &certificate).unwrap();
        if proof.is_some() {
            break;
        }
    }

    let proof = proof.expect("a quorum must produce a grade-2 proof");
    assert_eq!(proof.grade, Grade::Two);
    assert_eq!(proof.certificate.digest(), certificate.digest());
    // The votes are of distinct authorities that make a quorum.
    let voters: BTreeSet<_> = proof.votes.iter().map(|x| x.0).collect();
    assert_eq!(voters.len(), proof.votes.len());
    let stake: u32 = voters.iter().map(|x| committee.stake(x)).sum();
    assert_eq!(stake, committee.quorum_threshold());
    for (author, signed) in proof.votes.iter() {
        assert_eq!(*signed, signature(*author));
    }
}

#[test]
fn duplicate_grade_votes_are_rejected() {
    let committee = committee();
    let certificate = certificate(&header());
    let name = keys().pop().unwrap();
    let vote = grade_vote(&certificate, name);
    let mut aggregator = GradeVotesAggregator::new();

    assert!(aggregator.append(vote, &committee, &certificate).is_ok());
    assert_eq!(
        aggregator.append(vote, &committee, &certificate),
        Err(DagError::AuthorityReuse(name))
    );
}

#[test]
fn grade_vote_is_bound_to_one_certificate() {
    let committee = committee();
    let certificate = certificate(&header());
    let name = keys().pop().unwrap();
    let mut vote = grade_vote(&certificate, name);
    vote.id = Default::default();
    vote.signature = Signature::default();
    let mut aggregator = GradeVotesAggregator::new();

    assert_eq!(
        aggregator.append(vote, &committee, &certificate),
        Err(DagError::UnexpectedGradeVote(Digest::default()))
    );
}

#[test]
fn votes_assemble_one_certificate() {
    let committee = committee();
    let header = header();
    let names = keys();
    let mut aggregator = VotesAggregator::new();
    assert_eq!(
        aggregator.append(vote(&header, names[0]), &committee, &header),
        Ok(None)
    );
    assert_eq!(
        aggregator.append(vote(&header, names[0]), &committee, &header),
        Err(DagError::AuthorityReuse(names[0]))
    );
    let mut stray = vote(&header, names[1]);
    stray.round = 2;
    assert_eq!(
        aggregator.append(stray, &committee, &header),
        Err(DagError::UnexpectedVote(header.id))
    );
    assert_eq!(
        aggregator.append(vote(&header, names[1]), &committee, &header),
        Ok(None)
    );
    let assembled = aggregator
        .append(vote(&header, names[2]), &committee, &header)
        .unwrap()
        .unwrap();
    assert_eq!(assembled.header, header);
    let voters: Vec<_> = assembled.votes.iter().map(|x| x.0).collect();
    assert_eq!(voters, names[..3].to_vec());
    // The quorum is reached once.
    assert_eq!(
        aggregator.append(vote(&header, names[3]), &committee, &header),
        Ok(None)
    );
}

#[test]
fn certificates_gather_one_quorum() {
    let committee = committee();
    let blocks = genesis();
    let mut aggregator = CertificatesAggregator::new();
    assert_eq!(aggregator.append(blocks[0].clone(), &committee), Ok(None));
    assert_eq!(aggregator.append(blocks[0].clone(), &committee), Ok(None));
    assert_eq!(aggregator.append(blocks[1].clone(), &committee), Ok(None));
    assert_eq!(
        aggregator.append(blocks[2].clone(), &committee),
        Ok(Some(digests(&blocks[..3])))
    );
    assert_eq!(aggregator.append(blocks[3].clone(), &committee), Ok(None));
}

#[test]
fn thresholds_of_the_committee() {
    let committee = committee();
    assert_eq!(committee.size(), 4);
    assert_eq!(committee.quorum_threshold(), 3);
    assert_eq!(committee.validity_threshold(), 2);
    assert_eq!(committee.stake(&keys()[1]), 1);
    assert_eq!(committee.stake(&PublicKey::default()), 0);
    assert_eq!(committee.on_turn(6), keys()[2]);
    assert!(Committee::new(OrdMap::new()).is_none());

    // A weighted committee of total stake 10.
    let mut authorities = OrdMap::new();
    for (key, stake) in keys().into_iter().zip([1, 2, 3, 4]) {
        authorities.insert(key, stake);
    }
    let weighted = Committee::new(authorities).unwrap();
    assert_eq!(weighted.quorum_threshold(), 7);
    assert_eq!(weighted.validity_threshold(), 4);
    let voters: Vec<_> = keys().into_iter().skip(1).collect();
    assert_eq!(weighted.stake_of(&voters), 9);
}

#[test]
fn references_are_checked_in_order() {
    let committee = committee();
    let blocks = genesis();
    let parents = digests(&blocks);
    let author = keys()[0];

    let good = header_with(author, 1, &parents, &[], &[]);
    assert_eq!(check_references(&committee, &good, &blocks), Ok(()));

    // Two of four parents are no quorum.
    let few = header_with(author, 1, &parents[..2], &[], &[]);
    assert_eq!(
        check_references(&committee, &few, &blocks),
        Err(DagError::HeaderRequiresQuorum(few.id))
    );

    // Strong parents must be of the round before.
    let late = header_with(author, 2, &parents, &[], &[]);
    assert_eq!(
        check_references(&committee, &late, &blocks),
        Err(DagError::MalformedHeader(late.id))
    );

    // A weak edge must lead further down than a strong one.
    let weak = header_with(author, 1, &parents[..3], &parents[3..], &[]);
    assert_eq!(
        check_references(&committee, &weak, &blocks),
        Err(DagError::MalformedHeader(weak.id))
    );

    // A virtual edge must lead into the round before.
    let pointed = header_with(author, 1, &parents[..3], &[], &parents[3..]);
    assert_eq!(check_references(&committee, &pointed, &blocks), Ok(()));
    let mut others = blocks[..3].to_vec();
    let deep = certificate(&header_with(keys()[3], 7, &[], &[], &[]));
    others.push(deep.clone());
    let astray = header_with(author, 1, &parents[..3], &[], &[deep.digest()]);
    assert_eq!(
        check_references(&committee, &astray, &others),
        Err(DagError::MalformedHeader(astray.id))
    );
}

#[test]
fn old_messages_are_refused() {
    assert_eq!(sanitize(5, digest(1), 5, Ok(())), Ok(()));
    assert_eq!(
        sanitize(5, digest(1), 4, Ok(())),
        Err(DagError::TooOld(digest(1), 4))
    );
    assert_eq!(
        sanitize(5, digest(1), 5, Err(DagError::Invalid)),
        Err(DagError::Invalid)
    );
    let committee = committee();
    let block = certificate(&first_header(keys()[1]));
    let mut ballot = grade_vote(&block, keys()[2]);
    assert_eq!(verify_grade_vote(&committee, 1, &ballot, Ok(())), Ok(()));
    assert_eq!(
        verify_grade_vote(&committee, 2, &ballot, Ok(())),
        Err(DagError::TooOld(block.digest(), 1))
    );
    ballot.origin = PublicKey::default();
    assert_eq!(
        verify_grade_vote(&committee, 1, &ballot, Ok(())),
        Err(DagError::UnknownAuthority(PublicKey::default()))
    );
}

#[test]
fn header_is_observed_stored_and_voted_for() {
    let (mut core, world) = node();
    let header = first_header(keys()[1]);
    core.receive_header(header.clone(), Ok(())).unwrap();
    assert!(matches!(world.drive(&mut core), Step::Idle));
    let effects = core.take_effects();
    assert_eq!(effects.len(), 3);
    assert!(matches!(&effects[0], Effect::Observed(x) if *x == header));
    assert!(matches!(&effects[1], Effect::StoreHeader(x) if *x == header));
    assert!(matches!(&effects[2], Effect::BroadcastVote(x)
        if *x == vote(&header, keys()[0])));

    // A second header of the author in the round gets no vote.
    let twin = Arc::new(Header {
        id: digest(77),
        block: digest(78),
        author: header.author,
        round: 1,
        payload: Vec::new(),
        parents: ord_set(&digests(&genesis())),
        weak_edges: OrdSet::new(),
        virtual_edges: OrdSet::new(),
        signature: Signature::default(),
    });
    core.receive_header(twin.clone(), Ok(())).unwrap();
    assert!(matches!(world.drive(&mut core), Step::Idle));
    let effects = core.take_effects();
    assert_eq!(effects.len(), 2);
    assert!(matches!(&effects[0], Effect::Observed(x) if *x == twin));
    assert!(matches!(&effects[1], Effect::StoreHeader(x) if *x == twin));
}

#[test]
fn suspended_header_is_resumed() {
    let (mut core, mut world) = node();
    let header = first_header(keys()[1]);
    world.missing_payload.insert(header.id);
    core.receive_header(header.clone(), Ok(())).unwrap();
    assert!(matches!(world.drive(&mut core), Step::Idle));
    assert_eq!(core.take_effects().len(), 1);

    world.missing_payload.clear();
    core.resume_header(header.clone());
    assert!(matches!(world.drive(&mut core), Step::Idle));
    assert_eq!(core.take_effects().len(), 2);

    // A missing parent suspends a header too.
    let orphan = header_with(keys()[2], 1, &[digest(5)], &[], &[]);
    core.receive_header(orphan, Ok(())).unwrap();
    assert!(matches!(world.drive(&mut core), Step::Idle));
    assert_eq!(core.take_effects().len(), 1);
}

#[test]
fn misplaced_header_fails() {
    let (mut core, world) = node();
    let header = header_with(keys()[1], 3, &digests(&genesis()), &[], &[]);
    core.receive_header(header.clone(), Ok(())).unwrap();
    assert!(matches!(world.drive(&mut core),
        Step::Failed(DagError::MalformedHeader(x)) if x == header.id));
    assert!(matches!(world.drive(&mut core), Step::Idle));
}

#[test]
fn invalid_header_is_refused() {
    let (mut core, world) = node();
    let header = first_header(keys()[1]);
    assert_eq!(
        core.receive_header(header, Err(DagError::Invalid)),
        Err(DagError::Invalid)
    );
    assert!(matches!(world.drive(&mut core), Step::Idle));
    assert!(core.take_effects().is_empty());
}

#[test]
fn own_header_is_broadcast_and_certified() {
    let (mut core, world) = node();
    let header = first_header(keys()[0]);
    core.process_own_header(header.clone());
    assert!(matches!(world.drive(&mut core), Step::Idle));
    for name in &keys()[1..3] {
        core.receive_vote(vote(&header, *name), digest(0), Ok(()))
            .unwrap();
        assert!(matches!(world.drive(&mut core), Step::Idle));
    }
    let effects = core.take_effects();
    assert!(matches!(&effects[0], Effect::BroadcastHeader(x) if *x == header));
    let assembled = effects
        .iter()
        .find_map(|x| match x {
            Effect::BroadcastCertificate(x) => Some(x.clone()),
            _ => None,
        })
        .unwrap();
    assert_eq!(assembled.header, header);
    assert_eq!(assembled.votes.len(), 3);
    assert!(effects
        .iter()
        .any(|x| matches!(x, Effect::GradeOne(x) if *x == assembled)));
    assert!(effects
        .iter()
        .any(|x| matches!(x, Effect::BroadcastGradeVote(x)
            if *x == grade_vote(&assembled, keys()[0]))));
}

#[test]
fn early_votes_wait_for_their_header() {
    let (mut core, world) = node();
    let header = first_header(keys()[1]);
    for name in &keys()[1..] {
        core.receive_vote(vote(&header, *name), digest(0), Ok(()))
            .unwrap();
        core.receive_vote(vote(&header, *name), digest(0), Ok(()))
            .unwrap();
        assert!(matches!(world.drive(&mut core), Step::Idle));
    }
    assert!(core.take_effects().is_empty());
    core.receive_header(header.clone(), Ok(())).unwrap();
    assert!(matches!(world.drive(&mut core), Step::Idle));
    let effects = core.take_effects();
    assert!(matches!(&effects[0], Effect::Observed(x) if *x == header));
    assert!(matches!(&effects[1], Effect::BroadcastCertificate(x) if x.header == header));
}

#[test]
fn repeated_vote_fails() {
    let (mut core, world) = node();
    let header = first_header(keys()[1]);
    core.receive_header(header.clone(), Ok(())).unwrap();
    world.drive(&mut core);
    core.receive_vote(vote(&header, keys()[2]), digest(0), Ok(()))
        .unwrap();
    world.drive(&mut core);
    core.receive_vote(vote(&header, keys()[2]), digest(0), Ok(()))
        .unwrap();
    assert!(matches!(world.drive(&mut core),
        Step::Failed(DagError::AuthorityReuse(x)) if x == keys()[2]));
}

#[test]
fn failure_behind_a_barrier_is_fatal() {
    let (mut core, mut world) = node();
    let header = first_header(keys()[1]);
    core.receive_header(header.clone(), Ok(())).unwrap();
    world.drive(&mut core);
    core.receive_vote(vote(&header, keys()[1]), digest(0), Ok(()))
        .unwrap();
    world.drive(&mut core);
    // The vote of a third authority assembles a certificate, whose delivery
    // then fails.
    world.broken = true;
    core.receive_vote(vote(&header, keys()[2]), digest(0), Ok(()))
        .unwrap();
    assert!(matches!(
        world.drive(&mut core),
        Step::Fatal(DagError::StoreError)
    ));
}

#[test]
fn certificate_is_delivered_once_at_each_grade() {
    let (mut core, world) = node();
    let block = certificate(&first_header(keys()[1]));
    for _ in 0..2 {
        core.receive_certificate(block.clone(), Ok(())).unwrap();
        assert!(matches!(world.drive(&mut core), Step::Idle));
    }
    for name in &keys()[1..3] {
        core.receive_grade_vote(grade_vote(&block, *name), 0, Ok(()))
            .unwrap();
        assert!(matches!(world.drive(&mut core), Step::Idle));
    }
    let graded = GradedCertificate {
        certificate: block.clone(),
        grade: Grade::Two,
        votes: Arc::new(Vec::new()),
    };
    core.receive_graded_certificate(graded, Ok(())).unwrap();
    assert!(matches!(world.drive(&mut core), Step::Idle));
    let effects = core.take_effects();
    let ones = effects.iter().filter(|x| matches!(x, Effect::GradeOne(_)));
    let twos = effects.iter().filter(|x| matches!(x, Effect::GradeTwo(_)));
    let votes = effects
        .iter()
        .filter(|x| matches!(x, Effect::BroadcastGradeVote(_)));
    assert_eq!((ones.count(), twos.count(), votes.count()), (1, 1, 1));
}

#[test]
fn undelivered_certificate_is_resumed() {
    let (mut core, mut world) = node();
    let block = certificate(&first_header(keys()[1]));
    world.undelivered.insert(block.digest());
    core.receive_certificate(block.clone(), Ok(())).unwrap();
    assert!(matches!(world.drive(&mut core), Step::Idle));
    assert!(!core
        .take_effects()
        .iter()
        .any(|x| matches!(x, Effect::GradeOne(_))));
    world.undelivered.clear();
    core.resume_certificate(block.clone());
    assert!(matches!(world.drive(&mut core), Step::Idle));
    assert!(core
        .take_effects()
        .iter()
        .any(|x| matches!(x, Effect::GradeOne(x) if *x == block)));
}

#[test]
fn enough_grade_votes_are_relayed_before_the_block() {
    let (mut core, world) = node();
    let block = certificate(&first_header(keys()[1]));
    core.receive_grade_vote(grade_vote(&block, keys()[1]), 0, Ok(()))
        .unwrap();
    world.drive(&mut core);
    assert!(core.take_effects().is_empty());
    core.receive_grade_vote(grade_vote(&block, keys()[2]), 0, Ok(()))
        .unwrap();
    world.drive(&mut core);
    let effects = core.take_effects();
    assert_eq!(effects.len(), 1);
    assert!(matches!(&effects[0], Effect::BroadcastGradeVote(x)
        if *x == grade_vote(&block, keys()[0])));

    // The block arrives last: it is of grade 2 at once, and no second grade
    // vote goes out.
    core.receive_certificate(block.clone(), Ok(())).unwrap();
    assert!(matches!(world.drive(&mut core), Step::Idle));
    let effects = core.take_effects();
    assert!(effects
        .iter()
        .any(|x| matches!(x, Effect::GradeTwo(x) if *x == block)));
    assert!(!effects
        .iter()
        .any(|x| matches!(x, Effect::BroadcastGradeVote(_))));
}

#[test]
fn grade_vote_for_another_slot_fails() {
    let (mut core, world) = node();
    let block = certificate(&first_header(keys()[1]));
    core.receive_grade_vote(grade_vote(&block, keys()[1]), 0, Ok(()))
        .unwrap();
    world.drive(&mut core);
    let mut stray = grade_vote(&block, keys()[2]);
    stray.round = 9;
    core.receive_grade_vote(stray, 0, Ok(())).unwrap();
    assert!(matches!(world.drive(&mut core),
        Step::Failed(DagError::UnexpectedGradeVote(x)) if x == block.digest()));
}

#[test]
fn quorum_of_grade_two_advances_the_round() {
    let (mut core, mut world) = node();
    let blocks: Vec<_> = keys()
        .into_iter()
        .map(|key| certificate(&first_header(key)))
        .collect();
    // The last block stays at grade 1.
    core.receive_certificate(blocks[3].clone(), Ok(())).unwrap();
    world.drive(&mut core);
    // The first of the others cannot count at first.
    world.unready.insert(blocks[0].digest());
    for block in &blocks[..3] {
        core.receive_certificate(block.clone(), Ok(())).unwrap();
        world.drive(&mut core);
        for name in &keys()[1..3] {
            core.receive_grade_vote(grade_vote(block, *name), 0, Ok(()))
                .unwrap();
            world.drive(&mut core);
        }
    }
    assert!(!core
        .take_effects()
        .iter()
        .any(|x| matches!(x, Effect::RoundAdvanced(_))));
    // Its dependencies arrive. The next header looks again.
    world.unready.clear();
    core.receive_header(first_header(keys()[1]), Ok(())).unwrap();
    assert!(matches!(world.drive(&mut core), Step::Idle));
    let effects = core.take_effects();
    let advanced = effects
        .iter()
        .position(|x| matches!(x, Effect::RoundAdvanced(2)))
        .unwrap();
    assert!(matches!(&effects[advanced + 1], Effect::Propose(parents, weak, virtuals, 1)
        if parents.len() == 3
            && parents.contains(&blocks[0].digest())
            && weak.is_empty()
            && *virtuals == vec![blocks[3].digest()]));
}

#[test]
fn leader_requests_are_sent_and_answered() {
    let (mut core, world) = node();
    core.request_leader(4, keys()[2]);
    let effects = core.take_effects();
    assert!(matches!(&effects[..], [Effect::BroadcastLeaderRequest(4, x)] if *x == keys()[2]));

    core.process_leader_request(1, keys()[1], keys()[3]);
    assert!(core.take_effects().is_empty());
    let header = first_header(keys()[1]);
    core.receive_header(header.clone(), Ok(())).unwrap();
    world.drive(&mut core);
    core.take_effects();
    core.process_leader_request(1, keys()[1], PublicKey::default());
    assert!(core.take_effects().is_empty());
    core.process_leader_request(1, keys()[1], keys()[3]);
    let effects = core.take_effects();
    assert!(matches!(&effects[..], [Effect::SendHeader(x, to)]
        if *x == header && *to == keys()[3]));
}

#[test]
fn cleanup_follows_the_consensus() {
    let (mut core, world) = node();
    core.gc_depth = 3;
    let header = first_header(keys()[1]);
    core.receive_header(header.clone(), Ok(())).unwrap();
    world.drive(&mut core);
    core.cleanup(3);
    assert_eq!(core.gc_round, 0);
    core.cleanup(4);
    assert_eq!(core.gc_round, 1);
    assert!(core.observed_headers.contains_key(&header.id));
    core.cleanup(5);
    assert_eq!(core.gc_round, 2);
    assert!(core.observed_headers.is_empty());
    assert_eq!(core.last_voted.len(), 0);
    assert_eq!(
        core.receive_header(header.clone(), Ok(())),
        Err(DagError::TooOld(header.id, 1))
    );
}

// The grade vote that brings the senders to the threshold is relayed, and no
// other. A repeated sender counts once.
#[test]
fn grade_vote_is_relayed_at_the_threshold_alone() {
    let (mut core, world) = node();
    let block = certificate(&first_header(keys()[1]));
    let senders = [1, 1, 1, 2, 2, 3, 1];
    let mut relayed = Vec::new();
    for (k, sender) in senders.iter().enumerate() {
        core.receive_grade_vote(grade_vote(&block, keys()[*sender]), 0, Ok(()))
            .unwrap();
        world.drive(&mut core);
        for effect in core.take_effects() {
            assert!(matches!(&effect, Effect::BroadcastGradeVote(x)
                if *x == grade_vote(&block, keys()[0])));
            relayed.push(k);
        }
    }
    assert_eq!(relayed, vec![3]);
}

// A grade vote that was relayed before its block is not sent again after a
// cleanup of earlier rounds.
#[test]
fn relayed_grade_vote_outlives_a_cleanup() {
    let (mut core, world) = node();
    core.gc_depth = 3;
    let block = certificate(&first_header(keys()[1]));
    for name in &keys()[1..3] {
        core.receive_grade_vote(grade_vote(&block, *name), 0, Ok(()))
            .unwrap();
        world.drive(&mut core);
    }
    assert_eq!(core.take_effects().len(), 1);
    core.cleanup(4);
    assert!(core.grade_voted.contains(&block.digest()));
    core.receive_grade_vote(grade_vote(&block, keys()[2]), 0, Ok(()))
        .unwrap();
    core.receive_grade_vote(grade_vote(&block, keys()[3]), 0, Ok(()))
        .unwrap();
    world.drive(&mut core);
    assert!(core.take_effects().is_empty());

    // The round of the block is left behind.
    core.cleanup(5);
    assert!(core.grade_voted.is_empty());
}

// A cleanup reopens neither the vote nor the deliveries of a later round.
#[test]
fn cleanup_reopens_nothing() {
    let (mut core, world) = node();
    core.gc_depth = 3;
    let header = first_header(keys()[1]);
    let block = certificate(&header);
    core.receive_header(header.clone(), Ok(())).unwrap();
    world.drive(&mut core);
    core.receive_certificate(block.clone(), Ok(())).unwrap();
    world.drive(&mut core);
    core.take_effects();
    core.cleanup(4);
    core.receive_header(header.clone(), Ok(())).unwrap();
    world.drive(&mut core);
    core.receive_certificate(block.clone(), Ok(())).unwrap();
    world.drive(&mut core);
    assert!(!core.take_effects().iter().any(|x| matches!(
        x,
        Effect::BroadcastVote(..)
            | Effect::BroadcastGradeVote(_)
            | Effect::GradeOne(_)
            | Effect::GradeTwo(_)
    )));
}

#[test]
fn reply_to_no_question_changes_nothing() {
    let (mut core, _) = node();
    assert!(matches!(core.answer(Reply::Ready(true)), Step::Idle));
    core.resume_header(first_header(keys()[1]));
    assert!(matches!(core.answer(Reply::Ready(true)), Step::Idle));
    assert!(matches!(core.step(), Step::Done));
}
