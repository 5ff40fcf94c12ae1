use orca::committee::Committee;
use orca::consensus::commit::Time;
use orca::consensus::messages::ConsensusMessage;
use orca::consensus::model::FallbackDecision;
use orca::consensus::recovery::LEADER_RETRY_DELAY;
use orca::consensus::rules::{Consensus, Election, Schedule};
use orca::consensus::state::{History, State};
use orca::ordered::{OrdMap, OrdSet, Relation};
use orca::types::{Certificate, Digest, Header, PublicKey, Round, Signature};
use std::collections::{BTreeSet, VecDeque};
use std::sync::Arc;

// Fixture
fn keys() -> Vec<PublicKey> {
    vec![
        PublicKey { hi: 7, lo: 70 },
        PublicKey { hi: 3, lo: 30 },
        PublicKey { hi: 9, lo: 90 },
        PublicKey { hi: 5, lo: 50 },
    ]
}

// Fixture
fn sorted_keys() -> Vec<PublicKey> {
    let mut keys = keys();
    keys.sort();
    keys
}

// Fixture
fn mock_committee() -> Committee {
    let mut authorities = OrdMap::new();
    for key in keys() {
        authorities.insert(key, 1);
    }
    Committee::new(authorities).unwrap()
}

// Fixture: a mixing function over words.
fn mix(words: &[u128]) -> u128 {
    let mut state: u128 = 0x6c62_272e_07bb_0142_62b8_2175_6295_c58d;
    for word in words {
        for shift in [0, 32, 64, 96] {
            state ^= (word >> shift) & 0xffff_ffff;
            state = state.wrapping_mul(0x0000_0000_0100_0000_0000_0000_0000_013b);
        }
    }
    state
}

// Fixture: the digest of a certificate, over the header's id, round and author.
fn block_digest(id: &Digest, round: Round, author: &PublicKey) -> Digest {
    let words = [id.hi, id.lo, round as u128, author.hi, author.lo];
    Digest {
        hi: mix(&words),
        lo: mix(&[mix(&words), 1]),
    }
}

// Fixture: a header under construction.
#[derive(Clone, Default)]
struct Draft {
    id: Digest,
    author: PublicKey,
    round: Round,
    parents: BTreeSet<Digest>,
    weak_edges: BTreeSet<Digest>,
    virtual_edges: BTreeSet<Digest>,
}

impl Draft {
    fn digest(&self) -> Digest {
        block_digest(&self.id, self.round, &self.author)
    }

    // Sets the id to the digest of the contents.
    fn seal(&mut self) {
        let mut words = vec![self.round as u128, self.author.hi, self.author.lo];
        for (tag, edges) in [
            (1u128, &self.parents),
            (2, &self.weak_edges),
            (3, &self.virtual_edges),
        ] {
            words.push(tag);
            for edge in edges {
                words.push(edge.hi);
                words.push(edge.lo);
            }
        }
        self.id = Digest {
            hi: mix(&words),
            lo: mix(&[mix(&words), 2]),
        };
    }

    fn build(&self) -> Certificate {
        Certificate {
            header: Arc::new(Header {
                id: self.id,
                block: self.digest(),
                author: self.author,
                round: self.round,
                payload: Vec::new(),
                parents: ord_set(&self.parents),
                weak_edges: ord_set(&self.weak_edges),
                virtual_edges: ord_set(&self.virtual_edges),
                signature: Signature::default(),
            }),
            votes: Arc::new(Vec::new()),
        }
    }
}

fn ord_set(digests: &BTreeSet<Digest>) -> OrdSet<Digest> {
    let mut set = OrdSet::new();
    for digest in digests {
        set.insert(*digest);
    }
    set
}

fn draft(author: PublicKey, round: Round, parents: BTreeSet<Digest>) -> Draft {
    Draft {
        author,
        round,
        parents,
        ..Draft::default()
    }
}

// Fixture
fn mock_certificate(
    origin: PublicKey,
    round: Round,
    parents: BTreeSet<Digest>,
) -> (Digest, Certificate) {
    let draft = draft(origin, round, parents);
    (draft.digest(), draft.build())
}

// Fixture
fn genesis() -> Vec<Certificate> {
    keys()
        .into_iter()
        .map(|key| mock_certificate(key, 0, BTreeSet::new()).1)
        .collect()
}

fn genesis_digests() -> BTreeSet<Digest> {
    genesis().iter().map(|x| x.digest()).collect()
}

// Fixture
fn mock_consensus() -> Consensus {
    Consensus {
        committee: mock_committee(),
        gc_depth: 50,
        election: Election::Fixed,
        schedule: Schedule {
            adversarial: OrdSet::new(),
            deferred: OrdSet::new(),
        },
    }
}

fn at(ms: u64) -> Time {
    Time {
        wall_ms: 1_000_000 + ms as u128,
        mono_ms: ms,
    }
}

fn one(digest: Digest) -> BTreeSet<Digest> {
    [digest].into_iter().collect()
}

// Creates one certificate per authority starting and finishing at the specified rounds (inclusive).
// Outputs a VecDeque of certificates (the certificate with higher round is on the front) and a set
// of digests to be used as parents for the certificates of the next round.
fn make_certificates(
    start: Round,
    stop: Round,
    initial_parents: &BTreeSet<Digest>,
    keys: &[PublicKey],
) -> (VecDeque<Certificate>, BTreeSet<Digest>) {
    let mut certificates = VecDeque::new();
    let mut parents = initial_parents.clone();
    let mut next_parents = BTreeSet::new();

    for round in start..=stop {
        next_parents.clear();
        for name in keys {
            let (digest, certificate) = mock_certificate(*name, round, parents.clone());
            certificates.push_back(certificate);
            next_parents.insert(digest);
        }
        parents = next_parents.clone();
    }
    (certificates, next_parents)
}

// Delivers certificates at grade 1 and grade 2, and collects what is committed
// and requested.
fn run(certificates: VecDeque<Certificate>) -> (Vec<Certificate>, Vec<(Round, PublicKey)>) {
    let consensus = mock_consensus();
    let mut state = State::new(genesis());
    let mut output = Vec::new();
    let mut requests = Vec::new();
    for certificate in certificates {
        assert!(state.admits(&certificate));
        consensus.handle(
            ConsensusMessage::GradeOne(certificate.clone()),
            at(0),
            &mut state,
        );
        consensus.handle(ConsensusMessage::GradeTwo(certificate), at(0), &mut state);
        for batch in state.take_commits() {
            output.extend(batch);
        }
        requests.extend(state.take_requests());
    }
    (output, requests)
}

// Whether some slot of a round is taken.
fn has_round(blocks: &OrdMap<(Round, PublicKey), Certificate>, round: Round) -> bool {
    blocks.keys().iter().any(|slot| slot.0 == round)
}

#[test]
fn vdag_stores_grade_one_deliveries() {
    let mut state = State::new(genesis());
    let origin = keys()[0];
    let (digest, certificate) = mock_certificate(origin, 1, BTreeSet::new());

    state.insert_grade_one(certificate.clone());

    let stored = state.graph.vdag.get(&(1, origin)).unwrap();
    assert_eq!(stored.digest(), digest);
    assert_eq!(stored, &certificate);
    assert!(!has_round(&state.graph.dag, 1));

    state.promote_to_dag(certificate.clone());

    assert!(!has_round(&state.graph.vdag, 1));
    let stored = state.graph.dag.get(&(1, origin)).unwrap();
    assert_eq!(stored.digest(), digest);
    assert_eq!(stored, &certificate);
}

#[test]
fn future_round_block_is_kept_through_all_grbc_stages() {
    let mut state = State::new(genesis());
    let authority = keys()[0];
    let (digest, block) = mock_certificate(authority, 10, BTreeSet::new());

    // A node whose formal Dag only contains genesis may still receive and
    // retain a valid future-round block immediately.
    state.observe(block.clone());
    assert!(state.graph.observed.contains_key(&digest));

    state.insert_grade_one(block.clone());
    assert!(state.graph.vdag.get(&(10, authority)).is_some());

    state.mark_grade_two(digest);
    state.promote_ready();
    assert!(state.graph.dag_digests.contains(&digest));
    assert!(state
        .graph
        .vdag
        .get(&(10, authority))
        .map_or(true, |block| block.digest() != digest));
}

#[test]
fn higher_round_jump_checks_each_crossed_round_once() {
    let consensus = mock_consensus();
    let mut state = State::new(genesis());

    consensus.advance_commit_checks(8, at(0), &mut state);
    assert_eq!(state.commits.highest_advanced_round, 8);

    // Repeated or stale advancement notifications never rescan old rounds.
    consensus.advance_commit_checks(5, at(0), &mut state);
    assert_eq!(state.commits.highest_advanced_round, 8);
}

#[test]
fn missing_leader_request_keeps_retrying_after_300_ms() {
    let consensus = mock_consensus();
    let mut state = State::new(genesis());
    assert_eq!(LEADER_RETRY_DELAY, 300);

    consensus.request_missing_leader(2, at(0), &mut state);
    assert!(matches!(state.take_requests()[..], [(2, _)]));

    consensus.retry_missing_leaders(at(0), &mut state);
    assert!(state.take_requests().is_empty());

    consensus.retry_missing_leaders(at(LEADER_RETRY_DELAY + 20), &mut state);
    assert!(matches!(state.take_requests()[..], [(2, _)]));

    consensus.retry_missing_leaders(at(LEADER_RETRY_DELAY + 20), &mut state);
    assert!(state.take_requests().is_empty());
    assert!(state.fallback.missing_requests.contains_key(&2));

    consensus.retry_missing_leaders(at(2 * (LEADER_RETRY_DELAY + 20)), &mut state);
    assert!(matches!(state.take_requests()[..], [(2, _)]));
}

#[test]
fn skipped_leader_cancels_recovery_and_retries() {
    let consensus = mock_consensus();
    let mut state = State::new(genesis());

    consensus.request_missing_leader(2, at(0), &mut state);
    assert!(!state.take_requests().is_empty());
    consensus.mark_rule_three_skipped(2, &mut state);
    assert!(!state.fallback.recovery.contains(&2));
    assert!(!state.fallback.missing_requests.contains_key(&2));

    consensus.request_missing_leader(2, at(0), &mut state);
    assert!(state.take_requests().is_empty());
}

#[test]
fn skipped_leader_vertex_can_still_be_force_admitted_as_causal_history() {
    let consensus = mock_consensus();
    let mut state = State::new(genesis());
    let authorities = keys();
    let (skipped_digest, skipped) =
        mock_certificate(consensus.ordering_leader_authority(1), 1, BTreeSet::new());
    state.observe(skipped);
    consensus.mark_rule_three_skipped(1, &mut state);

    let (_, root) = mock_certificate(authorities[0], 2, one(skipped_digest));
    state.force_observed_history_to_dag(root, 2);

    assert!(state.commits.skipped.contains(&1));
    assert!(state.graph.dag_digests.contains(&skipped_digest));
}

#[test]
fn grade_two_waits_for_strong_and_weak_edges() {
    let mut state = State::new(genesis());
    let authority = keys()[0];

    let (dependency_digest, dependency) = mock_certificate(authority, 1, genesis_digests());
    let mut block = draft(authority, 3, BTreeSet::new());
    block.weak_edges.insert(dependency_digest);
    let block_digest = block.digest();

    state.insert_grade_one(block.build());
    state.mark_grade_two(block_digest);
    assert!(state.promote_ready().is_empty());
    assert!(state.graph.vdag.contains_key(&(3, authority)));

    state.insert_grade_one(dependency);
    state.mark_grade_two(dependency_digest);
    let promoted = state.promote_ready();
    assert_eq!(promoted.len(), 2);
    assert!(state.graph.dag_digests.contains(&block_digest));
    assert!(!has_round(&state.graph.vdag, 3));
}

#[test]
fn finds_paths_over_strong_and_weak_edges() {
    let consensus = mock_consensus();
    let mut state = State::new(genesis());
    let authorities = keys();

    let (target_digest, target) = mock_certificate(authorities[0], 1, BTreeSet::new());
    let (middle_digest, middle) = mock_certificate(authorities[1], 3, one(target_digest));
    let mut leader = draft(authorities[2], 5, BTreeSet::new());
    leader.weak_edges.insert(middle_digest);
    let leader = leader.build();

    state.promote_to_dag(target.clone());
    state.promote_to_dag(middle);
    state.promote_to_dag(leader.clone());

    assert!(consensus.linked_by_strong_or_weak(&leader, &target, &state));

    let (_, unreachable) = mock_certificate(authorities[3], 2, BTreeSet::new());
    assert!(!consensus.linked_by_strong_or_weak(&leader, &unreachable, &state));
}

#[test]
fn order_dag_includes_parents_and_weak_but_excludes_virtual_history() {
    let consensus = mock_consensus();
    let mut state = State::new(genesis());
    let authorities = keys();

    let (weak_digest, weak_parent) = mock_certificate(authorities[1], 1, BTreeSet::new());
    let (virtual_digest, virtual_parent) = mock_certificate(authorities[2], 2, BTreeSet::new());
    let (parent_digest, parent) = mock_certificate(authorities[3], 2, BTreeSet::new());
    let mut leader = draft(authorities[0], 3, BTreeSet::new());
    leader.parents.insert(parent_digest);
    leader.weak_edges.insert(weak_digest);
    leader.virtual_edges.insert(virtual_digest);
    leader.seal();
    let leader = leader.build();

    state.promote_to_dag(weak_parent);
    state.promote_to_dag(virtual_parent);
    state.promote_to_dag(parent);
    state.promote_to_dag(leader.clone());
    let ordered = consensus.order_dag(&leader, &state);

    assert!(ordered.iter().any(|block| block.digest() == parent_digest));
    assert!(ordered.iter().any(|block| block.digest() == weak_digest));
    assert!(!ordered.iter().any(|block| block.digest() == virtual_digest));
    assert_eq!(ordered.last().unwrap().digest(), leader.digest());
}

#[test]
fn designates_one_leader_every_round() {
    let consensus = mock_consensus();
    let expected = sorted_keys();

    for round in 0..8 {
        assert_eq!(
            consensus.leader_authority(round),
            expected[round as usize % expected.len()]
        );
    }
}

#[test]
fn commit_rule_counts_observed_and_dag_strong_support_separately() {
    let consensus = mock_consensus();
    let mut state = State::new(genesis());
    let authorities = keys();
    let (leader_digest, leader) = mock_certificate(authorities[0], 1, BTreeSet::new());
    state.promote_to_dag(leader);

    let parents = one(leader_digest);
    let support: Vec<_> = authorities
        .iter()
        .take(3)
        .map(|authority| mock_certificate(*authority, 2, parents.clone()).1)
        .collect();
    for certificate in &support {
        state.insert_grade_one(certificate.clone());
    }

    // Three out of four authorities are observed in Dag union VDag, while no
    // supporter has entered the formal Dag yet.
    assert_eq!(
        consensus.strong_support_stake(2, &leader_digest, &state),
        (3, 0)
    );

    state.promote_to_dag(support[0].clone());
    state.promote_to_dag(support[1].clone());
    assert_eq!(
        consensus.strong_support_stake(2, &leader_digest, &state),
        (3, 2)
    );
}

#[test]
fn commit_rule_one_counts_pre_grade_one_grbc_observations() {
    let consensus = mock_consensus();
    let mut state = State::new(genesis());
    let authorities = keys();
    let (leader_digest, leader) = mock_certificate(authorities[0], 1, BTreeSet::new());
    state.promote_to_dag(leader);
    let parents = one(leader_digest);
    for authority in authorities.iter().take(3) {
        state.observe(mock_certificate(*authority, 2, parents.clone()).1);
    }

    assert_eq!(
        consensus.strong_support_stake(2, &leader_digest, &state),
        (consensus.committee.quorum_threshold(), 0)
    );
}

#[test]
fn rule_one_does_not_count_locally_present_unreferenced_leader() {
    let consensus = mock_consensus();
    let mut state = State::new(genesis());
    let authorities = keys();
    let (leader_digest, leader) = mock_certificate(authorities[0], 1, BTreeSet::new());
    state.observe(leader);

    // These blocks and the leader are all locally observed, but none of their
    // strong parents actually contains the leader digest.
    for authority in authorities.iter().take(3) {
        state.observe(mock_certificate(*authority, 2, BTreeSet::new()).1);
    }

    assert_eq!(
        consensus.strong_support_stake(2, &leader_digest, &state),
        (0, 0)
    );
}

#[test]
fn rule_one_promotes_observed_leader_and_causal_history_to_dag() {
    let consensus = mock_consensus();
    let mut state = State::new(genesis());
    let authorities = sorted_keys();

    let (dependency_digest, dependency) = mock_certificate(authorities[1], 0, BTreeSet::new());
    let (leader_digest, leader) = mock_certificate(authorities[0], 1, one(dependency_digest));
    state.observe(dependency);
    state.observe(leader);

    let support_parents = one(leader_digest);
    for authority in authorities.iter().take(3) {
        state.observe(mock_certificate(*authority, 2, support_parents.clone()).1);
    }

    consensus.evaluate_commit_rule_one(2, at(0), &mut state);

    assert!(state.commits.committed.contains(&1));
    assert!(state.graph.dag_digests.contains(&leader_digest));
    assert!(state.graph.dag_digests.contains(&dependency_digest));
}

#[test]
fn commit_ready_leader_promotes_from_observe_with_strong_and_weak_history() {
    let consensus = mock_consensus();
    let mut state = State::new(genesis());
    let authorities = keys();

    let (strong_digest, strong_parent) = mock_certificate(authorities[1], 1, BTreeSet::new());
    let (weak_digest, weak_parent) = mock_certificate(authorities[2], 1, BTreeSet::new());
    let (late_weak_digest, late_weak_parent) = mock_certificate(authorities[3], 1, BTreeSet::new());
    state.observe(strong_parent);
    state.observe(weak_parent);

    let mut leader = draft(
        consensus.ordering_leader_authority(2),
        2,
        one(strong_digest),
    );
    leader.weak_edges.insert(weak_digest);
    leader.weak_edges.insert(late_weak_digest);
    let leader_digest = leader.digest();
    let leader = leader.build();

    // The commit decision exists before this node receives the leader.
    state.fallback.recovery.insert(2);
    state.observe(leader.clone());
    consensus.promote_observed_pending_leader(2, &mut state);

    assert!(state.graph.dag_digests.contains(&leader_digest));
    assert!(state.graph.dag_digests.contains(&strong_digest));
    assert!(state.graph.dag_digests.contains(&weak_digest));
    assert!(!state.graph.dag_digests.contains(&late_weak_digest));

    // A missing causal dependency is promoted immediately when any verified
    // GRBC observation of it arrives, without waiting for grade 1 or grade 2.
    state.observe(late_weak_parent.clone());
    assert!(state.graph.dag_digests.contains(&late_weak_digest));

    // A later grade-1 notification cannot put an already promoted block back
    // into VDag.
    state.insert_grade_one(leader);
    state.insert_grade_one(late_weak_parent);
    for slot in state.graph.vdag.keys() {
        let digest = state.graph.vdag.get(&slot).unwrap().digest();
        assert!(digest != leader_digest && digest != late_weak_digest);
    }
}

#[test]
fn force_admission_does_not_follow_virtual_edges() {
    let mut state = State::new(genesis());
    let authorities = keys();
    let (virtual_digest, virtual_block) = mock_certificate(authorities[1], 1, BTreeSet::new());
    state.observe(virtual_block);

    let mut root = draft(authorities[0], 2, BTreeSet::new());
    root.virtual_edges.insert(virtual_digest);
    root.seal();
    state.force_observed_history_to_dag(root.build(), 2);

    assert!(!state.graph.dag_digests.contains(&virtual_digest));
}

#[test]
fn commit_rule_two_counts_strong_and_two_hop_virtual_paths() {
    let consensus = mock_consensus();
    let mut state = State::new(genesis());
    let authorities = keys();
    let (leader_digest, leader) = mock_certificate(authorities[0], 1, BTreeSet::new());
    state.promote_to_dag(leader);

    // The middle block virtually references the leader.
    let mut middle = draft(authorities[1], 2, BTreeSet::new());
    middle.virtual_edges.insert(leader_digest);
    let middle_digest = middle.digest();
    state.promote_to_dag(middle.build());

    // Three formal-Dag blocks use one strong edge to the middle block, making
    // an exact strong+virtual two-hop path to the leader.
    let parents = one(middle_digest);
    for authority in authorities.iter().take(3) {
        let block = mock_certificate(*authority, 3, parents.clone()).1;
        state.promote_to_dag(block);
    }

    assert_eq!(
        consensus.rule_two_support_stake(3, &leader_digest, &state),
        (0, 0, 3)
    );
}

#[test]
fn rule_two_does_not_count_locally_present_unreferenced_leader() {
    let consensus = mock_consensus();
    let mut state = State::new(genesis());
    let authorities = keys();
    let (leader_digest, leader) = mock_certificate(authorities[0], 1, BTreeSet::new());
    state.promote_to_dag(leader);

    // The intermediate block is locally present but does not virtually
    // reference the leader. Merely storing the leader cannot create a path.
    let (middle_digest, middle) = mock_certificate(authorities[1], 2, BTreeSet::new());
    state.promote_to_dag(middle);
    let parents = one(middle_digest);
    for authority in authorities.iter().take(3) {
        state.promote_to_dag(mock_certificate(*authority, 3, parents.clone()).1);
    }

    assert_eq!(
        consensus.rule_two_support_stake(3, &leader_digest, &state),
        (0, 0, 0)
    );
}

#[test]
fn direct_fallback_counts_each_anchor_parent_once() {
    let consensus = mock_consensus();
    let mut state = State::new(genesis());
    let authorities = sorted_keys();

    let (lower_digest, lower) = mock_certificate(authorities[0], 1, BTreeSet::new());
    state.promote_to_dag(lower);

    // Two different round-2 blocks virtually reference the lower leader.
    let mut second_digests = BTreeSet::new();
    for authority in authorities.iter().take(2) {
        let mut second = draft(*authority, 2, BTreeSet::new());
        second.virtual_edges.insert(lower_digest);
        second_digests.insert(second.digest());
        state.promote_to_dag(second.build());
    }

    // The same anchor parent points to both round-2 blocks. It is one vote,
    // irrespective of how many qualifying virtual paths it carries.
    let (first_digest, first) = mock_certificate(authorities[0], 3, second_digests);
    state.promote_to_dag(first);
    let (_, higher) = mock_certificate(authorities[3], 4, one(first_digest));

    assert_eq!(
        consensus.direct_fallback_stake(&higher, 1, authorities[0], &state),
        consensus.committee.stake(&authorities[0])
    );
}

#[test]
fn direct_fallback_counts_distinct_anchor_parent_proposers() {
    let consensus = mock_consensus();
    let mut state = State::new(genesis());
    let authorities = sorted_keys();
    let (lower_digest, lower) = mock_certificate(authorities[0], 1, BTreeSet::new());
    state.promote_to_dag(lower);
    let mut second = draft(authorities[1], 2, BTreeSet::new());
    second.virtual_edges.insert(lower_digest);
    let second_digest = second.digest();
    state.promote_to_dag(second.build());

    let mut first_digests = BTreeSet::new();
    for authority in authorities.iter().take(2) {
        let (digest, first) = mock_certificate(*authority, 3, one(second_digest));
        first_digests.insert(digest);
        state.promote_to_dag(first);
    }
    let (_, higher) = mock_certificate(authorities[3], 4, first_digests);
    assert_eq!(
        consensus.direct_fallback_stake(&higher, 1, authorities[0], &state),
        consensus.committee.validity_threshold()
    );
}

#[test]
fn unrelated_observation_does_not_dirty_fallback_anchor() {
    let mut state = State::new(genesis());
    let authorities = keys();
    let (_, anchor) = mock_certificate(authorities[0], 4, BTreeSet::new());
    state.observe(anchor.clone());
    state.fallback.anchors.insert(1, 4);
    state.mark_fallback_anchor_dirty(4);
    let snapshot = state.fallback_history_snapshot(&anchor);
    state.fallback.dirty_anchors = OrdSet::new();

    state.observe(mock_certificate(authorities[1], 2, BTreeSet::new()).1);

    assert!(!state.fallback.dirty_anchors.contains(&4));
    assert_eq!(
        state.fallback.anchor_versions.get(&4),
        Some(&snapshot.version)
    );
}

#[test]
fn fallback_history_is_reused_at_the_same_version() {
    let mut state = State::new(genesis());
    let authority = keys()[0];
    let (parent_digest, parent) = mock_certificate(authority, 3, BTreeSet::new());
    state.observe(parent);
    let (_, anchor) = mock_certificate(authority, 4, one(parent_digest));
    state.observe(anchor.clone());
    state.fallback.anchors.insert(1, 4);
    state.mark_fallback_anchor_dirty(4);
    let first = state.fallback_history_snapshot(&anchor);
    let marker = Digest::default();
    let mut by_round = Relation::new();
    for digest in first.by_round.image(&3) {
        by_round.insert(3, digest);
    }
    by_round.insert(99, marker);
    state.fallback.history_cache.insert(
        4,
        Arc::new(History {
            version: first.version,
            complete: first.complete,
            by_round,
        }),
    );

    let second = state.fallback_history_snapshot(&anchor);

    assert_eq!(first.version, second.version);
    assert_eq!(second.by_round.image(&99), vec![marker]);
}

#[test]
fn awaited_fallback_digest_dirties_only_its_anchor() {
    let mut state = State::new(genesis());
    let authority = keys()[0];
    let (missing_digest, missing) = mock_certificate(authority, 3, BTreeSet::new());
    let (_, anchor) = mock_certificate(authority, 4, one(missing_digest));
    state.observe(anchor.clone());
    state.fallback.anchors.insert(1, 4);
    state.mark_fallback_anchor_dirty(4);
    let first = state.fallback_history_snapshot(&anchor);
    assert!(!first.complete);
    state.fallback.dirty_anchors = OrdSet::new();

    state.observe(missing);

    let next_version = *state.fallback.anchor_versions.get(&4).unwrap();
    assert!(next_version > first.version);
    assert!(state.fallback.dirty_anchors.contains(&4));
    assert!(!state.fallback.evidence_waiters.has(&missing_digest));
}

#[test]
fn late_strong_ancestor_dirties_anchor_using_the_descendant() {
    let mut state = State::new(genesis());
    let authorities = keys();
    let (ancestor_digest, ancestor) = mock_certificate(authorities[0], 1, BTreeSet::new());
    state.observe(ancestor);
    let (parent_digest, parent) = mock_certificate(authorities[1], 2, one(ancestor_digest));
    let (child_digest, child) = mock_certificate(authorities[2], 3, one(parent_digest));
    state.observe(child);
    let (_, anchor) = mock_certificate(authorities[3], 4, one(child_digest));
    state.observe(anchor.clone());
    state.fallback.anchors.insert(1, 4);
    state.mark_fallback_anchor_dirty(4);
    assert!(!state.fallback_history_snapshot(&anchor).complete);
    assert!(state.fallback.vertex_users.contains(&child_digest, &4));
    // Isolate the reverse dependency on the already traversed child. The
    // parent's own missing-digest waiter is a separate wake-up path.
    state.fallback.evidence_waiters.take(&parent_digest);
    state.fallback.dirty_anchors = OrdSet::new();

    state.observe(parent);

    assert!(state.fallback.dirty_anchors.contains(&4));
}

#[test]
fn fallback_decision_cache_requires_the_anchor_version() {
    let mut state = State::new(genesis());
    state.fallback.decision_cache.insert(
        (7, 1),
        FallbackDecision {
            version: 5,
            commit: true,
        },
    );

    assert_eq!(state.fallback_decision(7, 1, 5), Some(true));
    assert_eq!(state.fallback_decision(7, 1, 6), None);
}

#[test]
fn rule_three_requests_a_leader_without_any_observed_certificate() {
    let consensus = mock_consensus();
    let mut state = State::new(genesis());
    let authorities = sorted_keys();
    let leader_authority = consensus.ordering_leader_authority(1);
    let mut dependency = draft(authorities[1], 0, BTreeSet::new());
    dependency.weak_edges.insert(Digest::default());
    dependency.seal();
    let dependency_digest = dependency.digest();
    let mut leader = draft(leader_authority, 1, one(dependency_digest));
    leader.seal();
    let leader_digest = leader.digest();
    let mut higher = draft(
        consensus.ordering_leader_authority(4),
        4,
        one(leader_digest),
    );
    higher.seal();
    let higher = higher.build();
    state.promote_to_dag(higher.clone());
    state.commits.pending.insert(4, higher);
    state.fallback.stack.insert(1);
    state.fallback.anchors.insert(1, 4);

    consensus.evaluate_commit_rule_three(at(0), &mut state);
    assert!(!state.commits.skipped.contains(&1));
    assert_eq!(state.take_requests(), vec![(1, leader_authority)]);
    assert!(!state.graph.dag_digests.contains(&leader_digest));
    assert!(!state.graph.dag_digests.contains(&dependency_digest));
}

#[test]
fn direct_fallback_skips_missing_leader_when_complete_history_has_no_vote() {
    let consensus = mock_consensus();
    let mut state = State::new(genesis());

    // The direct anchor has a complete, empty causal view. The round-1
    // leader is absent and receives no strong or virtual fallback vote.
    let (_, anchor) = mock_certificate(consensus.ordering_leader_authority(4), 4, BTreeSet::new());
    state.observe(anchor.clone());
    state.promote_to_dag(anchor);
    state.fallback.stack.insert(1);
    state.fallback.anchors.insert(1, 4);

    consensus.evaluate_commit_rule_three(at(0), &mut state);

    assert!(state.commits.skipped.contains(&1));
    assert!(!state.fallback.recovery.contains(&1));
    assert!(!state.fallback.missing_requests.contains_key(&1));
    assert!(state.take_requests().is_empty());
}

#[test]
fn rule_three_skips_locally_known_leader_not_referenced_by_observer_history() {
    let consensus = mock_consensus();
    let mut state = State::new(genesis());

    let (_, target) = mock_certificate(consensus.ordering_leader_authority(1), 1, BTreeSet::new());
    state.observe(target);
    let (_, observer) =
        mock_certificate(consensus.ordering_leader_authority(4), 4, BTreeSet::new());
    state.observe(observer.clone());
    state.promote_to_dag(observer.clone());
    state.commits.pending.insert(4, observer);
    state.fallback.stack.insert(1);
    state.fallback.anchors.insert(1, 4);

    consensus.evaluate_commit_rule_three(at(0), &mut state);

    assert!(state.commits.skipped.contains(&1));
    assert!(!state.commits.committed.contains(&1));
}

#[test]
fn fallback_does_not_jump_over_a_missing_stack_entry() {
    let consensus = mock_consensus();
    let mut state = State::new(genesis());
    let authorities = sorted_keys();

    let (target_digest, target) =
        mock_certificate(consensus.ordering_leader_authority(1), 1, BTreeSet::new());
    state.observe(target);

    // Build a three-strong prefix L7 -> B6 -> B5 -> B4, followed by
    // f+1 strong,strong,virtual suffixes distinguished by their B3 vertex.
    let mut b2 = draft(authorities[1], 2, BTreeSet::new());
    b2.virtual_edges.insert(target_digest);
    b2.seal();
    let b2_digest = b2.digest();
    state.observe(b2.build());

    let mut b3_digests = BTreeSet::new();
    for authority in authorities.iter().skip(2).take(2) {
        let (digest, b3) = mock_certificate(*authority, 3, one(b2_digest));
        b3_digests.insert(digest);
        state.observe(b3);
    }
    let (b4_digest, b4) = mock_certificate(authorities[1], 4, b3_digests);
    state.observe(b4);
    let (b5_digest, b5) = mock_certificate(authorities[2], 5, one(b4_digest));
    state.observe(b5);
    let mut b6 = draft(authorities[3], 6, one(b5_digest));
    b6.weak_edges.insert(Digest::default());
    b6.seal();
    let b6_digest = b6.digest();
    state.observe(b6.build());

    let (_, higher) = mock_certificate(consensus.ordering_leader_authority(7), 7, one(b6_digest));
    state.observe(higher.clone());
    state.promote_to_dag(higher.clone());
    state.commits.pending.insert(7, higher);
    state.fallback.stack.insert(1);
    state.fallback.stack.insert(4);
    state.fallback.anchors.insert(1, 7);

    consensus.evaluate_commit_rule_three(at(0), &mut state);

    assert!(!state.commits.skipped.contains(&4));
    assert!(!state.commits.committed.contains(&1));
    assert!(state.fallback.recovery.contains(&4));
}

#[test]
fn fallback_requests_only_the_newest_missing_stack_entry() {
    let consensus = mock_consensus();
    let mut state = State::new(genesis());
    let authorities = sorted_keys();

    let (target_digest, target) =
        mock_certificate(consensus.ordering_leader_authority(1), 1, BTreeSet::new());
    state.observe(target);

    let mut parent = target_digest;
    for round in 2..10 {
        let authority = if round == 4 || round == 7 {
            authorities
                .iter()
                .copied()
                .find(|authority| *authority != consensus.ordering_leader_authority(round))
                .unwrap()
        } else {
            authorities[(round as usize) % authorities.len()]
        };
        let (digest, block) = mock_certificate(authority, round, one(parent));
        state.observe(block);
        parent = digest;
    }

    let mut observer = draft(consensus.ordering_leader_authority(10), 10, one(parent));
    observer.weak_edges.insert(Digest::default());
    observer.seal();
    let observer = observer.build();
    state.observe(observer.clone());
    state.promote_to_dag(observer.clone());
    state.commits.pending.insert(10, observer);
    for round in [1, 4, 7] {
        state.fallback.stack.insert(round);
    }
    state.fallback.anchors.insert(1, 10);

    consensus.evaluate_commit_rule_three(at(0), &mut state);

    assert!(!state.commits.skipped.contains(&7));
    assert!(!state.commits.skipped.contains(&4));
    assert!(!state.commits.committed.contains(&1));
    assert!(matches!(state.take_requests().first(), Some((7, _))));
}

#[test]
fn commit_rule_two_condition_three_forces_leader_grade_two() {
    let consensus = mock_consensus();
    let mut state = State::new(genesis());
    let authorities = sorted_keys();

    let (leader_digest, leader) = mock_certificate(authorities[0], 1, BTreeSet::new());
    state.insert_grade_one(leader);
    let mut middle = draft(authorities[1], 2, BTreeSet::new());
    middle.virtual_edges.insert(leader_digest);
    let middle_digest = middle.digest();
    state.promote_to_dag(middle.build());
    let parents = one(middle_digest);
    for authority in authorities.iter().take(3) {
        state.promote_to_dag(mock_certificate(*authority, 3, parents.clone()).1);
    }

    assert!(!state.graph.grade_two.contains(&leader_digest));
    consensus.evaluate_commit_rule_two(3, at(0), &mut state);
    assert!(state.graph.grade_two.contains(&leader_digest));
    assert!(state.graph.dag_digests.contains(&leader_digest));
    assert!(state.commits.committed.contains(&1));
}

#[test]
fn leader_commits_wait_for_the_previous_leader() {
    let consensus = mock_consensus();
    let mut state = State::new(genesis());
    let authorities = keys();
    let (_, leader_one) = mock_certificate(authorities[0], 1, BTreeSet::new());
    let (_, leader_two) = mock_certificate(authorities[0], 2, BTreeSet::new());
    state.promote_to_dag(leader_one.clone());
    state.promote_to_dag(leader_two.clone());

    consensus.queue_leader_commit(leader_two, 1, at(0), &mut state);
    assert!(!state.commits.committed.contains(&2));
    assert!(state.commits.pending.contains_key(&2));

    consensus.queue_leader_commit(leader_one, 1, at(0), &mut state);
    assert!(state.commits.committed.contains(&1));
    assert!(state.commits.committed.contains(&2));
    assert!(state.commits.pending.is_empty());
}

// Run for 4 dag rounds in ideal conditions (all nodes reference all other nodes). We should commit
// the leader of round 2.
#[test]
fn commit_one() {
    // Make certificates for rounds 1 to 4.
    let keys = keys();
    let (mut certificates, next_parents) = make_certificates(1, 4, &genesis_digests(), &keys);

    // Make one certificate with round 5 to trigger the commits.
    let (_, certificate) = mock_certificate(keys[0], 5, next_parents);
    certificates.push_back(certificate);

    let (output, _) = run(certificates);

    // Ensure the first 4 ordered certificates are from round 1 (they are the parents of the committed
    // leader); then the leader's certificate should be committed.
    let mut output = output.into_iter();
    for _ in 1..=4 {
        let certificate = output.next().unwrap();
        assert_eq!(certificate.round(), 1);
    }
    let certificate = output.next().unwrap();
    assert_eq!(certificate.round(), 2);
}

// Run for 8 dag rounds with one dead node node (that is not a leader). We should commit the leaders of
// rounds 2, 4, and 6.
#[test]
fn dead_node() {
    // Make the certificates.
    let mut keys = sorted_keys(); // Ensure we don't remove one of the leaders.
    let _ = keys.pop().unwrap();

    let (certificates, _) = make_certificates(1, 9, &genesis_digests(), &keys);

    let (output, _) = run(certificates);

    // We should commit 3 leaders (rounds 2, 4, and 6).
    let mut output = output.into_iter();
    for i in 1..=15 {
        let certificate = output.next().unwrap();
        let expected = ((i - 1) / keys.len() as u64) + 1;
        assert_eq!(certificate.round(), expected);
    }
    let certificate = output.next().unwrap();
    assert_eq!(certificate.round(), 6);
}

// Run for 6 dag rounds. The leaders of round 2 does not have enough support, but the leader of
// round 4 does. The leader of rounds 2 and 4 should thus be committed upon entering round 6.
#[test]
fn not_enough_support() {
    let keys = sorted_keys();
    let mut certificates = VecDeque::new();

    // Round 1: Fully connected graph.
    let nodes: Vec<_> = keys.iter().cloned().take(3).collect();
    let (out, parents) = make_certificates(1, 1, &genesis_digests(), &nodes);
    certificates.extend(out);

    // Round 2: Fully connect graph. But remember the digest of the leader. Note that this
    // round is the only one with 4 certificates.
    let (leader_2_digest, certificate) = mock_certificate(keys[0], 2, parents.clone());
    certificates.push_back(certificate);

    let nodes: Vec<_> = keys.iter().cloned().skip(1).collect();
    let (out, mut parents) = make_certificates(2, 2, &parents, &nodes);
    certificates.extend(out);

    // Round 3: Only node 0 links to the leader of round 2.
    let mut next_parents = BTreeSet::new();

    let name = &keys[1];
    let (digest, certificate) = mock_certificate(*name, 3, parents.clone());
    certificates.push_back(certificate);
    next_parents.insert(digest);

    let name = &keys[2];
    let (digest, certificate) = mock_certificate(*name, 3, parents.clone());
    certificates.push_back(certificate);
    next_parents.insert(digest);

    let name = &keys[0];
    parents.insert(leader_2_digest);
    let (digest, certificate) = mock_certificate(*name, 3, parents.clone());
    certificates.push_back(certificate);
    next_parents.insert(digest);

    parents = next_parents.clone();

    // Rounds 4, 5, and 6: Fully connected graph.
    let nodes: Vec<_> = keys.iter().cloned().take(3).collect();
    let (out, parents) = make_certificates(4, 6, &parents, &nodes);
    certificates.extend(out);

    // Round 7: Send a single certificate to trigger the commits.
    let (_, certificate) = mock_certificate(keys[0], 7, parents);
    certificates.push_back(certificate);

    let (output, _) = run(certificates);

    // We should commit 2 leaders (rounds 2 and 4).
    let mut output = output.into_iter();
    for _ in 1..=3 {
        let certificate = output.next().unwrap();
        assert_eq!(certificate.round(), 1);
    }
    for _ in 1..=4 {
        let certificate = output.next().unwrap();
        assert_eq!(certificate.round(), 2);
    }
    for _ in 1..=3 {
        let certificate = output.next().unwrap();
        assert_eq!(certificate.round(), 3);
    }
    let certificate = output.next().unwrap();
    assert_eq!(certificate.round(), 4);
}

// The blocks of rounds 1 to 7 without the leader of rounds 1 and 2.
fn without_early_leaders() -> VecDeque<Certificate> {
    let keys = sorted_keys();
    let mut certificates = VecDeque::new();

    // Remove the leader for rounds 1 and 2.
    let nodes: Vec<_> = keys.iter().cloned().skip(1).collect();
    let (out, parents) = make_certificates(1, 2, &genesis_digests(), &nodes);
    certificates.extend(out);

    // Add back the leader for rounds 3, 4, 5 and 6.
    let (out, parents) = make_certificates(3, 6, &parents, &keys);
    certificates.extend(out);

    // Add a certificate of round 7 to commit the leader of round 4.
    let (_, certificate) = mock_certificate(keys[0], 7, parents);
    certificates.push_back(certificate);
    certificates
}

#[test]
fn missing_leader() {
    let (_, requests) = run(without_early_leaders());

    assert!(
        !requests.is_empty(),
        "rule 3 did not request the missing leader"
    );
}

// The leaders of rounds 1 and 2 are missing, and no block of the complete
// history of later leaders votes for them: they are asked for once and skipped,
// and the later leaders are committed behind them.
#[test]
fn absent_early_leaders_are_requested_and_skipped() {
    let keys = sorted_keys();
    let (output, requests) = run(without_early_leaders());

    assert_eq!(requests, vec![(1, keys[0]), (2, keys[0])]);
    let leaders: Vec<_> = output
        .iter()
        .filter(|x| x.origin() == keys[0])
        .map(|x| x.round())
        .collect();
    assert_eq!(leaders, vec![3, 4, 5]);
    // Three blocks each of rounds 1 and 2 come before the leader of round 3.
    let rounds: Vec<_> = output.iter().take(7).map(|x| x.round()).collect();
    assert_eq!(rounds, vec![1, 1, 1, 2, 2, 2, 3]);
}

// With round 2 skipped and round 1 open, the leader of round 3 waits until
// round 1 is decided.
#[test]
fn commits_wait_for_every_earlier_leader() {
    let keys = sorted_keys();
    for commits in [true, false] {
        let consensus = mock_consensus();
        let mut state = State::new(genesis());
        let (_, first) = mock_certificate(keys[0], 1, BTreeSet::new());
        let (_, third) = mock_certificate(keys[0], 3, BTreeSet::new());
        for block in [&first, &third] {
            state.observe(block.clone());
            state.promote_to_dag(block.clone());
        }
        consensus.mark_rule_three_skipped(2, &mut state);
        consensus.stage_leader_commit(third, 1, at(0), &mut state);
        consensus.drain_ready_leaders(&mut state);
        assert!(!state.commits.committed.contains(&3));
        assert!(state.commits.pending.contains_key(&3));
        assert!(state.take_commits().is_empty());

        if commits {
            consensus.stage_leader_commit(first, 1, at(0), &mut state);
        } else {
            consensus.mark_rule_three_skipped(1, &mut state);
        }
        consensus.drain_ready_leaders(&mut state);
        assert!(state.commits.committed.contains(&3));
        let rounds: Vec<_> = state
            .take_commits()
            .iter()
            .map(|sequence| sequence.last().unwrap().round())
            .collect();
        assert_eq!(rounds, if commits { vec![1, 3] } else { vec![3] });
    }
}

// A ready leader is not committed over an open round, whatever rule it meets.
#[test]
fn queued_leader_waits_for_an_open_round() {
    let keys = sorted_keys();
    let consensus = mock_consensus();
    let mut state = State::new(genesis());
    let (_, first) = mock_certificate(keys[0], 1, BTreeSet::new());
    let (_, third) = mock_certificate(keys[0], 3, BTreeSet::new());
    for block in [&first, &third] {
        state.observe(block.clone());
        state.promote_to_dag(block.clone());
    }
    consensus.mark_rule_three_skipped(2, &mut state);
    consensus.queue_leader_commit(third, 1, at(0), &mut state);
    assert!(!state.commits.committed.contains(&3));
    assert!(state.commits.pending.contains_key(&3));
    assert!(state.take_commits().is_empty());
}

// A block that a later anchor refers to is missing, so the history of the
// anchor is incomplete: the missing leader is asked for.
#[test]
fn missing_leader_in_incomplete_history_is_requested() {
    let keys = sorted_keys();
    let consensus = mock_consensus();
    let mut state = State::new(genesis());

    // Everybody refers to the leader of round 1, whose block is lost.
    let (lost, _) = mock_certificate(keys[0], 1, genesis_digests());
    let others: Vec<_> = keys.iter().cloned().skip(1).collect();
    let (first, mut parents) = make_certificates(1, 1, &genesis_digests(), &others);
    parents.insert(lost);
    let (later, _) = make_certificates(2, 6, &parents, &keys);
    for certificate in first.into_iter().chain(later) {
        consensus.handle(
            ConsensusMessage::GradeOne(certificate.clone()),
            at(0),
            &mut state,
        );
        consensus.handle(ConsensusMessage::GradeTwo(certificate), at(0), &mut state);
    }

    assert!(state.take_requests().contains(&(1, keys[0])));
    assert!(state.fallback.recovery.contains(&1));
    assert!(!state.commits.skipped.contains(&1));

    // Once the lost block shows up, its leader is committed first, and the
    // later leaders in order.
    let (_, found) = mock_certificate(keys[0], 1, genesis_digests());
    consensus.handle(ConsensusMessage::Observed(found), at(5), &mut state);
    let commits = state.take_commits();
    let leaders: Vec<_> = commits.iter().map(|x| x.last().unwrap().round()).collect();
    assert_eq!(leaders[..3], [1, 2, 3]);
    assert!(!state.fallback.recovery.contains(&1));
}

// No block is committed twice, and watermarks follow the commits.
#[test]
fn no_block_is_committed_twice() {
    let keys = sorted_keys();
    let (certificates, _) = make_certificates(1, 12, &genesis_digests(), &keys);
    let (output, _) = run(certificates);
    let digests: BTreeSet<_> = output.iter().map(|x| x.digest()).collect();
    assert_eq!(digests.len(), output.len());
    assert!(output.len() >= 36);
}

// A block is in VDag or in the Dag, never in both.
#[test]
fn vdag_and_dag_are_disjoint() {
    let keys = sorted_keys();
    let consensus = mock_consensus();
    let mut state = State::new(genesis());
    let (certificates, _) = make_certificates(1, 6, &genesis_digests(), &keys);
    for (i, certificate) in certificates.into_iter().enumerate() {
        consensus.handle(
            ConsensusMessage::GradeOne(certificate.clone()),
            at(0),
            &mut state,
        );
        // Only some blocks reach grade 2.
        if i % 3 != 0 {
            consensus.handle(ConsensusMessage::GradeTwo(certificate), at(0), &mut state);
        }
        for slot in state.graph.vdag.keys() {
            let digest = state.graph.vdag.get(&slot).unwrap().digest();
            assert!(!state.graph.dag_digests.contains(&digest));
        }
    }
}

// A digest stands for one slot.
#[test]
fn digest_of_another_slot_is_not_admitted() {
    let keys = keys();
    let mut state = State::new(genesis());
    let block = draft(keys[0], 1, genesis_digests());
    state.observe(block.build());
    assert!(state.admits(&block.build()));

    let mut header = block.build();
    let same = block.digest();
    header.header = Arc::new(Header {
        id: Digest::default(),
        block: same,
        author: keys[1],
        round: 1,
        payload: Vec::new(),
        parents: OrdSet::new(),
        weak_edges: OrdSet::new(),
        virtual_edges: OrdSet::new(),
        signature: Signature::default(),
    });
    assert!(!state.admits(&header));

    let far = draft(keys[0], u64::MAX, BTreeSet::new());
    assert!(!state.admits(&far.build()));
}

// Observing a block again changes nothing but the copy.
#[test]
fn repeated_observation_decides_nothing() {
    let keys = keys();
    let mut state = State::new(genesis());
    let (digest, block) = mock_certificate(keys[0], 1, genesis_digests());
    let dirty = state.observe(block.clone());
    assert_eq!(dirty.items(), vec![0, 1]);
    assert!(state.observe(block.clone()).is_empty());
    assert_eq!(state.graph.observed.get(&digest), Some(&block));
}

// The index of strong ancestors does not depend on the order of arrival.
#[test]
fn strong_ancestors_do_not_depend_on_order() {
    let keys = keys();
    let (a, first) = mock_certificate(keys[0], 1, BTreeSet::new());
    let (b, second) = mock_certificate(keys[1], 2, one(a));
    let (c, third) = mock_certificate(keys[2], 3, one(b));
    let blocks = [first, second, third];
    for order in [[0, 1, 2], [0, 2, 1], [1, 0, 2], [1, 2, 0], [2, 0, 1], [2, 1, 0]] {
        let mut state = State::new(genesis());
        for i in order {
            state.observe(blocks[i].clone());
        }
        assert!(state.graph.strong_ancestors.contains(&c, &a));
        assert!(state.graph.strong_ancestors.contains(&c, &b));
        assert!(state.graph.strong_ancestors.contains(&b, &a));
        assert!(!state.graph.strong_ancestors.contains(&a, &b));
        assert!(state.graph.observed_strong_support.contains(&(3, a), &keys[2]));
        assert!(state.graph.observed_direct_support.contains(&(2, a), &keys[1]));
        assert!(!state.graph.observed_direct_support.contains(&(3, a), &keys[2]));
    }
}

// A strong path is found by the index or by traversal.
#[test]
fn strong_path_of_an_unindexed_block() {
    let keys = keys();
    let consensus = mock_consensus();
    let mut state = State::new(genesis());
    let (a, first) = mock_certificate(keys[0], 1, BTreeSet::new());
    let (b, second) = mock_certificate(keys[1], 2, one(a));
    state.observe(first);
    state.observe(second);
    let (_, third) = mock_certificate(keys[2], 3, one(b));
    assert!(consensus.has_strong_path(&third, &a, &state));
    assert!(!consensus.has_strong_path(&third, &Digest::default(), &state));
    state.observe(third.clone());
    assert!(consensus.has_strong_path(&third, &a, &state));
}

// Only rule 3 may decide an adversarial leader, and rule 1 leaves a deferred
// leader to the others.
#[test]
fn schedule_withholds_rules() {
    let keys = sorted_keys();
    for withheld in ["none", "deferred", "adversarial"] {
        let mut consensus = mock_consensus();
        if withheld == "deferred" {
            consensus.schedule.deferred.insert(1);
        }
        if withheld == "adversarial" {
            consensus.schedule.adversarial.insert(1);
        }
        let mut state = State::new(genesis());
        let (leader_digest, leader) = mock_certificate(keys[0], 1, genesis_digests());
        state.observe(leader);
        for key in keys.iter().take(3) {
            state.observe(mock_certificate(*key, 2, one(leader_digest)).1);
        }
        consensus.evaluate_commit_rule_one(2, at(0), &mut state);
        assert_eq!(state.commits.committed.contains(&1), withheld == "none");
    }
}

// The first leader to satisfy a rule is dated once.
#[test]
fn rule_readiness_is_dated_once() {
    let mut state = State::new(genesis());
    assert_eq!(state.record_rule_ready(4, 17), Some(17));
    assert_eq!(state.record_rule_ready(4, 18), None);
    assert_eq!(state.commits.ready_at.get(&4), Some(&17));
}

// A pending leader is reported with what blocks it.
#[test]
fn pending_leader_names_its_blockers() {
    let consensus = mock_consensus();
    let mut state = State::new(genesis());
    let (_, leader) = mock_certificate(keys()[0], 2, BTreeSet::new());
    state.promote_to_dag(leader.clone());
    consensus.queue_leader_commit(leader, 1, at(0), &mut state);
    let blockers = consensus.pending_blockers(&state);
    assert_eq!(blockers.len(), 1);
    assert_eq!(blockers[0].round, 2);
    assert!(!blockers[0].predecessor_ready);
    assert!(blockers[0].in_dag);
}

// The earliest retry comes first.
#[test]
fn next_retry_is_the_earliest() {
    let consensus = mock_consensus();
    let mut state = State::new(genesis());
    assert_eq!(consensus.next_retry(&state), None);
    consensus.request_missing_leader(7, at(40), &mut state);
    consensus.request_missing_leader(2, at(60), &mut state);
    assert_eq!(consensus.next_retry(&state), Some(40 + LEADER_RETRY_DELAY));
    // Asking twice does not send twice.
    consensus.request_missing_leader(2, at(90), &mut state);
    let rounds: Vec<_> = state.take_requests().iter().map(|x| x.0).collect();
    assert_eq!(rounds, vec![7, 2]);
}

// Garbage collection forgets what lies below the horizon.
#[test]
fn cleanup_forgets_old_rounds() {
    let keys = sorted_keys();
    let mut consensus = mock_consensus();
    consensus.gc_depth = 2;
    let mut state = State::new(genesis());
    let (certificates, _) = make_certificates(1, 12, &genesis_digests(), &keys);
    for certificate in certificates {
        consensus.handle(
            ConsensusMessage::GradeOne(certificate.clone()),
            at(0),
            &mut state,
        );
        consensus.handle(ConsensusMessage::GradeTwo(certificate), at(0), &mut state);
    }
    let latest = state.commits.last_committed_round;
    assert_eq!(latest, 11);
    for digest in state.graph.observed.keys() {
        assert!(state.graph.observed.get(&digest).unwrap().round() + 2 >= latest);
    }
    // The leader block of every round is committed, in order.
    let commits = state.take_commits();
    let leaders: Vec<_> = commits.iter().map(|x| x.last().unwrap().round()).collect();
    assert_eq!(leaders, (1..=11).collect::<Vec<_>>());
}

// The leaders of every other round below that a leader links to are found, the
// latest first.
#[test]
fn linked_leaders_are_ordered() {
    let keys = sorted_keys();
    let consensus = mock_consensus();
    let mut state = State::new(genesis());
    let (certificates, _) = make_certificates(1, 5, &genesis_digests(), &keys);
    for certificate in certificates {
        state.promote_to_dag(certificate);
    }
    let leader = consensus.delivered_leader(5, &state).unwrap();
    let chain: Vec<_> = consensus
        .order_leaders(&leader, &state)
        .iter()
        .map(|x| x.round())
        .collect();
    assert_eq!(chain, vec![5, 4, 2]);
    let first = consensus.delivered_leader(1, &state).unwrap();
    assert!(consensus.linked(&leader, &first, &state));
}

// Leaders that are staged in any order are committed in the order of their
// rounds, and those behind an open round stay pending.
#[test]
fn ready_leaders_are_committed_by_round() {
    let keys = sorted_keys();
    let consensus = mock_consensus();
    let mut state = State::new(genesis());
    for round in [5, 3, 2, 1] {
        let (_, leader) = mock_certificate(keys[0], round, BTreeSet::new());
        state.observe(leader.clone());
        consensus.stage_leader_commit(leader, 1, at(0), &mut state);
    }
    consensus.drain_ready_leaders(&mut state);
    let rounds: Vec<_> = state
        .take_commits()
        .iter()
        .map(|sequence| sequence.last().unwrap().round())
        .collect();
    assert_eq!(rounds, vec![1, 2, 3]);
    assert!(state.commits.ready.is_empty());
    assert_eq!(state.commits.pending.keys(), vec![5]);
}

// A finalization goes down its lane. The lowest leader that it stages is the
// anchor afterwards, and skips leave the anchor.
#[test]
fn finalization_moves_the_anchor_down() {
    let keys = sorted_keys();
    let consensus = mock_consensus();

    // The anchor has no history: everything below is skipped.
    let mut state = State::new(genesis());
    let (_, anchor) = mock_certificate(keys[0], 10, BTreeSet::new());
    state.observe(anchor.clone());
    state.promote_to_dag(anchor);
    state.fallback.anchors.insert(1, 10);
    consensus.finalize_fallback(10, at(0), &mut state);
    assert_eq!(state.commits.skipped.items(), vec![1, 4, 7]);
    assert_eq!(state.fallback.anchors.get(&1), Some(&10));
    assert!(state.take_requests().is_empty());

    // Every block refers to all blocks before it: all leaders are staged.
    let mut state = State::new(genesis());
    let (blocks, _) = make_certificates(1, 10, &genesis_digests(), &keys);
    for block in blocks {
        state.observe(block);
    }
    state.fallback.anchors.insert(1, 10);
    consensus.finalize_fallback(10, at(0), &mut state);
    assert_eq!(state.fallback.anchors.get(&1), Some(&1));
    assert!(state.commits.committed.contains(&1));
    assert_eq!(state.commits.pending.keys(), vec![4, 7]);
    assert!(state.commits.skipped.is_empty());
}

// The order in which blocks are observed leaves no trace in the indexes.
#[test]
fn observation_order_does_not_matter() {
    let keys = sorted_keys();
    let (blocks, _) = make_certificates(1, 4, &genesis_digests(), &keys);
    let mut forward = State::new(genesis());
    let mut backward = State::new(genesis());
    for block in &blocks {
        forward.observe(block.clone());
    }
    for block in blocks.iter().rev() {
        backward.observe(block.clone());
    }
    // Four blocks a round, each with all blocks of the rounds before it.
    assert_eq!(forward.graph.strong_ancestors.len(), 16 * (1 + 2 + 3 + 4));
    assert!(forward.graph.strong_ancestors == backward.graph.strong_ancestors);
    assert!(forward.graph.observed_direct_support == backward.graph.observed_direct_support);
    assert!(forward.graph.observed_strong_support == backward.graph.observed_strong_support);
}

// No digest comes out twice, within a sequence or across sequences.
#[test]
fn no_digest_is_handed_out_twice() {
    let keys = sorted_keys();
    let (blocks, _) = make_certificates(1, 9, &genesis_digests(), &keys);
    let (output, _) = run(blocks);
    let digests: BTreeSet<_> = output.iter().map(|x| x.digest()).collect();
    assert!(output.len() > 20);
    assert_eq!(digests.len(), output.len());
}

// Blocks that differ in their votes alone leave the indexes alike.
#[test]
fn votes_do_not_matter_to_the_indexes() {
    let keys = sorted_keys();
    let (blocks, _) = make_certificates(1, 3, &genesis_digests(), &keys);
    let mut plain = State::new(genesis());
    let mut mixed = State::new(genesis());
    for block in &blocks {
        plain.observe(block.clone());
    }
    for block in blocks.iter().rev() {
        mixed.observe(block.clone());
        mixed.observe(Certificate {
            header: block.header.clone(),
            votes: Arc::new(vec![(keys[1], Signature::default())]),
        });
    }
    assert!(plain.graph.strong_ancestors == mixed.graph.strong_ancestors);
    assert!(plain.graph.observed_direct_support == mixed.graph.observed_direct_support);
    assert!(plain.graph.observed_strong_support == mixed.graph.observed_strong_support);
}

// An edge to a block of a later round does no harm to the sequences, as long as
// no block refers back to itself.
#[test]
fn upward_edges_repeat_no_block() {
    let keys = sorted_keys();
    let consensus = mock_consensus();
    let mut state = State::new(genesis());
    let (high_digest, high) = mock_certificate(keys[1], 5, genesis_digests());
    let mut leader = draft(keys[0], 1, genesis_digests());
    leader.weak_edges.insert(high_digest);
    let leader = leader.build();
    state.observe(high.clone());
    state.observe(leader.clone());
    consensus.stage_leader_commit(leader.clone(), 1, at(0), &mut state);
    consensus.drain_ready_leaders(&mut state);
    let commits = state.take_commits();
    assert_eq!(commits, vec![vec![leader, high]]);
}

// A pending leader whose block arrives last is committed, and none that can be
// is left.
#[test]
fn no_committable_leader_is_left_pending() {
    let keys = sorted_keys();
    let consensus = mock_consensus();
    let mut state = State::new(genesis());
    let mut leaders = Vec::new();
    for round in 1..=4 {
        let (_, leader) = mock_certificate(keys[0], round, BTreeSet::new());
        state.observe(leader.clone());
        leaders.push(leader);
    }
    consensus.stage_leader_commit(leaders[3].clone(), 1, at(0), &mut state);
    consensus.stage_leader_commit(leaders[1].clone(), 1, at(0), &mut state);
    consensus.mark_rule_three_skipped(3, &mut state);
    consensus.drain_ready_leaders(&mut state);
    assert_eq!(state.commits.pending.keys(), vec![2, 4]);
    consensus.mark_rule_three_skipped(1, &mut state);
    assert_eq!(state.commits.ready.items(), vec![2]);
    consensus.drain_ready_leaders(&mut state);
    assert!(state.commits.pending.is_empty());
    assert!(consensus.pending_blockers(&state).is_empty());
}
