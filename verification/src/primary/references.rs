//! Checks on headers and messages.
use crate::committee::Committee;
use crate::primary::messages::{DagError, GradeVote};
use crate::types::{Certificate, Digest, Header, Round, Stake};
use vstd::prelude::*;

verus! {

/// Whether all of `referenced` that `picked` selects are of a round that `fits`.
pub open spec fn all_fit(
    referenced: Seq<Certificate>,
    picked: spec_fn(Digest) -> bool,
    fits: spec_fn(Round) -> bool,
) -> bool {
    forall|i: int|
        0 <= i < referenced.len() && picked((#[trigger] referenced[i]).digest()) ==> fits(
            referenced[i].round(),
        )
}

/// The stake of the authors of the strong parents among `referenced`.
pub open spec fn parent_stake(committee: &Committee, header: Header, referenced: Seq<Certificate>) -> nat
    decreases referenced.len(),
{
    if referenced.len() == 0 {
        0
    } else {
        let before = parent_stake(committee, header, referenced.drop_last());
        let c = referenced.last();
        if header.parents@.contains(c.digest()) {
            before + committee.spec_stake(c.origin()) as nat
        } else {
            before
        }
    }
}

/// Whether the strong parents are of the round before the header.
pub open spec fn strong_fit(header: Header, referenced: Seq<Certificate>) -> bool {
    all_fit(
        referenced,
        |d: Digest| header.parents@.contains(d),
        |r: Round| r + 1 == header.round,
    )
}

/// Whether the weak edges lead below the round before the header, and the
/// virtual edges into it.
pub open spec fn others_fit(header: Header, referenced: Seq<Certificate>) -> bool {
    &&& all_fit(
        referenced,
        |d: Digest| header.weak_edges@.contains(d),
        |r: Round| r + 1 < header.round,
    )
    &&& all_fit(
        referenced,
        |d: Digest| header.virtual_edges@.contains(d),
        |r: Round| r + 1 == header.round,
    )
}

/// What is wrong with the references of a header: a misplaced strong parent
/// counts before a missing quorum, and that before a misplaced other edge.
pub open spec fn reference_error(
    committee: &Committee,
    header: Header,
    referenced: Seq<Certificate>,
) -> Option<DagError> {
    if !strong_fit(header, referenced) {
        Some(DagError::MalformedHeader(header.id))
    } else if parent_stake(committee, header, referenced) < committee.quorum() {
        Some(DagError::HeaderRequiresQuorum(header.id))
    } else if !others_fit(header, referenced) {
        Some(DagError::MalformedHeader(header.id))
    } else {
        None
    }
}

/// Checks the referenced blocks of a header.
pub fn check_references(committee: &Committee, header: &Header, referenced: &Vec<Certificate>)
    -> (result: Result<(), DagError>)
    requires
        committee.wf(),
    ensures
        match reference_error(committee, *header, referenced@) {
            Some(error) => result == Err::<(), DagError>(error),
            None => result is Ok,
        },
{
    let quorum = committee.quorum_threshold();
    // The stake is only counted up to a quorum.
    let mut stake: Stake = 0;
    let mut i: usize = 0;
    proof {
        assert(referenced@.take(0) =~= Seq::empty());
    }
    while i < referenced.len()
        invariant
            i <= referenced@.len(),
            committee.wf(),
            quorum == committee.quorum(),
            stake <= parent_stake(committee, *header, referenced@.take(i as int)),
            stake < quorum ==> stake == parent_stake(
                committee,
                *header,
                referenced@.take(i as int),
            ),
            forall|j: int|
                0 <= j < i && header.parents@.contains((#[trigger] referenced@[j]).digest())
                    ==> referenced@[j].round() + 1 == header.round,
        decreases referenced@.len() - i,
    {
        let block = &referenced[i];
        proof {
            assert(referenced@.take(i + 1).drop_last() =~= referenced@.take(i as int));
        }
        if header.parents.contains(&block.digest()) {
            if header.round == 0 || block.round() != header.round - 1 {
                proof {
                    assert(!strong_fit(*header, referenced@)) by {
                        let picked = |d: Digest| header.parents@.contains(d);
                        assert(picked(referenced@[i as int].digest()));
                    }
                }
                return Err(DagError::MalformedHeader(header.id));
            }
            if stake < quorum {
                let more = committee.stake(&block.origin());
                stake = if more >= quorum - stake {
                    quorum
                } else {
                    stake + more
                };
            }
        }
        i += 1;
    }
    proof {
        assert(referenced@.take(referenced@.len() as int) =~= referenced@);
        assert(strong_fit(*header, referenced@));
    }
    if stake < quorum {
        return Err(DagError::HeaderRequiresQuorum(header.id));
    }
    let mut j: usize = 0;
    while j < referenced.len()
        invariant
            j <= referenced@.len(),
            strong_fit(*header, referenced@),
            parent_stake(committee, *header, referenced@) >= committee.quorum(),
            forall|k: int|
                0 <= k < j && header.weak_edges@.contains((#[trigger] referenced@[k]).digest())
                    ==> referenced@[k].round() + 1 < header.round,
            forall|k: int|
                0 <= k < j && header.virtual_edges@.contains((#[trigger] referenced@[k]).digest())
                    ==> referenced@[k].round() + 1 == header.round,
        decreases referenced@.len() - j,
    {
        let block = &referenced[j];
        let digest = block.digest();
        let is_weak = header.weak_edges.contains(&digest);
        let is_virtual = header.virtual_edges.contains(&digest);
        if is_weak && (header.round == 0 || block.round() >= header.round - 1) {
            proof {
                assert(!others_fit(*header, referenced@)) by {
                    let picked = |d: Digest| header.weak_edges@.contains(d);
                    assert(picked(referenced@[j as int].digest()));
                }
            }
            return Err(DagError::MalformedHeader(header.id));
        }
        if is_virtual && (header.round == 0 || block.round() != header.round - 1) {
            proof {
                assert(!others_fit(*header, referenced@)) by {
                    let picked = |d: Digest| header.virtual_edges@.contains(d);
                    assert(picked(referenced@[j as int].digest()));
                }
            }
            return Err(DagError::MalformedHeader(header.id));
        }
        j += 1;
    }
    proof {
        assert(others_fit(*header, referenced@));
    }
    Ok(())
}

/// Refuses messages of a round that has been cleaned up. Others stand as their
/// verification came out.
pub fn sanitize(
    gc_round: Round,
    digest: Digest,
    round: Round,
    verification: Result<(), DagError>,
) -> (result: Result<(), DagError>)
    ensures
        result == (if gc_round > round {
            Err(DagError::TooOld(digest, round))
        } else {
            verification
        }),
{
    if gc_round > round {
        Err(DagError::TooOld(digest, round))
    } else {
        verification
    }
}

/// Refuses a grade vote of a round that has been cleaned up, or for a block of
/// a stranger. Others stand as their verification came out.
pub fn verify_grade_vote(
    committee: &Committee,
    gc_round: Round,
    vote: &GradeVote,
    verification: Result<(), DagError>,
) -> (result: Result<(), DagError>)
    ensures
        result == (if gc_round > vote.round {
            Err(DagError::TooOld(vote.id, vote.round))
        } else if committee.spec_stake(vote.origin) == 0 {
            Err(DagError::UnknownAuthority(vote.origin))
        } else {
            verification
        }),
{
    if gc_round > vote.round {
        Err(DagError::TooOld(vote.id, vote.round))
    } else if committee.stake(&vote.origin) == 0 {
        Err(DagError::UnknownAuthority(vote.origin))
    } else {
        verification
    }
}

} // verus!
