//! What garbage collection keeps and what it forgets.
use crate::consensus::model::{highest_mark, is_highest_mark, raise, StateView};
use crate::types::{Certificate, Digest, PublicKey, Round, Slot};
use vstd::prelude::*;

verus! {

/// Whether a block of `author` in `round` is among `sequence`.
pub open spec fn commits_block(sequence: Seq<Certificate>, author: PublicKey, round: Round) -> bool {
    exists|i: int|
        0 <= i < sequence.len() && (#[trigger] sequence[i]).origin() == author
            && sequence[i].round() == round
}

/// The watermark of an author is the highest round in which a block of theirs
/// was committed: it is not below the one before nor below any block of the
/// sequence, and it is one of them. Nobody else gets one.
pub proof fn law_watermark_is_the_latest_commit(
    marks: Map<PublicKey, Round>,
    sequence: Seq<Certificate>,
    author: PublicKey,
)
    ensures
        marks.contains_key(author) ==> raise(marks, sequence).contains_key(author) && raise(
            marks,
            sequence,
        )[author] >= marks[author],
        forall|r: Round| #[trigger]
            commits_block(sequence, author, r) ==> raise(marks, sequence).contains_key(author)
                && raise(marks, sequence)[author] >= r,
        raise(marks, sequence).contains_key(author) ==> (marks.contains_key(author) && raise(
            marks,
            sequence,
        )[author] == marks[author]) || commits_block(
            sequence,
            author,
            raise(marks, sequence)[author],
        ),
    decreases sequence.len(),
{
    if sequence.len() > 0 {
        let rest = sequence.drop_last();
        let c = sequence.last();
        let before = raise(marks, rest);
        law_watermark_is_the_latest_commit(marks, rest, author);
        assert forall|r: Round| #[trigger] commits_block(sequence, author, r) implies raise(
            marks,
            sequence,
        ).contains_key(author) && raise(marks, sequence)[author] >= r by {
            let i = choose|i: int|
                0 <= i < sequence.len() && (#[trigger] sequence[i]).origin() == author
                    && sequence[i].round() == r;
            if i < rest.len() {
                assert(rest[i] == sequence[i]);
                assert(commits_block(rest, author, r));
            }
        }
        if c.origin() == author && !(before.contains_key(author) && before[author] > c.round()) {
            assert(sequence[sequence.len() - 1].origin() == author);
            assert(commits_block(sequence, author, c.round()));
        } else if before.contains_key(author) && commits_block(rest, author, before[author]) {
            let i = choose|i: int|
                0 <= i < rest.len() && (#[trigger] rest[i]).origin() == author && rest[i].round()
                    == before[author];
            assert(sequence[i] == rest[i]);
            assert(commits_block(sequence, author, before[author]));
        }
    }
}

/// Of watermarks, one is the highest.
proof fn lemma_highest(marks: Map<PublicKey, Round>, a: PublicKey)
    requires
        marks.contains_key(a),
    ensures
        exists|r: Round| is_highest_mark(marks, r),
    decreases Round::MAX - marks[a],
{
    if exists|b: PublicKey| #[trigger] marks.contains_key(b) && marks[b] > marks[a] {
        let b = choose|b: PublicKey| #[trigger] marks.contains_key(b) && marks[b] > marks[a];
        lemma_highest(marks, b);
    } else {
        assert(is_highest_mark(marks, marks[a]));
    }
}

impl StateView {
    /// Garbage collection goes by the latest round with a committed block. It
    /// keeps what has been observed up to `gc_depth` rounds below it and forgets
    /// what lies deeper. A Dag block goes too once its author has a later block
    /// committed.
    pub proof fn law_collection_keeps_the_recent(
        self,
        sequence: Seq<Certificate>,
        gc_depth: Round,
    )
        requires
            self.wf(),
        ensures
            ({
                let after = self.update(sequence, gc_depth);
                let latest = after.commits.last_committed_round;
                let marks = after.commits.last_committed;
                &&& marks == raise(self.commits.last_committed, sequence)
                &&& exists|a: PublicKey| #[trigger] marks.contains_key(a) && marks[a] == latest
                &&& forall|a: PublicKey| #[trigger] marks.contains_key(a) ==> marks[a] <= latest
                &&& forall|d: Digest| #[trigger]
                    after.graph.observed.contains_key(d) <==> self.graph.observed.contains_key(d)
                        && self.graph.observed[d].round() + gc_depth >= latest
                &&& forall|d: Digest| #[trigger]
                    after.graph.observed.contains_key(d) ==> after.graph.observed[d]
                        == self.graph.observed[d]
                &&& forall|s: Slot| #[trigger]
                    after.graph.dag.contains_key(s) <==> self.graph.dag.contains_key(s) && s.0
                        + gc_depth >= latest && !(marks.contains_key(s.1) && s.0 < marks[s.1])
                &&& forall|s: Slot| #[trigger]
                    after.graph.vdag.contains_key(s) <==> self.graph.vdag.contains_key(s) && s.0
                        + gc_depth >= latest && !(marks.contains_key(s.1) && s.0 < marks[s.1])
                &&& forall|d: Digest| #[trigger]
                    after.graph.dag_digests.contains(d) <==> after.holds_in_dag(d)
                &&& after.commits.pending == self.commits.pending
                &&& after.commits.committed == self.commits.committed
                &&& after.commits.skipped == self.commits.skipped
                &&& after.graph.grade_two == self.graph.grade_two
                &&& after.graph.homes == self.graph.homes
            }),
    {
        let old_marks = self.commits.last_committed;
        let marks = raise(old_marks, sequence);
        if forall|a: PublicKey| !#[trigger] old_marks.contains_key(a) {
            assert(old_marks =~= Map::empty());
        }
        let a = choose|a: PublicKey| #[trigger] old_marks.contains_key(a);
        law_watermark_is_the_latest_commit(old_marks, sequence, a);
        lemma_highest(marks, a);
        let after = self.update(sequence, gc_depth);
        let latest = highest_mark(marks);
        assert(is_highest_mark(marks, latest));
        let top = choose|b: PublicKey| #[trigger] marks.contains_key(b) && marks[b] == latest;
        assert(after.commits.last_committed.contains_key(top)
            && after.commits.last_committed[top] == after.commits.last_committed_round);
        assert forall|d: Digest| #[trigger]
            after.graph.dag_digests.contains(d) <==> after.holds_in_dag(d) by {
            if after.holds_in_dag(d) {
                let s = choose|s: Slot| #[trigger]
                    after.graph.dag.contains_key(s) && after.graph.dag[s].digest() == d;
                assert(after.graph.dag.contains_key(s));
            }
            if after.graph.dag_digests.contains(d) {
                let dag = after.graph.dag;
                let s = choose|s: Slot| #[trigger] dag.contains_key(s) && dag[s].digest() == d;
                assert(after.graph.dag.contains_key(s));
            }
        }
    }

    /// Whether a slot of the Dag holds the block of a digest.
    pub open spec fn holds_in_dag(self, d: Digest) -> bool {
        exists|s: Slot| #[trigger]
            self.graph.dag.contains_key(s) && self.graph.dag[s].digest() == d
    }
}

} // verus!
