//! What holds of the broadcast as a whole.
use crate::committee::Committee;
use crate::primary::machine::{EffectView, Reply, Step, Task};
use crate::primary::messages::{DagError, GradeVote};
use crate::primary::node::{grade_tasks, vote_tasks, Core, CoreView};
use crate::primary::references::reference_error;
use crate::types::{Certificate, Digest, Header, PublicKey, Round};
use std::sync::Arc;
use vstd::prelude::*;

verus! {

/// The round and author of the header that a task is about to vote for.
pub open spec fn voting_slot(task: Task) -> Option<(Round, PublicKey)> {
    match task {
        Task::AwaitVote(h) => Some((h.round, h.author)),
        _ => None,
    }
}

/// The block that a task is about to send a grade vote for.
pub open spec fn grading_id(task: Task) -> Option<Digest> {
    match task {
        Task::AwaitGrade(d, _, _) => Some(d),
        _ => None,
    }
}

/// The round and author that a vote is sent out for.
pub open spec fn voted_slot(effect: EffectView) -> Option<(Round, PublicKey)> {
    match effect {
        EffectView::BroadcastVote(v) => Some((v.round, v.origin)),
        _ => None,
    }
}

/// The block that a grade vote is sent out for.
pub open spec fn graded_id(effect: EffectView) -> Option<Digest> {
    match effect {
        EffectView::BroadcastGradeVote(v) => Some(v.id),
        _ => None,
    }
}

/// The block that is delivered at grade 1.
pub open spec fn first_grade(effect: EffectView) -> Option<Digest> {
    match effect {
        EffectView::GradeOne(c) => Some(c.digest()),
        _ => None,
    }
}

/// The block that is delivered at grade 2.
pub open spec fn second_grade(effect: EffectView) -> Option<Digest> {
    match effect {
        EffectView::GradeTwo(c) => Some(c.digest()),
        _ => None,
    }
}

/// `key` names each element at most once.
pub open spec fn once<A, K>(s: Seq<A>, key: spec_fn(A) -> Option<K>) -> bool {
    forall|i: int, j: int|
        #![trigger key(s[i]), key(s[j])]
        0 <= i < j < s.len() && key(s[i]) is Some && key(s[j]) is Some ==> key(s[i]) != key(s[j])
}

/// `key` names an element `k`.
pub open spec fn names<A, K>(s: Seq<A>, key: spec_fn(A) -> Option<K>, k: K) -> bool {
    exists|i: int| 0 <= i < s.len() && #[trigger] key(s[i]) == Some(k)
}

impl CoreView {
    /// The votes and grade votes that are about to be sent are accounted for,
    /// each once.
    pub open spec fn pledged(self) -> bool {
        &&& once(self.tasks, |t: Task| voting_slot(t))
        &&& once(self.tasks, |t: Task| grading_id(t))
        &&& forall|s: (Round, PublicKey)|
            names(self.tasks, |t: Task| voting_slot(t), s) ==> #[trigger] self.last_voted.contains(
                s,
            )
        &&& forall|d: Digest|
            names(self.tasks, |t: Task| grading_id(t), d) ==> #[trigger] self.grade_voted.contains(
                d,
            )
    }

    /// Whether a vote for a header of this round and author may still go out.
    pub open spec fn may_vote(self, s: (Round, PublicKey)) -> bool {
        !self.last_voted.contains(s) || names(self.tasks, |t: Task| voting_slot(t), s)
    }

    /// Whether a grade vote for this block may still go out.
    pub open spec fn may_grade(self, d: Digest) -> bool {
        !self.grade_voted.contains(d) || names(self.tasks, |t: Task| grading_id(t), d)
    }

    /// Whether this block may still be delivered at grade 1.
    pub open spec fn may_deliver_one(self, d: Digest) -> bool {
        !self.certificates.contains_key(d)
    }

    /// Whether this block may still be delivered at grade 2.
    pub open spec fn may_deliver_two(self, d: Digest) -> bool {
        !self.grade_two.contains(d)
    }

    /// Every block that a grade vote went out for is on record, by its
    /// certificate or by the grade votes seen for it.
    pub open spec fn recorded(self) -> bool {
        forall|d: Digest| #[trigger]
            self.grade_voted.contains(d) ==> self.certificates.contains_key(d)
                || self.support.contains_key(d)
    }

    /// From `self` to `after`, an effect that `key` names uses up a permission
    /// that was there before and is gone after. No other permission appears.
    pub open spec fn spends<K>(
        self,
        after: CoreView,
        key: spec_fn(EffectView) -> Option<K>,
        may: spec_fn(CoreView, K) -> bool,
    ) -> bool {
        let n = self.effects.len();
        let more = after.effects.skip(n as int);
        &&& n <= after.effects.len()
        &&& once(more, key)
        &&& forall|k: K| #![trigger may(self, k)] #![trigger may(after, k)] may(after, k) ==> may(self, k)
        &&& forall|k: K| #[trigger] names(more, key, k) ==> may(self, k) && !may(after, k)
    }

    /// Between `self` and `after`: per round and author at most one vote goes
    /// out, per block at most one grade vote, and every block is delivered at
    /// most once at each grade.
    pub open spec fn proceeds(self, after: CoreView) -> bool {
        &&& self.effects == after.effects.take(self.effects.len() as int)
        &&& self.spends(after, |e: EffectView| voted_slot(e), |s: CoreView, k| s.may_vote(k))
        &&& self.spends(after, |e: EffectView| graded_id(e), |s: CoreView, k| s.may_grade(k))
        &&& self.spends(after, |e: EffectView| first_grade(e), |s: CoreView, k| s.may_deliver_one(k))
        &&& self.spends(
            after,
            |e: EffectView| second_grade(e),
            |s: CoreView, k| s.may_deliver_two(k),
        )
    }

    /// Spending goes on from step to step.
    proof fn lemma_spends<K>(
        self,
        midway: CoreView,
        after: CoreView,
        key: spec_fn(EffectView) -> Option<K>,
        may: spec_fn(CoreView, K) -> bool,
    )
        requires
            self.spends(midway, key, may),
            midway.spends(after, key, may),
            midway.effects == after.effects.take(midway.effects.len() as int),
        ensures
            self.spends(after, key, may),
    {
        let n = self.effects.len() as int;
        let m = midway.effects.len() as int;
        let first = midway.effects.skip(n);
        let second = after.effects.skip(m);
        let all = after.effects.skip(n);
        assert(all =~= first + second) by {
            assert forall|i: int| 0 <= i < all.len() implies all[i] == (first + second)[i] by {
                if i < first.len() {
                    assert(midway.effects[n + i] == after.effects[n + i]);
                }
            }
        }
        assert forall|k: K| names(first, key, k) || names(second, key, k) implies #[trigger] names(
            all,
            key,
            k,
        ) by {
            if names(first, key, k) {
                let i = choose|i: int| 0 <= i < first.len() && #[trigger] key(first[i]) == Some(k);
                assert(key(all[i]) == Some(k));
            } else {
                let i = choose|i: int| 0 <= i < second.len() && #[trigger] key(second[i]) == Some(k);
                assert(key(all[first.len() + i]) == Some(k));
            }
        }
        assert forall|k: K| #[trigger] names(all, key, k) implies may(self, k) && !may(after, k) by {
            let i = choose|i: int| 0 <= i < all.len() && #[trigger] key(all[i]) == Some(k);
            if i < first.len() {
                assert(key(first[i]) == Some(k));
                assert(names(first, key, k));
            } else {
                assert(key(second[i - first.len()]) == Some(k));
                assert(names(second, key, k));
                assert(may(midway, k));
            }
        }
        assert forall|i: int, j: int|
            #![trigger key(all[i]), key(all[j])]
            0 <= i < j < all.len() && key(all[i]) is Some && key(all[j]) is Some implies key(all[i])
            != key(all[j]) by {
            if i < first.len() {
                assert(first[i] == all[i]);
                assert(names(first, key, key(all[i])->0));
                if j < first.len() {
                    assert(first[j] == all[j]);
                    assert(key(first[i]) != key(first[j]));
                } else {
                    assert(second[j - first.len()] == all[j]);
                    assert(key(second[j - first.len()]) is Some);
                    assert(names(second, key, key(all[j])->0));
                }
            } else {
                assert(second[i - first.len()] == all[i]);
                assert(second[j - first.len()] == all[j]);
                assert(key(second[i - first.len()]) != key(second[j - first.len()]));
            }
        }
    }

    /// Two stretches of work make one.
    pub proof fn law_work_adds_up(self, midway: CoreView, after: CoreView)
        requires
            self.proceeds(midway),
            midway.proceeds(after),
        ensures
            self.proceeds(after),
    {
        assert(self.effects =~= after.effects.take(self.effects.len() as int)) by {
            assert forall|i: int| 0 <= i < self.effects.len() implies self.effects[i]
                == after.effects[i] by {
                assert(self.effects[i] == midway.effects[i]);
                assert(midway.effects[i] == after.effects[i]);
            }
        }
        self.lemma_spends(
            midway,
            after,
            |e: EffectView| voted_slot(e),
            |s: CoreView, k| s.may_vote(k),
        );
        self.lemma_spends(
            midway,
            after,
            |e: EffectView| graded_id(e),
            |s: CoreView, k| s.may_grade(k),
        );
        self.lemma_spends(
            midway,
            after,
            |e: EffectView| first_grade(e),
            |s: CoreView, k| s.may_deliver_one(k),
        );
        self.lemma_spends(
            midway,
            after,
            |e: EffectView| second_grade(e),
            |s: CoreView, k| s.may_deliver_two(k),
        );
    }
}

impl CoreView {
    /// Work that neither begins nor sends a vote.
    proof fn lemma_no_vote(
        self,
        after: CoreView,
        n: int,
        added: Seq<Task>,
        more: Seq<EffectView>,
    )
        requires
            self.pledged(),
            0 <= n <= self.tasks.len(),
            after.tasks == self.tasks.take(n) + added,
            after.effects == self.effects + more,
            after.last_voted == self.last_voted,
            forall|i: int| 0 <= i < added.len() ==> voting_slot(#[trigger] added[i]) is None,
            forall|i: int| 0 <= i < more.len() ==> voted_slot(#[trigger] more[i]) is None,
        ensures
            once(after.tasks, |t: Task| voting_slot(t)),
            forall|k: (Round, PublicKey)|
                names(after.tasks, |t: Task| voting_slot(t), k) ==> #[trigger] after.last_voted.contains(k),
            self.spends(after, |e: EffectView| voted_slot(e), |s: CoreView, k| s.may_vote(k)),
    {
        let key = |t: Task| voting_slot(t);
        let ekey = |e: EffectView| voted_slot(e);
        assert forall|i: int, j: int|
            #![trigger key(after.tasks[i]), key(after.tasks[j])]
            0 <= i < j < after.tasks.len() && key(after.tasks[i]) is Some && key(
                after.tasks[j],
            ) is Some implies key(after.tasks[i]) != key(after.tasks[j]) by {
            if i >= n {
                assert(after.tasks[i] == added[i - n]);
            } else if j >= n {
                assert(after.tasks[j] == added[j - n]);
            } else {
                assert(after.tasks[i] == self.tasks[i] && after.tasks[j] == self.tasks[j]);
                assert(key(self.tasks[i]) != key(self.tasks[j]));
            }
        }
        assert forall|k: (Round, PublicKey)| names(after.tasks, key, k) implies names(self.tasks, key, k) by {
            let i = choose|i: int|
                0 <= i < after.tasks.len() && #[trigger] key(after.tasks[i]) == Some(k);
            if i >= n {
                assert(after.tasks[i] == added[i - n]);
            } else {
                assert(key(self.tasks[i]) == Some(k));
            }
        }
        assert(after.effects.skip(self.effects.len() as int) =~= more);
        assert forall|k: (Round, PublicKey)| !names(more, ekey, k) by {
            if names(more, ekey, k) {
                let i = choose|i: int| 0 <= i < more.len() && #[trigger] ekey(more[i]) == Some(k);
                assert(voted_slot(more[i]) is None);
            }
        }
    }

    /// Work that begins a vote.
    proof fn lemma_begin_vote(
        self,
        after: CoreView,
        n: int,
        added: Seq<Task>,
        last: Task,
        k0: (Round, PublicKey),
        more: Seq<EffectView>,
    )
        requires
            self.pledged(),
            0 <= n <= self.tasks.len(),
            !self.last_voted.contains(k0),
            voting_slot(last) == Some(k0),
            after.tasks == self.tasks.take(n) + added.push(last),
            after.effects == self.effects + more,
            after.last_voted == self.last_voted.insert(k0),
            forall|i: int| 0 <= i < added.len() ==> voting_slot(#[trigger] added[i]) is None,
            forall|i: int| 0 <= i < more.len() ==> voted_slot(#[trigger] more[i]) is None,
        ensures
            once(after.tasks, |t: Task| voting_slot(t)),
            forall|k: (Round, PublicKey)|
                names(after.tasks, |t: Task| voting_slot(t), k) ==> #[trigger] after.last_voted.contains(k),
            self.spends(after, |e: EffectView| voted_slot(e), |s: CoreView, k| s.may_vote(k)),
    {
        let key = |t: Task| voting_slot(t);
        let ekey = |e: EffectView| voted_slot(e);
        let end = after.tasks.len() - 1;
        assert(!names(self.tasks, key, k0)) by {
            if names(self.tasks, key, k0) {
                assert(self.last_voted.contains(k0));
            }
        }
        assert(after.tasks[end] == last);
        assert forall|i: int, j: int|
            #![trigger key(after.tasks[i]), key(after.tasks[j])]
            0 <= i < j < after.tasks.len() && key(after.tasks[i]) is Some && key(
                after.tasks[j],
            ) is Some implies key(after.tasks[i]) != key(after.tasks[j]) by {
            if i >= n {
                assert(after.tasks[i] == added[i - n]);
            } else {
                assert(after.tasks[i] == self.tasks[i]);
                if j == end {
                    assert(key(self.tasks[i]) != Some(k0));
                } else if j >= n {
                    assert(after.tasks[j] == added[j - n]);
                } else {
                    assert(after.tasks[j] == self.tasks[j]);
                    assert(key(self.tasks[i]) != key(self.tasks[j]));
                }
            }
        }
        assert forall|k: (Round, PublicKey)| names(after.tasks, key, k) implies names(self.tasks, key, k) || k
            == k0 by {
            let i = choose|i: int|
                0 <= i < after.tasks.len() && #[trigger] key(after.tasks[i]) == Some(k);
            if i < n {
                assert(key(self.tasks[i]) == Some(k));
            } else if i < end {
                assert(after.tasks[i] == added[i - n]);
            }
        }
        assert(after.effects.skip(self.effects.len() as int) =~= more);
        assert forall|k: (Round, PublicKey)| !names(more, ekey, k) by {
            if names(more, ekey, k) {
                let i = choose|i: int| 0 <= i < more.len() && #[trigger] ekey(more[i]) == Some(k);
                assert(voted_slot(more[i]) is None);
            }
        }
    }

    /// Work that sends a vote.
    proof fn lemma_send_vote(self, after: CoreView, task: Task, k0: (Round, PublicKey), effect: EffectView)
        requires
            self.pledged(),
            self.tasks.len() > 0,
            voting_slot(self.tasks.last()) == Some(k0),
            voting_slot(task) is None,
            voted_slot(effect) == Some(k0),
            after.tasks == self.tasks.drop_last().push(task),
            after.effects == self.effects.push(effect),
            after.last_voted == self.last_voted,
        ensures
            once(after.tasks, |t: Task| voting_slot(t)),
            forall|k: (Round, PublicKey)|
                names(after.tasks, |t: Task| voting_slot(t), k) ==> #[trigger] after.last_voted.contains(k),
            self.spends(after, |e: EffectView| voted_slot(e), |s: CoreView, k| s.may_vote(k)),
    {
        let key = |t: Task| voting_slot(t);
        let ekey = |e: EffectView| voted_slot(e);
        let end = self.tasks.len() - 1;
        assert(key(self.tasks[end]) == Some(k0));
        assert(names(self.tasks, key, k0));
        assert(self.last_voted.contains(k0));
        assert forall|i: int, j: int|
            #![trigger key(after.tasks[i]), key(after.tasks[j])]
            0 <= i < j < after.tasks.len() && key(after.tasks[i]) is Some && key(
                after.tasks[j],
            ) is Some implies key(after.tasks[i]) != key(after.tasks[j]) by {
            assert(after.tasks[i] == self.tasks[i]);
            if j < end {
                assert(after.tasks[j] == self.tasks[j]);
                assert(key(self.tasks[i]) != key(self.tasks[j]));
            }
        }
        assert forall|k: (Round, PublicKey)| names(after.tasks, key, k) implies names(self.tasks, key, k) && k
            != k0 by {
            let i = choose|i: int|
                0 <= i < after.tasks.len() && #[trigger] key(after.tasks[i]) == Some(k);
            if i < end {
                assert(key(self.tasks[i]) == Some(k));
                assert(key(self.tasks[i]) != key(self.tasks[end]));
            }
        }
        let more = after.effects.skip(self.effects.len() as int);
        assert(more =~= seq![effect]);
        assert forall|k: (Round, PublicKey)| #[trigger] names(more, ekey, k) implies k == k0 by {
            let i = choose|i: int| 0 <= i < more.len() && #[trigger] ekey(more[i]) == Some(k);
        }
    }

    /// Work that neither begins nor sends a grade vote.
    proof fn lemma_no_grade(
        self,
        after: CoreView,
        n: int,
        added: Seq<Task>,
        more: Seq<EffectView>,
    )
        requires
            self.pledged(),
            0 <= n <= self.tasks.len(),
            after.tasks == self.tasks.take(n) + added,
            after.effects == self.effects + more,
            after.grade_voted == self.grade_voted,
            forall|i: int| 0 <= i < added.len() ==> grading_id(#[trigger] added[i]) is None,
            forall|i: int| 0 <= i < more.len() ==> graded_id(#[trigger] more[i]) is None,
        ensures
            once(after.tasks, |t: Task| grading_id(t)),
            forall|k: Digest|
                names(after.tasks, |t: Task| grading_id(t), k) ==> #[trigger] after.grade_voted.contains(k),
            self.spends(after, |e: EffectView| graded_id(e), |s: CoreView, k| s.may_grade(k)),
    {
        let key = |t: Task| grading_id(t);
        let ekey = |e: EffectView| graded_id(e);
        assert forall|i: int, j: int|
            #![trigger key(after.tasks[i]), key(after.tasks[j])]
            0 <= i < j < after.tasks.len() && key(after.tasks[i]) is Some && key(
                after.tasks[j],
            ) is Some implies key(after.tasks[i]) != key(after.tasks[j]) by {
            if i >= n {
                assert(after.tasks[i] == added[i - n]);
            } else if j >= n {
                assert(after.tasks[j] == added[j - n]);
            } else {
                assert(after.tasks[i] == self.tasks[i] && after.tasks[j] == self.tasks[j]);
                assert(key(self.tasks[i]) != key(self.tasks[j]));
            }
        }
        assert forall|k: Digest| names(after.tasks, key, k) implies names(self.tasks, key, k) by {
            let i = choose|i: int|
                0 <= i < after.tasks.len() && #[trigger] key(after.tasks[i]) == Some(k);
            if i >= n {
                assert(after.tasks[i] == added[i - n]);
            } else {
                assert(key(self.tasks[i]) == Some(k));
            }
        }
        assert(after.effects.skip(self.effects.len() as int) =~= more);
        assert forall|k: Digest| !names(more, ekey, k) by {
            if names(more, ekey, k) {
                let i = choose|i: int| 0 <= i < more.len() && #[trigger] ekey(more[i]) == Some(k);
                assert(graded_id(more[i]) is None);
            }
        }
    }

    /// Work that begins a grade vote.
    proof fn lemma_begin_grade(
        self,
        after: CoreView,
        n: int,
        added: Seq<Task>,
        last: Task,
        k0: Digest,
        more: Seq<EffectView>,
    )
        requires
            self.pledged(),
            0 <= n <= self.tasks.len(),
            !self.grade_voted.contains(k0),
            grading_id(last) == Some(k0),
            after.tasks == self.tasks.take(n) + added.push(last),
            after.effects == self.effects + more,
            after.grade_voted == self.grade_voted.insert(k0),
            forall|i: int| 0 <= i < added.len() ==> grading_id(#[trigger] added[i]) is None,
            forall|i: int| 0 <= i < more.len() ==> graded_id(#[trigger] more[i]) is None,
        ensures
            once(after.tasks, |t: Task| grading_id(t)),
            forall|k: Digest|
                names(after.tasks, |t: Task| grading_id(t), k) ==> #[trigger] after.grade_voted.contains(k),
            self.spends(after, |e: EffectView| graded_id(e), |s: CoreView, k| s.may_grade(k)),
    {
        let key = |t: Task| grading_id(t);
        let ekey = |e: EffectView| graded_id(e);
        let end = after.tasks.len() - 1;
        assert(!names(self.tasks, key, k0)) by {
            if names(self.tasks, key, k0) {
                assert(self.grade_voted.contains(k0));
            }
        }
        assert(after.tasks[end] == last);
        assert forall|i: int, j: int|
            #![trigger key(after.tasks[i]), key(after.tasks[j])]
            0 <= i < j < after.tasks.len() && key(after.tasks[i]) is Some && key(
                after.tasks[j],
            ) is Some implies key(after.tasks[i]) != key(after.tasks[j]) by {
            if i >= n {
                assert(after.tasks[i] == added[i - n]);
            } else {
                assert(after.tasks[i] == self.tasks[i]);
                if j == end {
                    assert(key(self.tasks[i]) != Some(k0));
                } else if j >= n {
                    assert(after.tasks[j] == added[j - n]);
                } else {
                    assert(after.tasks[j] == self.tasks[j]);
                    assert(key(self.tasks[i]) != key(self.tasks[j]));
                }
            }
        }
        assert forall|k: Digest| names(after.tasks, key, k) implies names(self.tasks, key, k) || k
            == k0 by {
            let i = choose|i: int|
                0 <= i < after.tasks.len() && #[trigger] key(after.tasks[i]) == Some(k);
            if i < n {
                assert(key(self.tasks[i]) == Some(k));
            } else if i < end {
                assert(after.tasks[i] == added[i - n]);
            }
        }
        assert(after.effects.skip(self.effects.len() as int) =~= more);
        assert forall|k: Digest| !names(more, ekey, k) by {
            if names(more, ekey, k) {
                let i = choose|i: int| 0 <= i < more.len() && #[trigger] ekey(more[i]) == Some(k);
                assert(graded_id(more[i]) is None);
            }
        }
    }

    /// Work that sends a grade vote.
    proof fn lemma_send_grade(self, after: CoreView, task: Task, k0: Digest, effect: EffectView)
        requires
            self.pledged(),
            self.tasks.len() > 0,
            grading_id(self.tasks.last()) == Some(k0),
            grading_id(task) is None,
            graded_id(effect) == Some(k0),
            after.tasks == self.tasks.drop_last().push(task),
            after.effects == self.effects.push(effect),
            after.grade_voted == self.grade_voted,
        ensures
            once(after.tasks, |t: Task| grading_id(t)),
            forall|k: Digest|
                names(after.tasks, |t: Task| grading_id(t), k) ==> #[trigger] after.grade_voted.contains(k),
            self.spends(after, |e: EffectView| graded_id(e), |s: CoreView, k| s.may_grade(k)),
    {
        let key = |t: Task| grading_id(t);
        let ekey = |e: EffectView| graded_id(e);
        let end = self.tasks.len() - 1;
        assert(key(self.tasks[end]) == Some(k0));
        assert(names(self.tasks, key, k0));
        assert(self.grade_voted.contains(k0));
        assert forall|i: int, j: int|
            #![trigger key(after.tasks[i]), key(after.tasks[j])]
            0 <= i < j < after.tasks.len() && key(after.tasks[i]) is Some && key(
                after.tasks[j],
            ) is Some implies key(after.tasks[i]) != key(after.tasks[j]) by {
            assert(after.tasks[i] == self.tasks[i]);
            if j < end {
                assert(after.tasks[j] == self.tasks[j]);
                assert(key(self.tasks[i]) != key(self.tasks[j]));
            }
        }
        assert forall|k: Digest| names(after.tasks, key, k) implies names(self.tasks, key, k) && k
            != k0 by {
            let i = choose|i: int|
                0 <= i < after.tasks.len() && #[trigger] key(after.tasks[i]) == Some(k);
            if i < end {
                assert(key(self.tasks[i]) == Some(k));
                assert(key(self.tasks[i]) != key(self.tasks[end]));
            }
        }
        let more = after.effects.skip(self.effects.len() as int);
        assert(more =~= seq![effect]);
        assert forall|k: Digest| #[trigger] names(more, ekey, k) implies k == k0 by {
            let i = choose|i: int| 0 <= i < more.len() && #[trigger] ekey(more[i]) == Some(k);
        }
    }

    /// Work that delivers at most one block at grade 1 and one at grade 2.
    proof fn lemma_deliveries(self, after: CoreView, more: Seq<EffectView>)
        requires
            after.effects == self.effects + more,
            self.certificates.dom().subset_of(after.certificates.dom()),
            self.grade_two.subset_of(after.grade_two),
            once(more, |e: EffectView| first_grade(e)),
            once(more, |e: EffectView| second_grade(e)),
            forall|i: int|
                0 <= i < more.len() && first_grade(#[trigger] more[i]) is Some
                    ==> !self.certificates.contains_key(first_grade(more[i])->0)
                    && after.certificates.contains_key(first_grade(more[i])->0),
            forall|i: int|
                0 <= i < more.len() && second_grade(#[trigger] more[i]) is Some
                    ==> !self.grade_two.contains(second_grade(more[i])->0)
                    && after.grade_two.contains(second_grade(more[i])->0),
        ensures
            self.effects == after.effects.take(self.effects.len() as int),
            self.spends(
                after,
                |e: EffectView| first_grade(e),
                |s: CoreView, k| s.may_deliver_one(k),
            ),
            self.spends(
                after,
                |e: EffectView| second_grade(e),
                |s: CoreView, k| s.may_deliver_two(k),
            ),
    {
        assert(after.effects.skip(self.effects.len() as int) =~= more);
        assert(after.effects.take(self.effects.len() as int) =~= self.effects);
        let one = |e: EffectView| first_grade(e);
        let two = |e: EffectView| second_grade(e);
        assert forall|k: Digest| #[trigger] names(more, one, k) implies self.may_deliver_one(k)
            && !after.may_deliver_one(k) by {
            let i = choose|i: int| 0 <= i < more.len() && #[trigger] one(more[i]) == Some(k);
            assert(first_grade(more[i]) == Some(k));
        }
        assert forall|k: Digest| #[trigger] names(more, two, k) implies self.may_deliver_two(k)
            && !after.may_deliver_two(k) by {
            let i = choose|i: int| 0 <= i < more.len() && #[trigger] two(more[i]) == Some(k);
            assert(second_grade(more[i]) == Some(k));
        }
        assert forall|k: Digest| #[trigger] after.may_deliver_one(k) implies self.may_deliver_one(
            k,
        ) by {
            if self.certificates.contains_key(k) {
                assert(after.certificates.dom().contains(k));
            }
        }
    }

    /// Work that sends, begins and delivers nothing of note.
    proof fn lemma_quiet(self, after: CoreView, n: int, added: Seq<Task>, more: Seq<EffectView>)
        requires
            self.pledged(),
            0 <= n <= self.tasks.len(),
            after.tasks == self.tasks.take(n) + added,
            after.effects == self.effects + more,
            after.last_voted == self.last_voted,
            after.grade_voted == self.grade_voted,
            after.certificates == self.certificates,
            after.grade_two == self.grade_two,
            forall|i: int|
                0 <= i < added.len() ==> voting_slot(#[trigger] added[i]) is None && grading_id(
                    added[i],
                ) is None,
            forall|i: int|
                0 <= i < more.len() ==> voted_slot(#[trigger] more[i]) is None && graded_id(
                    more[i],
                ) is None && first_grade(more[i]) is None && second_grade(more[i]) is None,
        ensures
            self.proceeds(after),
            after.pledged(),
    {
        self.lemma_no_vote(after, n, added, more);
        self.lemma_no_grade(after, n, added, more);
        self.lemma_deliveries(after, more);
    }
}

impl Core {
    /// A piece of work sends no vote twice and delivers no block twice.
    pub proof fn law_step_proceeds(
        before: CoreView,
        committee: &Committee,
        after: CoreView,
        step: Step,
    )
        requires
            before.pledged(),
            Self::steps(before, committee, after, step),
        ensures
            before.proceeds(after),
            after.pledged(),
    {
        let none = Seq::<EffectView>::empty();
        let len = before.tasks.len() as int;
        assert(before.effects + none =~= before.effects);
        if len == 0 || Self::asks(before.tasks.last()) is Some {
            assert(before.tasks =~= before.tasks.take(len) + Seq::empty());
            before.lemma_quiet(after, len, Seq::empty(), none);
        } else {
            let task = before.tasks.last();
            let rest = before.pop();
            let n = len - 1;
            assert(rest.tasks =~= before.tasks.take(n));
            match task {
                Task::Header(h) => {
                    Self::lemma_observe_proceeds(before, Task::Parents(h), h, after);
                },
                Task::Certificate(c) => {
                    Self::lemma_observe_proceeds(before, Task::Embedded(c), c.header, after);
                },
                Task::Graded(c) => {
                    Self::lemma_observe_proceeds(before, Task::GradeTwo(c), c.header, after);
                },
                Task::Parents(h) => {
                    let added = seq![Task::AwaitParents(h)];
                    assert(after.tasks =~= before.tasks.take(n) + added);
                    before.lemma_quiet(after, n, added, none);
                },
                Task::Embedded(c) => {
                    let added = if rest.processing.contains((c.round(), c.header.id)) {
                        seq![Task::AwaitDelivery(c)]
                    } else {
                        seq![Task::AwaitDelivery(c), Task::Header(c.header)]
                    };
                    assert(after.tasks =~= before.tasks.take(n) + added);
                    before.lemma_quiet(after, n, added, none);
                },
                Task::PendingGrades(d) => {
                    let added = if rest.pending_grades.contains_key(d) {
                        grade_tasks(rest.pending_grades[d])
                    } else {
                        Seq::empty()
                    };
                    assert(after.tasks =~= before.tasks.take(n) + added);
                    before.lemma_quiet(after, n, added, none);
                },
                Task::GradeTwo(c) => {
                    let d = c.digest();
                    if rest.grade_two.contains(d) {
                        assert(after.tasks =~= before.tasks.take(n) + Seq::empty());
                        before.lemma_quiet(after, n, Seq::empty(), none);
                    } else {
                        let more = seq![EffectView::GradeTwo(c)];
                        let added = seq![Task::AwaitReady(c)];
                        assert(after.tasks =~= before.tasks.take(n) + added);
                        assert(after.effects =~= before.effects + more);
                        before.lemma_no_vote(after, n, added, more);
                        before.lemma_no_grade(after, n, added, more);
                        before.lemma_deliveries(after, more);
                    }
                },
                Task::Retry => {
                    let added = after.tasks.skip(n);
                    assert(after.tasks =~= before.tasks.take(n) + added);
                    assert forall|i: int| 0 <= i < added.len() implies voting_slot(
                        #[trigger] added[i],
                    ) is None && grading_id(added[i]) is None by {
                        assert(added[i] == after.tasks[n + i]);
                        assert(added[i] is AwaitReady);
                    }
                    before.lemma_quiet(after, n, added, none);
                },
                Task::Vote(v) => {
                    if !rest.headers.contains_key(v.id) {
                        assert(after.tasks =~= before.tasks.take(n) + Seq::empty());
                        before.lemma_quiet(after, n, Seq::empty(), none);
                    } else if rest.vote_error(v) is Some {
                        assert(after.tasks =~= before.tasks.take(0) + Seq::empty());
                        before.lemma_quiet(after, 0, Seq::empty(), none);
                    } else if rest.vote_completes(v, committee) {
                        let more = after.effects.skip(before.effects.len() as int);
                        let added = after.tasks.skip(n);
                        assert(after.tasks =~= before.tasks.take(n) + added);
                        assert(after.effects =~= before.effects + more);
                        before.lemma_quiet(after, n, added, more);
                    } else {
                        assert(after.tasks =~= before.tasks.take(n) + Seq::empty());
                        before.lemma_quiet(after, n, Seq::empty(), none);
                    }
                },
                Task::GradeVote(v) => {
                    Self::lemma_hear_proceeds(before, v, committee, after, step);
                },
                Task::Tally(v) => {
                    if rest.certificates.contains_key(v.id) && rest.grade_error(v) is Some {
                        assert(after.tasks =~= before.tasks.take(0) + Seq::empty());
                        before.lemma_quiet(after, 0, Seq::empty(), none);
                    } else {
                        let added = after.tasks.skip(n);
                        assert(after.tasks =~= before.tasks.take(n) + added);
                        before.lemma_quiet(after, n, added, none);
                    }
                },
                _ => {
                    assert(after.tasks =~= before.tasks.take(n) + Seq::empty());
                    before.lemma_quiet(after, n, Seq::empty(), none);
                },
            }
        }
    }

    /// Seeing a header sends no vote and delivers no block.
    proof fn lemma_observe_proceeds(
        before: CoreView,
        next: Task,
        h: Arc<Header>,
        after: CoreView,
    )
        requires
            before.pledged(),
            before.tasks.len() > 0,
            voting_slot(next) is None,
            grading_id(next) is None,
            after == before.pop().push(next).observe(h),
        ensures
            before.proceeds(after),
            after.pledged(),
    {
        let n = before.tasks.len() - 1;
        let more = if before.headers.contains_key(h.id) {
            Seq::empty()
        } else {
            seq![EffectView::Observed(h)]
        };
        let added = if before.pending_votes.contains_key(h.id) {
            seq![next, Task::Barrier] + vote_tasks(before.pending_votes[h.id])
        } else {
            seq![next]
        };
        assert(after.tasks =~= before.tasks.take(n) + added);
        assert(after.effects =~= before.effects + more);
        before.lemma_quiet(after, n, added, more);
    }

    /// Seeing a grade vote begins at most one grade vote for the block.
    proof fn lemma_hear_proceeds(
        before: CoreView,
        v: GradeVote,
        committee: &Committee,
        after: CoreView,
        step: Step,
    )
        requires
            before.pledged(),
            before.tasks.len() > 0,
            Self::grades(before.pop(), v, committee, after, step),
        ensures
            before.proceeds(after),
            after.pledged(),
    {
        let n = before.tasks.len() - 1;
        let none = Seq::<EffectView>::empty();
        let rest = before.pop();
        assert(before.effects + none =~= before.effects);
        if !rest.grade_fits(v) {
            assert(after.tasks =~= before.tasks.take(0) + Seq::empty());
            before.lemma_quiet(after, 0, Seq::empty(), none);
        } else if rest.relays(v, committee) {
            let added = seq![Task::Tally(v)];
            let last = Task::AwaitGrade(v.id, v.round, v.origin);
            assert(after.tasks =~= before.tasks.take(n) + added.push(last));
            before.lemma_no_vote(after, n, added.push(last), none);
            before.lemma_begin_grade(after, n, added, last, v.id, none);
            before.lemma_deliveries(after, none);
        } else {
            let added = seq![Task::Tally(v)];
            assert(after.tasks =~= before.tasks.take(n) + added);
            before.lemma_quiet(after, n, added, none);
        }
    }

    /// Going on with an answer sends no vote twice and delivers no block twice.
    pub proof fn law_answer_proceeds(
        before: CoreView,
        reply: Reply,
        committee: &Committee,
        name: PublicKey,
    )
        requires
            before.pledged(),
            before.tasks.len() > 0,
            Self::answers(before.tasks.last(), reply),
        ensures
            before.proceeds(
                Self::resumed(before.pop(), before.tasks.last(), reply, committee, name).0,
            ),
            Self::resumed(
                before.pop(),
                before.tasks.last(),
                reply,
                committee,
                name,
            ).0.pledged(),
    {
        let task = before.tasks.last();
        let rest = before.pop();
        let (after, error) = Self::resumed(rest, task, reply, committee, name);
        let none = Seq::<EffectView>::empty();
        let n = before.tasks.len() - 1;
        assert(before.effects + none =~= before.effects);
        assert(rest.tasks =~= before.tasks.take(n));
        match (task, reply) {
            (_, Reply::Failure(e)) => {
                assert(after.tasks =~= before.tasks.take(0) + Seq::empty());
                before.lemma_quiet(after, 0, Seq::empty(), none);
            },
            (Task::AwaitPayload(h), Reply::Payload(missing)) => {
                if missing {
                    assert(after.tasks =~= before.tasks.take(n) + Seq::empty());
                    before.lemma_quiet(after, n, Seq::empty(), none);
                } else {
                    let more = seq![EffectView::StoreHeader(h)];
                    let added = seq![Task::Retry];
                    let slot = (h.round, h.author);
                    assert(after.effects =~= before.effects + more);
                    if rest.last_voted.contains(slot) {
                        assert(after.tasks =~= before.tasks.take(n) + added);
                        before.lemma_quiet(after, n, added, more);
                    } else {
                        let last = Task::AwaitVote(h);
                        assert(after.tasks =~= before.tasks.take(n) + added.push(last));
                        before.lemma_begin_vote(after, n, added, last, slot, more);
                        before.lemma_no_grade(after, n, added.push(last), more);
                        before.lemma_deliveries(after, more);
                    }
                }
            },
            (Task::AwaitVote(h), Reply::Signature(signature)) => {
                let vote = CoreView::vote_for(h, name, signature);
                let effect = EffectView::BroadcastVote(vote);
                before.lemma_send_vote(after, Task::Vote(vote), (h.round, h.author), effect);
                assert(after.tasks =~= before.tasks.take(n) + seq![Task::Vote(vote)]);
                assert(after.effects =~= before.effects + seq![effect]);
                before.lemma_no_grade(after, n, seq![Task::Vote(vote)], seq![effect]);
                before.lemma_deliveries(after, seq![effect]);
            },
            (Task::AwaitGrade(d, r, o), Reply::Signature(signature)) => {
                let vote = CoreView::grade_for(d, r, o, name, signature);
                let effect = EffectView::BroadcastGradeVote(vote);
                before.lemma_send_grade(after, Task::GradeVote(vote), d, effect);
                assert(after.tasks =~= before.tasks.take(n) + seq![Task::GradeVote(vote)]);
                assert(after.effects =~= before.effects + seq![effect]);
                before.lemma_no_vote(after, n, seq![Task::GradeVote(vote)], seq![effect]);
                before.lemma_deliveries(after, seq![effect]);
            },
            (Task::AwaitDelivery(c), Reply::Delivery(there)) => {
                if there && !rest.certificates.contains_key(c.digest()) {
                    Self::lemma_delivery_proceeds(before, c);
                } else {
                    let added = after.tasks.skip(n);
                    assert(after.tasks =~= before.tasks.take(n) + added);
                    before.lemma_quiet(after, n, added, none);
                }
            },
            (Task::AwaitReady(c), Reply::Ready(there)) => {
                let more = after.effects.skip(before.effects.len() as int);
                assert(after.tasks =~= before.tasks.take(n) + Seq::empty());
                assert(after.effects =~= before.effects + more);
                before.lemma_quiet(after, n, Seq::empty(), more);
            },
            _ => {
                if error is Some {
                    assert(after.tasks =~= before.tasks.take(0) + Seq::empty());
                    before.lemma_quiet(after, 0, Seq::empty(), none);
                } else {
                    let added = after.tasks.skip(n);
                    assert(after.tasks =~= before.tasks.take(n) + added);
                    before.lemma_quiet(after, n, added, none);
                }
            },
        }
    }

    /// A first delivery at grade 1 begins at most one grade vote for the block.
    proof fn lemma_delivery_proceeds(before: CoreView, c: Certificate)
        requires
            before.pledged(),
            before.tasks.len() > 0,
            !before.certificates.contains_key(c.digest()),
        ensures
            before.proceeds(before.pop().deliver(c)),
            before.pop().deliver(c).pledged(),
    {
        let after = before.pop().deliver(c);
        let n = before.tasks.len() - 1;
        let d = c.digest();
        let more = seq![EffectView::StoreCertificate(c), EffectView::GradeOne(c)];
        let added = seq![Task::Retry, Task::PendingGrades(d)];
        assert(after.effects =~= before.effects + more);
        if before.grade_voted.contains(d) {
            assert(after.tasks =~= before.tasks.take(n) + added);
            before.lemma_no_vote(after, n, added, more);
            before.lemma_no_grade(after, n, added, more);
        } else {
            let last = Task::AwaitGrade(d, c.round(), c.origin());
            assert(after.tasks =~= before.tasks.take(n) + added.push(last));
            before.lemma_no_vote(after, n, added.push(last), more);
            before.lemma_begin_grade(after, n, added, last, d, more);
        }
        before.lemma_deliveries(after, more);
    }

    /// A node without work is about to send nothing.
    pub proof fn law_idle_node_is_pledged(before: CoreView)
        requires
            before.tasks.len() == 0,
        ensures
            before.pledged(),
    {
    }

    /// Taking in a message sends no vote and delivers no block.
    pub proof fn law_intake_proceeds(before: CoreView, task: Task)
        requires
            before.pledged(),
            voting_slot(task) is None,
            grading_id(task) is None,
        ensures
            before.proceeds(before.push(task)),
            before.push(task).pledged(),
    {
        let len = before.tasks.len() as int;
        let after = before.push(task);
        assert(after.tasks =~= before.tasks.take(len) + seq![task]);
        assert(after.effects =~= before.effects + Seq::empty());
        before.lemma_quiet(after, len, seq![task], Seq::empty());
    }

    /// A grade vote for a block of a round from `gc_round` on that was relayed
    /// before the certificate came is not sent again after a cleanup.
    pub proof fn law_relayed_grade_stays_relayed(before: CoreView, gc_round: Round, d: Digest)
        requires
            before.support.contains_key(d),
            before.support[d].round >= gc_round,
            !before.may_grade(d),
        ensures
            !before.forget(gc_round).may_grade(d),
    {
    }

    /// A cleanup reopens no vote and no grade vote of a round from `gc_round`
    /// on, and neither delivery of a certificate from there on that the node
    /// holds.
    pub proof fn law_cleanup_reopens_nothing(before: CoreView, gc_round: Round)
        ensures
            forall|s: (Round, PublicKey)|
                s.0 >= gc_round && !before.may_vote(s) ==> !#[trigger] before.forget(
                    gc_round,
                ).may_vote(s),
            forall|d: Digest|
                !before.may_grade(d) && (before.supported_from(d, gc_round)
                    || before.certified_from(d, gc_round)) ==> !#[trigger] before.forget(
                    gc_round,
                ).may_grade(d),
            forall|d: Digest|
                before.certified_from(d, gc_round) ==> !#[trigger] before.forget(
                    gc_round,
                ).may_deliver_one(d),
            forall|d: Digest|
                !before.may_deliver_two(d) && before.certified_from(d, gc_round)
                    ==> !#[trigger] before.forget(gc_round).may_deliver_two(d),
    {
    }

    /// The blocks that grade votes went out for are on record from the start and
    /// stay so, through work and through cleanups.
    pub proof fn law_grade_votes_are_recorded(
        before: CoreView,
        committee: &Committee,
        after: CoreView,
        step: Step,
        reply: Reply,
        name: PublicKey,
        gc_round: Round,
    )
        requires
            before.recorded(),
            Self::steps(before, committee, after, step),
        ensures
            CoreView::initial().recorded(),
            after.recorded(),
            before.tasks.len() > 0 ==> Self::resumed(
                before.pop(),
                before.tasks.last(),
                reply,
                committee,
                name,
            ).0.recorded(),
            before.forget(gc_round).recorded(),
    {
    }

    /// A cleanup lets a grade vote go out again only for a block whose records,
    /// of which there is one, all lie below `gc_round`.
    pub proof fn law_cleanup_reopens_only_old_grade_votes(
        before: CoreView,
        gc_round: Round,
        d: Digest,
    )
        requires
            before.recorded(),
            !before.may_grade(d),
            before.forget(gc_round).may_grade(d),
        ensures
            before.certificates.contains_key(d) || before.support.contains_key(d),
            before.certificates.contains_key(d) ==> before.certificates[d].round() < gc_round,
            before.support.contains_key(d) ==> before.support[d].round < gc_round,
    {
    }

    /// A cleanup between two stretches of work leaves what was sent and what is
    /// about to be sent alone.
    pub proof fn law_cleanup_sends_nothing(before: CoreView, gc_round: Round)
        requires
            before.tasks.len() == 0,
        ensures
            before.forget(gc_round).effects == before.effects,
            before.forget(gc_round).tasks == before.tasks,
            before.forget(gc_round).pledged(),
    {
    }

    /// Once the senders of grade votes for a block are too many to be all
    /// faulty, the node has begun a grade vote of its own for it, whether it has
    /// the block or not.
    pub proof fn law_grade_votes_are_relayed(before: CoreView, v: GradeVote, committee: &Committee)
        requires
            before.grade_fits(v),
            committee.weight(before.support_of(v).senders.insert(v.author))
                >= committee.validity(),
        ensures
            before.hear_grade(v, committee).grade_voted.contains(v.id),
            !before.grade_voted.contains(v.id) ==> before.hear_grade(v, committee).tasks.last()
                == Task::AwaitGrade(v.id, v.round, v.origin),
    {
    }

    /// A grade-2 block whose dependencies are not there does not count towards
    /// the next round. It is kept to be asked for again.
    pub proof fn law_unready_block_does_not_count(
        before: CoreView,
        c: Certificate,
        committee: &Committee,
        name: PublicKey,
    )
        ensures
            ({
                let after = Self::resumed(
                    before,
                    Task::AwaitReady(c),
                    Reply::Ready(false),
                    committee,
                    name,
                ).0;
                &&& after.gathered == before.gathered
                &&& after.effects == before.effects
                &&& after.advancing.contains_key(c.digest())
                &&& after.advancing[c.digest()] == c
            }),
    {
    }

    /// A reference error of a header is reported and the header is not voted
    /// for.
    pub proof fn law_misplaced_header_gets_no_vote(
        before: CoreView,
        h: Arc<Header>,
        reply: Reply,
        committee: &Committee,
        name: PublicKey,
        error: DagError,
    )
        requires
            reply matches Reply::Parents(referenced) && referenced@.len() > 0
                && reference_error(committee, *h, referenced@) == Some(
                error,
            ),
        ensures
            Self::resumed(before, Task::AwaitParents(h), reply, committee, name) == (
                before.give_up(),
                Some(error),
            ),
            before.give_up().last_voted == before.last_voted,
    {
    }
}

} // verus!
