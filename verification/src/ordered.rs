//! Ordered maps, sets and relations over sorted vectors.
//!
//! Every collection of the protocol state is one of these. Their models are
//! plain mathematical maps and sets, and walking one of them always follows
//! the order of its keys, so the protocol is deterministic.
use vstd::prelude::*;

verus! {

/// A key type with a strict total order.
pub trait Key: Sized {
    /// The strict order on keys.
    spec fn before(self, other: Self) -> bool;

    /// No key comes before itself.
    proof fn irreflexive(a: Self)
        ensures
            !a.before(a),
    ;

    /// The order is transitive.
    proof fn transitive(a: Self, b: Self, c: Self)
        requires
            a.before(b),
            b.before(c),
        ensures
            a.before(c),
    ;

    /// Two different keys are ordered one way or the other.
    proof fn connected(a: Self, b: Self)
        ensures
            a.before(b) || a == b || b.before(a),
    ;

    /// Decides the order.
    fn is_before(&self, other: &Self) -> (result: bool)
        ensures
            result == self.before(*other),
    ;

    /// Another copy of the key.
    fn dup(&self) -> (result: Self)
        ensures
            result == *self,
    ;
}

impl Key for u64 {
    open spec fn before(self, other: Self) -> bool {
        self < other
    }

    proof fn irreflexive(a: Self) {
    }

    proof fn transitive(a: Self, b: Self, c: Self) {
    }

    proof fn connected(a: Self, b: Self) {
    }

    fn is_before(&self, other: &Self) -> (result: bool) {
        *self < *other
    }

    fn dup(&self) -> (result: Self) {
        *self
    }
}

impl<A: Key, B: Key> Key for (A, B) {
    open spec fn before(self, other: Self) -> bool {
        self.0.before(other.0) || (self.0 == other.0 && self.1.before(other.1))
    }

    proof fn irreflexive(a: Self) {
        A::irreflexive(a.0);
        B::irreflexive(a.1);
    }

    proof fn transitive(a: Self, b: Self, c: Self) {
        if a.0.before(b.0) && b.0.before(c.0) {
            A::transitive(a.0, b.0, c.0);
        }
        if a.1.before(b.1) && b.1.before(c.1) {
            B::transitive(a.1, b.1, c.1);
        }
    }

    proof fn connected(a: Self, b: Self) {
        A::connected(a.0, b.0);
        B::connected(a.1, b.1);
    }

    fn is_before(&self, other: &Self) -> (result: bool) {
        if self.0.is_before(&other.0) {
            true
        } else if other.0.is_before(&self.0) {
            proof {
                A::irreflexive(self.0);
                if self.0 == other.0 {
                    A::irreflexive(self.0);
                }
            }
            false
        } else {
            proof {
                A::connected(self.0, other.0);
            }
            self.1.is_before(&other.1)
        }
    }

    fn dup(&self) -> (result: Self) {
        (self.0.dup(), self.1.dup())
    }
}

/// The elements of `keys` come in strictly ascending order.
pub open spec fn ascending<K: Key>(keys: Seq<K>) -> bool {
    forall|i: int, j: int| 0 <= i < j < keys.len() ==> #[trigger] keys[i].before(#[trigger] keys[j])
}

/// The elements of a finite set in ascending order.
pub open spec fn in_order<K: Key>(s: Set<K>) -> Seq<K> {
    choose|q: Seq<K>| #![trigger ascending(q)] ascending(q) && q.to_set() == s
}

/// An ascending sequence is determined by its elements.
pub proof fn lemma_ascending_unique<K: Key>(a: Seq<K>, b: Seq<K>)
    requires
        ascending(a),
        ascending(b),
        a.to_set() == b.to_set(),
    ensures
        a == b,
    decreases a.len(),
{
    if a.len() == 0 {
        if b.len() > 0 {
            assert(b.to_set().contains(b[0]));
            assert(a.to_set().contains(b[0]));
        }
        assert(a =~= b);
    } else {
        assert(a.to_set().contains(a.last()));
        assert(b.to_set().contains(a.last()));
        assert(b.contains(a.last()));
        let j = choose|j: int| 0 <= j < b.len() && b[j] == a.last();
        assert(b.to_set().contains(b.last()));
        assert(a.to_set().contains(b.last()));
        assert(a.contains(b.last()));
        let i = choose|i: int| 0 <= i < a.len() && a[i] == b.last();
        if i < a.len() - 1 && j < b.len() - 1 {
            assert(a[i].before(a.last()));
            assert(b[j].before(b.last()));
            K::transitive(a.last(), b.last(), a.last());
            K::irreflexive(a.last());
        }
        if i < a.len() - 1 {
            assert(a[i].before(a.last()));
            assert(j == b.len() - 1);
            K::irreflexive(a.last());
        }
        if j < b.len() - 1 {
            assert(b[j].before(b.last()));
            K::irreflexive(a.last());
        }
        assert(a.last() == b.last());
        let a1 = a.drop_last();
        let b1 = b.drop_last();
        assert forall|x: K| a1.to_set().contains(x) == b1.to_set().contains(x) by {
            if a1.contains(x) {
                let m = choose|m: int| 0 <= m < a1.len() && a1[m] == x;
                assert(a[m] == x && a[m].before(a.last()));
                K::irreflexive(x);
                assert(a.contains(x));
                assert(a.to_set().contains(x));
                assert(b.contains(x));
                let n = choose|n: int| 0 <= n < b.len() && b[n] == x;
                assert(n != b.len() - 1);
                assert(b1[n] == x);
            }
            if b1.contains(x) {
                let m = choose|m: int| 0 <= m < b1.len() && b1[m] == x;
                assert(b[m] == x && b[m].before(b.last()));
                K::irreflexive(x);
                assert(b.contains(x));
                assert(b.to_set().contains(x));
                assert(a.contains(x));
                let n = choose|n: int| 0 <= n < a.len() && a[n] == x;
                assert(n != a.len() - 1);
                assert(a1[n] == x);
            }
        }
        assert(a1.to_set() =~= b1.to_set());
        lemma_ascending_unique(a1, b1);
        assert(a =~= a1.push(a.last()));
        assert(b =~= b1.push(b.last()));
    }
}

/// An ascending sequence is the ordered form of the set of its elements.
pub proof fn lemma_in_order<K: Key>(q: Seq<K>)
    requires
        ascending(q),
    ensures
        in_order(q.to_set()) == q,
{
    let r = in_order(q.to_set());
    assert(ascending(q) && q.to_set() == q.to_set());
    assert(ascending(r) && r.to_set() == q.to_set());
    lemma_ascending_unique(r, q);
}

/// Where a new element belongs in an ascending sequence.
proof fn lemma_place<K: Key>(q: Seq<K>, x: K) -> (n: int)
    requires
        ascending(q),
        !q.contains(x),
    ensures
        0 <= n <= q.len(),
        forall|i: int| 0 <= i < n ==> (#[trigger] q[i]).before(x),
        forall|i: int| n <= i < q.len() ==> x.before(#[trigger] q[i]),
    decreases q.len(),
{
    if q.len() == 0 {
        0
    } else {
        K::connected(q.last(), x);
        assert(q.contains(q[q.len() - 1]));
        if q.last().before(x) {
            assert forall|i: int| 0 <= i < q.len() implies (#[trigger] q[i]).before(x) by {
                if i < q.len() - 1 {
                    K::transitive(q[i], q[q.len() - 1], x);
                }
            }
            q.len() as int
        } else {
            let front = q.drop_last();
            if front.contains(x) {
                let i = choose|i: int| 0 <= i < front.len() && front[i] == x;
                assert(q[i] == x);
            }
            let n = lemma_place(front, x);
            assert forall|i: int| 0 <= i < n implies (#[trigger] q[i]).before(x) by {
                assert(front[i] == q[i]);
            }
            assert forall|i: int| n <= i < q.len() implies x.before(#[trigger] q[i]) by {
                if i < front.len() {
                    assert(front[i] == q[i]);
                }
            }
            n
        }
    }
}

/// Every finite set can be put in order.
pub proof fn lemma_in_order_of<K: Key>(s: Set<K>)
    requires
        s.finite(),
    ensures
        ascending(in_order(s)),
        in_order(s).to_set() == s,
    decreases s.len(),
{
    if s.len() == 0 {
        let q = Seq::<K>::empty();
        assert(q.to_set() =~= s);
        assert(ascending(q));
    } else {
        let x = s.choose();
        let rest = s.remove(x);
        lemma_in_order_of(rest);
        let q = in_order(rest);
        if q.contains(x) {
            assert(q.to_set().contains(x));
        }
        let n = lemma_place(q, x);
        let longer = q.insert(n, x);
        assert forall|i: int, j: int| 0 <= i < j < longer.len() implies
            #[trigger] longer[i].before(#[trigger] longer[j]) by {
            let a = if i < n {
                i
            } else {
                i - 1
            };
            let b = if j < n {
                j
            } else {
                j - 1
            };
            if i != n {
                assert(longer[i] == q[a]);
            }
            if j != n {
                assert(longer[j] == q[b]);
            }
        }
        assert forall|k: K| longer.to_set().contains(k) == s.contains(k) by {
            if s.contains(k) && k != x {
                assert(q.to_set().contains(k));
                let i = choose|i: int| 0 <= i < q.len() && q[i] == k;
                if i < n {
                    assert(longer[i] == k);
                } else {
                    assert(longer[i + 1] == k);
                }
            }
            if k == x {
                assert(longer[n] == x);
            }
            if longer.contains(k) {
                let i = choose|i: int| 0 <= i < longer.len() && longer[i] == k;
                if i < n {
                    assert(q.to_set().contains(q[i]));
                } else if i > n {
                    assert(q.to_set().contains(q[i - 1]));
                }
            }
        }
        assert(longer.to_set() =~= s);
        assert(ascending(longer));
    }
}

/// An ascending sequence holds no element twice.
pub proof fn lemma_ascending_distinct<K: Key>(q: Seq<K>)
    requires
        ascending(q),
    ensures
        q.no_duplicates(),
{
    assert forall|i: int, j: int| 0 <= i < q.len() && 0 <= j < q.len() && i != j implies q[i]
        != q[j] by {
        if q[i] == q[j] {
            K::irreflexive(q[i]);
            if i < j {
                assert(q[i].before(q[j]));
            } else {
                assert(q[j].before(q[i]));
            }
        }
    }
}

/// One more element in a prefix.
pub proof fn lemma_take_contains<A>(s: Seq<A>, i: int)
    requires
        0 <= i < s.len(),
    ensures
        forall|x: A| #[trigger] s.take(i + 1).contains(x) <==> (s.take(i).contains(x) || x == s[i]),
{
    let longer = s.take(i + 1);
    let shorter = s.take(i);
    assert forall|x: A| #[trigger] longer.contains(x) <==> (shorter.contains(x) || x == s[i]) by {
        if longer.contains(x) {
            let j = choose|j: int| 0 <= j < longer.len() && longer[j] == x;
            if j < i {
                assert(shorter[j] == x);
            }
        }
        if shorter.contains(x) {
            let j = choose|j: int| 0 <= j < shorter.len() && shorter[j] == x;
            assert(longer[j] == x);
        }
        if x == s[i] {
            assert(longer[i] == x);
        }
    }
}

/// Filtering one element more.
pub proof fn lemma_filter_take<A>(s: Seq<A>, p: spec_fn(A) -> bool, i: int)
    requires
        0 <= i < s.len(),
    ensures
        s.take(i + 1).filter(p) == (if p(s[i]) {
            s.take(i).filter(p).push(s[i])
        } else {
            s.take(i).filter(p)
        }),
        s.take(0).filter(p) == Seq::<A>::empty(),
        s.take(s.len() as int).filter(p) == s.filter(p),
{
    reveal(Seq::filter);
    assert(s.take(i + 1).drop_last() =~= s.take(i));
    assert(s.take(0).filter(p) =~= Seq::<A>::empty());
    assert(s.take(s.len() as int) =~= s);
}

/// The entries of `m` whose key and value satisfy `p`.
pub open spec fn keep_where<K, V>(m: Map<K, V>, p: spec_fn(K, V) -> bool) -> Map<K, V> {
    Map::new(|k: K| m.contains_key(k) && p(k, m[k]), |k: K| m[k])
}

spec fn keys_of<K, V>(entries: Seq<(K, V)>) -> Seq<K> {
    entries.map_values(|e: (K, V)| e.0)
}

spec fn map_of<K, V>(entries: Seq<(K, V)>) -> Map<K, V> {
    Map::new(
        |k: K| keys_of(entries).contains(k),
        |k: K| entries[keys_of(entries).index_of(k)].1,
    )
}

proof fn lemma_map_of<K: Key, V>(entries: Seq<(K, V)>, i: int)
    requires
        ascending(keys_of(entries)),
        0 <= i < entries.len(),
    ensures
        map_of(entries).contains_key(entries[i].0),
        map_of(entries)[entries[i].0] == entries[i].1,
{
    let keys = keys_of(entries);
    assert(keys[i] == entries[i].0);
    assert(keys.contains(entries[i].0));
    let j = keys.index_of(entries[i].0);
    assert(0 <= j < keys.len() && keys[j] == keys[i]);
    lemma_ascending_distinct(keys);
}

/// A map whose entries are kept in the order of their keys.
#[derive(Debug, PartialEq, Eq)]
pub struct OrdMap<K: Key, V> {
    entries: Vec<(K, V)>,
}

impl<K: Key, V> View for OrdMap<K, V> {
    type V = Map<K, V>;

    closed spec fn view(&self) -> Map<K, V> {
        map_of(self.entries@)
    }
}

impl<K: Key, V> OrdMap<K, V> {
    #[verifier::type_invariant]
    spec fn sorted(self) -> bool {
        ascending(keys_of(self.entries@))
    }

    /// The keys in the order in which the map is walked.
    pub closed spec fn key_seq(&self) -> Seq<K> {
        keys_of(self.entries@)
    }

    /// The walk meets exactly the keys of the map, and these are finitely many.
    pub broadcast proof fn lemma_key_seq(&self)
        ensures
            #![trigger self.key_seq()]
            #![trigger self@]
            self.key_seq().to_set() == self@.dom(),
            self@.dom().finite(),
    {
        assert(self.key_seq().to_set() =~= self@.dom());
        vstd::seq_lib::seq_to_set_is_finite(self.key_seq());
    }

    /// The empty map.
    pub fn new() -> (result: Self)
        ensures
            result@ == Map::<K, V>::empty(),
    {
        let result = OrdMap { entries: Vec::new() };
        proof {
            assert(result@ =~= Map::<K, V>::empty());
        }
        result
    }

    /// The number of entries.
    pub fn len(&self) -> (result: usize)
        ensures
            result == self.key_seq().len(),
            result == self@.dom().len(),
            ascending(self.key_seq()),
    {
        proof {
            use_type_invariant(self);
            lemma_ascending_distinct(self.key_seq());
            self.key_seq().unique_seq_to_set();
            self.lemma_key_seq();
        }
        self.entries.len()
    }

    /// Whether the map has no entry.
    pub fn is_empty(&self) -> (result: bool)
        ensures
            result == (self@.dom() == Set::<K>::empty()),
            result == (self.key_seq().len() == 0),
    {
        proof {
            self.lemma_key_seq();
            if self.key_seq().len() > 0 {
                assert(self.key_seq().contains(self.key_seq()[0]));
                assert(self@.dom().contains(self.key_seq()[0]));
            } else {
                assert(self@.dom() =~= Set::<K>::empty());
            }
        }
        self.entries.len() == 0
    }

    /// The position of `key`, or where it would have to be inserted.
    fn position(&self, key: &K) -> (result: (bool, usize))
        ensures
            result.1 <= self.entries@.len(),
            result.0 ==> result.1 < self.entries@.len() && self.entries@[result.1 as int].0 == *key,
            forall|i: int|
                0 <= i < result.1 ==> (#[trigger] self.entries@[i]).0.before(*key),
            forall|i: int|
                result.1 <= i < self.entries@.len() && !(result.0 && i == result.1)
                    ==> key.before((#[trigger] self.entries@[i]).0),
            result.0 == self@.contains_key(*key),
    {
        proof {
            use_type_invariant(self);
        }
        let ghost keys = keys_of(self.entries@);
        let mut lo: usize = 0;
        let mut hi: usize = self.entries.len();
        while lo < hi
            invariant
                lo <= hi <= self.entries@.len(),
                keys == keys_of(self.entries@),
                ascending(keys),
                forall|i: int| 0 <= i < lo ==> (#[trigger] self.entries@[i]).0.before(*key),
                forall|i: int|
                    hi <= i < self.entries@.len() ==> !(#[trigger] self.entries@[i]).0.before(*key),
            decreases hi - lo,
        {
            let mid: usize = lo + (hi - lo) / 2;
            if self.entries[mid].0.is_before(key) {
                proof {
                    assert forall|i: int| 0 <= i < mid + 1 implies (
                    #[trigger] self.entries@[i]).0.before(*key) by {
                        if i < mid {
                            assert(keys[i].before(keys[mid as int]));
                            K::transitive(keys[i], keys[mid as int], *key);
                        }
                    }
                }
                lo = mid + 1;
            } else {
                proof {
                    assert forall|i: int| mid <= i < self.entries@.len() implies !(
                    #[trigger] self.entries@[i]).0.before(*key) by {
                        if i > mid && keys[i].before(*key) {
                            assert(keys[mid as int].before(keys[i]));
                            K::transitive(keys[mid as int], keys[i], *key);
                        }
                    }
                }
                hi = mid;
            }
        }
        let found = lo < self.entries.len() && !key.is_before(&self.entries[lo].0);
        proof {
            if lo < self.entries@.len() {
                K::connected(keys[lo as int], *key);
                assert(self.entries@[lo as int].0 == keys[lo as int]);
                K::irreflexive(*key);
            }
            assert forall|i: int|
                lo <= i < self.entries@.len() && !(found && i == lo) implies key.before(
                (#[trigger] self.entries@[i]).0) by {
                assert(self.entries@[i].0 == keys[i]);
                K::connected(keys[i], *key);
                if keys[i] == *key {
                    if i > lo {
                        assert(keys[lo as int].before(keys[i]));
                        assert(self.entries@[lo as int].0 == keys[lo as int]);
                    } else {
                        K::irreflexive(*key);
                    }
                }
            }
            if found {
                assert(keys[lo as int] == *key);
                assert(keys.contains(*key));
            } else {
                if keys.contains(*key) {
                    let i = choose|i: int| 0 <= i < keys.len() && keys[i] == *key;
                    assert(self.entries@[i].0 == *key);
                    K::irreflexive(*key);
                }
            }
        }
        (found, lo)
    }

    /// The value under `key`.
    pub fn get(&self, key: &K) -> (result: Option<&V>)
        ensures
            match result {
                Some(value) => self@.contains_key(*key) && *value == self@[*key],
                None => !self@.contains_key(*key),
            },
    {
        let (found, at) = self.position(key);
        if found {
            proof {
                use_type_invariant(self);
                lemma_map_of(self.entries@, at as int);
            }
            Some(&self.entries[at].1)
        } else {
            None
        }
    }

    /// Whether `key` has a value.
    pub fn contains_key(&self, key: &K) -> (result: bool)
        ensures
            result == self@.contains_key(*key),
    {
        self.position(key).0
    }

    /// Puts `value` under `key` and hands back the value that was there.
    pub fn insert(&mut self, key: K, value: V) -> (result: Option<V>)
        ensures
            final(self)@ == old(self)@.insert(key, value),
            result == (if old(self)@.contains_key(key) {
                Some(old(self)@[key])
            } else {
                None
            }),
    {
        let (found, at) = self.position(&key);
        proof {
            use_type_invariant(&*self);
        }
        let ghost before = self.entries@;
        let mut entries: Vec<(K, V)> = Vec::new();
        std::mem::swap(&mut entries, &mut self.entries);
        let result = if found {
            proof {
                lemma_map_of(before, at as int);
            }
            let taken = entries.remove(at);
            Some(taken.1)
        } else {
            None
        };
        let ghost middle = entries@;
        entries.insert(at, (key, value));
        proof {
            let after = entries@;
            let rest = if found { before.remove(at as int) } else { before };
            assert(middle == rest);
            assert(after == rest.insert(at as int, (key, value)));
            let keys = keys_of(after);
            let old_keys = keys_of(before);
            assert forall|i: int| 0 <= i < at implies #[trigger] keys[i] == old_keys[i]
                && old_keys[i].before(key) by {
                assert(after[i] == before[i]);
            }
            assert(keys[at as int] == key);
            let shift: int = if found { 0 } else { 1 };
            assert forall|i: int| at < i < after.len() implies #[trigger] keys[i] == old_keys[i
                - shift] && key.before(old_keys[i - shift]) by {
                assert(after[i] == before[i - shift]);
            }
            assert(ascending(keys)) by {
                assert forall|i: int, j: int| 0 <= i < j < keys.len() implies
                    #[trigger] keys[i].before(#[trigger] keys[j]) by {
                    if i < at && j > at {
                        K::transitive(keys[i], key, keys[j]);
                    }
                }
            }
            let m = map_of(after);
            let expected = map_of(before).insert(key, value);
            assert forall|k: K| #[trigger] m.contains_key(k) == expected.contains_key(k) by {
                if m.contains_key(k) {
                    let i = choose|i: int| 0 <= i < keys.len() && keys[i] == k;
                    if i < at {
                        assert(old_keys.contains(k));
                    } else if i > at {
                        assert(old_keys[i - shift] == k);
                        assert(old_keys.contains(k));
                    }
                }
                if expected.contains_key(k) && k != key {
                    let i = choose|i: int| 0 <= i < old_keys.len() && old_keys[i] == k;
                    if i < at {
                        assert(keys[i] == k);
                    } else {
                        assert(!(found && i == at));
                        assert(keys[i + shift] == k);
                    }
                    assert(keys.contains(k));
                }
                if k == key {
                    assert(keys[at as int] == k);
                    assert(keys.contains(k));
                }
            }
            assert forall|k: K| #[trigger] m.contains_key(k) implies m[k] == expected[k] by {
                let i = choose|i: int| 0 <= i < keys.len() && keys[i] == k;
                lemma_map_of(after, i);
                if k == key {
                    lemma_map_of(after, at as int);
                } else {
                    assert(i != at);
                    let b = if i < at { i } else { i - shift };
                    assert(after[i] == before[b]);
                    lemma_map_of(before, b);
                }
            }
            assert(m =~= expected);
        }
        self.entries = entries;
        result
    }

    /// Removes `key` and hands back its value.
    pub fn remove(&mut self, key: &K) -> (result: Option<V>)
        ensures
            final(self)@ == old(self)@.remove(*key),
            result == (if old(self)@.contains_key(*key) {
                Some(old(self)@[*key])
            } else {
                None
            }),
    {
        let (found, at) = self.position(key);
        if !found {
            proof {
                assert(self@ =~= self@.remove(*key));
            }
            return None;
        }
        proof {
            use_type_invariant(&*self);
        }
        let ghost before = self.entries@;
        let mut entries: Vec<(K, V)> = Vec::new();
        std::mem::swap(&mut entries, &mut self.entries);
        let taken = entries.remove(at);
        proof {
            let after = entries@;
            let keys = keys_of(after);
            let old_keys = keys_of(before);
            lemma_map_of(before, at as int);
            lemma_ascending_distinct(old_keys);
            assert forall|i: int| 0 <= i < after.len() implies #[trigger] keys[i] == old_keys[(
            if i < at { i } else { i + 1 })] by {
                assert(after[i] == before[(if i < at { i } else { i + 1 })]);
            }
            assert(ascending(keys));
            let m = map_of(after);
            let expected = map_of(before).remove(*key);
            assert(old_keys[at as int] == *key);
            assert forall|k: K| #[trigger] m.contains_key(k) == expected.contains_key(k) by {
                if m.contains_key(k) {
                    let i = choose|i: int| 0 <= i < keys.len() && keys[i] == k;
                    let b = if i < at { i } else { i + 1 };
                    assert(old_keys[b] == k);
                    assert(old_keys.contains(k));
                }
                if expected.contains_key(k) {
                    let b = choose|b: int| 0 <= b < old_keys.len() && old_keys[b] == k;
                    assert(b != at);
                    let i = if b < at { b } else { b - 1 };
                    assert(keys[i] == k);
                    assert(keys.contains(k));
                }
            }
            assert forall|k: K| #[trigger] m.contains_key(k) implies m[k] == expected[k] by {
                let i = choose|i: int| 0 <= i < keys.len() && keys[i] == k;
                lemma_map_of(after, i);
                let b = if i < at { i } else { i + 1 };
                assert(after[i] == before[b]);
                lemma_map_of(before, b);
            }
            assert(m =~= expected);
        }
        self.entries = entries;
        Some(taken.1)
    }

    /// The key at position `at` of the walk.
    pub fn key_at(&self, at: usize) -> (result: K)
        requires
            at < self.key_seq().len(),
        ensures
            result == self.key_seq()[at as int],
            self@.contains_key(result),
    {
        proof {
            use_type_invariant(self);
            lemma_map_of(self.entries@, at as int);
        }
        self.entries[at].0.dup()
    }

    /// The value at position `at` of the walk.
    pub fn value_at(&self, at: usize) -> (result: &V)
        requires
            at < self.key_seq().len(),
        ensures
            self@.contains_key(self.key_seq()[at as int]),
            *result == self@[self.key_seq()[at as int]],
    {
        proof {
            use_type_invariant(self);
            lemma_map_of(self.entries@, at as int);
        }
        &self.entries[at].1
    }

    /// All keys, in order.
    pub fn keys(&self) -> (result: Vec<K>)
        ensures
            result@ == self.key_seq(),
            ascending(result@),
            result@ == in_order(self@.dom()),
            result@.to_set() == self@.dom(),
            result@.no_duplicates(),
    {
        proof {
            use_type_invariant(self);
            lemma_in_order(self.key_seq());
            lemma_ascending_distinct(self.key_seq());
            self.lemma_key_seq();
        }
        let mut result: Vec<K> = Vec::new();
        let mut i: usize = 0;
        while i < self.entries.len()
            invariant
                i <= self.entries@.len(),
                result@ =~= keys_of(self.entries@).take(i as int),
            decreases self.entries@.len() - i,
        {
            result.push(self.entries[i].0.dup());
            i += 1;
        }
        proof {
            assert(result@ =~= self.key_seq());
        }
        result
    }

    /// The first key of the walk.
    pub fn first_key(&self) -> (result: Option<K>)
        ensures
            match result {
                Some(key) => self@.contains_key(key) && in_order(self@.dom()).len() > 0 && key
                    == in_order(self@.dom())[0] && forall|k: K|
                    #[trigger] self@.contains_key(k) ==> k == key || key.before(k),
                None => self@.dom() == Set::<K>::empty(),
            },
    {
        proof {
            use_type_invariant(self);
            lemma_in_order(self.key_seq());
            self.lemma_key_seq();
        }
        if self.entries.len() == 0 {
            proof {
                assert(self@.dom() =~= Set::<K>::empty());
            }
            None
        } else {
            proof {
                let keys = self.key_seq();
                lemma_map_of(self.entries@, 0);
                assert forall|k: K| #[trigger] self@.contains_key(k) implies k == keys[0]
                    || keys[0].before(k) by {
                    assert(keys.to_set().contains(k));
                    let i = choose|i: int| 0 <= i < keys.len() && keys[i] == k;
                    if i > 0 {
                        assert(keys[0].before(keys[i]));
                    }
                }
            }
            Some(self.entries[0].0.dup())
        }
    }

    /// Keeps the entries for which `keep` holds.
    pub fn retain<F: Fn(&K, &V) -> bool>(
        &mut self,
        keep: F,
        Ghost(p): Ghost<spec_fn(K, V) -> bool>,
    )
        requires
            forall|k: K, v: V| #[trigger] keep.requires((&k, &v)),
            forall|k: K, v: V, b: bool| #[trigger] keep.ensures((&k, &v), b) ==> b == p(k, v),
        ensures
            final(self)@ == keep_where(old(self)@, p),
    {
        proof {
            use_type_invariant(&*self);
        }
        let ghost before = self.entries@;
        let ghost test = |e: (K, V)| p(e.0, e.1);
        let mut entries: Vec<(K, V)> = Vec::new();
        std::mem::swap(&mut entries, &mut self.entries);
        // Taking entries from the back yields the survivors in reverse.
        let mut reversed: Vec<(K, V)> = Vec::new();
        while entries.len() > 0
            invariant
                forall|k: K, v: V| #[trigger] keep.requires((&k, &v)),
                forall|k: K, v: V, b: bool| #[trigger] keep.ensures((&k, &v), b) ==> b == p(k, v),
                test == (|e: (K, V)| p(e.0, e.1)),
                entries@.len() <= before.len(),
                entries@ == before.take(entries@.len() as int),
                reversed@.reverse() == before.skip(entries@.len() as int).filter(test),
            decreases entries@.len(),
        {
            let ghost n = entries@.len() as int;
            let ghost done = before.skip(n);
            let ghost kept = reversed@;
            if let Some(entry) = entries.pop() {
                proof {
                    assert(entry == before[n - 1]);
                    assert(before.skip(n - 1) =~= seq![entry] + done);
                    Seq::filter_distributes_over_add(seq![entry], done, test);
                    reveal_with_fuel(Seq::filter, 2);
                    assert(seq![entry].drop_last() =~= Seq::<(K, V)>::empty());
                    assert(seq![entry].filter(test) =~= if test(entry) {
                        seq![entry]
                    } else {
                        Seq::empty()
                    });
                    assert(before.take(n).drop_last() =~= before.take(n - 1));
                }
                if keep(&entry.0, &entry.1) {
                    reversed.push(entry);
                    proof {
                        assert(reversed@.reverse() =~= seq![entry] + kept.reverse());
                    }
                } else {
                    proof {
                        assert(Seq::<(K, V)>::empty() + done.filter(test) =~= done.filter(test));
                    }
                }
            }
        }
        let mut result: Vec<(K, V)> = Vec::new();
        let ghost all = reversed@;
        while reversed.len() > 0
            invariant
                reversed@.len() <= all.len(),
                reversed@ == all.take(reversed@.len() as int),
                result@ == all.skip(reversed@.len() as int).reverse(),
            decreases reversed@.len(),
        {
            let ghost n = reversed@.len() as int;
            let ghost so_far = result@;
            if let Some(entry) = reversed.pop() {
                result.push(entry);
                proof {
                    assert(reversed@ =~= all.take(n - 1));
                    assert(all.skip(n - 1) =~= seq![entry] + all.skip(n));
                    assert(result@ =~= all.skip(n - 1).reverse());
                }
            }
        }
        proof {
            assert(all.skip(0) =~= all);
            assert(before.skip(0) =~= before);
            assert(result@ == before.filter(test));
            lemma_filter_ascending(before, test);
            lemma_filter_map_of(before, p);
        }
        self.entries = result;
    }
}

proof fn lemma_filter_ascending<K: Key, V>(entries: Seq<(K, V)>, test: spec_fn((K, V)) -> bool)
    requires
        ascending(keys_of(entries)),
    ensures
        ascending(keys_of(entries.filter(test))),
        forall|e: (K, V)|
            #[trigger] entries.filter(test).contains(e) ==> entries.contains(e) && test(e),
        forall|e: (K, V)|
            #[trigger] entries.contains(e) && test(e) ==> entries.filter(test).contains(e),
    decreases entries.len(),
{
    reveal(Seq::filter);
    if entries.len() > 0 {
        let front = entries.drop_last();
        let last = entries.last();
        assert forall|i: int, j: int| 0 <= i < j < keys_of(front).len() implies
            #[trigger] keys_of(front)[i].before(#[trigger] keys_of(front)[j]) by {
            assert(keys_of(entries)[i].before(keys_of(entries)[j]));
        }
        lemma_filter_ascending(front, test);
        let kept = front.filter(test);
        let keys = keys_of(entries.filter(test));
        assert(entries[entries.len() - 1] == last);
        assert forall|i: int, j: int| 0 <= i < j < keys.len() implies #[trigger] keys[i].before(
        #[trigger] keys[j]) by {
            if j < kept.len() {
                assert(keys_of(kept)[i].before(keys_of(kept)[j]));
            } else {
                assert(kept.contains(kept[i]));
                assert(front.contains(kept[i]));
                let m = choose|m: int| 0 <= m < front.len() && front[m] == kept[i];
                assert(keys_of(entries)[m].before(keys_of(entries)[entries.len() - 1]));
            }
        }
        assert forall|e: (K, V)| #[trigger] entries.filter(test).contains(e) implies
            entries.contains(e) && test(e) by {
            let i = choose|i: int|
                0 <= i < entries.filter(test).len() && entries.filter(test)[i] == e;
            if i < kept.len() {
                assert(kept.contains(e));
                let m = choose|m: int| 0 <= m < front.len() && front[m] == e;
                assert(entries[m] == e);
            }
        }
        assert forall|e: (K, V)| #[trigger] entries.contains(e) && test(e) implies
            entries.filter(test).contains(e) by {
            let m = choose|m: int| 0 <= m < entries.len() && entries[m] == e;
            if m < front.len() {
                assert(front[m] == e);
                assert(front.contains(e));
                let i = choose|i: int| 0 <= i < kept.len() && kept[i] == e;
                assert(entries.filter(test)[i] == e);
            } else {
                assert(entries.filter(test)[kept.len() as int] == e);
            }
        }
    }
}

proof fn lemma_filter_map_of<K: Key, V>(entries: Seq<(K, V)>, p: spec_fn(K, V) -> bool)
    requires
        ascending(keys_of(entries)),
    ensures
        map_of(entries.filter(|e: (K, V)| p(e.0, e.1))) == keep_where(map_of(entries), p),
{
    let test = |e: (K, V)| p(e.0, e.1);
    let kept = entries.filter(test);
    lemma_filter_ascending(entries, test);
    let m = map_of(kept);
    let expected = keep_where(map_of(entries), p);
    assert forall|k: K| #[trigger] m.contains_key(k) implies expected.contains_key(k) && m[k]
        == expected[k] by {
        let i = choose|i: int| 0 <= i < keys_of(kept).len() && keys_of(kept)[i] == k;
        assert(kept[i].0 == k);
        assert(kept.contains(kept[i]));
        lemma_map_of(kept, i);
        let j = choose|j: int| 0 <= j < entries.len() && entries[j] == kept[i];
        lemma_map_of(entries, j);
    }
    assert forall|k: K| #[trigger] expected.contains_key(k) implies m.contains_key(k) by {
        let j = choose|j: int| 0 <= j < keys_of(entries).len() && keys_of(entries)[j] == k;
        assert(entries[j].0 == k);
        lemma_map_of(entries, j);
        assert(entries.contains(entries[j]));
        assert(test(entries[j]));
        assert(kept.contains(entries[j]));
        let i = choose|i: int| 0 <= i < kept.len() && kept[i] == entries[j];
        lemma_map_of(kept, i);
    }
    assert(m =~= expected);
}

/// The elements of `s` that satisfy `p`.
pub open spec fn keep_in<K>(s: Set<K>, p: spec_fn(K) -> bool) -> Set<K> {
    Set::new(|k: K| s.contains(k) && p(k))
}

/// A set whose elements are kept in order.
#[derive(Debug, PartialEq, Eq)]
pub struct OrdSet<K: Key> {
    map: OrdMap<K, ()>,
}

impl<K: Key> View for OrdSet<K> {
    type V = Set<K>;

    closed spec fn view(&self) -> Set<K> {
        self.map@.dom()
    }
}

impl<K: Key> OrdSet<K> {
    /// The elements in the order in which the set is walked.
    pub closed spec fn seq(&self) -> Seq<K> {
        self.map.key_seq()
    }

    /// The walk meets exactly the elements of the set, and these are finitely many.
    pub broadcast proof fn lemma_seq(&self)
        ensures
            #![trigger self.seq()]
            #![trigger self@]
            self.seq().to_set() == self@,
            self@.finite(),
    {
        self.map.lemma_key_seq();
    }

    /// The empty set.
    pub fn new() -> (result: Self)
        ensures
            result@ == Set::<K>::empty(),
            result.seq() == Seq::<K>::empty(),
    {
        let result = OrdSet { map: OrdMap::new() };
        proof {
            result.map.lemma_key_seq();
            assert(result@ =~= Set::<K>::empty());
            if result.seq().len() > 0 {
                assert(result.seq().to_set().contains(result.seq()[0]));
            }
            assert(result.seq() =~= Seq::<K>::empty());
        }
        result
    }

    /// The number of elements.
    pub fn len(&self) -> (result: usize)
        ensures
            result == self@.len(),
            result == self.seq().len(),
            ascending(self.seq()),
    {
        self.map.len()
    }

    /// Whether the set has no element.
    pub fn is_empty(&self) -> (result: bool)
        ensures
            result == (self@ == Set::<K>::empty()),
            result == (self.seq().len() == 0),
    {
        self.map.is_empty()
    }

    /// Whether `key` is an element.
    pub fn contains(&self, key: &K) -> (result: bool)
        ensures
            result == self@.contains(*key),
    {
        self.map.contains_key(key)
    }

    /// Adds `key` and tells whether it is new.
    pub fn insert(&mut self, key: K) -> (result: bool)
        ensures
            final(self)@ == old(self)@.insert(key),
            result == !old(self)@.contains(key),
    {
        let was = self.map.insert(key, ());
        was.is_none()
    }

    /// Removes `key` and tells whether it was there.
    pub fn remove(&mut self, key: &K) -> (result: bool)
        ensures
            final(self)@ == old(self)@.remove(*key),
            result == old(self)@.contains(*key),
    {
        let was = self.map.remove(key);
        was.is_some()
    }

    /// The element at position `at` of the walk.
    pub fn at(&self, at: usize) -> (result: K)
        requires
            at < self.seq().len(),
        ensures
            result == self.seq()[at as int],
            self@.contains(result),
    {
        self.map.key_at(at)
    }

    /// All elements, in order.
    pub fn items(&self) -> (result: Vec<K>)
        ensures
            result@ == self.seq(),
            ascending(result@),
            result@ == in_order(self@),
            result@.to_set() == self@,
            result@.no_duplicates(),
    {
        self.map.keys()
    }

    /// The least element.
    pub fn first(&self) -> (result: Option<K>)
        ensures
            match result {
                Some(key) => self@.contains(key) && in_order(self@).len() > 0 && key == in_order(
                    self@,
                )[0] && forall|k: K| #[trigger] self@.contains(k) ==> k == key || key.before(k),
                None => self@ == Set::<K>::empty(),
            },
    {
        let result = self.map.first_key();
        proof {
            if result is Some {
                let key = result->0;
                assert forall|k: K| #[trigger] self@.contains(k) implies k == key || key.before(
                    k,
                ) by {
                    assert(self.map@.contains_key(k));
                }
            }
        }
        result
    }

    /// Keeps the elements for which `keep` holds.
    pub fn retain<F: Fn(&K) -> bool>(&mut self, keep: F, Ghost(p): Ghost<spec_fn(K) -> bool>)
        requires
            forall|k: K| #[trigger] keep.requires((&k,)),
            forall|k: K, b: bool| #[trigger] keep.ensures((&k,), b) ==> b == p(k),
        ensures
            final(self)@ == keep_in(old(self)@, p),
    {
        let items = self.items();
        let mut kept: OrdSet<K> = OrdSet::new();
        let mut i: usize = 0;
        while i < items.len()
            invariant
                i <= items@.len(),
                forall|k: K| #[trigger] keep.requires((&k,)),
                forall|k: K, b: bool| #[trigger] keep.ensures((&k,), b) ==> b == p(k),
                forall|k: K|
                    #[trigger] kept@.contains(k) <==> p(k) && items@.take(i as int).contains(k),
            decreases items@.len() - i,
        {
            let ghost before = kept@;
            let ghost now = items@[i as int];
            proof {
                lemma_take_contains(items@, i as int);
            }
            if keep(&items[i]) {
                kept.insert(items[i].dup());
            }
            i += 1;
        }
        proof {
            assert(items@.take(items@.len() as int) =~= items@);
            assert forall|k: K| kept@.contains(k) == keep_in(self@, p).contains(k) by {
                assert(items@.to_set().contains(k) == items@.contains(k));
            }
            assert(kept@ =~= keep_in(self@, p));
        }
        *self = kept;
    }
}

/// Everything that `r` relates to `a`.
pub open spec fn image<A, B>(r: Set<(A, B)>, a: A) -> Set<B> {
    Set::new(|b: B| r.contains((a, b)))
}

/// The pairs of `r` that do not start with `a`.
pub open spec fn without<A, B>(r: Set<(A, B)>, a: A) -> Set<(A, B)> {
    Set::new(|p: (A, B)| r.contains(p) && p.0 != a)
}

/// A set of pairs in which everything related to a first component can be
/// looked up.
#[derive(Debug, PartialEq, Eq)]
pub struct Relation<A: Key, B: Key> {
    pairs: OrdSet<(A, B)>,
}

impl<A: Key, B: Key> View for Relation<A, B> {
    type V = Set<(A, B)>;

    closed spec fn view(&self) -> Set<(A, B)> {
        self.pairs@
    }
}

impl<A: Key, B: Key> Relation<A, B> {
    /// A relation and each of its images are finite.
    pub proof fn lemma_finite(&self)
        ensures
            self@.finite(),
            forall|a: A| (#[trigger] image(self@, a)).finite(),
    {
        self.pairs.lemma_seq();
        assert forall|a: A| (#[trigger] image(self@, a)).finite() by {
            let seconds = self@.map(|p: (A, B)| p.1);
            self@.lemma_map_finite(|p: (A, B)| p.1);
            assert(image(self@, a).subset_of(seconds)) by {
                assert forall|b: B| image(self@, a).contains(b) implies seconds.contains(b) by {
                    assert(self@.contains((a, b)));
                }
            }
            vstd::set_lib::lemma_set_subset_finite(seconds, image(self@, a));
        }
    }

    /// The empty relation.
    pub fn new() -> (result: Self)
        ensures
            result@ == Set::<(A, B)>::empty(),
    {
        Relation { pairs: OrdSet::new() }
    }

    /// The number of pairs.
    pub fn len(&self) -> (result: usize)
        ensures
            result == self@.len(),
    {
        self.pairs.len()
    }

    /// Whether `a` is related to `b`.
    pub fn contains(&self, a: &A, b: &B) -> (result: bool)
        ensures
            result == self@.contains((*a, *b)),
    {
        self.pairs.contains(&(a.dup(), b.dup()))
    }

    /// Relates `a` to `b` and tells whether the pair is new.
    pub fn insert(&mut self, a: A, b: B) -> (result: bool)
        ensures
            final(self)@ == old(self)@.insert((a, b)),
            result == !old(self)@.contains((a, b)),
    {
        self.pairs.insert((a, b))
    }

    /// Everything related to `a`, in order.
    pub fn image(&self, a: &A) -> (result: Vec<B>)
        ensures
            result@.to_set() == image(self@, *a),
            ascending(result@),
            result@ == in_order(image(self@, *a)),
            result@.no_duplicates(),
    {
        let count = self.pairs.len();
        let ghost pairs = self.pairs.seq();
        proof {
            self.pairs.lemma_seq();
        }
        let mut lo: usize = 0;
        let mut hi: usize = count;
        while lo < hi
            invariant
                lo <= hi <= count,
                count == pairs.len(),
                pairs == self.pairs.seq(),
                ascending(pairs),
                forall|i: int| 0 <= i < lo ==> (#[trigger] pairs[i]).0.before(*a),
                forall|i: int| hi <= i < pairs.len() ==> !(#[trigger] pairs[i]).0.before(*a),
            decreases hi - lo,
        {
            let mid: usize = lo + (hi - lo) / 2;
            if self.pairs.at(mid).0.is_before(a) {
                proof {
                    assert forall|i: int| 0 <= i < mid + 1 implies (
                    #[trigger] pairs[i]).0.before(*a) by {
                        if i < mid {
                            assert(pairs[i].before(pairs[mid as int]));
                            if pairs[i].0.before(pairs[mid as int].0) {
                                A::transitive(pairs[i].0, pairs[mid as int].0, *a);
                            }
                        }
                    }
                }
                lo = mid + 1;
            } else {
                proof {
                    assert forall|i: int| mid <= i < pairs.len() implies !(
                    #[trigger] pairs[i]).0.before(*a) by {
                        if i > mid && pairs[i].0.before(*a) {
                            assert(pairs[mid as int].before(pairs[i]));
                            if pairs[mid as int].0.before(pairs[i].0) {
                                A::transitive(pairs[mid as int].0, pairs[i].0, *a);
                            }
                        }
                    }
                }
                hi = mid;
            }
        }
        let ghost start = lo as int;
        let mut result: Vec<B> = Vec::new();
        let mut at: usize = lo;
        while at < count
            invariant_except_break
                start <= at <= count,
                count == pairs.len(),
                pairs == self.pairs.seq(),
                ascending(pairs),
                forall|i: int| start <= i < pairs.len() ==> !(#[trigger] pairs[i]).0.before(*a),
                forall|i: int| start <= i < at ==> (#[trigger] pairs[i]).0 == *a,
                result@.len() == at - start,
                forall|i: int|
                    0 <= i < result@.len() ==> #[trigger] result@[i] == pairs[start + i].1,
            ensures
                start <= at <= count,
                at < count ==> a.before(pairs[at as int].0),
                forall|i: int| start <= i < at ==> (#[trigger] pairs[i]).0 == *a,
                result@.len() == at - start,
                forall|i: int|
                    0 <= i < result@.len() ==> #[trigger] result@[i] == pairs[start + i].1,
            decreases count - at,
        {
            let (first, second) = self.pairs.at(at);
            if a.is_before(&first) {
                break ;
            }
            proof {
                A::connected(pairs[at as int].0, *a);
            }
            result.push(second);
            at += 1;
        }
        proof {
            let all = self@;
            assert forall|i: int, j: int| 0 <= i < j < result@.len() implies
                #[trigger] result@[i].before(#[trigger] result@[j]) by {
                assert(pairs[start + i].before(pairs[start + j]));
                A::irreflexive(*a);
            }
            assert forall|b: B| result@.to_set().contains(b) == image(all, *a).contains(b) by {
                if result@.contains(b) {
                    let i = choose|i: int| 0 <= i < result@.len() && result@[i] == b;
                    assert(pairs[start + i] == (*a, b));
                    assert(pairs.to_set().contains(pairs[start + i]));
                }
                if image(all, *a).contains(b) {
                    assert(pairs.to_set().contains((*a, b)));
                    let i = choose|i: int| 0 <= i < pairs.len() && pairs[i] == (*a, b);
                    A::irreflexive(*a);
                    if i < start {
                        assert(pairs[i].0.before(*a));
                    }
                    if i >= at {
                        assert(a.before(pairs[at as int].0));
                        if i > at {
                            assert(pairs[at as int].before(pairs[i]));
                            if pairs[at as int].0.before(pairs[i].0) {
                                A::transitive(*a, pairs[at as int].0, pairs[i].0);
                            }
                        }
                    }
                    assert(result@[i - start] == b);
                }
            }
            assert(result@.to_set() =~= image(all, *a));
            lemma_in_order(result@);
            lemma_ascending_distinct(result@);
        }
        result
    }

    /// Whether `a` is related to anything.
    pub fn has(&self, a: &A) -> (result: bool)
        ensures
            result == exists|b: B| self@.contains((*a, b)),
    {
        let found = self.image(a);
        proof {
            if found@.len() > 0 {
                assert(found@.to_set().contains(found@[0]));
                assert(self@.contains((*a, found@[0])));
            } else {
                assert forall|b: B| !self@.contains((*a, b)) by {
                    if self@.contains((*a, b)) {
                        assert(image(self@, *a).contains(b));
                        assert(found@.to_set().contains(b));
                    }
                }
            }
        }
        found.len() > 0
    }

    /// Removes every pair that starts with `a` and hands back what `a` was
    /// related to, in order.
    pub fn take(&mut self, a: &A) -> (result: Vec<B>)
        ensures
            final(self)@ == without(old(self)@, *a),
            result@.to_set() == image(old(self)@, *a),
            ascending(result@),
            result@ == in_order(image(old(self)@, *a)),
            result@.no_duplicates(),
    {
        let result = self.image(a);
        let ghost all = self@;
        let mut i: usize = 0;
        while i < result.len()
            invariant
                i <= result@.len(),
                result@.to_set() == image(all, *a),
                result@.no_duplicates(),
                forall|p: (A, B)|
                    #[trigger] self@.contains(p) <==> all.contains(p) && !(p.0 == *a
                        && result@.take(i as int).contains(p.1)),
            decreases result@.len() - i,
        {
            let ghost before = self@;
            let ghost now = result@[i as int];
            proof {
                lemma_take_contains(result@, i as int);
            }
            self.pairs.remove(&(a.dup(), result[i].dup()));
            i += 1;
        }
        proof {
            assert(result@.take(result@.len() as int) =~= result@);
            assert forall|p: (A, B)| self@.contains(p) == without(all, *a).contains(p) by {
                if all.contains(p) && p.0 == *a {
                    assert(image(all, *a).contains(p.1));
                    assert(result@.to_set().contains(p.1));
                }
            }
            assert(self@ =~= without(all, *a));
        }
        result
    }

    /// Keeps the pairs for which `keep` holds.
    pub fn retain<F: Fn(&(A, B)) -> bool>(
        &mut self,
        keep: F,
        Ghost(p): Ghost<spec_fn((A, B)) -> bool>,
    )
        requires
            forall|k: (A, B)| #[trigger] keep.requires((&k,)),
            forall|k: (A, B), b: bool| #[trigger] keep.ensures((&k,), b) ==> b == p(k),
        ensures
            final(self)@ == keep_in(old(self)@, p),
    {
        self.pairs.retain(keep, Ghost(p));
    }
}

/// Broadcast facts on the walks of the collections.
pub broadcast group group_ordered {
    OrdMap::lemma_key_seq,
    OrdSet::lemma_seq,
}

/// Adds all of `keys` to a set.
pub(crate) fn insert_all<K: Key>(set: &mut OrdSet<K>, keys: &Vec<K>)
    ensures
        final(set)@ == old(set)@.union(keys@.to_set()),
{
    let ghost before = set@;
    let mut i: usize = 0;
    while i < keys.len()
        invariant
            i <= keys@.len(),
            set@ == before.union(keys@.take(i as int).to_set()),
        decreases keys@.len() - i,
    {
        proof {
            lemma_take_contains(keys@, i as int);
        }
        set.insert(keys[i].dup());
        i += 1;
    }
    proof {
        assert(keys@.take(keys@.len() as int) =~= keys@);
    }
}

} // verus!
