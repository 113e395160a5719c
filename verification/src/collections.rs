//! Small keyed collections kept in insertion order: sets of keys and
//! per-key counts.

use vstd::prelude::*;
use crate::cardcode::Code;

verus! {

/// A key that can be compared and copied by its value.
pub trait Key: View + Sized {
    fn key_eq(&self, other: &Self) -> (res: bool)
        ensures
            res == (self@ == other@);

    fn key_clone(&self) -> (res: Self)
        ensures
            res@ == self@;
}

impl Key for String {
    fn key_eq(&self, other: &Self) -> (res: bool) {
        *self == *other
    }

    fn key_clone(&self) -> (res: Self) {
        self.clone()
    }
}

impl View for Code {
    type V = Code;

    open spec fn view(&self) -> Code {
        *self
    }
}

impl Key for Code {
    fn key_eq(&self, other: &Self) -> (res: bool) {
        self.number == other.number && self.letter == other.letter
    }

    fn key_clone(&self) -> (res: Self) {
        *self
    }
}

/// The count of `k` among counted pairs (0 when absent).
pub open spec fn count_in<V>(ps: Seq<(V, int)>, k: V) -> int {
    if exists|i: int| 0 <= i < ps.len() && (#[trigger] ps[i]).0 == k {
        ps[choose|i: int| 0 <= i < ps.len() && (#[trigger] ps[i]).0 == k].1
    } else {
        0
    }
}

/// No key occurs twice.
pub open spec fn distinct_keys<V>(ps: Seq<(V, int)>) -> bool {
    forall|i: int, j: int| 0 <= i < ps.len() && 0 <= j < ps.len() && i != j ==> (#[trigger] ps[i]).0 != (#[trigger] ps[j]).0
}

/// The pairs after counting `k` once more: its count goes up by one, or
/// it is appended with count 1.
pub open spec fn bump<V>(ps: Seq<(V, int)>, k: V) -> Seq<(V, int)> {
    if exists|i: int| 0 <= i < ps.len() && (#[trigger] ps[i]).0 == k {
        let i = choose|i: int| 0 <= i < ps.len() && (#[trigger] ps[i]).0 == k;
        ps.update(i, (k, ps[i].1 + 1))
    } else {
        ps.push((k, 1))
    }
}

/// Counting once more changes only the count of that key, by one.
pub proof fn lemma_bump<V>(ps: Seq<(V, int)>, k: V, other: V)
    requires
        distinct_keys(ps),
    ensures
        distinct_keys(bump(ps, k)),
        count_in(bump(ps, k), k) == count_in(ps, k) + 1,
        other != k ==> count_in(bump(ps, k), other) == count_in(ps, other),
{
    let r = bump(ps, k);
    if exists|i: int| 0 <= i < ps.len() && (#[trigger] ps[i]).0 == k {
        let i = choose|i: int| 0 <= i < ps.len() && (#[trigger] ps[i]).0 == k;
        assert(r[i].0 == k);
        assert(forall|j: int| 0 <= j < r.len() && j != i ==> r[j] == ps[j]);
        assert(distinct_keys(r)) by {
            assert forall|a: int, b: int| 0 <= a < r.len() && 0 <= b < r.len() && a != b implies (#[trigger] r[a]).0 != (#[trigger] r[b]).0 by {
                assert(r[a].0 == ps[a].0);
                assert(r[b].0 == ps[b].0);
            }
        }
        if other != k {
            if exists|j: int| 0 <= j < ps.len() && (#[trigger] ps[j]).0 == other {
                let j = choose|j: int| 0 <= j < ps.len() && (#[trigger] ps[j]).0 == other;
                assert(r[j] == ps[j]);
            } else {
                assert forall|j: int| 0 <= j < r.len() implies (#[trigger] r[j]).0 != other by {
                    if j != i {
                        assert(r[j] == ps[j]);
                    }
                }
            }
        }
    } else {
        assert(r[ps.len() as int] == (k, 1int));
        assert(distinct_keys(r)) by {
            assert forall|a: int, b: int| 0 <= a < r.len() && 0 <= b < r.len() && a != b implies (#[trigger] r[a]).0 != (#[trigger] r[b]).0 by {
                if a < ps.len() {
                    assert(r[a] == ps[a]);
                }
                if b < ps.len() {
                    assert(r[b] == ps[b]);
                }
            }
        }
        if other != k {
            if exists|j: int| 0 <= j < ps.len() && (#[trigger] ps[j]).0 == other {
                let j = choose|j: int| 0 <= j < ps.len() && (#[trigger] ps[j]).0 == other;
                assert(r[j] == ps[j]);
            } else {
                assert forall|j: int| 0 <= j < r.len() implies (#[trigger] r[j]).0 != other by {
                    if j < ps.len() {
                        assert(r[j] == ps[j]);
                    }
                }
            }
        }
    }
}

/// Counts per key, in the order the keys were first counted.
pub struct Tally<K: Key> {
    entries: Vec<(K, i64)>,
}

impl<K: Key> Tally<K> {
    /// The keys with their counts, in insertion order.
    pub closed spec fn pairs(&self) -> Seq<(K::V, int)> {
        self.entries@.map_values(|e: (K, i64)| (e.0@, e.1 as int))
    }

    /// The count of `k` (0 when it was never counted).
    pub open spec fn count(&self, k: K::V) -> int {
        count_in(self.pairs(), k)
    }

    pub open spec fn wf(&self) -> bool {
        &&& distinct_keys(self.pairs())
        &&& forall|i: int| 0 <= i < self.pairs().len() ==> (#[trigger] self.pairs()[i]).1 >= 1
    }

    /// No counts.
    pub fn new() -> (res: Self)
        ensures
            res.wf(),
            res.pairs() == Seq::<(K::V, int)>::empty(),
    {
        let res = Tally { entries: Vec::new() };
        assert(res.pairs() =~= Seq::<(K::V, int)>::empty());
        res
    }

    /// Counts `k` once more.
    pub fn increment(&mut self, k: K)
        requires
            old(self).wf(),
            old(self).count(k@) < i64::MAX,
        ensures
            final(self).wf(),
            final(self).pairs() == bump(old(self).pairs(), k@),
    {
        let ghost ps = self.pairs();
        let mut i: usize = 0;
        while i < self.entries.len()
            invariant
                i <= self.entries@.len(),
                self.pairs() == ps,
                ps == old(self).pairs(),
                distinct_keys(ps),
                forall|j: int| 0 <= j < ps.len() ==> (#[trigger] ps[j]).1 >= 1,
                count_in(ps, k@) < i64::MAX,
                forall|j: int| 0 <= j < i ==> (#[trigger] ps[j]).0 != k@,
            decreases self.entries@.len() - i,
        {
            assert(ps[i as int] == (self.entries@[i as int].0@, self.entries@[i as int].1 as int));
            if self.entries[i].0.key_eq(&k) {
                proof {
                    assert(exists|j: int| 0 <= j < ps.len() && (#[trigger] ps[j]).0 == k@);
                    let j = choose|j: int| 0 <= j < ps.len() && (#[trigger] ps[j]).0 == k@;
                    assert(j == i);
                }
                let c: i64 = self.entries[i].1;
                let entry = &mut self.entries[i];
                entry.1 = c + 1;
                assert(self.pairs() =~= ps.update(i as int, (k@, ps[i as int].1 + 1)));
                assert(forall|j: int| 0 <= j < self.pairs().len() ==> (#[trigger] self.pairs()[j]).1 >= 1);
                return;
            }
            i = i + 1;
        }
        self.entries.push((k, 1));
        assert(self.pairs() =~= ps.push((k@, 1)));
    }

    /// The count of `k`.
    pub fn get(&self, k: &K) -> (res: i64)
        requires
            self.wf(),
        ensures
            res == self.count(k@),
    {
        let ghost ps = self.pairs();
        let mut i: usize = 0;
        while i < self.entries.len()
            invariant
                i <= self.entries@.len(),
                self.pairs() == ps,
                distinct_keys(ps),
                forall|j: int| 0 <= j < i ==> (#[trigger] ps[j]).0 != k@,
            decreases self.entries@.len() - i,
        {
            assert(ps[i as int] == (self.entries@[i as int].0@, self.entries@[i as int].1 as int));
            if self.entries[i].0.key_eq(k) {
                proof {
                    assert(exists|j: int| 0 <= j < ps.len() && (#[trigger] ps[j]).0 == k@);
                    let j = choose|j: int| 0 <= j < ps.len() && (#[trigger] ps[j]).0 == k@;
                    assert(j == i);
                }
                return self.entries[i].1;
            }
            i = i + 1;
        }
        0
    }

    /// Copies of the keys with their counts, in insertion order.
    pub fn to_vec(&self) -> (res: Vec<(K, i64)>)
        ensures
            res@.map_values(|e: (K, i64)| (e.0@, e.1 as int)) == self.pairs(),
    {
        let mut res: Vec<(K, i64)> = Vec::new();
        let mut i: usize = 0;
        while i < self.entries.len()
            invariant
                i <= self.entries@.len(),
                res@.map_values(|e: (K, i64)| (e.0@, e.1 as int)) == self.pairs().take(i as int),
            decreases self.entries@.len() - i,
        {
            let k = self.entries[i].0.key_clone();
            let ghost before = res@;
            res.push((k, self.entries[i].1));
            assert(self.pairs()[i as int] == (self.entries@[i as int].0@, self.entries@[i as int].1 as int));
            assert(res@.map_values(|e: (K, i64)| (e.0@, e.1 as int)) =~= before.map_values(|e: (K, i64)| (e.0@, e.1 as int)).push(self.pairs()[i as int]));
            assert(res@.map_values(|e: (K, i64)| (e.0@, e.1 as int)) =~= self.pairs().take(i + 1));
            i = i + 1;
        }
        assert(self.pairs().take(self.entries@.len() as int) =~= self.pairs());
        res
    }
}

/// A set of keys kept in insertion order.
pub struct KeySet<K: Key> {
    items: Vec<K>,
}

impl<K: Key> KeySet<K> {
    /// The keys, in insertion order.
    pub closed spec fn keys(&self) -> Seq<K::V> {
        self.items@.map_values(|e: K| e@)
    }

    pub open spec fn wf(&self) -> bool {
        self.keys().no_duplicates()
    }

    /// The keys as a set.
    pub open spec fn set(&self) -> Set<K::V> {
        self.keys().to_set()
    }

    /// No keys.
    pub fn new() -> (res: Self)
        ensures
            res.wf(),
            res.keys() == Seq::<K::V>::empty(),
    {
        let res = KeySet { items: Vec::new() };
        assert(res.keys() =~= Seq::<K::V>::empty());
        res
    }

    /// Whether `k` is in the set.
    pub fn contains(&self, k: &K) -> (res: bool)
        ensures
            res == self.keys().contains(k@),
    {
        let mut i: usize = 0;
        while i < self.items.len()
            invariant
                i <= self.items@.len(),
                forall|j: int| 0 <= j < i ==> (#[trigger] self.keys()[j]) != k@,
            decreases self.items@.len() - i,
        {
            assert(self.keys()[i as int] == self.items@[i as int]@);
            if self.items[i].key_eq(k) {
                return true;
            }
            i = i + 1;
        }
        false
    }

    /// Adds `k` at the end unless it is already there; says whether it was added.
    pub fn insert(&mut self, k: K) -> (added: bool)
        requires
            old(self).wf(),
        ensures
            final(self).wf(),
            added == !old(self).keys().contains(k@),
            final(self).keys() == if added { old(self).keys().push(k@) } else { old(self).keys() },
    {
        if self.contains(&k) {
            false
        } else {
            let ghost before = self.keys();
            self.items.push(k);
            assert(self.keys() =~= before.push(k@));
            true
        }
    }

    /// Copies of the keys, in order.
    pub fn to_vec(&self) -> (res: Vec<K>)
        ensures
            res@.map_values(|e: K| e@) == self.keys(),
    {
        let mut res: Vec<K> = Vec::new();
        let mut i: usize = 0;
        while i < self.items.len()
            invariant
                i <= self.items@.len(),
                res@.map_values(|e: K| e@) == self.keys().take(i as int),
            decreases self.items@.len() - i,
        {
            let k = self.items[i].key_clone();
            let ghost before = res@;
            res.push(k);
            assert(res@.map_values(|e: K| e@) =~= before.map_values(|e: K| e@).push(self.keys()[i as int]));
            assert(res@.map_values(|e: K| e@) =~= self.keys().take(i + 1));
            i = i + 1;
        }
        assert(self.keys().take(self.items@.len() as int) =~= self.keys());
        res
    }

    /// The number of keys.
    pub fn len(&self) -> (res: usize)
        ensures
            res == self.keys().len(),
    {
        self.items.len()
    }

    /// The key at position `i`.
    pub fn get(&self, i: usize) -> (res: &K)
        requires
            i < self.keys().len(),
        ensures
            res@ == self.keys()[i as int],
    {
        &self.items[i]
    }
}

/// Index of the first element of `s` that satisfies `p`, or -1.
pub open spec fn first_where<T>(s: Seq<T>, p: spec_fn(T) -> bool) -> int
    decreases s.len(),
{
    if s.len() == 0 {
        -1
    } else if p(s[0]) {
        0
    } else {
        let r = first_where(s.drop_first(), p);
        if r < 0 {
            -1
        } else {
            r + 1
        }
    }
}

pub proof fn lemma_first_where<T>(s: Seq<T>, p: spec_fn(T) -> bool)
    ensures
        -1 <= first_where(s, p) < s.len(),
        first_where(s, p) >= 0 ==> p(s[first_where(s, p)]),
        forall|j: int| 0 <= j < s.len() && (first_where(s, p) < 0 || j < first_where(s, p)) ==> !p(#[trigger] s[j]),
    decreases s.len(),
{
    if s.len() > 0 {
        lemma_first_where(s.drop_first(), p);
        assert forall|j: int| 0 <= j < s.len() && (first_where(s, p) < 0 || j < first_where(s, p)) implies !p(#[trigger] s[j]) by {
            if j > 0 {
                assert(s.drop_first()[j - 1] == s[j]);
            }
        }
    }
}

/// Two sequences on which `p` agrees index by index have the same first match.
pub proof fn lemma_first_where_same<T, U>(s: Seq<T>, p: spec_fn(T) -> bool, t: Seq<U>, q: spec_fn(U) -> bool)
    requires
        s.len() == t.len(),
        forall|j: int| 0 <= j < s.len() ==> p(#[trigger] s[j]) == q(t[j]),
    ensures
        first_where(s, p) == first_where(t, q),
    decreases s.len(),
{
    if s.len() > 0 {
        assert(p(s[0]) == q(t[0]));
        assert forall|j: int| 0 <= j < s.drop_first().len() implies p(#[trigger] s.drop_first()[j]) == q(t.drop_first()[j]) by {
            assert(p(s[j + 1]) == q(t[j + 1]));
        }
        lemma_first_where_same(s.drop_first(), p, t.drop_first(), q);
    }
}

/// Appending keeps an existing first match, and is found when nothing before matched.
pub proof fn lemma_first_where_push<T>(s: Seq<T>, p: spec_fn(T) -> bool, x: T)
    ensures
        first_where(s, p) >= 0 ==> first_where(s.push(x), p) == first_where(s, p),
        first_where(s, p) < 0 && p(x) ==> first_where(s.push(x), p) == s.len(),
        first_where(s, p) < 0 && !p(x) ==> first_where(s.push(x), p) < 0,
{
    lemma_first_where(s, p);
    lemma_first_where(s.push(x), p);
    let r = first_where(s.push(x), p);
    if first_where(s, p) >= 0 {
        let i = first_where(s, p);
        assert(s.push(x)[i] == s[i]);
        assert forall|j: int| 0 <= j < i implies !p(#[trigger] s.push(x)[j]) by {
            assert(s.push(x)[j] == s[j]);
        }
        lemma_first_where_at(s.push(x), p, i);
    } else {
        assert forall|j: int| 0 <= j < s.len() implies !p(#[trigger] s.push(x)[j]) by {
            assert(s.push(x)[j] == s[j]);
        }
        if p(x) {
            lemma_first_where_at(s.push(x), p, s.len() as int);
        } else {
            assert forall|j: int| 0 <= j < s.push(x).len() implies !p(#[trigger] s.push(x)[j]) by {
                if j < s.len() {
                    assert(s.push(x)[j] == s[j]);
                }
            }
            lemma_first_where_none(s.push(x), p);
        }
    }
}

/// `i` is where `first_where` stops.
pub proof fn lemma_first_where_at<T>(s: Seq<T>, p: spec_fn(T) -> bool, i: int)
    requires
        0 <= i < s.len(),
        p(s[i]),
        forall|j: int| 0 <= j < i ==> !p(#[trigger] s[j]),
    ensures
        first_where(s, p) == i,
{
    lemma_first_where(s, p);
}

/// No element of `s` satisfies `p`.
pub proof fn lemma_first_where_none<T>(s: Seq<T>, p: spec_fn(T) -> bool)
    requires
        forall|j: int| 0 <= j < s.len() ==> !p(#[trigger] s[j]),
    ensures
        first_where(s, p) == -1,
{
    lemma_first_where(s, p);
}

/// A copy of a vector of plain values.
pub fn copy_values<T: Copy>(v: &Vec<T>) -> (res: Vec<T>)
    ensures
        res@ == v@,
{
    let mut r: Vec<T> = Vec::new();
    let mut i: usize = 0;
    while i < v.len()
        invariant
            i <= v@.len(),
            r@ == v@.take(i as int),
        decreases v@.len() - i,
    {
        r.push(v[i]);
        proof { assert(v@.take(i + 1) =~= v@.take(i as int).push(v@[i as int])); }
        i = i + 1;
    }
    proof { assert(v@.take(i as int) =~= v@); }
    r
}

} // verus!
