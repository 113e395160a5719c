//! Counting names to find those that occur exactly once.

use vstd::prelude::*;

verus! {

/// One counted name: the name, the value it was first added with, and
/// whether it has been added only once so far.
pub type CounterEntry<V> = (Seq<char>, V, bool);

/// What adding `name` with `val` does to the entries: a name seen before
/// loses its uniqueness, a new one is appended as unique.
pub open spec fn add_entry<V>(es: Seq<CounterEntry<V>>, name: Seq<char>, val: V) -> Seq<CounterEntry<V>> {
    if exists|i: int| 0 <= i < es.len() && (#[trigger] es[i]).0 == name {
        let i = choose|i: int| 0 <= i < es.len() && (#[trigger] es[i]).0 == name;
        es.update(i, (name, es[i].1, false))
    } else {
        es.push((name, val, true))
    }
}

/// The entries after adding every pair of `adds`, in order, to an empty counter.
pub open spec fn add_all<V>(adds: Seq<(Seq<char>, V)>) -> Seq<CounterEntry<V>>
    decreases adds.len(),
{
    if adds.len() == 0 {
        Seq::empty()
    } else {
        add_entry(add_all(adds.drop_last()), adds.last().0, adds.last().1)
    }
}

/// No name occurs twice among the entries.
pub open spec fn distinct_names<V>(es: Seq<CounterEntry<V>>) -> bool {
    forall|i: int, j: int| 0 <= i < es.len() && 0 <= j < es.len() && i != j ==> (#[trigger] es[i]).0 != (#[trigger] es[j]).0
}

/// `name` is among the entries, marked unique.
pub open spec fn unique_in<V>(es: Seq<CounterEntry<V>>, name: Seq<char>) -> bool {
    exists|i: int| 0 <= i < es.len() && (#[trigger] es[i]).0 == name && es[i].2
}

/// How many of the added pairs carry `name`.
pub open spec fn times_added<V>(adds: Seq<(Seq<char>, V)>, name: Seq<char>) -> nat
    decreases adds.len(),
{
    if adds.len() == 0 {
        0
    } else {
        times_added(adds.drop_last(), name) + if adds.last().0 == name { 1nat } else { 0nat }
    }
}

/// The entries marked unique, in the order their names were first added.
pub open spec fn unique_entries<V>(es: Seq<CounterEntry<V>>) -> Seq<CounterEntry<V>> {
    es.filter(|e: CounterEntry<V>| e.2)
}

/// The values of the unique entries, in the order their names were first added.
pub open spec fn unique_values<V>(es: Seq<CounterEntry<V>>) -> Seq<V> {
    unique_entries(es).map_values(|e: CounterEntry<V>| e.1)
}

/// Counts names; remembers for each the value it was first added with.
pub struct Counter<V: Copy> {
    inner: Vec<(String, V, bool)>,
}

impl<V: Copy> Counter<V> {
    /// The counted names, in the order they were first added.
    pub closed spec fn entries(&self) -> Seq<CounterEntry<V>> {
        self.inner@.map_values(|e: (String, V, bool)| (e.0@, e.1, e.2))
    }

    pub closed spec fn wf(&self) -> bool {
        distinct_names(self.entries())
    }

    /// An empty counter.
    pub fn new() -> (res: Counter<V>)
        ensures
            res.wf(),
            res.entries() == Seq::<CounterEntry<V>>::empty(),
    {
        let res = Counter { inner: Vec::new() };
        assert(res.entries() =~= Seq::<CounterEntry<V>>::empty());
        res
    }

    /// Counts `name` once more; `val` is kept only when the name is new.
    pub fn add(&mut self, name: String, val: V)
        requires
            old(self).wf(),
        ensures
            final(self).wf(),
            final(self).entries() == add_entry(old(self).entries(), name@, val),
    {
        let ghost es = self.entries();
        let mut i: usize = 0;
        while i < self.inner.len()
            invariant
                i <= self.inner@.len(),
                self.entries() == es,
                es == old(self).entries(),
                distinct_names(es),
                forall|j: int| 0 <= j < i ==> (#[trigger] es[j]).0 != name@,
            decreases self.inner@.len() - i,
        {
            assert(es[i as int].0 == self.inner@[i as int].0@);
            if self.inner[i].0 == name {
                let n: String = self.inner[i].0.clone();
                let v: V = self.inner[i].1;
                self.inner.set(i, (n, v, false));
                proof {
                    assert(es[i as int].0 == name@);
                    assert(exists|k: int| 0 <= k < es.len() && (#[trigger] es[k]).0 == name@);
                    let k = choose|k: int| 0 <= k < es.len() && (#[trigger] es[k]).0 == name@;
                    assert(k == i);
                    assert(es == old(self).entries());
                    assert(add_entry(es, name@, val) == es.update(i as int, (name@, es[i as int].1, false)));
                    assert(self.entries() =~= es.update(i as int, (name@, es[i as int].1, false)));
                }
                return;
            }
            i = i + 1;
        }
        self.inner.push((name, val, true));
        assert(self.entries() =~= es.push((name@, val, true)));
    }

    /// The values of the names added exactly once, in the order the names
    /// were first added.
    pub fn unique(&self) -> (res: Vec<V>)
        ensures
            res@ == unique_values(self.entries()),
    {
        let mut res: Vec<V> = Vec::new();
        let mut i: usize = 0;
        while i < self.inner.len()
            invariant
                i <= self.inner@.len(),
                res@ == unique_values(self.entries().take(i as int)),
            decreases self.inner@.len() - i,
        {
            let ghost pre = self.entries().take(i as int);
            let ghost e = self.entries()[i as int];
            proof {
                assert(self.entries().take(i + 1) =~= pre.push(e));
                assert(pre.push(e).filter(|e: CounterEntry<V>| e.2) =~= if e.2 { pre.filter(|e: CounterEntry<V>| e.2).push(e) } else { pre.filter(|e: CounterEntry<V>| e.2) }) by {
                    pre.lemma_filter_len_push(|e: CounterEntry<V>| e.2, e);
                    reveal(Seq::filter);
                    assert(pre.push(e).drop_last() =~= pre);
                }
            }
            if self.inner[i].2 {
                res.push(self.inner[i].1);
                assert(res@ =~= unique_values(self.entries().take(i + 1)));
            } else {
                assert(res@ =~= unique_values(self.entries().take(i + 1)));
            }
            i = i + 1;
        }
        assert(self.entries().take(self.inner@.len() as int) =~= self.entries());
        res
    }

    /// Whether `key` has been added exactly once.
    pub fn is_unique(&self, key: &String) -> (res: bool)
        requires
            self.wf(),
        ensures
            res == unique_in(self.entries(), key@),
    {
        let mut i: usize = 0;
        while i < self.inner.len()
            invariant
                i <= self.inner@.len(),
                distinct_names(self.entries()),
                forall|j: int| 0 <= j < i ==> (#[trigger] self.entries()[j]).0 != key@,
            decreases self.inner@.len() - i,
        {
            assert(self.entries()[i as int].0 == self.inner@[i as int].0@);
            if self.inner[i].0 == *key {
                return self.inner[i].2;
            }
            i = i + 1;
        }
        false
    }
}

/// Adding keeps names distinct.
pub proof fn lemma_add_entry_distinct<V>(es: Seq<CounterEntry<V>>, name: Seq<char>, val: V)
    requires
        distinct_names(es),
    ensures
        distinct_names(add_entry(es, name, val)),
{
    let r = add_entry(es, name, val);
    if exists|i: int| 0 <= i < es.len() && (#[trigger] es[i]).0 == name {
        let k = choose|i: int| 0 <= i < es.len() && (#[trigger] es[i]).0 == name;
        assert forall|i: int, j: int| 0 <= i < r.len() && 0 <= j < r.len() && i != j implies (#[trigger] r[i]).0 != (#[trigger] r[j]).0 by {
            assert(es[i].0 == r[i].0);
            assert(es[j].0 == r[j].0);
        }
    }
}

/// A name is unique in a counter exactly when it was added exactly once,
/// and then the counter holds the value it was added with.
pub proof fn lemma_unique_iff_added_once<V>(adds: Seq<(Seq<char>, V)>, name: Seq<char>)
    ensures
        distinct_names(add_all(adds)),
        unique_in(add_all(adds), name) <==> times_added(adds, name) == 1,
        times_added(adds, name) == 0 <==> !(exists|i: int| 0 <= i < add_all(adds).len() && (#[trigger] add_all(adds)[i]).0 == name),
        times_added(adds, name) == 1 ==> (exists|i: int| 0 <= i < adds.len() && (#[trigger] adds[i]).0 == name &&
            (exists|j: int| 0 <= j < add_all(adds).len() && (#[trigger] add_all(adds)[j]) == (name, adds[i].1, true))),
    decreases adds.len(),
{
    if adds.len() > 0 {
        let pre = adds.drop_last();
        let es = add_all(pre);
        let (n, v) = adds.last();
        lemma_unique_iff_added_once(pre, name);
        lemma_add_entry_distinct(es, n, v);
        let r = add_all(adds);
        assert(r == add_entry(es, n, v));
        if exists|i: int| 0 <= i < es.len() && (#[trigger] es[i]).0 == n {
            let k = choose|i: int| 0 <= i < es.len() && (#[trigger] es[i]).0 == n;
            assert(r == es.update(k, (n, es[k].1, false)));
            if n == name {
                assert(!unique_in(r, name));
            } else {
                assert(unique_in(r, name) <==> unique_in(es, name)) by {
                    if unique_in(es, name) {
                        let i = choose|i: int| 0 <= i < es.len() && (#[trigger] es[i]).0 == name && es[i].2;
                        assert(r[i] == es[i]);
                    }
                    if unique_in(r, name) {
                        let i = choose|i: int| 0 <= i < r.len() && (#[trigger] r[i]).0 == name && r[i].2;
                        assert(r[i] == es[i]);
                    }
                }
                assert((exists|i: int| 0 <= i < r.len() && (#[trigger] r[i]).0 == name) <==>
                    (exists|i: int| 0 <= i < es.len() && (#[trigger] es[i]).0 == name)) by {
                    if exists|i: int| 0 <= i < es.len() && (#[trigger] es[i]).0 == name {
                        let i = choose|i: int| 0 <= i < es.len() && (#[trigger] es[i]).0 == name;
                        assert(r[i].0 == name);
                    }
                }
                if times_added(adds, name) == 1 {
                    let i = choose|i: int| 0 <= i < pre.len() && (#[trigger] pre[i]).0 == name &&
                        (exists|j: int| 0 <= j < es.len() && (#[trigger] es[j]) == (name, pre[i].1, true));
                    let j = choose|j: int| 0 <= j < es.len() && (#[trigger] es[j]) == (name, pre[i].1, true);
                    assert(adds[i] == pre[i]);
                    assert(r[j] == es[j]);
                }
            }
        } else {
            assert(r == es.push((n, v, true)));
            if n == name {
                assert(times_added(pre, name) == 0);
                assert(r[es.len() as int] == (name, v, true));
                assert(adds[adds.len() - 1] == (n, v));
                assert(unique_in(r, name));
            } else {
                assert(unique_in(r, name) <==> unique_in(es, name)) by {
                    if unique_in(r, name) {
                        let i = choose|i: int| 0 <= i < r.len() && (#[trigger] r[i]).0 == name && r[i].2;
                        assert(r[i] == es[i]);
                    }
                    if unique_in(es, name) {
                        let i = choose|i: int| 0 <= i < es.len() && (#[trigger] es[i]).0 == name && es[i].2;
                        assert(r[i] == es[i]);
                    }
                }
                assert((exists|i: int| 0 <= i < r.len() && (#[trigger] r[i]).0 == name) <==>
                    (exists|i: int| 0 <= i < es.len() && (#[trigger] es[i]).0 == name)) by {
                    if exists|i: int| 0 <= i < es.len() && (#[trigger] es[i]).0 == name {
                        let i = choose|i: int| 0 <= i < es.len() && (#[trigger] es[i]).0 == name;
                        assert(r[i].0 == name);
                    }
                    if exists|i: int| 0 <= i < r.len() && (#[trigger] r[i]).0 == name {
                        let i = choose|i: int| 0 <= i < r.len() && (#[trigger] r[i]).0 == name;
                        assert(r[i] == es[i]);
                    }
                }
                if times_added(adds, name) == 1 {
                    let i = choose|i: int| 0 <= i < pre.len() && (#[trigger] pre[i]).0 == name &&
                        (exists|j: int| 0 <= j < es.len() && (#[trigger] es[j]) == (name, pre[i].1, true));
                    let j = choose|j: int| 0 <= j < es.len() && (#[trigger] es[j]) == (name, pre[i].1, true);
                    assert(adds[i] == pre[i]);
                    assert(r[j] == es[j]);
                }
            }
        }
    }
}

proof fn lemma_add_entry_value<V>(es: Seq<CounterEntry<V>>, name: Seq<char>, val: V, idx: int)
    requires
        0 <= idx < add_entry(es, name, val).len(),
    ensures
        idx < es.len() ==> add_entry(es, name, val)[idx].1 == es[idx].1,
        idx >= es.len() ==> add_entry(es, name, val)[idx].1 == val,
{
    let r = add_entry(es, name, val);
    if exists|i: int| 0 <= i < es.len() && (#[trigger] es[i]).0 == name {
        let k = choose|i: int| 0 <= i < es.len() && (#[trigger] es[i]).0 == name;
        assert(r.len() == es.len());
        if idx < es.len() {
            assert(r[idx].1 == es[idx].1);
        }
    }
}

/// Every value held by the counter is the value of some added pair.
pub proof fn lemma_add_all_values<V>(adds: Seq<(Seq<char>, V)>, idx: int)
    requires
        0 <= idx < add_all(adds).len(),
    ensures
        exists|j: int| 0 <= j < adds.len() && (#[trigger] adds[j]).1 == add_all(adds)[idx].1,
    decreases adds.len(),
{
    assert(adds.len() > 0);
    let pre = adds.drop_last();
    let es = add_all(pre);
    let (n, v) = adds.last();
    let r = add_all(adds);
    assert(r == add_entry(es, n, v));
    lemma_add_entry_value(es, n, v, idx);
    if idx < es.len() {
        lemma_add_all_values(pre, idx);
        let j = choose|j: int| 0 <= j < pre.len() && (#[trigger] pre[j]).1 == es[idx].1;
        assert(adds[j] == pre[j]);
    } else {
        assert(adds[adds.len() - 1].1 == r[idx].1);
    }
}

/// Every unique value is the value of some added pair.
pub proof fn lemma_unique_value_added<V>(adds: Seq<(Seq<char>, V)>, m: int)
    requires
        0 <= m < unique_values(add_all(adds)).len(),
    ensures
        exists|j: int| 0 <= j < adds.len() && (#[trigger] adds[j]).1 == unique_values(add_all(adds))[m],
{
    let es = add_all(adds);
    let p = |e: CounterEntry<V>| e.2;
    let fs = es.filter(p);
    let e = fs[m];
    assert(fs.contains(e));
    es.lemma_filter_contains_rev(p, e);
    let i = choose|i: int| 0 <= i < es.len() && es[i] == e;
    lemma_add_all_values(adds, i);
}

proof fn lemma_filter_distinct<V>(es: Seq<CounterEntry<V>>, p: spec_fn(CounterEntry<V>) -> bool)
    requires
        distinct_names(es),
    ensures
        distinct_names(es.filter(p)),
    decreases es.len(),
{
    if es.len() > 0 {
        let r = es.drop_last();
        let x = es.last();
        assert(es =~= r.push(x));
        assert(distinct_names(r)) by {
            assert forall|i: int, j: int| 0 <= i < r.len() && 0 <= j < r.len() && i != j implies (#[trigger] r[i]).0 != (#[trigger] r[j]).0 by {
                assert(r[i] == es[i] && r[j] == es[j]);
            }
        }
        lemma_filter_distinct(r, p);
        r.lemma_filter_push(x, p);
        if p(x) {
            let f = r.filter(p);
            assert forall|i: int| 0 <= i < f.len() implies (#[trigger] f[i]).0 != x.0 by {
                assert(f.contains(f[i]));
                r.lemma_filter_contains_rev(p, f[i]);
                let k = choose|k: int| 0 <= k < r.len() && r[k] == f[i];
                assert(es[k] == r[k] && es[es.len() - 1] == x);
            }
            let g = f.push(x);
            assert forall|i: int, j: int| 0 <= i < g.len() && 0 <= j < g.len() && i != j implies (#[trigger] g[i]).0 != (#[trigger] g[j]).0 by {
                if i < f.len() && j < f.len() {
                    assert(g[i] == f[i] && g[j] == f[j]);
                } else if i < f.len() {
                    assert(g[i] == f[i]);
                } else {
                    assert(g[j] == f[j]);
                }
            }
        }
    }
}

/// `unique` gives one value for each name added exactly once, the value
/// that name was added with, and nothing else: each unique entry is a
/// name added once with the value of its add, every name added once has
/// an entry, and no name has two.
pub proof fn lemma_unique_law<V>(adds: Seq<(Seq<char>, V)>)
    ensures
        unique_values(add_all(adds)) == unique_entries(add_all(adds)).map_values(|e: CounterEntry<V>| e.1),
        distinct_names(unique_entries(add_all(adds))),
        forall|m: int| 0 <= m < unique_entries(add_all(adds)).len() ==> {
            let e = #[trigger] unique_entries(add_all(adds))[m];
            &&& times_added(adds, e.0) == 1
            &&& exists|j: int| 0 <= j < adds.len() && (#[trigger] adds[j]) == (e.0, e.1)
        },
        forall|n: Seq<char>| #[trigger] times_added(adds, n) == 1 ==>
            exists|m: int| 0 <= m < unique_entries(add_all(adds)).len() && (#[trigger] unique_entries(add_all(adds))[m]).0 == n,
{
    let es = add_all(adds);
    let p = |e: CounterEntry<V>| e.2;
    let fs = unique_entries(es);
    assert(fs == es.filter(p));
    assert(distinct_names(es)) by {
        lemma_unique_iff_added_once(adds, Seq::<char>::empty());
    }
    lemma_filter_distinct(es, p);
    assert forall|m: int| 0 <= m < fs.len() implies {
        let e = #[trigger] fs[m];
        &&& times_added(adds, e.0) == 1
        &&& exists|j: int| 0 <= j < adds.len() && (#[trigger] adds[j]) == (e.0, e.1)
    } by {
        let e = fs[m];
        assert(fs.contains(e));
        es.lemma_filter_contains_rev(p, e);
        let i = choose|i: int| 0 <= i < es.len() && es[i] == e;
        es.lemma_filter_pred(p, m);
        assert(unique_in(es, e.0));
        lemma_unique_iff_added_once(adds, e.0);
        let i2 = choose|i2: int| 0 <= i2 < adds.len() && (#[trigger] adds[i2]).0 == e.0 &&
            (exists|j: int| 0 <= j < es.len() && (#[trigger] es[j]) == (e.0, adds[i2].1, true));
        let j = choose|j: int| 0 <= j < es.len() && (#[trigger] es[j]) == (e.0, adds[i2].1, true);
        if j != i {
            assert(es[i].0 == es[j].0);
        }
        assert(adds[i2] == (e.0, e.1));
    }
    assert forall|n: Seq<char>| #[trigger] times_added(adds, n) == 1 implies
        exists|m: int| 0 <= m < fs.len() && (#[trigger] fs[m]).0 == n by {
        lemma_unique_iff_added_once(adds, n);
        let i = choose|i: int| 0 <= i < es.len() && (#[trigger] es[i]).0 == n && es[i].2;
        es.lemma_filter_contains(p, i);
        let m = choose|m: int| 0 <= m < fs.len() && fs[m] == es[i];
        assert(fs[m].0 == n);
    }
}

} // verus!
