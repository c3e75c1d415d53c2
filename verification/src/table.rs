//! Tables from names to values, in the order in which the names were added.

use crate::text::same;
use vstd::prelude::*;

verus! {

/// The model of a table: names with their values.
pub type Entries<M> = Seq<(Seq<char>, M)>;

/// The position of the first entry for `k` at or after `i`.
pub open spec fn entry_from<M>(t: Entries<M>, i: int, k: Seq<char>) -> Option<int>
    decreases t.len() - i,
{
    if i < 0 || i >= t.len() {
        None
    } else if t[i].0 == k {
        Some(i)
    } else {
        entry_from(t, i + 1, k)
    }
}

/// The value of `k`.
pub open spec fn lookup<M>(t: Entries<M>, k: Seq<char>) -> Option<M> {
    match entry_from(t, 0, k) {
        Some(i) => Some(t[i].1),
        None => None,
    }
}

/// The table with `v` as the value of `k`: in the place of the former value,
/// or at the end.
pub open spec fn with<M>(t: Entries<M>, k: Seq<char>, v: M) -> Entries<M> {
    match entry_from(t, 0, k) {
        Some(i) => t.update(i, (k, v)),
        None => t.push((k, v)),
    }
}

/// The table without `k`.
pub open spec fn without<M>(t: Entries<M>, k: Seq<char>) -> Entries<M> {
    t.filter(|e: (Seq<char>, M)| e.0 != k)
}

/// No name stands in the table twice.
pub open spec fn distinct<M>(t: Entries<M>) -> bool {
    forall|i: int, j: int| 0 <= i < j < t.len() ==> (#[trigger] t[i]).0 != (#[trigger] t[j]).0
}

/// What a search finds, and what it finds nothing of.
pub proof fn lemma_entry_from<M>(t: Entries<M>, i: int, k: Seq<char>)
    requires
        0 <= i <= t.len(),
    ensures
        match entry_from(t, i, k) {
            Some(j) => i <= j < t.len() && t[j].0 == k && forall|m: int|
                i <= m < j ==> (#[trigger] t[m]).0 != k,
            None => forall|m: int| i <= m < t.len() ==> (#[trigger] t[m]).0 != k,
        },
    decreases t.len() - i,
{
    if i < t.len() && t[i].0 != k {
        lemma_entry_from(t, i + 1, k);
    }
}

/// A search finds the first entry for a name.
proof fn lemma_entry_is<M>(t: Entries<M>, i: int, k: Seq<char>, j: int)
    requires
        0 <= i <= j < t.len(),
        t[j].0 == k,
        forall|m: int| i <= m < j ==> (#[trigger] t[m]).0 != k,
    ensures
        entry_from(t, i, k) == Some(j),
    decreases j - i,
{
    if i < j {
        lemma_entry_is(t, i + 1, k, j);
    }
}

/// A read gives back what was last written under the same name, and a write
/// touches no other name.
pub proof fn law_read_after_write<M>(t: Entries<M>, k: Seq<char>, v: M, other: Seq<char>)
    ensures
        lookup(with(t, k, v), k) == Some(v),
        other != k ==> lookup(with(t, k, v), other) == lookup(t, other),
{
    let w = with(t, k, v);
    lemma_entry_from(t, 0, k);
    lemma_entry_from(t, 0, other);
    lemma_entry_from(w, 0, k);
    lemma_entry_from(w, 0, other);
    match entry_from(t, 0, k) {
        Some(i) => {
            lemma_entry_is(w, 0, k, i);
        },
        None => {
            assert(w[t.len() as int].0 == k);
            lemma_entry_is(w, 0, k, t.len() as int);
        },
    }
    if other != k {
        match entry_from(t, 0, other) {
            Some(j) => {
                assert(w[j] == t[j]);
                lemma_entry_is(w, 0, other, j);
            },
            None => {
                assert forall|m: int| 0 <= m < w.len() implies (#[trigger] w[m]).0 != other by {
                    if m < t.len() {
                        assert(t[m].0 != other);
                    }
                }
            },
        }
    }
}

/// A removed name has no value, and a removal touches no other name.
pub proof fn law_read_after_remove<M>(t: Entries<M>, k: Seq<char>, other: Seq<char>)
    ensures
        lookup(without(t, k), k) is None,
        other != k ==> lookup(without(t, k), other) == lookup(t, other),
    decreases t.len(),
{
    let p = |e: (Seq<char>, M)| e.0 != k;
    let w = without(t, k);
    reveal(Seq::filter);
    if t.len() > 0 {
        let shorter = t.drop_last();
        law_read_after_remove(shorter, k, other);
        let ws = without(shorter, k);
        lemma_last_entry(shorter, t.last(), k);
        lemma_last_entry(shorter, t.last(), other);
        assert(shorter.push(t.last()) =~= t);
        if p(t.last()) {
            assert(w =~= ws.push(t.last()));
            lemma_last_entry(ws, t.last(), k);
            lemma_last_entry(ws, t.last(), other);
        }
    }
}

/// An entry added at the end is found only where nothing was found before.
proof fn lemma_last_entry<M>(t: Entries<M>, e: (Seq<char>, M), k: Seq<char>)
    ensures
        lookup(t.push(e), k) == match lookup(t, k) {
            Some(v) => Some(v),
            None => if e.0 == k {
                Some(e.1)
            } else {
                None
            },
        },
{
    let w = t.push(e);
    lemma_entry_from(t, 0, k);
    lemma_entry_from(w, 0, k);
    match entry_from(t, 0, k) {
        Some(j) => {
            assert(w[j] == t[j]);
            assert forall|m: int| 0 <= m < j implies (#[trigger] w[m]).0 != k by {
                assert(t[m].0 != k);
            }
            lemma_entry_is(w, 0, k, j);
        },
        None => {
            assert forall|m: int| 0 <= m < t.len() implies (#[trigger] w[m]).0 != k by {
                assert(t[m].0 != k);
            }
            if e.0 == k {
                lemma_entry_is(w, 0, k, t.len() as int);
            }
        },
    }
}

/// Writes and removals keep the names of a table distinct.
pub proof fn law_names_stay_distinct<M>(t: Entries<M>, k: Seq<char>, v: M)
    requires
        distinct(t),
    ensures
        distinct(with(t, k, v)),
        distinct(without(t, k)),
{
    lemma_entry_from(t, 0, k);
    let w = with(t, k, v);
    assert(distinct(w)) by {
        assert forall|i: int, j: int| 0 <= i < j < w.len() implies (#[trigger] w[i]).0 != (
        #[trigger] w[j]).0 by {
            if i < t.len() {
                assert(t[i].0 == w[i].0);
            }
            if j < t.len() {
                assert(t[j].0 == w[j].0);
            }
        }
    }
    lemma_without_distinct(t, k);
}

/// Every entry that is left stood in the table before.
proof fn lemma_without_sub<M>(t: Entries<M>, k: Seq<char>)
    ensures
        forall|i: int|
            0 <= i < without(t, k).len() ==> t.contains(#[trigger] without(t, k)[i]),
    decreases t.len(),
{
    reveal(Seq::filter);
    if t.len() > 0 {
        lemma_without_sub(t.drop_last(), k);
        let w = without(t, k);
        let ws = without(t.drop_last(), k);
        assert forall|i: int| 0 <= i < w.len() implies t.contains(#[trigger] w[i]) by {
            if i < ws.len() {
                assert(t.drop_last().contains(ws[i]));
                let m = choose|m: int|
                    0 <= m < t.drop_last().len() && t.drop_last()[m] == ws[i];
                assert(t[m] == w[i]);
            } else {
                assert(t[t.len() - 1] == w[i]);
            }
        }
    }
}

proof fn lemma_without_distinct<M>(t: Entries<M>, k: Seq<char>)
    requires
        distinct(t),
    ensures
        distinct(without(t, k)),
    decreases t.len(),
{
    reveal(Seq::filter);
    if t.len() > 0 {
        let shorter = t.drop_last();
        assert(distinct(shorter)) by {
            assert forall|i: int, j: int| 0 <= i < j < shorter.len() implies (
            #[trigger] shorter[i]).0 != (#[trigger] shorter[j]).0 by {
                assert(t[i].0 != t[j].0);
            }
        }
        lemma_without_distinct(shorter, k);
        lemma_without_sub(shorter, k);
        let ws = without(shorter, k);
        let w = without(t, k);
        assert forall|i: int, j: int| 0 <= i < j < w.len() implies (#[trigger] w[i]).0 != (
        #[trigger] w[j]).0 by {
            if j < ws.len() {
                assert(ws[i].0 != ws[j].0);
            } else {
                assert(shorter.contains(ws[i]));
                let m = choose|m: int| 0 <= m < shorter.len() && shorter[m] == ws[i];
                assert(t[m].0 != t[t.len() - 1].0);
            }
        }
    }
}

/// A table from names to values.
#[derive(Debug)]
pub struct Table<V> {
    pub entries: Vec<(String, V)>,
}

/// The entries held by a sequence of pairs.
pub open spec fn entry_models<V: DeepView>(v: Seq<(String, V)>) -> Entries<V::V> {
    v.map_values(|e: (String, V)| (e.0@, e.1.deep_view()))
}

impl<V: DeepView> Table<V> {
    /// The names with their values.
    pub open spec fn model(self) -> Entries<V::V> {
        entry_models(self.entries@)
    }

    /// A table without entries.
    pub fn new() -> (r: Self)
        ensures
            r.model() == Entries::<V::V>::empty(),
    {
        let r = Table { entries: Vec::new() };
        assert(r.model() =~= Entries::<V::V>::empty());
        r
    }

    /// The position of the entry for `name`.
    fn find(&self, name: &str) -> (r: Option<usize>)
        ensures
            match r {
                Some(i) => i < self.entries@.len() && entry_from(self.model(), 0, name@) == Some(
                    i as int,
                ),
                None => entry_from(self.model(), 0, name@) is None,
            },
    {
        let mut i: usize = 0;
        while i < self.entries.len()
            invariant
                i <= self.entries@.len(),
                entry_from(self.model(), 0, name@) == entry_from(self.model(), i as int, name@),
            decreases self.entries@.len() - i,
        {
            if same(self.entries[i].0.as_str(), name) {
                return Some(i);
            }
            i += 1;
        }
        None
    }

    /// The value stored under `name`.
    pub fn get(&self, name: &str) -> (r: Option<&V>)
        ensures
            match r {
                Some(v) => lookup(self.model(), name@) == Some(v.deep_view()),
                None => lookup(self.model(), name@) is None,
            },
    {
        match self.find(name) {
            Some(i) => Some(&self.entries[i].1),
            None => None,
        }
    }

    /// Whether a value is stored under `name`.
    pub fn contains_key(&self, name: &str) -> (r: bool)
        ensures
            r == (lookup(self.model(), name@) is Some),
    {
        match self.find(name) {
            Some(_) => true,
            None => false,
        }
    }

    /// Stores `value` under `name`.
    pub fn insert(&mut self, name: String, value: V)
        ensures
            final(self).model() == with(old(self).model(), name@, value.deep_view()),
    {
        let ghost before = self.model();
        let ghost key = name@;
        let ghost val = value.deep_view();
        match self.find(name.as_str()) {
            Some(i) => {
                self.entries.set(i, (name, value));
                assert(self.model() =~= before.update(i as int, (key, val)));
            },
            None => {
                self.entries.push((name, value));
                assert(self.model() =~= before.push((key, val)));
            },
        }
    }

    /// Drops what is stored under `name`.
    pub fn remove(&mut self, name: &str)
        ensures
            final(self).model() == without(old(self).model(), name@),
    {
        let ghost before = self.model();
        let ghost p = |e: (Seq<char>, V::V)| e.0 != name@;
        let ghost mut done: int = 0;
        let mut i: usize = 0;
        proof {
            reveal(Seq::filter);
            assert(before.take(0) =~= Seq::empty());
            assert(self.model().take(0) =~= before.take(0).filter(p));
            assert(self.model().skip(0) =~= before.skip(0));
        }
        while i < self.entries.len()
            invariant
                i <= self.entries@.len(),
                0 <= done <= before.len(),
                p == (|e: (Seq<char>, V::V)| e.0 != name@),
                self.model().take(i as int) == before.take(done).filter(p),
                self.model().skip(i as int) == before.skip(done),
            decreases self.entries@.len() - i,
        {
            let ghost here = self.model();
            let ghost at = i as int;
            proof {
                reveal(Seq::filter);
                assert(here.skip(at).len() == here.len() - at);
                assert(before.skip(done).len() == before.len() - done);
                assert(here.skip(at)[0] == here[at]);
                assert(before.skip(done)[0] == before[done]);
                assert(before.take(done + 1).drop_last() =~= before.take(done));
            }
            if same(self.entries[i].0.as_str(), name) {
                self.entries.remove(i);
                proof {
                    assert(self.model() =~= here.remove(at));
                    assert(self.model().take(at) =~= here.take(at));
                    assert(self.model().skip(at) =~= here.skip(at).skip(1));
                    assert(before.skip(done + 1) =~= before.skip(done).skip(1));
                }
            } else {
                i += 1;
                proof {
                    assert(here.take(at + 1) =~= here.take(at).push(here[at]));
                    assert(here.skip(at + 1) =~= here.skip(at).skip(1));
                    assert(before.skip(done + 1) =~= before.skip(done).skip(1));
                }
            }
            proof {
                done = done + 1;
            }
        }
        proof {
            assert(self.model().skip(i as int).len() == 0);
            assert(before.skip(done).len() == 0);
            assert(before.take(done) =~= before);
            assert(self.model().take(i as int) =~= self.model());
        }
    }
}

/// A copy of a table of texts.
pub fn copy_table(t: &Table<String>) -> (r: Table<String>)
    ensures
        r.model() == t.model(),
{
    let mut out: Vec<(String, String)> = Vec::new();
    let mut i: usize = 0;
    while i < t.entries.len()
        invariant
            i <= t.entries@.len(),
            out@.len() == i,
            forall|k: int| 0 <= k < i ==> #[trigger] out@[k] == t.entries@[k],
        decreases t.entries@.len() - i,
    {
        out.push((t.entries[i].0.clone(), t.entries[i].1.clone()));
        i += 1;
    }
    let r = Table { entries: out };
    assert(r.model() =~= t.model());
    r
}

/// A write leaves every entry in its place: it changes the entry of the name,
/// or adds one at the end where there is none.
pub proof fn law_writes_keep_order<M>(t: Entries<M>, k: Seq<char>, v: M, i: int)
    requires
        0 <= i < t.len(),
    ensures
        lookup(t, k) is None ==> with(t, k, v) == t.push((k, v)),
        lookup(t, k) is Some ==> with(t, k, v).len() == t.len() && with(t, k, v)[i].0 == t[i].0,
        t[i].0 != k ==> with(t, k, v)[i] == t[i],
{
    lemma_entry_from(t, 0, k);
}

/// A removal leaves the other entries in their order.
pub proof fn law_removals_keep_order<M>(t: Entries<M>, e: (Seq<char>, M), k: Seq<char>)
    ensures
        without(t.push(e), k) == if e.0 == k {
            without(t, k)
        } else {
            without(t, k).push(e)
        },
        without(Seq::<(Seq<char>, M)>::empty(), k) == Seq::<(Seq<char>, M)>::empty(),
{
    reveal(Seq::filter);
    assert(t.push(e).drop_last() =~= t);
    assert(without(Seq::<(Seq<char>, M)>::empty(), k) =~= Seq::<(Seq<char>, M)>::empty());
}

} // verus!
