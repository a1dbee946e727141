//! A keyed table: an ordered list of `(String, V)` entries in which no key
//! occurs twice. It keeps the order in which keys were first inserted, so
//! iteration over it is deterministic.

use vstd::prelude::*;
use crate::text::str_eq;

verus! {

/// No two entries share a key.
pub open spec fn keys_unique<V>(s: Seq<(String, V)>) -> bool {
    forall|i: int, j: int| 0 <= i < s.len() && 0 <= j < s.len() && i != j ==> s[i].0@ != s[j].0@
}

/// Some entry has key `k`.
pub open spec fn has_key<V>(s: Seq<(String, V)>, k: Seq<char>) -> bool {
    exists|i: int| 0 <= i < s.len() && #[trigger] s[i].0@ == k
}

/// The map from keys to values that an entry list denotes.
pub open spec fn map_of<V>(s: Seq<(String, V)>) -> Map<Seq<char>, V> {
    Map::new(
        |k: Seq<char>| has_key(s, k),
        |k: Seq<char>| s[choose|i: int| 0 <= i < s.len() && #[trigger] s[i].0@ == k].1,
    )
}

/// The keys of an entry list, in order.
pub open spec fn keys_of<V>(s: Seq<(String, V)>) -> Seq<Seq<char>> {
    s.map_values(|e: (String, V)| e.0@)
}

/// In a list with unique keys, the value at an entry is what the map gives.
pub proof fn lemma_map_of_at<V>(s: Seq<(String, V)>, i: int)
    requires
        keys_unique(s),
        0 <= i < s.len(),
    ensures
        map_of(s).contains_key(s[i].0@),
        map_of(s)[s[i].0@] == s[i].1,
{
    let k = s[i].0@;
    assert(has_key(s, k));
    let j = choose|j: int| 0 <= j < s.len() && #[trigger] s[j].0@ == k;
    assert(j == i);
}

proof fn lemma_map_of_update<V>(s: Seq<(String, V)>, i: int, v: V)
    requires
        keys_unique(s),
        0 <= i < s.len(),
    ensures
        keys_unique(s.update(i, (s[i].0, v))),
        map_of(s.update(i, (s[i].0, v))) =~= map_of(s).insert(s[i].0@, v),
{
    let t = s.update(i, (s[i].0, v));
    assert(keys_unique(t));
    assert forall|k: Seq<char>| #[trigger] map_of(t).contains_key(k) == map_of(s).insert(s[i].0@, v).contains_key(k) by {
        if has_key(s, k) {
            let j = choose|j: int| 0 <= j < s.len() && #[trigger] s[j].0@ == k;
            assert(t[j].0@ == k);
        }
        if has_key(t, k) {
            let j = choose|j: int| 0 <= j < t.len() && #[trigger] t[j].0@ == k;
            assert(s[j].0@ == k);
        }
    }
    assert forall|k: Seq<char>| map_of(t).contains_key(k) implies #[trigger] map_of(t)[k] == map_of(s).insert(s[i].0@, v)[k] by {
        let j = choose|j: int| 0 <= j < t.len() && #[trigger] t[j].0@ == k;
        lemma_map_of_at(t, j);
        if j != i {
            lemma_map_of_at(s, j);
        }
    }
}

proof fn lemma_map_of_push<V>(s: Seq<(String, V)>, k: String, v: V)
    requires
        keys_unique(s),
        !has_key(s, k@),
    ensures
        keys_unique(s.push((k, v))),
        map_of(s.push((k, v))) =~= map_of(s).insert(k@, v),
{
    let t = s.push((k, v));
    assert(keys_unique(t)) by {
        assert forall|i: int, j: int| 0 <= i < t.len() && 0 <= j < t.len() && i != j implies t[i].0@ != t[j].0@ by {
            if i == s.len() {
                assert(s[j].0@ != k@);
            } else if j == s.len() {
                assert(s[i].0@ != k@);
            }
        }
    }
    assert forall|q: Seq<char>| #[trigger] map_of(t).contains_key(q) == map_of(s).insert(k@, v).contains_key(q) by {
        if has_key(s, q) {
            let j = choose|j: int| 0 <= j < s.len() && #[trigger] s[j].0@ == q;
            assert(t[j].0@ == q);
        }
        if q == k@ {
            assert(t[s.len() as int].0@ == q);
        }
        if has_key(t, q) {
            let j = choose|j: int| 0 <= j < t.len() && #[trigger] t[j].0@ == q;
            if j < s.len() {
                assert(s[j].0@ == q);
            }
        }
    }
    assert forall|q: Seq<char>| map_of(t).contains_key(q) implies #[trigger] map_of(t)[q] == map_of(s).insert(k@, v)[q] by {
        let j = choose|j: int| 0 <= j < t.len() && #[trigger] t[j].0@ == q;
        lemma_map_of_at(t, j);
        if j < s.len() {
            lemma_map_of_at(s, j);
        }
    }
}

proof fn lemma_map_of_remove<V>(s: Seq<(String, V)>, i: int)
    requires
        keys_unique(s),
        0 <= i < s.len(),
    ensures
        keys_unique(s.remove(i)),
        map_of(s.remove(i)) =~= map_of(s).remove(s[i].0@),
{
    let t = s.remove(i);
    let k = s[i].0@;
    assert(keys_unique(t)) by {
        assert forall|a: int, b: int| 0 <= a < t.len() && 0 <= b < t.len() && a != b implies t[a].0@ != t[b].0@ by {
            let a2 = if a < i { a } else { a + 1 };
            let b2 = if b < i { b } else { b + 1 };
            assert(t[a] == s[a2]);
            assert(t[b] == s[b2]);
        }
    }
    assert forall|q: Seq<char>| #[trigger] map_of(t).contains_key(q) == map_of(s).remove(k).contains_key(q) by {
        if has_key(t, q) {
            let j = choose|j: int| 0 <= j < t.len() && #[trigger] t[j].0@ == q;
            let j2 = if j < i { j } else { j + 1 };
            assert(s[j2].0@ == q);
            assert(j2 != i);
        }
        if has_key(s, q) && q != k {
            let j = choose|j: int| 0 <= j < s.len() && #[trigger] s[j].0@ == q;
            assert(j != i);
            let j2 = if j < i { j } else { j - 1 };
            assert(t[j2].0@ == q);
        }
    }
    assert forall|q: Seq<char>| map_of(t).contains_key(q) implies #[trigger] map_of(t)[q] == map_of(s).remove(k)[q] by {
        let j = choose|j: int| 0 <= j < t.len() && #[trigger] t[j].0@ == q;
        let j2 = if j < i { j } else { j + 1 };
        assert(t[j] == s[j2]);
        lemma_map_of_at(t, j);
        lemma_map_of_at(s, j2);
    }
}

/// In a list with unique keys, the map has one key per entry.
pub proof fn lemma_map_of_len<V>(s: Seq<(String, V)>)
    requires
        keys_unique(s),
    ensures
        map_of(s).dom().finite(),
        map_of(s).dom().len() == s.len(),
    decreases s.len(),
{
    if s.len() == 0 {
        assert(map_of(s).dom() =~= Set::<Seq<char>>::empty());
    } else {
        let t = s.drop_last();
        let e = s.last();
        assert(keys_unique(t)) by {
            assert forall|i: int, j: int| 0 <= i < t.len() && 0 <= j < t.len() && i != j implies t[i].0@ != t[j].0@ by {
                assert(t[i] == s[i] && t[j] == s[j]);
            }
        }
        lemma_map_of_len(t);
        assert(!has_key(t, e.0@)) by {
            if has_key(t, e.0@) {
                let j = choose|j: int| 0 <= j < t.len() && #[trigger] t[j].0@ == e.0@;
                assert(s[j].0@ == s[s.len() - 1].0@);
            }
        }
        lemma_map_of_push(t, e.0, e.1);
        assert(t.push((e.0, e.1)) =~= s);
        assert(map_of(s).dom() =~= map_of(t).dom().insert(e.0@));
    }
}

/// Pushing an element onto a sequence adds it to the sequence's set.
pub proof fn lemma_push_to_set<A>(s: Seq<A>, x: A)
    ensures
        s.push(x).to_set() =~= s.to_set().insert(x),
{
    assert forall|a: A| #[trigger] s.push(x).contains(a) <==> (s.contains(a) || a == x) by {
        if s.push(x).contains(a) {
            let j = choose|j: int| 0 <= j < s.push(x).len() && s.push(x)[j] == a;
            if j < s.len() {
                assert(s[j] == a);
            }
        }
        if s.contains(a) {
            let j = choose|j: int| 0 <= j < s.len() && s[j] == a;
            assert(s.push(x)[j] == a);
        }
        if a == x {
            assert(s.push(x)[s.len() as int] == x);
        }
    }
}

/// An ordered table keyed by strings.
pub struct Table<V> {
    entries: Vec<(String, V)>,
}

impl<V> Table<V> {
    /// The entries, in order.
    pub closed spec fn seq(&self) -> Seq<(String, V)> {
        self.entries@
    }

    /// The table's contents as a map.
    pub open spec fn view(&self) -> Map<Seq<char>, V> {
        map_of(self.seq())
    }

    /// No key occurs twice.
    pub open spec fn wf(&self) -> bool {
        keys_unique(self.seq())
    }

    pub fn new() -> (t: Self)
        ensures
            t.wf(),
            t.seq() == Seq::<(String, V)>::empty(),
            t.view() =~= Map::<Seq<char>, V>::empty(),
    {
        Table { entries: Vec::new() }
    }

    pub fn len(&self) -> (n: usize)
        ensures
            n == self.seq().len(),
            self.wf() ==> self.view().dom().finite() && n == self.view().dom().len(),
    {
        proof {
            if self.wf() {
                lemma_map_of_len(self.seq());
            }
        }
        self.entries.len()
    }

    pub fn key_at(&self, i: usize) -> (k: &String)
        requires
            i < self.seq().len(),
        ensures
            *k == self.seq()[i as int].0,
    {
        &self.entries[i].0
    }

    pub fn value_at(&self, i: usize) -> (v: &V)
        requires
            i < self.seq().len(),
        ensures
            *v == self.seq()[i as int].1,
    {
        &self.entries[i].1
    }

    /// The position of key `k`, if it is in the table.
    pub fn find(&self, k: &str) -> (r: Option<usize>)
        ensures
            match r {
                Some(i) => i < self.seq().len() && self.seq()[i as int].0@ == k@,
                None => !has_key(self.seq(), k@),
            },
    {
        let mut i: usize = 0;
        while i < self.entries.len()
            invariant
                i <= self.entries@.len(),
                forall|j: int| 0 <= j < i ==> self.entries@[j].0@ != k@,
            decreases self.entries@.len() - i,
        {
            if str_eq(self.entries[i].0.as_str(), k) {
                return Some(i);
            }
            i = i + 1;
        }
        None
    }

    pub fn contains_key(&self, k: &str) -> (r: bool)
        requires
            self.wf(),
        ensures
            r == self.view().contains_key(k@),
    {
        self.find(k).is_some()
    }

    /// The value stored under `k`.
    pub fn get(&self, k: &str) -> (r: Option<&V>)
        requires
            self.wf(),
        ensures
            match r {
                Some(v) => self.view().contains_key(k@) && self.view()[k@] == *v,
                None => !self.view().contains_key(k@),
            },
    {
        match self.find(k) {
            Some(i) => {
                proof { lemma_map_of_at(self.seq(), i as int); }
                Some(&self.entries[i].1)
            }
            None => None,
        }
    }

    /// Replaces the value at position `i`, keeping its key and position.
    pub fn set_value_at(&mut self, i: usize, v: V)
        requires
            old(self).wf(),
            i < old(self).seq().len(),
        ensures
            final(self).wf(),
            final(self).seq() == old(self).seq().update(i as int, (old(self).seq()[i as int].0, v)),
            final(self).view() =~= old(self).view().insert(old(self).seq()[i as int].0@, v),
    {
        proof { lemma_map_of_update(self.seq(), i as int, v); }
        let ghost before = self.entries@;
        let (k, _old_v) = self.entries.remove(i);
        self.entries.insert(i, (k, v));
        assert(self.entries@ =~= before.update(i as int, (before[i as int].0, v)));
    }

    /// Stores `v` under `k`: in place if `k` is present, else at the end.
    pub fn insert(&mut self, k: String, v: V)
        requires
            old(self).wf(),
        ensures
            final(self).wf(),
            final(self).view() =~= old(self).view().insert(k@, v),
            has_key(old(self).seq(), k@) ==> exists|i: int| 0 <= i < old(self).seq().len()
                && #[trigger] old(self).seq()[i].0@ == k@
                && final(self).seq() == old(self).seq().update(i, (old(self).seq()[i].0, v)),
            !has_key(old(self).seq(), k@) ==> final(self).seq() == old(self).seq().push((k, v)),
    {
        match self.find(k.as_str()) {
            Some(i) => {
                proof { lemma_map_of_at(self.seq(), i as int); }
                self.set_value_at(i, v);
            }
            None => {
                proof { lemma_map_of_push(self.seq(), k, v); }
                self.entries.push((k, v));
            }
        }
    }

    /// Removes the entry at position `i`; the others keep their order.
    pub fn remove_at(&mut self, i: usize) -> (e: (String, V))
        requires
            old(self).wf(),
            i < old(self).seq().len(),
        ensures
            final(self).wf(),
            e == old(self).seq()[i as int],
            final(self).seq() == old(self).seq().remove(i as int),
            final(self).view() =~= old(self).view().remove(old(self).seq()[i as int].0@),
    {
        proof { lemma_map_of_remove(self.seq(), i as int); }
        self.entries.remove(i)
    }

    /// Removes the entry for `k`, returning its value.
    pub fn remove(&mut self, k: &str) -> (r: Option<V>)
        requires
            old(self).wf(),
        ensures
            final(self).wf(),
            final(self).view() =~= old(self).view().remove(k@),
            match r {
                Some(v) => old(self).view().contains_key(k@) && old(self).view()[k@] == v
                    && exists|i: int| 0 <= i < old(self).seq().len() && #[trigger] old(self).seq()[i].0@ == k@
                        && final(self).seq() == old(self).seq().remove(i),
                None => !old(self).view().contains_key(k@) && final(self).seq() == old(self).seq(),
            },
    {
        match self.find(k) {
            Some(i) => {
                proof { lemma_map_of_at(self.seq(), i as int); }
                let (_key, v) = self.remove_at(i);
                Some(v)
            }
            None => {
                assert(old(self).view().remove(k@) =~= old(self).view());
                None
            }
        }
    }

    /// Removes the entries whose keys are listed.
    pub fn remove_keys(&mut self, keys: &Vec<String>)
        requires
            old(self).wf(),
        ensures
            final(self).wf(),
            final(self).view() =~= old(self).view().remove_keys(crate::text::strs(keys@).to_set()),
    {
        let ghost ks = crate::text::strs(keys@);
        let mut i: usize = 0;
        proof { assert(ks.take(0).to_set() =~= Set::<Seq<char>>::empty()); }
        assert(old(self).view().remove_keys(ks.take(0).to_set()) =~= old(self).view());
        while i < keys.len()
            invariant
                i <= keys@.len(),
                ks == crate::text::strs(keys@),
                self.wf(),
                self.view() =~= old(self).view().remove_keys(ks.take(i as int).to_set()),
            decreases keys@.len() - i,
        {
            let _ = self.remove(keys[i].as_str());
            proof {
                assert(ks.take(i + 1) =~= ks.take(i as int).push(ks[i as int]));
                lemma_push_to_set(ks.take(i as int), ks[i as int]);
            }
            i = i + 1;
        }
        proof { assert(ks.take(keys@.len() as int) =~= ks); }
    }
}

} // verus!
