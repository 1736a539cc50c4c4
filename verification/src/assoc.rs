//! A map kept as a list of entries, in the order in which their keys came.

use crate::bytes::{same_id, Id32};
use vstd::prelude::*;

verus! {

/// What can be a key of an [`AssocMap`]: a value that stands for a mathematical one and can be
/// compared by it.
pub trait Key: Sized {
    type V;

    /// What the key stands for.
    spec fn key(&self) -> Self::V;

    /// Whether two keys stand for the same.
    fn same(&self, other: &Self) -> (r: bool)
        ensures
            r == (self.key() == other.key()),
    ;
}

impl Key for Id32 {
    type V = Id32;

    open spec fn key(&self) -> Id32 {
        *self
    }

    fn same(&self, other: &Self) -> (r: bool) {
        same_id(self, other)
    }
}

impl Key for (Id32, Id32) {
    type V = (Id32, Id32);

    open spec fn key(&self) -> (Id32, Id32) {
        *self
    }

    fn same(&self, other: &Self) -> (r: bool) {
        same_id(&self.0, &other.0) && same_id(&self.1, &other.1)
    }
}

impl Key for (Id32, String) {
    type V = (Id32, Seq<char>);

    open spec fn key(&self) -> (Id32, Seq<char>) {
        (self.0, self.1@)
    }

    fn same(&self, other: &Self) -> (r: bool) {
        same_id(&self.0, &other.0) && self.1 == other.1
    }
}

impl Key for String {
    type V = Seq<char>;

    open spec fn key(&self) -> Seq<char> {
        self@
    }

    fn same(&self, other: &Self) -> (r: bool) {
        *self == *other
    }
}

impl Key for u32 {
    type V = u32;

    open spec fn key(&self) -> u32 {
        *self
    }

    fn same(&self, other: &Self) -> (r: bool) {
        *self == *other
    }
}

/// A map from keys to values.
#[derive(Debug)]
pub struct AssocMap<K: Key, V> {
    entries: Vec<(K, V)>,
}

/// The key of entry `i` is `k`.
pub open spec fn entry_is<K: Key, V>(s: Seq<(K, V)>, k: K::V, i: int) -> bool {
    0 <= i < s.len() && s[i].0.key() == k
}

/// The map that a list of entries stands for.
pub open spec fn entries_map<K: Key, V>(s: Seq<(K, V)>) -> Map<K::V, V> {
    Map::new(
        |k: K::V| exists|i: int| #[trigger] entry_is(s, k, i),
        |k: K::V| s[choose|i: int| #[trigger] entry_is(s, k, i)].1,
    )
}

/// No key comes twice.
pub open spec fn distinct_keys<K: Key, V>(s: Seq<(K, V)>) -> bool {
    forall|i: int, j: int|
        0 <= i < j < s.len() ==> (#[trigger] s[i]).0.key() != (#[trigger] s[j]).0.key()
}

/// The keys of a list of entries.
pub open spec fn entry_keys<K: Key, V>(s: Seq<(K, V)>) -> Seq<K::V> {
    Seq::new(s.len(), |i: int| s[i].0.key())
}

impl<K: Key, V> View for AssocMap<K, V> {
    type V = Map<K::V, V>;

    closed spec fn view(&self) -> Map<K::V, V> {
        entries_map(self.entries@)
    }
}

proof fn lemma_entry<K: Key, V>(s: Seq<(K, V)>, i: int)
    requires
        distinct_keys(s),
        0 <= i < s.len(),
    ensures
        entries_map(s).contains_key(s[i].0.key()),
        entries_map(s)[s[i].0.key()] == s[i].1,
{
    let k = s[i].0.key();
    assert(entry_is(s, k, i));
    let j = choose|j: int| #[trigger] entry_is(s, k, j);
    assert(entry_is(s, k, j));
    assert(j == i);
}

proof fn lemma_push<K: Key, V>(s: Seq<(K, V)>, e: (K, V))
    requires
        distinct_keys(s),
        !entries_map(s).contains_key(e.0.key()),
    ensures
        distinct_keys(s.push(e)),
        entries_map(s.push(e)) == entries_map(s).insert(e.0.key(), e.1),
{
    let t = s.push(e);
    assert forall|i: int, j: int| 0 <= i < j < t.len() implies (#[trigger] t[i]).0.key() != (
    #[trigger] t[j]).0.key() by {
        if j == s.len() {
            assert(entry_is(s, s[i].0.key(), i));
        }
    }
    let m = entries_map(s).insert(e.0.key(), e.1);
    assert forall|k: K::V| #[trigger] entries_map(t).contains_key(k) <==> m.contains_key(k) by {
        if entries_map(t).contains_key(k) {
            let i = choose|i: int| #[trigger] entry_is(t, k, i);
            if i < s.len() {
                assert(entry_is(s, k, i));
            }
        }
        if entries_map(s).contains_key(k) {
            let i = choose|i: int| #[trigger] entry_is(s, k, i);
            assert(entry_is(t, k, i));
        }
        if k == e.0.key() {
            assert(entry_is(t, k, s.len() as int));
        }
    }
    assert forall|k: K::V| entries_map(t).contains_key(k) implies #[trigger] entries_map(t)[k]
        == m[k] by {
        let i = choose|i: int| #[trigger] entry_is(t, k, i);
        lemma_entry(t, i);
        if i < s.len() {
            lemma_entry(s, i);
        }
    }
    assert(entries_map(t) =~= m);
}

proof fn lemma_set<K: Key, V>(s: Seq<(K, V)>, i: int, e: (K, V))
    requires
        distinct_keys(s),
        0 <= i < s.len(),
        s[i].0.key() == e.0.key(),
    ensures
        distinct_keys(s.update(i, e)),
        entries_map(s.update(i, e)) == entries_map(s).insert(e.0.key(), e.1),
        entry_keys(s.update(i, e)) == entry_keys(s),
{
    let t = s.update(i, e);
    assert(distinct_keys(t)) by {
        assert forall|a: int, b: int| 0 <= a < b < t.len() implies (#[trigger] t[a]).0.key() != (
        #[trigger] t[b]).0.key() by {
            assert(s[a].0.key() != s[b].0.key());
        }
    }
    let m = entries_map(s).insert(e.0.key(), e.1);
    assert forall|k: K::V| #[trigger] entries_map(t).contains_key(k) <==> m.contains_key(k) by {
        if entries_map(t).contains_key(k) {
            let j = choose|j: int| #[trigger] entry_is(t, k, j);
            assert(entry_is(s, k, j));
        }
        if entries_map(s).contains_key(k) {
            let j = choose|j: int| #[trigger] entry_is(s, k, j);
            assert(entry_is(t, k, j));
        }
        if k == e.0.key() {
            assert(entry_is(t, k, i));
        }
    }
    assert forall|k: K::V| entries_map(t).contains_key(k) implies #[trigger] entries_map(t)[k]
        == m[k] by {
        let j = choose|j: int| #[trigger] entry_is(t, k, j);
        lemma_entry(t, j);
        lemma_entry(s, j);
    }
    assert(entries_map(t) =~= m);
    assert(entry_keys(t) =~= entry_keys(s));
}

proof fn lemma_remove<K: Key, V>(s: Seq<(K, V)>, i: int)
    requires
        distinct_keys(s),
        0 <= i < s.len(),
    ensures
        distinct_keys(s.remove(i)),
        entries_map(s.remove(i)) == entries_map(s).remove(s[i].0.key()),
{
    let t = s.remove(i);
    let k0 = s[i].0.key();
    assert forall|a: int, b: int| 0 <= a < b < t.len() implies (#[trigger] t[a]).0.key() != (
    #[trigger] t[b]).0.key() by {
        let a1 = if a < i {
            a
        } else {
            a + 1
        };
        let b1 = if b < i {
            b
        } else {
            b + 1
        };
        assert(s[a1].0.key() != s[b1].0.key());
    }
    let m = entries_map(s).remove(k0);
    assert forall|k: K::V| #[trigger] entries_map(t).contains_key(k) <==> m.contains_key(k) by {
        if entries_map(t).contains_key(k) {
            let j = choose|j: int| #[trigger] entry_is(t, k, j);
            let j1 = if j < i {
                j
            } else {
                j + 1
            };
            assert(entry_is(s, k, j1));
            assert(s[j1].0.key() != s[i].0.key());
        }
        if m.contains_key(k) {
            let j = choose|j: int| #[trigger] entry_is(s, k, j);
            let j1 = if j < i {
                j
            } else {
                j - 1
            };
            assert(t[j1] == s[j]);
            assert(entry_is(t, k, j1));
        }
    }
    assert forall|k: K::V| entries_map(t).contains_key(k) implies #[trigger] entries_map(t)[k]
        == m[k] by {
        let j = choose|j: int| #[trigger] entry_is(t, k, j);
        lemma_entry(t, j);
        let j1 = if j < i {
            j
        } else {
            j + 1
        };
        lemma_entry(s, j1);
        assert(s[j1].0.key() == k);
        assert(s[j1].0.key() != s[i].0.key());
    }
    assert(entries_map(t) =~= m);
}

impl<K: Key, V> AssocMap<K, V> {
    #[verifier::type_invariant]
    spec fn inv(self) -> bool {
        distinct_keys(self.entries@)
    }

    /// The entries in the order in which their keys came.
    pub closed spec fn list(&self) -> Seq<(K, V)> {
        self.entries@
    }

    pub fn new() -> (r: Self)
        ensures
            r@ == Map::<K::V, V>::empty(),
            r.list() == Seq::<(K, V)>::empty(),
    {
        let r = AssocMap { entries: Vec::new() };
        assert(r@ =~= Map::empty());
        r
    }

    fn find(&self, k: &K) -> (r: Option<usize>)
        ensures
            match r {
                Some(i) => entry_is(self.entries@, k.key(), i as int),
                None => forall|i: int| !#[trigger] entry_is(self.entries@, k.key(), i),
            },
    {
        let mut i: usize = 0;
        while i < self.entries.len()
            invariant
                i <= self.entries@.len(),
                forall|j: int| 0 <= j < i ==> !#[trigger] entry_is(self.entries@, k.key(), j),
            decreases self.entries@.len() - i,
        {
            if self.entries[i].0.same(k) {
                return Some(i);
            }
            i = i + 1;
        }
        None
    }

    pub fn get(&self, k: &K) -> (r: Option<&V>)
        ensures
            match r {
                Some(v) => self@.contains_key(k.key()) && self@[k.key()] == *v,
                None => !self@.contains_key(k.key()),
            },
    {
        proof {
            use_type_invariant(self);
        }
        match self.find(k) {
            Some(i) => {
                proof {
                    lemma_entry(self.entries@, i as int);
                }
                Some(&self.entries[i].1)
            },
            None => None,
        }
    }

    pub fn contains_key(&self, k: &K) -> (r: bool)
        ensures
            r == self@.contains_key(k.key()),
    {
        match self.find(k) {
            Some(_) => true,
            None => false,
        }
    }

    /// Puts a value under a key. A key that was there keeps its place in the list; a new one
    /// comes last.
    pub fn insert(&mut self, k: K, v: V) -> (r: Option<V>)
        ensures
            final(self)@ == old(self)@.insert(k.key(), v),
            match r {
                Some(w) => old(self)@.contains_key(k.key()) && old(self)@[k.key()] == w,
                None => !old(self)@.contains_key(k.key()),
            },
            old(self)@.contains_key(k.key()) ==> entry_keys(final(self).list()) == entry_keys(
                old(self).list(),
            ),
            !old(self)@.contains_key(k.key()) ==> final(self).list() == old(self).list().push(
                (k, v),
            ),
    {
        proof {
            use_type_invariant(&*self);
        }
        match self.find(&k) {
            Some(i) => {
                proof {
                    lemma_entry(self.entries@, i as int);
                    lemma_set(self.entries@, i as int, (k, v));
                }
                let mut e: (K, V) = (k, v);
                let mut entries: Vec<(K, V)> = Vec::new();
                std::mem::swap(&mut entries, &mut self.entries);
                std::mem::swap(&mut entries[i], &mut e);
                self.entries = entries;
                Some(e.1)
            },
            None => {
                proof {
                    lemma_push(self.entries@, (k, v));
                }
                let mut entries: Vec<(K, V)> = Vec::new();
                std::mem::swap(&mut entries, &mut self.entries);
                entries.push((k, v));
                self.entries = entries;
                None
            },
        }
    }

    /// Takes the value under a key out.
    pub fn remove(&mut self, k: &K) -> (r: Option<V>)
        ensures
            final(self)@ == old(self)@.remove(k.key()),
            match r {
                Some(w) => old(self)@.contains_key(k.key()) && old(self)@[k.key()] == w,
                None => !old(self)@.contains_key(k.key()),
            },
    {
        proof {
            use_type_invariant(&*self);
        }
        match self.find(k) {
            Some(i) => {
                proof {
                    lemma_entry(self.entries@, i as int);
                    lemma_remove(self.entries@, i as int);
                }
                let mut entries: Vec<(K, V)> = Vec::new();
                std::mem::swap(&mut entries, &mut self.entries);
                let e: (K, V) = entries.remove(i);
                self.entries = entries;
                Some(e.1)
            },
            None => {
                assert(self@ =~= self@.remove(k.key()));
                None
            },
        }
    }

    /// How many keys there are. The list holds each key once, and says what the map says.
    pub fn len(&self) -> (r: usize)
        ensures
            r == self.list().len(),
            distinct_keys(self.list()),
            self@ == entries_map(self.list()),
    {
        proof {
            use_type_invariant(self);
        }
        self.entries.len()
    }

    /// The `i`-th key.
    pub fn key_at(&self, i: usize) -> (r: &K)
        requires
            i < self.list().len(),
        ensures
            *r == self.list()[i as int].0,
            self@.contains_key(r.key()),
    {
        proof {
            use_type_invariant(self);
            lemma_entry(self.entries@, i as int);
        }
        &self.entries[i].0
    }

    /// The value under the `i`-th key.
    pub fn value_at(&self, i: usize) -> (r: &V)
        requires
            i < self.list().len(),
        ensures
            *r == self.list()[i as int].1,
            self@[self.list()[i as int].0.key()] == *r,
    {
        proof {
            use_type_invariant(self);
            lemma_entry(self.entries@, i as int);
        }
        &self.entries[i].1
    }
}

} // verus!
