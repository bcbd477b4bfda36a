//! A map from event identities to values that is walked in the order of the identities.
use vstd::prelude::*;

use crate::text::{text_at_most, text_eq};

verus! {

/// A map keyed by text. Its entries are kept in ascending order of the keys, and no key
/// occurs twice.
#[derive(Debug, Clone)]
pub struct UidMap<V> {
    entries: Vec<(String, V)>,
}

impl<V> UidMap<V> {
    /// The keys, in ascending order.
    pub closed spec fn keys(&self) -> Seq<Seq<char>> {
        Seq::new(self.entries@.len(), |i: int| self.entries@[i].0@)
    }

    /// The values, in the order of their keys.
    pub closed spec fn values(&self) -> Seq<V> {
        Seq::new(self.entries@.len(), |i: int| self.entries@[i].1)
    }

    /// The invariant: the keys are strictly ascending.
    pub open spec fn wf(&self) -> bool {
        ascending(self.keys())
    }

    /// The map that the entries stand for.
    pub open spec fn view(&self) -> Map<Seq<char>, V> {
        Map::new(
            |k: Seq<char>| self.keys().contains(k),
            |k: Seq<char>| self.values()[self.keys().index_of(k)],
        )
    }
}

/// Whether each text comes strictly before all that follow it.
pub open spec fn ascending(keys: Seq<Seq<char>>) -> bool {
    forall|i: int, j: int|
        0 <= i < j < keys.len() ==> #[trigger] crate::text::text_lt(keys[i], keys[j])
}

/// The texts of a set in ascending order.
pub open spec fn in_order(texts: Set<Seq<char>>) -> Seq<Seq<char>> {
    choose|keys: Seq<Seq<char>>| #[trigger] lists(keys, texts)
}

/// Whether `keys` lists a set in ascending order.
pub open spec fn lists(keys: Seq<Seq<char>>, texts: Set<Seq<char>>) -> bool {
    ascending(keys) && keys.to_set() == texts
}

/// In ascending order no text occurs twice.
pub proof fn lemma_ascending_once(keys: Seq<Seq<char>>)
    requires
        ascending(keys),
    ensures
        keys.no_duplicates(),
{
    assert forall|i: int, j: int| 0 <= i < keys.len() && 0 <= j < keys.len() && i != j implies keys[
        i] != keys[j] by {
        if i < j {
            assert(crate::text::text_lt(keys[i], keys[j]));
        } else {
            assert(crate::text::text_lt(keys[j], keys[i]));
        }
    }
}

/// There is one way to list a set in ascending order.
pub proof fn lemma_listed_once(a: Seq<Seq<char>>, b: Seq<Seq<char>>, texts: Set<Seq<char>>)
    requires
        lists(a, texts),
        lists(b, texts),
    ensures
        a == b,
    decreases a.len(),
{
    if a.len() == 0 {
        if b.len() > 0 {
            assert(b.to_set().contains(b[0]));
            assert(a.to_set().contains(b[0]));
        }
        assert(a =~= b);
    } else {
        assert(a.to_set().contains(a.last()));
        let i = choose|i: int| 0 <= i < b.len() && b[i] == a.last();
        assert(b.to_set().contains(b.last()));
        let j = choose|j: int| 0 <= j < a.len() && a[j] == b.last();
        if i < b.len() - 1 && j < a.len() - 1 {
            assert(crate::text::text_lt(b[i], b[b.len() - 1]));
            assert(crate::text::text_lt(a[j], a[a.len() - 1]));
            crate::text::lemma_text_le_antisymmetric(a.last(), b.last());
        }
        assert(a.last() == b.last());
        let rest = texts.remove(a.last());
        lemma_without_last(a, texts);
        lemma_without_last(b, texts);
        lemma_listed_once(a.drop_last(), b.drop_last(), rest);
        assert(a =~= a.drop_last().push(a.last()));
        assert(b =~= b.drop_last().push(b.last()));
    }
}

/// A finite set can be listed in ascending order.
pub proof fn lemma_listed(texts: Set<Seq<char>>)
    requires
        texts.finite(),
    ensures
        lists(in_order(texts), texts),
    decreases texts.len(),
{
    if texts.is_empty() {
        let none = Seq::<Seq<char>>::empty();
        assert(none.to_set() =~= texts);
        assert(lists(none, texts));
    } else {
        let t = texts.choose();
        let rest = texts.remove(t);
        lemma_listed(rest);
        let keys = in_order(rest);
        let at = lemma_place_for(keys, t, keys.len() as int);
        let with = keys.insert(at, t);
        assert forall|u: Seq<char>| with.to_set().contains(u) == texts.contains(u) by {
            if with.to_set().contains(u) {
                let i = choose|i: int| 0 <= i < with.len() && with[i] == u;
                if i < at {
                    assert(keys[i] == u);
                    assert(keys.to_set().contains(u));
                } else if i > at {
                    assert(keys[i - 1] == u);
                    assert(keys.to_set().contains(u));
                }
            }
            if texts.contains(u) {
                if u == t {
                    assert(with[at] == u);
                } else {
                    assert(keys.to_set().contains(u));
                    let i = choose|i: int| 0 <= i < keys.len() && keys[i] == u;
                    if i < at {
                        assert(with[i] == u);
                    } else {
                        assert(with[i + 1] == u);
                    }
                }
            }
        }
        assert(with.to_set() =~= texts);
        assert forall|i: int, j: int|
            0 <= i < j < with.len() implies #[trigger] crate::text::text_lt(with[i], with[j]) by {
            let (a, b) = (
                if i < at {
                    i
                } else {
                    i - 1
                },
                if j < at {
                    j
                } else {
                    j - 1
                },
            );
            if i != at && j != at {
                assert(crate::text::text_lt(keys[a], keys[b]));
            } else if i == at {
                assert(keys.to_set().contains(keys[b]));
            } else {
                assert(keys.to_set().contains(keys[a]));
            }
        }
        assert(lists(with, texts));
    }
}

/// The place of a text in a list in ascending order: what comes before it stands before the
/// place.
proof fn lemma_place_for(keys: Seq<Seq<char>>, t: Seq<char>, n: int) -> (at: int)
    requires
        ascending(keys),
        0 <= n <= keys.len(),
        forall|j: int| n <= j < keys.len() ==> crate::text::text_le(t, #[trigger] keys[j]),
    ensures
        0 <= at <= n,
        forall|j: int| 0 <= j < at ==> crate::text::text_le(#[trigger] keys[j], t),
        forall|j: int| at <= j < keys.len() ==> crate::text::text_le(t, #[trigger] keys[j]),
    decreases n,
{
    if n == 0 {
        0
    } else {
        crate::text::lemma_text_le_total(keys[n - 1], t);
        if crate::text::text_le(keys[n - 1], t) {
            assert forall|j: int| 0 <= j < n implies crate::text::text_le(
                #[trigger] keys[j],
                t,
            ) by {
                if j < n - 1 {
                    assert(crate::text::text_lt(keys[j], keys[n - 1]));
                    crate::text::lemma_text_le_transitive(keys[j], keys[n - 1], t);
                }
            }
            n
        } else {
            lemma_place_for(keys, t, n - 1)
        }
    }
}

proof fn lemma_without_last(a: Seq<Seq<char>>, texts: Set<Seq<char>>)
    requires
        lists(a, texts),
        a.len() > 0,
    ensures
        lists(a.drop_last(), texts.remove(a.last())),
{
    let b = a.drop_last();
    assert forall|i: int, j: int| 0 <= i < j < b.len() implies #[trigger] crate::text::text_lt(
        b[i],
        b[j],
    ) by {
        assert(crate::text::text_lt(a[i], a[j]));
    }
    assert forall|t: Seq<char>| b.to_set().contains(t) == texts.remove(a.last()).contains(t) by {
        if b.to_set().contains(t) {
            let i = choose|i: int| 0 <= i < b.len() && b[i] == t;
            assert(a[i] == t);
            assert(a.to_set().contains(t));
            assert(crate::text::text_lt(a[i], a[a.len() - 1]));
        }
        if texts.remove(a.last()).contains(t) {
            assert(a.to_set().contains(t));
            let i = choose|i: int| 0 <= i < a.len() && a[i] == t;
            assert(b[i] == t);
        }
    }
    assert(b.to_set() =~= texts.remove(a.last()));
}

impl<V> UidMap<V> {
    /// The keys are those of the map in ascending order.
    pub proof fn lemma_keys_in_order(&self)
        requires
            self.wf(),
        ensures
            self.keys() == in_order(self@.dom()),
    {
        assert(self.keys().to_set() =~= self@.dom());
        assert(lists(self.keys(), self@.dom()));
        lemma_listed_once(self.keys(), in_order(self@.dom()), self@.dom());
    }

    /// Each key leads to the value that stands beside it.
    pub proof fn lemma_entries(&self)
        requires
            self.wf(),
        ensures
            self.keys().len() == self.values().len(),
            self.keys().no_duplicates(),
            forall|i: int|
                0 <= i < self.keys().len() ==> {
                    &&& self@.contains_key(#[trigger] self.keys()[i])
                    &&& self@[self.keys()[i]] == self.values()[i]
                },
            forall|k: Seq<char>| #[trigger]
                self@.contains_key(k) ==> exists|i: int|
                    0 <= i < self.keys().len() && self.keys()[i] == k,
    {
        let keys = self.keys();
        lemma_ascending_once(keys);
        assert forall|i: int| 0 <= i < keys.len() implies {
            &&& self@.contains_key(#[trigger] keys[i])
            &&& self@[keys[i]] == self.values()[i]
        } by {
            assert(keys.contains(keys[i]));
            assert(keys.index_of(keys[i]) == i);
        }
    }

    /// The empty map.
    pub fn new() -> (m: Self)
        ensures
            m.wf(),
            m.keys().len() == 0,
            m@ == Map::<Seq<char>, V>::empty(),
    {
        let m = UidMap { entries: Vec::new() };
        assert(m@ =~= Map::<Seq<char>, V>::empty());
        m
    }

    /// The number of entries.
    pub fn len(&self) -> (n: usize)
        ensures
            n == self.keys().len(),
    {
        self.entries.len()
    }

    /// Whether there is no entry.
    pub fn is_empty(&self) -> (b: bool)
        ensures
            b == (self.keys().len() == 0),
    {
        self.entries.len() == 0
    }

    /// The key at a place in the order.
    pub fn key_at(&self, i: usize) -> (k: &String)
        requires
            i < self.keys().len(),
        ensures
            k@ == self.keys()[i as int],
    {
        &self.entries[i].0
    }

    /// The value at a place in the order.
    pub fn value_at(&self, i: usize) -> (v: &V)
        requires
            i < self.keys().len(),
        ensures
            *v == self.values()[i as int],
    {
        &self.entries[i].1
    }

    /// The first place whose key does not come before `k`.
    fn place(&self, k: &str) -> (at: usize)
        requires
            self.wf(),
        ensures
            at <= self.entries@.len(),
            forall|j: int| 0 <= j < at ==> crate::text::text_lt(#[trigger] self.keys()[j], k@),
            forall|j: int|
                at <= j < self.entries@.len() ==> crate::text::text_le(
                    k@,
                    #[trigger] self.keys()[j],
                ),
    {
        let mut at: usize = 0;
        while at < self.entries.len() && !text_at_most(k, self.entries[at].0.as_str())
            invariant
                at <= self.entries@.len(),
                forall|j: int| 0 <= j < at ==> crate::text::text_lt(#[trigger] self.keys()[j], k@),
            decreases self.entries@.len() - at,
        {
            proof {
                crate::text::lemma_text_le_total(k@, self.keys()[at as int]);
            }
            at = at + 1;
        }
        proof {
            assert forall|j: int| at <= j < self.entries@.len() implies crate::text::text_le(
                k@,
                #[trigger] self.keys()[j],
            ) by {
                if j > at {
                    assert(crate::text::text_lt(self.keys()[at as int], self.keys()[j]));
                    crate::text::lemma_text_le_transitive(
                        k@,
                        self.keys()[at as int],
                        self.keys()[j],
                    );
                }
            }
        }
        at
    }

    /// Whether the key stands at the place found for it is whether the map holds it.
    proof fn lemma_place(&self, k: Seq<char>, at: int)
        requires
            self.wf(),
            0 <= at <= self.entries@.len(),
            forall|j: int| 0 <= j < at ==> crate::text::text_lt(#[trigger] self.keys()[j], k),
            forall|j: int|
                at <= j < self.entries@.len() ==> crate::text::text_le(
                    k,
                    #[trigger] self.keys()[j],
                ),
        ensures
            self@.contains_key(k) == (at < self.entries@.len() && self.keys()[at] == k),
            forall|j: int|
                at <= j < self.entries@.len() && self.keys()[at] != k ==> crate::text::text_lt(
                    k,
                    #[trigger] self.keys()[j],
                ),
            forall|j: int|
                at < j < self.entries@.len() ==> crate::text::text_lt(k, #[trigger] self.keys()[j]),
    {
        self.lemma_entries();
        let keys = self.keys();
        assert forall|j: int| at < j < keys.len() implies crate::text::text_lt(
            k,
            #[trigger] keys[j],
        ) by {
            assert(crate::text::text_lt(keys[at], keys[j]));
            if k == keys[j] {
                crate::text::lemma_text_le_antisymmetric(keys[at], keys[j]);
            }
        }
        if self@.contains_key(k) {
            let i = choose|i: int| 0 <= i < keys.len() && keys[i] == k;
            if i < at {
                assert(crate::text::text_lt(keys[i], k));
            } else if i > at {
                assert(crate::text::text_lt(k, keys[i]));
            }
        } else if at < keys.len() && keys[at] == k {
            assert(self@.contains_key(keys[at]));
        }
    }

    /// The value under a key.
    pub fn get(&self, k: &str) -> (v: Option<&V>)
        requires
            self.wf(),
        ensures
            match v {
                Some(v) => self@.contains_key(k@) && *v == self@[k@],
                None => !self@.contains_key(k@),
            },
    {
        let at = self.place(k);
        proof {
            self.lemma_place(k@, at as int);
            self.lemma_entries();
        }
        if at < self.entries.len() && text_eq(self.entries[at].0.as_str(), k) {
            assert(self.keys()[at as int] == k@);
            Some(&self.entries[at].1)
        } else {
            None
        }
    }

    /// Whether there is a value under a key.
    pub fn contains_key(&self, k: &str) -> (b: bool)
        requires
            self.wf(),
        ensures
            b == self@.contains_key(k@),
    {
        self.get(k).is_some()
    }

    /// Puts a value under a key, in place of the one that was there.
    pub fn insert(&mut self, k: String, v: V)
        requires
            old(self).wf(),
        ensures
            final(self).wf(),
            final(self)@ == old(self)@.insert(k@, v),
    {
        let ghost key = k@;
        let at = self.place(k.as_str());
        let ghost before = *self;
        proof {
            self.lemma_place(key, at as int);
            self.lemma_entries();
        }
        let known = at < self.entries.len() && text_eq(self.entries[at].0.as_str(), k.as_str());
        if known {
            self.entries.set(at, (k, v));
            proof {
                assert(self.keys() =~= before.keys());
                assert(self.values() =~= before.values().update(at as int, v));
                self.lemma_entries();
                lemma_insert(before, *self, key, v, at as int, true);
            }
        } else {
            self.entries.insert(at, (k, v));
            proof {
                assert(self.keys() =~= before.keys().insert(at as int, key));
                assert(self.values() =~= before.values().insert(at as int, v));
                assert(self.wf()) by {
                    let keys = self.keys();
                    assert forall|i: int, j: int| 0 <= i < j < keys.len() implies
                        #[trigger] crate::text::text_lt(keys[i], keys[j]) by {
                        let i0 = if i < at { i } else { i - 1 };
                        let j0 = if j < at { j } else { j - 1 };
                        if i != at && j != at {
                            assert(crate::text::text_lt(before.keys()[i0], before.keys()[j0]));
                        } else if j == at {
                            assert(crate::text::text_lt(before.keys()[i], key));
                        } else {
                            assert(crate::text::text_lt(key, before.keys()[j0]));
                        }
                    }
                }
                self.lemma_entries();
                lemma_insert(before, *self, key, v, at as int, false);
            }
        }
    }

    /// Takes out the value under a key, if there is one.
    pub fn remove(&mut self, k: &str) -> (v: Option<V>)
        requires
            old(self).wf(),
        ensures
            final(self).wf(),
            final(self)@ == old(self)@.remove(k@),
            match v {
                Some(v) => old(self)@.contains_key(k@) && v == old(self)@[k@],
                None => !old(self)@.contains_key(k@),
            },
    {
        let at = self.place(k);
        let ghost before = *self;
        proof {
            self.lemma_place(k@, at as int);
            self.lemma_entries();
        }
        if at < self.entries.len() && text_eq(self.entries[at].0.as_str(), k) {
            assert(self.keys()[at as int] == k@);
            let (_, v) = self.entries.remove(at);
            proof {
                assert(self.keys() =~= before.keys().remove(at as int));
                assert(self.values() =~= before.values().remove(at as int));
                assert(self.wf()) by {
                    let keys = self.keys();
                    assert forall|i: int, j: int| 0 <= i < j < keys.len() implies
                        #[trigger] crate::text::text_lt(keys[i], keys[j]) by {
                        let i0 = if i < at { i } else { i + 1 };
                        let j0 = if j < at { j } else { j + 1 };
                        assert(crate::text::text_lt(before.keys()[i0], before.keys()[j0]));
                    }
                }
                self.lemma_entries();
                assert(self@ =~= before@.remove(k@)) by {
                    assert forall|x: Seq<char>| #[trigger] self@.contains_key(x) implies
                        before@.contains_key(x) && x != k@ && self@[x] == before@[x] by {
                        let i = choose|i: int| 0 <= i < self.keys().len() && self.keys()[i] == x;
                        let i0 = if i < at { i } else { i + 1 };
                        assert(before.keys()[i0] == x);
                        assert(self@[self.keys()[i]] == self.values()[i]);
                        assert(before@[before.keys()[i0]] == before.values()[i0]);
                    }
                    assert forall|x: Seq<char>| #[trigger] before@.contains_key(x) && x != k@
                        implies self@.contains_key(x) by {
                        let i = choose|i: int|
                            0 <= i < before.keys().len() && before.keys()[i] == x;
                        let i1 = if i < at { i } else { i - 1 };
                        assert(self.keys()[i1] == x);
                    }
                }
            }
            Some(v)
        } else {
            assert(self@ =~= before@.remove(k@));
            None
        }
    }
}

/// An entry that was set at its place, or put in there, is an insertion into the map.
proof fn lemma_insert<V>(
    before: UidMap<V>,
    after: UidMap<V>,
    key: Seq<char>,
    v: V,
    at: int,
    known: bool,
)
    requires
        before.wf(),
        after.wf(),
        before.keys().len() == before.values().len(),
        known ==> 0 <= at < before.keys().len() && before.keys()[at] == key,
        known ==> after.keys() == before.keys() && after.values() == before.values().update(at, v),
        !known ==> 0 <= at <= before.keys().len(),
        !known ==> after.keys() == before.keys().insert(at, key) && after.values()
            == before.values().insert(at, v),
    ensures
        after@ == before@.insert(key, v),
{
    before.lemma_entries();
    after.lemma_entries();
    assert(after.keys()[at] == key);
    assert(after@[after.keys()[at]] == v);
    assert forall|x: Seq<char>| #[trigger] after@.contains_key(x) && x != key implies
        before@.contains_key(x) && after@[x] == before@[x] by {
        let i = choose|i: int| 0 <= i < after.keys().len() && after.keys()[i] == x;
        let i0 = if known || i < at { i } else { i - 1 };
        assert(before.keys()[i0] == x);
        assert(after@[after.keys()[i]] == after.values()[i]);
        assert(before@[before.keys()[i0]] == before.values()[i0]);
    }
    assert forall|x: Seq<char>| #[trigger] before@.contains_key(x) implies after@.contains_key(
        x,
    ) by {
        let i = choose|i: int| 0 <= i < before.keys().len() && before.keys()[i] == x;
        let i1 = if known || i < at { i } else { i + 1 };
        assert(after.keys()[i1] == x);
    }
    assert(after@ =~= before@.insert(key, v));
}

} // verus!
