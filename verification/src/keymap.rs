//! `KeyMap`: a map from string keys to values that iterates in key order, as the
//! `BTreeMap<String, _>` it models does.

use vstd::prelude::*;
use crate::text::{chars_lt, lemma_lt_order, str_equal, str_less};

verus! {

/// Entries strictly increasing by key.
pub open spec fn sorted_keys<V>(s: Seq<(Seq<char>, V)>) -> bool {
    forall|i: int, j: int| 0 <= i < j < s.len() ==> chars_lt(#[trigger] s[i].0, #[trigger] s[j].0)
}

/// Whether some entry carries key `k`.
pub open spec fn has_key<V>(s: Seq<(Seq<char>, V)>, k: Seq<char>) -> bool {
    exists|i: int| 0 <= i < s.len() && #[trigger] s[i].0 == k
}

/// The map that a sequence of entries with distinct keys stands for.
pub open spec fn entries_map<V>(s: Seq<(Seq<char>, V)>) -> Map<Seq<char>, V> {
    Map::new(
        |k: Seq<char>| has_key(s, k),
        |k: Seq<char>| s[choose|i: int| 0 <= i < s.len() && #[trigger] s[i].0 == k].1,
    )
}

/// The entries of `m` in ascending key order.
pub open spec fn map_entries<V>(m: Map<Seq<char>, V>) -> Seq<(Seq<char>, V)> {
    choose|s: Seq<(Seq<char>, V)>| sorted_keys(s) && entries_map(s) == m
}

/// A map from string keys to values, iterated in ascending key order.
pub struct KeyMap<V> {
    entries: Vec<(String, V)>,
}

impl<V> KeyMap<V> {
    /// The entries in iteration (ascending key) order.
    pub closed spec fn entries(&self) -> Seq<(Seq<char>, V)> {
        self.entries@.map_values(|e: (String, V)| (e.0@, e.1))
    }

    #[verifier::type_invariant]
    closed spec fn inv(&self) -> bool {
        sorted_keys(self.entries())
    }

    /// An empty map.
    pub fn new() -> (m: Self)
        ensures
            m.entries() == Seq::<(Seq<char>, V)>::empty(),
            m@ == Map::<Seq<char>, V>::empty(),
    {
        let m = KeyMap { entries: Vec::new() };
        assert(m.entries() =~= Seq::<(Seq<char>, V)>::empty());
        assert(m@ =~= Map::<Seq<char>, V>::empty());
        m
    }

    /// The number of entries.
    pub fn len(&self) -> (n: usize)
        ensures
            n == self.entries().len(),
            sorted_keys(self.entries()),
            self@ == entries_map(self.entries()),
            self.entries() == map_entries(self@),
            forall|i: int| 0 <= i < self.entries().len() ==> {
                &&& self@.contains_key(#[trigger] self.entries()[i].0)
                &&& self@[self.entries()[i].0] == self.entries()[i].1
            },
    {
        proof {
            use_type_invariant(self);
            lemma_map_entries(self.entries());
            assert forall|i: int| 0 <= i < self.entries().len() implies {
                &&& self@.contains_key(#[trigger] self.entries()[i].0)
                &&& self@[self.entries()[i].0] == self.entries()[i].1
            } by {
                lemma_entries_map_index(self.entries(), i);
            }
        }
        self.entries.len()
    }

    /// The key and value of the `i`-th entry in key order.
    pub fn entry(&self, i: usize) -> (r: (&String, &V))
        requires
            i < self.entries().len(),
        ensures
            r.0@ == self.entries()[i as int].0,
            *r.1 == self.entries()[i as int].1,
    {
        let e = &self.entries[i];
        (&e.0, &e.1)
    }

    /// The position of the first entry whose key is not below `key`.
    fn lower_bound(&self, key: &str) -> (r: usize)
        ensures
            r <= self.entries().len(),
            forall|j: int| 0 <= j < r ==> chars_lt(#[trigger] self.entries()[j].0, key@),
            r < self.entries().len() ==> !chars_lt(self.entries()[r as int].0, key@),
    {
        let mut i: usize = 0;
        while i < self.entries.len()
            invariant
                i <= self.entries().len(),
                self.entries().len() == self.entries@.len(),
                forall|j: int| 0 <= j < i ==> chars_lt(#[trigger] self.entries()[j].0, key@),
            decreases self.entries@.len() - i,
        {
            if !str_less(self.entries[i].0.as_str(), key) {
                return i;
            }
            i = i + 1;
        }
        i
    }

    /// The value at `key`, if any.
    pub fn get(&self, key: &str) -> (r: Option<&V>)
        ensures
            r is Some <==> self@.contains_key(key@),
            r matches Some(v) ==> *v == self@[key@],
    {
        proof {
            use_type_invariant(self);
            lemma_lt_order();
        }
        let i = self.lower_bound(key);
        if i < self.entries.len() && str_equal(self.entries[i].0.as_str(), key) {
            proof { lemma_entries_map_index(self.entries(), i as int); }
            Some(&self.entries[i].1)
        } else {
            proof {
                assert forall|j: int| 0 <= j < self.entries().len() implies
                    #[trigger] self.entries()[j].0 != key@ by {
                    if j >= i as int && j > i as int {
                        assert(chars_lt(self.entries()[i as int].0, self.entries()[j].0));
                    }
                }
            }
            None
        }
    }

    /// Whether `key` is present.
    pub fn contains_key(&self, key: &str) -> (r: bool)
        ensures
            r == self@.contains_key(key@),
    {
        self.get(key).is_some()
    }

    /// Sets the value at `key`, replacing any earlier one.
    pub fn insert(&mut self, key: String, value: V)
        ensures
            final(self)@ == old(self)@.insert(key@, value),
    {
        proof {
            use_type_invariant(&*self);
            lemma_lt_order();
        }
        let ghost old_entries = self.entries();
        let ghost k = key@;
        let i = self.lower_bound(key.as_str());
        let found = i < self.entries.len() && str_equal(self.entries[i].0.as_str(), key.as_str());
        let mut entries: Vec<(String, V)> = Vec::new();
        std::mem::swap(&mut entries, &mut self.entries);
        assert(entries@.map_values(|e: (String, V)| (e.0@, e.1)) == old_entries);
        if found {
            entries.set(i, (key, value));
            proof {
                let s = entries@.map_values(|e: (String, V)| (e.0@, e.1));
                assert(s =~= old_entries.update(i as int, (k, value)));
                lemma_entries_map_update(old_entries, i as int, value);
            }
        } else {
            entries.insert(i, (key, value));
            proof {
                let s = entries@.map_values(|e: (String, V)| (e.0@, e.1));
                assert(s =~= old_entries.insert(i as int, (k, value)));
                assert forall|a: int, b: int| 0 <= a < b < s.len() implies
                    chars_lt(#[trigger] s[a].0, #[trigger] s[b].0) by {
                    if b == i as int {
                        assert(chars_lt(old_entries[a].0, k));
                    } else if a == i as int {
                        if i < old_entries.len() {
                            assert(chars_lt(k, old_entries[i as int].0));
                            if b - 1 != i as int {
                                assert(chars_lt(old_entries[i as int].0, old_entries[b - 1].0));
                            }
                        }
                    }
                }
                lemma_entries_map_insert(old_entries, i as int, k, value);
            }
        }
        self.entries = entries;
    }
}

impl<V> View for KeyMap<V> {
    type V = Map<Seq<char>, V>;

    closed spec fn view(&self) -> Map<Seq<char>, V> {
        entries_map(self.entries())
    }
}

/// In a key-sorted sequence, an entry's value is the map's value at its key.
pub proof fn lemma_entries_map_index<V>(s: Seq<(Seq<char>, V)>, i: int)
    requires
        sorted_keys(s),
        0 <= i < s.len(),
    ensures
        entries_map(s).contains_key(s[i].0),
        entries_map(s)[s[i].0] == s[i].1,
{
    lemma_lt_order();
    assert(s[i].0 == s[i].0);
    assert(has_key(s, s[i].0));
    let j = choose|j: int| 0 <= j < s.len() && #[trigger] s[j].0 == s[i].0;
    if j != i {
        if j < i {
            assert(chars_lt(s[j].0, s[i].0));
        } else {
            assert(chars_lt(s[i].0, s[j].0));
        }
    }
}

/// A key-sorted sequence of entries is the only one for its map.
pub proof fn lemma_map_entries<V>(s: Seq<(Seq<char>, V)>)
    requires
        sorted_keys(s),
    ensures
        map_entries(entries_map(s)) == s,
{
    let t = map_entries(entries_map(s));
    assert(sorted_keys(s) && entries_map(s) == entries_map(s));
    lemma_sorted_entries_unique(t, s);
}

proof fn lemma_entries_map_drop_first<V>(s: Seq<(Seq<char>, V)>)
    requires
        sorted_keys(s),
        s.len() > 0,
    ensures
        sorted_keys(s.drop_first()),
        entries_map(s.drop_first()) == entries_map(s).remove(s[0].0),
{
    lemma_lt_order();
    let d = s.drop_first();
    assert(sorted_keys(d)) by {
        assert forall|a: int, b: int| 0 <= a < b < d.len() implies chars_lt(#[trigger] d[a].0, #[trigger] d[b].0) by {
            assert(d[a] == s[a + 1] && d[b] == s[b + 1]);
        }
    }
    let m = entries_map(d);
    let n = entries_map(s).remove(s[0].0);
    assert forall|k: Seq<char>| m.contains_key(k) <==> n.contains_key(k) by {
        if m.contains_key(k) {
            let j = choose|j: int| 0 <= j < d.len() && #[trigger] d[j].0 == k;
            assert(s[j + 1].0 == k);
            assert(chars_lt(s[0].0, s[j + 1].0));
        }
        if n.contains_key(k) {
            let j = choose|j: int| 0 <= j < s.len() && #[trigger] s[j].0 == k;
            assert(j != 0);
            assert(d[j - 1].0 == k);
        }
    }
    assert forall|k: Seq<char>| m.contains_key(k) implies m[k] == n[k] by {
        let j = choose|j: int| 0 <= j < d.len() && #[trigger] d[j].0 == k;
        lemma_entries_map_index(d, j);
        lemma_entries_map_index(s, j + 1);
        assert(s[j + 1] == d[j]);
        assert(chars_lt(s[0].0, s[j + 1].0));
    }
    assert(m =~= n);
}

proof fn lemma_sorted_entries_unique<V>(s: Seq<(Seq<char>, V)>, t: Seq<(Seq<char>, V)>)
    requires
        sorted_keys(s),
        sorted_keys(t),
        entries_map(s) == entries_map(t),
    ensures
        s == t,
    decreases s.len(),
{
    lemma_lt_order();
    if s.len() == 0 {
        if t.len() > 0 {
            lemma_entries_map_index(t, 0);
            assert(!has_key(s, t[0].0));
        }
        assert(s =~= t);
    } else if t.len() == 0 {
        lemma_entries_map_index(s, 0);
        assert(!has_key(t, s[0].0));
    } else {
        lemma_entries_map_index(s, 0);
        lemma_entries_map_index(t, 0);
        let j = choose|j: int| 0 <= j < t.len() && #[trigger] t[j].0 == s[0].0;
        let i = choose|i: int| 0 <= i < s.len() && #[trigger] s[i].0 == t[0].0;
        if j > 0 {
            assert(chars_lt(t[0].0, t[j].0));
            if i > 0 {
                assert(chars_lt(s[0].0, s[i].0));
            }
        }
        assert(s[0].0 == t[0].0);
        assert(s[0].1 == t[0].1);
        lemma_entries_map_drop_first(s);
        lemma_entries_map_drop_first(t);
        lemma_sorted_entries_unique(s.drop_first(), t.drop_first());
        assert(s =~= seq![s[0]] + s.drop_first());
        assert(t =~= seq![t[0]] + t.drop_first());
    }
}

proof fn lemma_entries_map_update<V>(s: Seq<(Seq<char>, V)>, i: int, v: V)
    requires
        sorted_keys(s),
        0 <= i < s.len(),
    ensures
        sorted_keys(s.update(i, (s[i].0, v))),
        entries_map(s.update(i, (s[i].0, v))) == entries_map(s).insert(s[i].0, v),
{
    let t = s.update(i, (s[i].0, v));
    assert(sorted_keys(t)) by {
        assert forall|a: int, b: int| 0 <= a < b < t.len() implies
            chars_lt(#[trigger] t[a].0, #[trigger] t[b].0) by {
            assert(t[a].0 == s[a].0 && t[b].0 == s[b].0);
        }
    }
    let m = entries_map(t);
    let n = entries_map(s).insert(s[i].0, v);
    assert forall|k: Seq<char>| m.contains_key(k) <==> n.contains_key(k) by {
        if m.contains_key(k) {
            let j = choose|j: int| 0 <= j < t.len() && #[trigger] t[j].0 == k;
            assert(s[j].0 == k);
        }
        if n.contains_key(k) && k != s[i].0 {
            let j = choose|j: int| 0 <= j < s.len() && #[trigger] s[j].0 == k;
            assert(t[j].0 == k);
        }
        if k == s[i].0 {
            assert(t[i].0 == k);
        }
    }
    assert forall|k: Seq<char>| m.contains_key(k) implies m[k] == n[k] by {
        let j = choose|j: int| 0 <= j < t.len() && #[trigger] t[j].0 == k;
        lemma_entries_map_index(t, j);
        if j != i {
            assert(s[j] == t[j]);
            lemma_entries_map_index(s, j);
            lemma_lt_order();
            assert(s[j].0 != s[i].0) by {
                if j < i {
                    assert(chars_lt(s[j].0, s[i].0));
                } else {
                    assert(chars_lt(s[i].0, s[j].0));
                }
            }
        }
    }
    assert(m =~= n);
}

proof fn lemma_entries_map_insert<V>(s: Seq<(Seq<char>, V)>, i: int, k: Seq<char>, v: V)
    requires
        sorted_keys(s.insert(i, (k, v))),
        0 <= i <= s.len(),
    ensures
        entries_map(s.insert(i, (k, v))) == entries_map(s).insert(k, v),
{
    let t = s.insert(i, (k, v));
    assert(sorted_keys(s)) by {
        assert forall|a: int, b: int| 0 <= a < b < s.len() implies
            chars_lt(#[trigger] s[a].0, #[trigger] s[b].0) by {
            let a2 = if a < i { a } else { a + 1 };
            let b2 = if b < i { b } else { b + 1 };
            assert(t[a2] == s[a] && t[b2] == s[b]);
        }
    }
    let m = entries_map(t);
    let n = entries_map(s).insert(k, v);
    assert forall|q: Seq<char>| m.contains_key(q) <==> n.contains_key(q) by {
        if m.contains_key(q) && q != k {
            let j = choose|j: int| 0 <= j < t.len() && #[trigger] t[j].0 == q;
            let j2 = if j < i { j } else { j - 1 };
            assert(s[j2].0 == q);
        }
        if n.contains_key(q) && q != k {
            let j = choose|j: int| 0 <= j < s.len() && #[trigger] s[j].0 == q;
            let j2 = if j < i { j } else { j + 1 };
            assert(t[j2].0 == q);
        }
        if q == k {
            assert(t[i].0 == q);
        }
    }
    assert forall|q: Seq<char>| m.contains_key(q) implies m[q] == n[q] by {
        let j = choose|j: int| 0 <= j < t.len() && #[trigger] t[j].0 == q;
        lemma_entries_map_index(t, j);
        if j != i {
            let j2 = if j < i { j } else { j - 1 };
            assert(s[j2] == t[j]);
            lemma_entries_map_index(s, j2);
            lemma_lt_order();
            assert(t[j].0 != t[i].0) by {
                if j < i {
                    assert(chars_lt(t[j].0, t[i].0));
                } else {
                    assert(chars_lt(t[i].0, t[j].0));
                }
            }
        } else {
            assert(t[i].0 == k);
        }
    }
    assert(m =~= n);
}

} // verus!
