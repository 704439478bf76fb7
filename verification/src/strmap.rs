use vstd::prelude::*;

use crate::strings::{lemma_seq_lt_order, seq_lt, str_equal, str_less};

verus! {

/// Index of the first key equal to `k`.
pub open spec fn key_index_from(keys: Seq<Seq<char>>, k: Seq<char>, i: int) -> Option<int>
    decreases keys.len() - i,
{
    if i < 0 || i >= keys.len() {
        None
    } else if keys[i] == k {
        Some(i)
    } else {
        key_index_from(keys, k, i + 1)
    }
}

pub open spec fn key_index(keys: Seq<Seq<char>>, k: Seq<char>) -> Option<int> {
    key_index_from(keys, k, 0)
}

pub proof fn lemma_key_index_from(keys: Seq<Seq<char>>, k: Seq<char>, i: int)
    requires
        0 <= i <= keys.len(),
    ensures
        key_index_from(keys, k, i) matches Some(j) ==> i <= j < keys.len() && keys[j] == k
            && forall|l: int| i <= l < j ==> keys[l] != k,
        key_index_from(keys, k, i) is None ==> forall|l: int| i <= l < keys.len() ==> keys[l] != k,
    decreases keys.len() - i,
{
    if i < keys.len() {
        lemma_key_index_from(keys, k, i + 1);
    }
}

/// The first index of `k` among `keys`, when there is one.
pub proof fn lemma_key_index(keys: Seq<Seq<char>>, k: Seq<char>)
    ensures
        key_index(keys, k) matches Some(j) ==> 0 <= j < keys.len() && keys[j] == k
            && forall|l: int| 0 <= l < j ==> keys[l] != k,
        key_index(keys, k) is None ==> forall|l: int| 0 <= l < keys.len() ==> keys[l] != k,
{
    lemma_key_index_from(keys, k, 0);
}

/// Where a new key goes: before the first key that sorts after it.
pub open spec fn insert_index_from(keys: Seq<Seq<char>>, k: Seq<char>, i: int) -> int
    decreases keys.len() - i,
{
    if i < 0 || i >= keys.len() {
        keys.len() as int
    } else if seq_lt(k, keys[i]) {
        i
    } else {
        insert_index_from(keys, k, i + 1)
    }
}

pub open spec fn insert_index(keys: Seq<Seq<char>>, k: Seq<char>) -> int {
    insert_index_from(keys, k, 0)
}

pub proof fn lemma_insert_index_from(keys: Seq<Seq<char>>, k: Seq<char>, i: int)
    requires
        0 <= i <= keys.len(),
    ensures
        i <= insert_index_from(keys, k, i) <= keys.len(),
    decreases keys.len() - i,
{
    if i < keys.len() {
        lemma_insert_index_from(keys, k, i + 1);
    }
}

#[derive(Debug, Clone)]
/// A map from strings to values kept as a list of entries in key order,
/// as a `BTreeMap<String, V>` keeps them. The entries are a plain vector so
/// that contracts can speak of their order, which the logic built on it
/// (merges, metadata, headers, JSON objects) depends on; `keys_sorted` is
/// its well-formedness, which `new`, `insert` and `from_pairs` keep.
pub struct StrMap<V> {
    pub entries: Vec<(String, V)>,
}

pub open spec fn entry_keys<V>(es: Seq<(String, V)>) -> Seq<Seq<char>> {
    es.map_values(|e: (String, V)| e.0@)
}

/// The entries after inserting `v` under `k`: an existing key keeps its
/// place and gets the new value; a new key goes to its place in key order.
pub open spec fn entries_insert<V>(es: Seq<(String, V)>, k: String, v: V) -> Seq<(String, V)> {
    match key_index(entry_keys(es), k@) {
        Some(i) => es.update(i, (k, v)),
        None => es.insert(insert_index(entry_keys(es), k@), (k, v)),
    }
}

/// The keys of a list of entries.
pub open spec fn model_keys<V>(es: Seq<(Seq<char>, V)>) -> Seq<Seq<char>> {
    es.map_values(|e: (Seq<char>, V)| e.0)
}

/// The value stored under `k` in a list of entries kept as a map.
pub open spec fn model_get<V>(es: Seq<(Seq<char>, V)>, k: Seq<char>) -> Option<V> {
    match key_index(model_keys(es), k) {
        Some(i) => Some(es[i].1),
        None => None,
    }
}

/// The entries after storing `v` under `k`, as `BTreeMap::insert` leaves them:
/// an existing key keeps its place, a new key goes to its place in key order.
pub open spec fn model_insert<V>(es: Seq<(Seq<char>, V)>, k: Seq<char>, v: V) -> Seq<
    (Seq<char>, V),
> {
    match key_index(model_keys(es), k) {
        Some(i) => es.update(i, (k, v)),
        None => es.insert(insert_index(model_keys(es), k), (k, v)),
    }
}

/// The entries of a map of strings, as character sequences.
pub open spec fn string_map_view(m: StrMap<String>) -> Seq<(Seq<char>, Seq<char>)> {
    string_entries_view(m.entries@)
}

pub open spec fn string_entries_view(es: Seq<(String, String)>) -> Seq<(Seq<char>, Seq<char>)> {
    es.map_values(|e: (String, String)| (e.0@, e.1@))
}

/// The keys of a map of strings, as characters, are its keys.
pub proof fn lemma_string_map_keys(es: Seq<(String, String)>)
    ensures
        model_keys(string_entries_view(es)) == entry_keys(es),
{
    assert(model_keys(string_entries_view(es)) =~= entry_keys(es));
}

/// Inserting into a map of strings is inserting into its view.
pub proof fn lemma_string_map_insert(es: Seq<(String, String)>, k: String, v: String)
    ensures
        string_entries_view(entries_insert(es, k, v)) == model_insert(
            string_entries_view(es),
            k@,
            v@,
        ),
        model_keys(string_entries_view(es)) == entry_keys(es),
{
    let ve = string_entries_view(es);
    assert(model_keys(ve) =~= entry_keys(es));
    lemma_key_index(entry_keys(es), k@);
    match key_index(entry_keys(es), k@) {
        Some(i) => {
            assert(string_entries_view(entries_insert(es, k, v)) =~= ve.update(i, (k@, v@)));
        },
        None => {
            lemma_insert_index_from(entry_keys(es), k@, 0);
            let p = insert_index(entry_keys(es), k@);
            assert(string_entries_view(entries_insert(es, k, v)) =~= ve.insert(p, (k@, v@)));
        },
    }
}

impl<V> StrMap<V> {
    pub open spec fn keys(self) -> Seq<Seq<char>> {
        entry_keys(self.entries@)
    }

    /// An empty map.
    pub fn new() -> (r: Self)
        ensures
            r.entries@.len() == 0,
            keys_sorted(r.keys()),
    {
        StrMap { entries: Vec::new() }
    }

    pub fn len(&self) -> (r: usize)
        ensures
            r == self.entries@.len(),
    {
        self.entries.len()
    }

    /// Position of the entry whose key is `k`.
    pub fn find(&self, k: &str) -> (r: Option<usize>)
        ensures
            r matches Some(i) ==> key_index(self.keys(), k@) == Some(i as int) && i
                < self.entries@.len(),
            r is None ==> key_index(self.keys(), k@) is None,
    {
        proof {
            lemma_key_index(self.keys(), k@);
        }
        let mut i: usize = 0;
        while i < self.entries.len()
            invariant
                i <= self.entries@.len(),
                key_index(self.keys(), k@) == key_index_from(self.keys(), k@, i as int),
            decreases self.entries@.len() - i,
        {
            if str_equal(self.entries[i].0.as_str(), k) {
                return Some(i);
            }
            i = i + 1;
        }
        None
    }

    /// The value stored under `k`.
    pub fn get(&self, k: &str) -> (r: Option<&V>)
        ensures
            match key_index(self.keys(), k@) {
                Some(i) => r == Some(&self.entries@[i].1),
                None => r is None,
            },
    {
        match self.find(k) {
            Some(i) => Some(&self.entries[i].1),
            None => None,
        }
    }

    fn insert_position(&self, k: &str) -> (r: usize)
        ensures
            r == insert_index(self.keys(), k@),
            r <= self.entries@.len(),
    {
        proof {
            lemma_insert_index_from(self.keys(), k@, 0);
        }
        let mut i: usize = 0;
        while i < self.entries.len()
            invariant
                i <= self.entries@.len(),
                insert_index(self.keys(), k@) == insert_index_from(self.keys(), k@, i as int),
            decreases self.entries@.len() - i,
        {
            if str_less(k, self.entries[i].0.as_str()) {
                return i;
            }
            i = i + 1;
        }
        i
    }

    /// Store `v` under `k`, replacing the value already stored there. Keys
    /// kept in ascending order stay so.
    pub fn insert(&mut self, k: String, v: V)
        ensures
            final(self).entries@ == entries_insert(old(self).entries@, k, v),
            keys_sorted(old(self).keys()) ==> keys_sorted(final(self).keys()),
    {
        proof {
            if keys_sorted(self.keys()) {
                law_strmap_insert_keeps_keys_sorted(self.entries@, k, v);
            }
        }
        match self.find(k.as_str()) {
            Some(i) => {
                self.entries.set(i, (k, v));
            },
            None => {
                let p = self.insert_position(k.as_str());
                self.entries.insert(p, (k, v));
            },
        }
    }
}

} // verus!

verus! {

/// `key_index` is the first position holding `k`.
pub proof fn lemma_key_index_unique(keys: Seq<Seq<char>>, k: Seq<char>, j: int)
    requires
        0 <= j < keys.len(),
        keys[j] == k,
        forall|l: int| 0 <= l < j ==> keys[l] != k,
    ensures
        key_index(keys, k) == Some(j),
{
    lemma_key_index(keys, k);
    match key_index(keys, k) {
        Some(i) => {
            if i < j {
            } else if i > j {
            }
        },
        None => {},
    }
}

/// Reading back what was stored: the key stored reads the new value, any
/// other key reads what it read before.
pub proof fn lemma_model_insert_get<V>(es: Seq<(Seq<char>, V)>, k: Seq<char>, v: V, k2: Seq<char>)
    ensures
        model_get(model_insert(es, k, v), k) == Some(v),
        k2 != k ==> model_get(model_insert(es, k, v), k2) == model_get(es, k2),
{
    let keys = model_keys(es);
    let r = model_insert(es, k, v);
    let rk = model_keys(r);
    lemma_key_index(keys, k);
    lemma_key_index(keys, k2);
    match key_index(keys, k) {
        Some(i) => {
            assert(rk =~= keys.update(i, k));
            lemma_key_index_unique(rk, k, i);
            if k2 != k {
                match key_index(keys, k2) {
                    Some(j) => {
                        lemma_key_index_unique(rk, k2, j);
                    },
                    None => {
                        lemma_key_index(rk, k2);
                    },
                }
            }
        },
        None => {
            let p = insert_index(keys, k);
            lemma_insert_index_from(keys, k, 0);
            assert(rk =~= keys.insert(p, k));
            lemma_key_index_unique(rk, k, p);
            if k2 != k {
                match key_index(keys, k2) {
                    Some(j) => {
                        if j < p {
                            lemma_key_index_unique(rk, k2, j);
                        } else {
                            assert forall|l: int| 0 <= l < j + 1 implies rk[l] != k2 by {
                                if l < p {
                                    assert(rk[l] == keys[l]);
                                } else if l > p {
                                    assert(rk[l] == keys[l - 1]);
                                }
                            }
                            lemma_key_index_unique(rk, k2, j + 1);
                            assert(r[j + 1] == es[j]);
                        }
                    },
                    None => {
                        lemma_key_index(rk, k2);
                        assert forall|l: int| 0 <= l < rk.len() implies rk[l] != k2 by {
                            if l < p {
                                assert(rk[l] == keys[l]);
                            } else if l > p {
                                assert(rk[l] == keys[l - 1]);
                            }
                        }
                    },
                }
            }
        },
    }
}

} // verus!

verus! {

/// The entries after inserting the first `n` pairs, one after the other.
pub open spec fn pairs_inserted<V>(pairs: Seq<(String, V)>, n: int) -> Seq<(String, V)>
    decreases n,
{
    if n <= 0 || n > pairs.len() {
        Seq::empty()
    } else {
        entries_insert(pairs_inserted(pairs, n - 1), pairs[n - 1].0, pairs[n - 1].1)
    }
}

impl<V> StrMap<V> {
    /// A map holding the given pairs, inserted in order (a later pair with
    /// the same key replaces an earlier one), as `BTreeMap::from` builds it.
    pub fn from_pairs(pairs: Vec<(String, V)>) -> (r: Self)
        ensures
            r.entries@ == pairs_inserted(pairs@, pairs@.len() as int),
            keys_sorted(r.keys()),
    {
        let ghost ps = pairs@;
        let mut m = StrMap::new();
        let n = pairs.len();
        let mut rest = pairs;
        let mut i: usize = 0;
        assert(ps.skip(0) =~= ps);
        while rest.len() > 0
            invariant
                i + rest@.len() == ps.len(),
                ps.len() == n,
                rest@ == ps.skip(i as int),
                m.entries@ == pairs_inserted(ps, i as int),
                keys_sorted(m.keys()),
            decreases rest@.len(),
        {
            let (k, v) = rest.remove(0);
            assert((k, v) == ps[i as int]);
            assert(rest@ =~= ps.skip(i + 1));
            m.insert(k, v);
            i = i + 1;
        }
        m
    }
}

} // verus!

verus! {

/// Keys in strictly ascending order: each key sorts before every later one,
/// so no key occurs twice. This is how a `BTreeMap` holds its keys.
pub open spec fn keys_sorted(keys: Seq<Seq<char>>) -> bool {
    forall|i: int, j: int| 0 <= i < j < keys.len() ==> seq_lt(#[trigger] keys[i], #[trigger] keys[j])
}

proof fn lemma_insert_index_bounds(keys: Seq<Seq<char>>, k: Seq<char>, i: int)
    requires
        0 <= i <= keys.len(),
    ensures
        forall|l: int| i <= l < insert_index_from(keys, k, i) ==> !seq_lt(k, #[trigger] keys[l]),
        insert_index_from(keys, k, i) < keys.len() ==> seq_lt(k, keys[insert_index_from(keys, k, i)]),
    decreases keys.len() - i,
{
    if i < keys.len() {
        lemma_insert_index_bounds(keys, k, i + 1);
    }
}

/// Inserting keeps the keys strictly ascending: an existing key keeps its
/// place, and a new key goes after every smaller key and before every
/// larger one.
pub proof fn law_insert_keeps_keys_sorted<V>(es: Seq<(Seq<char>, V)>, k: Seq<char>, v: V)
    requires
        keys_sorted(model_keys(es)),
    ensures
        keys_sorted(model_keys(model_insert(es, k, v))),
{
    let keys = model_keys(es);
    let r = model_insert(es, k, v);
    let rk = model_keys(r);
    lemma_key_index(keys, k);
    match key_index(keys, k) {
        Some(i) => {
            assert(rk =~= keys);
        },
        None => {
            let p = insert_index(keys, k);
            lemma_insert_index_from(keys, k, 0);
            lemma_insert_index_bounds(keys, k, 0);
            assert(rk =~= keys.insert(p, k));
            assert forall|i: int, j: int| 0 <= i < j < rk.len() implies seq_lt(
                #[trigger] rk[i],
                #[trigger] rk[j],
            ) by {
                if i < p && j < p {
                    assert(seq_lt(keys[i], keys[j]));
                } else if i < p && j == p {
                    lemma_seq_lt_order(keys[i], k, k);
                    assert(!seq_lt(k, keys[i]));
                    assert(keys[i] != k);
                } else if i < p {
                    assert(seq_lt(keys[i], keys[j - 1]));
                } else if i == p {
                    assert(seq_lt(k, keys[p]));
                    if j - 1 > p {
                        assert(seq_lt(keys[p], keys[j - 1]));
                        lemma_seq_lt_order(k, keys[p], keys[j - 1]);
                    }
                } else {
                    assert(seq_lt(keys[i - 1], keys[j - 1]));
                }
            }
        },
    }
}

/// The same for the entries of a map: `StrMap::insert` keeps its keys
/// strictly ascending.
pub proof fn law_strmap_insert_keeps_keys_sorted<V>(es: Seq<(String, V)>, k: String, v: V)
    requires
        keys_sorted(entry_keys(es)),
    ensures
        keys_sorted(entry_keys(entries_insert(es, k, v))),
{
    let keys = entry_keys(es);
    let me = keys.map_values(|s: Seq<char>| (s, 0int));
    assert(model_keys(me) =~= keys);
    law_insert_keeps_keys_sorted(me, k@, 0int);
    let r = entries_insert(es, k, v);
    let mr = model_insert(me, k@, 0int);
    lemma_key_index(keys, k@);
    match key_index(keys, k@) {
        Some(i) => {
            assert(entry_keys(r) =~= keys.update(i, k@));
            assert(entry_keys(r) =~= model_keys(mr));
        },
        None => {
            lemma_insert_index_from(keys, k@, 0);
            assert(entry_keys(r) =~= keys.insert(insert_index(keys, k@), k@));
            assert(entry_keys(r) =~= model_keys(mr));
        },
    }
}

} // verus!

verus! {

/// Appending a different key does not change where `k` is found.
pub proof fn lemma_key_index_push(keys: Seq<Seq<char>>, last: Seq<char>, k: Seq<char>)
    requires
        k != last,
    ensures
        key_index(keys.push(last), k) == key_index(keys, k),
{
    let ks = keys.push(last);
    lemma_key_index(keys, k);
    lemma_key_index(ks, k);
    match key_index(keys, k) {
        Some(j) => {
            lemma_key_index_unique(ks, k, j);
        },
        None => {
            assert forall|l: int| 0 <= l < ks.len() implies ks[l] != k by {
                if l < keys.len() {
                    assert(ks[l] == keys[l]);
                }
            }
        },
    }
}

/// In strictly ascending keys, a key is found at its own position.
pub proof fn lemma_sorted_key_index(keys: Seq<Seq<char>>, j: int)
    requires
        keys_sorted(keys),
        0 <= j < keys.len(),
    ensures
        key_index(keys, keys[j]) == Some(j),
{
    assert forall|l: int| 0 <= l < j implies keys[l] != keys[j] by {
        assert(seq_lt(keys[l], keys[j]));
        lemma_seq_lt_order(keys[l], keys[l], keys[l]);
    }
    lemma_key_index_unique(keys, keys[j], j);
}

proof fn lemma_sorted_drop_last<V>(es: Seq<(Seq<char>, V)>)
    requires
        keys_sorted(model_keys(es)),
        es.len() > 0,
    ensures
        keys_sorted(model_keys(es.drop_last())),
        model_keys(es) == model_keys(es.drop_last()).push(es.last().0),
        model_get(es, es.last().0) == Some(es.last().1),
        model_get(es.drop_last(), es.last().0) is None,
        forall|k: Seq<char>| k != es.last().0 ==> model_get(es.drop_last(), k) == #[trigger] model_get(es, k),
        forall|k: Seq<char>| #[trigger] model_get(es, k) is Some ==> k == es.last().0 || seq_lt(k, es.last().0),
{
    let keys = model_keys(es);
    let init = es.drop_last();
    let ik = model_keys(init);
    assert(keys =~= ik.push(es.last().0));
    assert forall|i: int, j: int| 0 <= i < j < ik.len() implies seq_lt(#[trigger] ik[i], #[trigger] ik[j]) by {
        assert(ik[i] == keys[i] && ik[j] == keys[j]);
    }
    lemma_sorted_key_index(keys, keys.len() - 1);
    lemma_key_index(ik, es.last().0);
    if let Some(l) = key_index(ik, es.last().0) {
        assert(seq_lt(keys[l], keys[keys.len() - 1]));
        lemma_seq_lt_order(keys[l], keys[l], keys[l]);
    }
    assert forall|k: Seq<char>| k != es.last().0 implies model_get(init, k) == #[trigger] model_get(es, k) by {
        lemma_key_index_push(ik, es.last().0, k);
        lemma_key_index(ik, k);
        if let Some(j) = key_index(ik, k) {
            assert(init[j] == es[j]);
        }
    }
    assert forall|k: Seq<char>| #[trigger] model_get(es, k) is Some implies k == es.last().0 || seq_lt(
        k,
        es.last().0,
    ) by {
        lemma_key_index(keys, k);
        let j = key_index(keys, k)->0;
        if j < keys.len() - 1 {
            assert(seq_lt(keys[j], keys[keys.len() - 1]));
        }
    }
}

/// Two lists of entries with strictly ascending keys that read the same
/// value at every key are the same list.
pub proof fn lemma_sorted_entries_eq<V>(a: Seq<(Seq<char>, V)>, b: Seq<(Seq<char>, V)>)
    requires
        keys_sorted(model_keys(a)),
        keys_sorted(model_keys(b)),
        forall|k: Seq<char>| #[trigger] model_get(a, k) == model_get(b, k),
    ensures
        a == b,
    decreases a.len() + b.len(),
{
    if a.len() == 0 && b.len() == 0 {
        assert(a =~= b);
    } else if a.len() == 0 {
        lemma_sorted_key_index(model_keys(b), 0);
        assert(model_get(b, b[0].0) is Some);
        assert(model_get(a, b[0].0) is None);
    } else if b.len() == 0 {
        lemma_sorted_key_index(model_keys(a), 0);
        assert(model_get(a, a[0].0) is Some);
        assert(model_get(b, a[0].0) is None);
    } else {
        let ka = a.last().0;
        let kb = b.last().0;
        lemma_sorted_drop_last(a);
        lemma_sorted_drop_last(b);
        assert(model_get(b, ka) is Some);
        assert(model_get(a, kb) is Some);
        if ka != kb {
            assert(seq_lt(ka, kb) && seq_lt(kb, ka));
            lemma_seq_lt_order(ka, kb, ka);
        }
        assert forall|k: Seq<char>| #[trigger] model_get(a.drop_last(), k) == model_get(b.drop_last(), k) by {
            if k != ka {
                assert(model_get(a, k) == model_get(b, k));
            }
        }
        lemma_sorted_entries_eq(a.drop_last(), b.drop_last());
        assert(model_get(a, ka) == model_get(b, kb));
        assert(a =~= a.drop_last().push(a.last()));
        assert(b =~= b.drop_last().push(b.last()));
    }
}

} // verus!
