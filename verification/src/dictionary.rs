//! Dictionaries keyed by name.
//!
//! A `Dictionary` keeps its entries in a vector, in the strict order of their
//! keys, so that no key occurs twice and walking the entries visits the keys
//! in ascending order.

use vstd::prelude::*;
use crate::order::{compare_names, lemma_name_lt_transitive, lemma_name_order_total, name_lt, NameOrder};

verus! {

/// One entry of a dictionary.
pub struct Entry<V> {
    pub key: String,
    pub value: V,
}

/// A dictionary from names to values of type `V`, ordered by name.
pub struct Dictionary<V> {
    entries: Vec<Entry<V>>,
}

/// The keys of `keys` ascend strictly.
pub open spec fn strictly_ascending(keys: Seq<Seq<char>>) -> bool {
    forall|i: int, j: int| 0 <= i < j < keys.len() ==> name_lt(#[trigger] keys[i], #[trigger] keys[j])
}

/// In a strictly ascending sequence every key stands at one index only.
pub proof fn lemma_ascending_keys_distinct(keys: Seq<Seq<char>>, i: int, j: int)
    requires
        strictly_ascending(keys),
        0 <= i < keys.len(),
        0 <= j < keys.len(),
        keys[i] == keys[j],
    ensures
        i == j,
{
    if i < j {
        lemma_name_order_total(keys[i], keys[j]);
    } else if j < i {
        lemma_name_order_total(keys[j], keys[i]);
    }
}

/// The keys of `entries`, in order.
pub open spec fn keys_of<T>(entries: Seq<(Seq<char>, T)>) -> Seq<Seq<char>> {
    entries.map_values(|e: (Seq<char>, T)| e.0)
}

/// `entries` holds the pairs of `map`, each once, in the strict order of the
/// keys.
pub open spec fn arranges<T>(entries: Seq<(Seq<char>, T)>, map: Map<Seq<char>, T>) -> bool {
    &&& strictly_ascending(keys_of(entries))
    &&& forall|i: int|
        0 <= i < entries.len() ==> map.contains_pair((#[trigger] entries[i]).0, entries[i].1)
    &&& forall|k: Seq<char>| #[trigger]
        map.contains_key(k) ==> exists|i: int| 0 <= i < entries.len() && (#[trigger] entries[i]).0 == k
}

/// The pairs of `map` in the strict order of the keys.
pub open spec fn arrangement<T>(map: Map<Seq<char>, T>) -> Seq<(Seq<char>, T)> {
    choose|entries: Seq<(Seq<char>, T)>| arranges(entries, map)
}

/// A map has one arrangement only.
pub proof fn lemma_arrangement_unique<T>(a: Seq<(Seq<char>, T)>, b: Seq<(Seq<char>, T)>, map: Map<Seq<char>, T>)
    requires
        arranges(a, map),
        arranges(b, map),
    ensures
        a == b,
    decreases a.len(),
{
    if a.len() == 0 {
        if b.len() > 0 {
            assert(map.contains_pair(b[0].0, b[0].1));
            assert(map.contains_key(b[0].0));
        }
        assert(a =~= b);
    } else {
        let x = a.last();
        let last_a = a.len() - 1;
        assert(map.contains_pair(a[last_a].0, a[last_a].1));
        assert(map.contains_key(x.0));
        let j = choose|j: int| 0 <= j < b.len() && (#[trigger] b[j]).0 == x.0;
        let y = b.last();
        let last_b = b.len() - 1;
        assert(map.contains_pair(b[last_b].0, b[last_b].1));
        assert(map.contains_key(y.0));
        let i = choose|i: int| 0 <= i < a.len() && (#[trigger] a[i]).0 == y.0;
        assert(keys_of(a)[i] == y.0 && keys_of(a)[last_a] == x.0);
        assert(keys_of(b)[j] == x.0 && keys_of(b)[last_b] == y.0);
        if j < last_b {
            lemma_name_order_total(x.0, y.0);
            if i < last_a {
                assert(name_lt(keys_of(a)[i], keys_of(a)[last_a]));
            }
            assert(false);
        }
        assert(x == y);
        let rest = map.remove(x.0);
        let a0 = a.drop_last();
        let b0 = b.drop_last();
        assert(arranges(a0, rest)) by {
            lemma_drop_last_arranges(a, map);
        }
        assert(arranges(b0, rest)) by {
            lemma_drop_last_arranges(b, map);
        }
        lemma_arrangement_unique(a0, b0, rest);
        assert(a =~= a0.push(x));
        assert(b =~= b0.push(y));
    }
}

/// Without its last entry an arrangement arranges the map without the key of
/// that entry.
proof fn lemma_drop_last_arranges<T>(a: Seq<(Seq<char>, T)>, map: Map<Seq<char>, T>)
    requires
        arranges(a, map),
        a.len() > 0,
    ensures
        arranges(a.drop_last(), map.remove(a.last().0)),
{
    let a0 = a.drop_last();
    let last = a.len() - 1;
    let rest = map.remove(a.last().0);
    assert(keys_of(a0) =~= keys_of(a).drop_last());
    assert forall|i: int| 0 <= i < a0.len() implies rest.contains_pair((#[trigger] a0[i]).0, a0[i].1) by {
        assert(a0[i] == a[i]);
        assert(map.contains_pair(a[i].0, a[i].1));
        assert(keys_of(a)[i] == a[i].0 && keys_of(a)[last] == a[last].0);
        lemma_name_order_total(a[i].0, a[last].0);
    }
    assert forall|k: Seq<char>| #[trigger] rest.contains_key(k) implies exists|i: int|
        0 <= i < a0.len() && (#[trigger] a0[i]).0 == k by {
        assert(map.contains_key(k));
        let i = choose|i: int| 0 <= i < a.len() && (#[trigger] a[i]).0 == k;
        assert(a0[i] == a[i]);
    }
}

/// The arrangement of a map is any sequence that arranges it.
pub proof fn lemma_arrangement<T>(entries: Seq<(Seq<char>, T)>, map: Map<Seq<char>, T>)
    requires
        arranges(entries, map),
    ensures
        arrangement(map) == entries,
{
    lemma_arrangement_unique(arrangement(map), entries, map);
}

/// How many keys at the beginning of `keys` come before `key`.
pub open spec fn keys_before(keys: Seq<Seq<char>>, key: Seq<char>) -> nat
    decreases keys.len(),
{
    if keys.len() > 0 && name_lt(keys[0], key) {
        1 + keys_before(keys.skip(1), key)
    } else {
        0
    }
}

/// In ascending keys that do not hold `key`, the keys that come before `key`
/// stand at the beginning and all the others come after it.
proof fn lemma_keys_before(keys: Seq<Seq<char>>, key: Seq<char>)
    requires
        strictly_ascending(keys),
        !keys.contains(key),
    ensures
        keys_before(keys, key) <= keys.len(),
        forall|i: int| 0 <= i < keys_before(keys, key) ==> name_lt(#[trigger] keys[i], key),
        forall|i: int| keys_before(keys, key) <= i < keys.len() ==> name_lt(key, #[trigger] keys[i]),
    decreases keys.len(),
{
    if keys.len() > 0 {
        let rest = keys.skip(1);
        assert forall|i: int, j: int| 0 <= i < j < rest.len() implies name_lt(
            #[trigger] rest[i],
            #[trigger] rest[j],
        ) by {
            assert(rest[i] == keys[i + 1] && rest[j] == keys[j + 1]);
        }
        assert(!rest.contains(key)) by {
            if rest.contains(key) {
                let i = choose|i: int| 0 <= i < rest.len() && rest[i] == key;
                assert(keys[i + 1] == key);
            }
        }
        if name_lt(keys[0], key) {
            lemma_keys_before(rest, key);
            let p = keys_before(keys, key) as int;
            assert forall|i: int| 0 <= i < p implies name_lt(#[trigger] keys[i], key) by {
                if i > 0 {
                    assert(keys[i] == rest[i - 1]);
                }
            }
            assert forall|i: int| p <= i < keys.len() implies name_lt(key, #[trigger] keys[i]) by {
                assert(keys[i] == rest[i - 1]);
            }
        } else {
            assert(keys[0] != key);
            lemma_name_order_total(keys[0], key);
            assert forall|i: int| 0 <= i < keys.len() implies name_lt(key, #[trigger] keys[i]) by {
                if i > 0 {
                    lemma_name_lt_transitive(key, keys[0], keys[i]);
                }
            }
        }
    }
}

/// Every map with finitely many keys has an arrangement.
pub proof fn lemma_arrangement_exists<T>(map: Map<Seq<char>, T>)
    requires
        map.dom().finite(),
    ensures
        arranges(arrangement(map), map),
    decreases map.dom().len(),
{
    if map.dom().len() == 0 {
        let none = Seq::<(Seq<char>, T)>::empty();
        assert forall|k: Seq<char>| #[trigger] map.contains_key(k) implies exists|i: int|
            0 <= i < none.len() && (#[trigger] none[i]).0 == k by {
            assert(map.dom().contains(k));
            assert(map.dom().len() > 0) by {
                vstd::set_lib::lemma_set_empty_equivalency_len(map.dom());
            }
        }
        assert(arranges(none, map));
    } else {
        let key = map.dom().choose();
        assert(map.dom().contains(key));
        let rest = map.remove(key);
        lemma_arrangement_exists(rest);
        let front = arrangement(rest);
        let keys = keys_of(front);
        assert(!keys.contains(key)) by {
            if keys.contains(key) {
                let i = choose|i: int| 0 <= i < keys.len() && keys[i] == key;
                assert(rest.contains_pair(front[i].0, front[i].1));
            }
        }
        lemma_keys_before(keys, key);
        let p = keys_before(keys, key) as int;
        let all = front.insert(p, (key, map[key]));
        assert(keys_of(all) =~= keys.insert(p, key));
        assert forall|i: int, j: int| 0 <= i < j < keys_of(all).len() implies name_lt(
            #[trigger] keys_of(all)[i],
            #[trigger] keys_of(all)[j],
        ) by {
            if j < p {
                assert(keys_of(all)[i] == keys[i] && keys_of(all)[j] == keys[j]);
            } else if j == p {
                assert(keys_of(all)[i] == keys[i]);
            } else if i < p {
                assert(keys_of(all)[i] == keys[i] && keys_of(all)[j] == keys[j - 1]);
            } else if i == p {
                assert(keys_of(all)[j] == keys[j - 1]);
            } else {
                assert(keys_of(all)[i] == keys[i - 1] && keys_of(all)[j] == keys[j - 1]);
            }
        }
        assert forall|i: int| 0 <= i < all.len() implies map.contains_pair((#[trigger] all[i]).0, all[i].1) by {
            if i < p {
                assert(all[i] == front[i]);
                assert(rest.contains_pair(front[i].0, front[i].1));
            } else if i > p {
                assert(all[i] == front[i - 1]);
                assert(rest.contains_pair(front[i - 1].0, front[i - 1].1));
            }
        }
        assert forall|k: Seq<char>| #[trigger] map.contains_key(k) implies exists|i: int|
            0 <= i < all.len() && (#[trigger] all[i]).0 == k by {
            if k == key {
                assert(all[p].0 == k);
            } else {
                assert(rest.contains_key(k));
                let i = choose|i: int| 0 <= i < front.len() && (#[trigger] front[i]).0 == k;
                if i < p {
                    assert(all[i].0 == k);
                } else {
                    assert(all[i + 1].0 == k);
                }
            }
        }
        assert(arranges(all, map));
    }
}

impl<V> Dictionary<V> {
    /// The entries of a dictionary are the arrangement of its map.
    pub proof fn lemma_entries_arrange(&self)
        requires
            self.wf(),
        ensures
            arranges(self.entries(), self@),
            self.entries() == arrangement(self@),
    {
        assert(keys_of(self.entries()) == self.keys());
        assert forall|i: int| 0 <= i < self.entries().len() implies self@.contains_pair(
            (#[trigger] self.entries()[i]).0,
            self.entries()[i].1,
        ) by {
            self.lemma_entry_in_view(i);
        }
        assert forall|k: Seq<char>| #[trigger] self@.contains_key(k) implies exists|i: int|
            0 <= i < self.entries().len() && (#[trigger] self.entries()[i]).0 == k by {
            assert(self.has_key(k));
        }
        lemma_arrangement(self.entries(), self@);
    }

    /// The entries in stored order, each key as its sequence of characters.
    pub closed spec fn entries(&self) -> Seq<(Seq<char>, V)> {
        self.entries@.map_values(|e: Entry<V>| (e.key@, e.value))
    }

    /// The keys in stored order.
    pub open spec fn keys(&self) -> Seq<Seq<char>> {
        self.entries().map_values(|e: (Seq<char>, V)| e.0)
    }

    /// The invariant of the type: the keys ascend strictly.
    pub open spec fn wf(&self) -> bool {
        strictly_ascending(self.keys())
    }

    /// Whether some entry has the key `key`.
    pub open spec fn has_key(&self, key: Seq<char>) -> bool {
        exists|i: int| 0 <= i < self.entries().len() && #[trigger] self.entries()[i].0 == key
    }

    /// The index of the entry with the key `key`, where there is one.
    pub open spec fn index_of(&self, key: Seq<char>) -> int {
        choose|i: int| 0 <= i < self.entries().len() && #[trigger] self.entries()[i].0 == key
    }

    /// The dictionary as a map from keys to values.
    pub open spec fn view(&self) -> Map<Seq<char>, V> {
        Map::new(|k: Seq<char>| self.has_key(k), |k: Seq<char>| self.entries()[self.index_of(k)].1)
    }

    /// The entry at index `i` is what the map holds for its key.
    pub proof fn lemma_entry_in_view(&self, i: int)
        requires
            self.wf(),
            0 <= i < self.entries().len(),
        ensures
            self@.contains_key(self.entries()[i].0),
            self@[self.entries()[i].0] == self.entries()[i].1,
    {
        let key = self.entries()[i].0;
        let j = self.index_of(key);
        assert(self.keys()[i] == key);
        assert(self.keys()[j] == key);
        lemma_ascending_keys_distinct(self.keys(), i, j);
    }

    /// An empty dictionary.
    pub fn new() -> (d: Self)
        ensures
            d.wf(),
            d.entries() == Seq::<(Seq<char>, V)>::empty(),
            d@ == Map::<Seq<char>, V>::empty(),
    {
        let d = Dictionary { entries: Vec::new() };
        assert(d.entries() =~= Seq::<(Seq<char>, V)>::empty());
        assert(d@ =~= Map::<Seq<char>, V>::empty());
        d
    }

    /// The number of entries.
    pub fn len(&self) -> (n: usize)
        ensures
            n == self.entries().len(),
    {
        self.entries.len()
    }

    /// The key of the entry at index `i`.
    pub fn key_at(&self, i: usize) -> (key: &String)
        requires
            i < self.entries().len(),
        ensures
            key@ == self.entries()[i as int].0,
    {
        &self.entries[i].key
    }

    /// The value of the entry at index `i`.
    pub fn value_at(&self, i: usize) -> (value: &V)
        requires
            i < self.entries().len(),
        ensures
            *value == self.entries()[i as int].1,
    {
        &self.entries[i].value
    }

    /// The value of the entry at index `i`, to be changed in place.
    pub fn value_at_mut(&mut self, i: usize) -> (value: &mut V)
        requires
            i < old(self).entries().len(),
        ensures
            *value == old(self).entries()[i as int].1,
            final(self).entries() == old(self).entries().update(
                i as int,
                (old(self).entries()[i as int].0, *final(value)),
            ),
    {
        let ghost before = *self;
        let value = &mut self.entries[i].value;
        proof {
            assert(after_borrow(*self).entries() =~= before.entries().update(
                i as int,
                (before.entries()[i as int].0, *final(value)),
            ));
        }
        value
    }

    /// Looks `key` up: `Ok` with the index of its entry, or `Err` with the index
    /// at which an entry for it would have to be inserted.
    pub fn position(&self, key: &str) -> (r: Result<usize, usize>)
        requires
            self.wf(),
        ensures
            match r {
                Ok(i) => i < self.entries().len() && self.entries()[i as int].0 == key@,
                Err(p) => {
                    &&& !self.has_key(key@)
                    &&& p <= self.entries().len()
                    &&& forall|j: int| 0 <= j < p ==> name_lt(#[trigger] self.keys()[j], key@)
                    &&& forall|j: int| p <= j < self.keys().len() ==> name_lt(key@, #[trigger] self.keys()[j])
                },
            },
    {
        let n = self.entries.len();
        let mut i: usize = 0;
        while i < n
            invariant
                self.wf(),
                n == self.entries().len(),
                i <= n,
                forall|j: int| 0 <= j < i ==> name_lt(#[trigger] self.keys()[j], key@),
            decreases n - i,
        {
            match compare_names(key, self.entries[i].key.as_str()) {
                NameOrder::Same => {
                    return Ok(i);
                },
                NameOrder::Before => {
                    proof {
                        assert(self.keys()[i as int] == self.entries[i as int].key@);
                        assert forall|j: int| i <= j < self.keys().len() implies name_lt(
                            key@,
                            #[trigger] self.keys()[j],
                        ) by {
                            if i < j {
                                lemma_name_lt_transitive(key@, self.keys()[i as int], self.keys()[j]);
                            }
                        }
                        self.lemma_absent(key@, i as int);
                    }
                    return Err(i);
                },
                NameOrder::After => {
                    assert(self.keys()[i as int] == self.entries[i as int].key@);
                },
            }
            i += 1;
        }
        proof {
            self.lemma_absent(key@, n as int);
        }
        Err(n)
    }

    /// A key that stands strictly between the entries before `p` and those from
    /// `p` on is no key of the dictionary.
    proof fn lemma_absent(&self, key: Seq<char>, p: int)
        requires
            0 <= p <= self.entries().len(),
            forall|j: int| 0 <= j < p ==> name_lt(#[trigger] self.keys()[j], key),
            forall|j: int| p <= j < self.keys().len() ==> name_lt(key, #[trigger] self.keys()[j]),
        ensures
            !self.has_key(key),
    {
        if self.has_key(key) {
            let i = self.index_of(key);
            assert(self.keys()[i] == key);
            lemma_name_order_total(key, key);
        }
    }

    /// Whether the dictionary has an entry for `key`.
    pub fn contains_key(&self, key: &str) -> (found: bool)
        requires
            self.wf(),
        ensures
            found == self@.contains_key(key@),
    {
        self.position(key).is_ok()
    }

    /// The value stored for `key`, if any.
    pub fn get(&self, key: &str) -> (value: Option<&V>)
        requires
            self.wf(),
        ensures
            match value {
                Some(v) => self@.contains_key(key@) && *v == self@[key@],
                None => !self@.contains_key(key@),
            },
    {
        match self.position(key) {
            Ok(i) => {
                proof {
                    self.lemma_entry_in_view(i as int);
                }
                Some(&self.entries[i].value)
            },
            Err(_) => None,
        }
    }

    /// Stores `value` under `key`, in place of what was stored there before.
    pub fn insert(&mut self, key: String, value: V)
        requires
            old(self).wf(),
        ensures
            final(self).wf(),
            final(self)@ == old(self)@.insert(key@, value),
            match old(self).position_of(key@) {
                Ok(i) => {
                    &&& 0 <= i < old(self).entries().len()
                    &&& old(self).entries()[i].0 == key@
                    &&& final(self).entries() == old(self).entries().update(i, (key@, value))
                },
                Err(p) => {
                    &&& 0 <= p <= old(self).entries().len()
                    &&& final(self).entries() == old(self).entries().insert(p, (key@, value))
                },
            },
    {
        let ghost before = *self;
        match self.position(key.as_str()) {
            Ok(i) => {
                proof {
                    before.lemma_position_of_present(key@, i as int);
                }
                self.entries.set(i, Entry { key, value });
                proof {
                    assert(self.entries() =~= before.entries().update(i as int, (key@, value)));
                    assert(self.keys() =~= before.keys());
                    lemma_update_view(before, *self, i as int, value);
                }
            },
            Err(p) => {
                proof {
                    before.lemma_position_of_absent(key@, p as int);
                }
                self.entries.insert(p, Entry { key, value });
                proof {
                    assert(self.entries() =~= before.entries().insert(p as int, (key@, value)));
                    lemma_insert_view(before, *self, p as int, key@, value);
                }
            },
        }
    }

    /// Where `key` stands in the order of the keys: `Ok` with the index of its
    /// entry, or `Err` with the number of keys that come before it.
    pub open spec fn position_of(&self, key: Seq<char>) -> Result<int, int> {
        if self.has_key(key) {
            Ok(self.index_of(key))
        } else {
            Err(self.rank_of(key, self.keys().len() as int))
        }
    }

    /// How many of the first `n` keys come before `key`.
    pub open spec fn rank_of(&self, key: Seq<char>, n: int) -> int
        decreases n,
    {
        if n <= 0 {
            0
        } else {
            self.rank_of(key, n - 1) + if name_lt(self.keys()[n - 1], key) {
                1int
            } else {
                0int
            }
        }
    }

    /// Where the keys before index `p` come before `key` and no other does,
    /// `p` of the first `n` keys come before `key`, or all `n` if `n` is less.
    proof fn lemma_rank(&self, key: Seq<char>, p: int, n: int)
        requires
            0 <= p <= self.keys().len(),
            0 <= n <= self.keys().len(),
            forall|j: int| 0 <= j < p ==> name_lt(#[trigger] self.keys()[j], key),
            forall|j: int| p <= j < self.keys().len() ==> !name_lt(#[trigger] self.keys()[j], key),
        ensures
            self.rank_of(key, n) == if n <= p {
                n
            } else {
                p
            },
        decreases n,
    {
        if n > 0 {
            self.lemma_rank(key, p, n - 1);
        }
    }

    /// A key that stands at index `i` has the position `Ok(i)`.
    proof fn lemma_position_of_present(&self, key: Seq<char>, i: int)
        requires
            self.wf(),
            0 <= i < self.entries().len(),
            self.entries()[i].0 == key,
        ensures
            self.position_of(key) == Ok::<int, int>(i),
    {
        let j = self.index_of(key);
        assert(self.keys()[i] == key);
        assert(self.keys()[j] == key);
        lemma_ascending_keys_distinct(self.keys(), i, j);
    }

    /// A key that stands strictly between the entries before `p` and those
    /// from `p` on has the position `Err(p)`.
    proof fn lemma_position_of_absent(&self, key: Seq<char>, p: int)
        requires
            !self.has_key(key),
            0 <= p <= self.entries().len(),
            forall|j: int| 0 <= j < p ==> name_lt(#[trigger] self.keys()[j], key),
            forall|j: int| p <= j < self.keys().len() ==> name_lt(key, #[trigger] self.keys()[j]),
        ensures
            self.position_of(key) == Err::<int, int>(p),
    {
        assert forall|j: int| p <= j < self.keys().len() implies !name_lt(
            #[trigger] self.keys()[j],
            key,
        ) by {
            lemma_name_order_total(key, self.keys()[j]);
        }
        self.lemma_rank(key, p, self.keys().len() as int);
    }
}

/// Replacing the value of the entry at index `i` updates the map at its key.
pub proof fn lemma_update_view<V>(before: Dictionary<V>, after: Dictionary<V>, i: int, value: V)
    requires
        before.wf(),
        0 <= i < before.entries().len(),
        after.entries() == before.entries().update(i, (before.entries()[i].0, value)),
    ensures
        after.wf(),
        after@ == before@.insert(before.entries()[i].0, value),
{
    let key = before.entries()[i].0;
    assert(after.keys() =~= before.keys());
    assert forall|k: Seq<char>| after.has_key(k) == (before.has_key(k) || k == key) by {
        if after.has_key(k) {
            let j = after.index_of(k);
            assert(before.entries()[j].0 == k);
        }
        if before.has_key(k) {
            let j = before.index_of(k);
            assert(after.entries()[j].0 == k);
        }
        if k == key {
            assert(after.entries()[i].0 == k);
        }
    }
    assert forall|k: Seq<char>| after.has_key(k) implies #[trigger] after@[k] == before@.insert(
        key,
        value,
    )[k] by {
        let j = after.index_of(k);
        after.lemma_entry_in_view(j);
        if k == key {
            assert(after.keys()[j] == key);
            assert(after.keys()[i] == key);
            lemma_ascending_keys_distinct(after.keys(), i, j);
        } else {
            assert(before.entries()[j].0 == k);
            before.lemma_entry_in_view(j);
        }
    }
    assert(after@ =~= before@.insert(key, value));
}

/// Inserting an entry at the place of its key adds it to the map.
proof fn lemma_insert_view<V>(before: Dictionary<V>, after: Dictionary<V>, p: int, key: Seq<char>, value: V)
    requires
        before.wf(),
        0 <= p <= before.entries().len(),
        forall|j: int| 0 <= j < p ==> name_lt(#[trigger] before.keys()[j], key),
        forall|j: int| p <= j < before.keys().len() ==> name_lt(key, #[trigger] before.keys()[j]),
        after.entries() == before.entries().insert(p, (key, value)),
    ensures
        after.wf(),
        after@ == before@.insert(key, value),
{
    assert(after.keys() =~= before.keys().insert(p, key));
    assert forall|i: int, j: int| 0 <= i < j < after.keys().len() implies name_lt(
        #[trigger] after.keys()[i],
        #[trigger] after.keys()[j],
    ) by {
        if j < p {
            assert(after.keys()[i] == before.keys()[i]);
            assert(after.keys()[j] == before.keys()[j]);
        } else if j == p {
            assert(after.keys()[i] == before.keys()[i]);
        } else if i < p {
            assert(after.keys()[i] == before.keys()[i]);
            assert(after.keys()[j] == before.keys()[j - 1]);
        } else if i == p {
            assert(after.keys()[j] == before.keys()[j - 1]);
        } else {
            assert(after.keys()[i] == before.keys()[i - 1]);
            assert(after.keys()[j] == before.keys()[j - 1]);
        }
    }
    assert forall|k: Seq<char>| after.has_key(k) == (before.has_key(k) || k == key) by {
        if after.has_key(k) {
            let j = after.index_of(k);
            if j < p {
                assert(before.entries()[j].0 == k);
            } else if j > p {
                assert(before.entries()[j - 1].0 == k);
            }
        }
        if before.has_key(k) {
            let j = before.index_of(k);
            if j < p {
                assert(after.entries()[j].0 == k);
            } else {
                assert(after.entries()[j + 1].0 == k);
            }
        }
        if k == key {
            assert(after.entries()[p].0 == k);
        }
    }
    assert forall|k: Seq<char>| after.has_key(k) implies #[trigger] after@[k] == before@.insert(
        key,
        value,
    )[k] by {
        let j = after.index_of(k);
        after.lemma_entry_in_view(j);
        if j < p {
            assert(before.entries()[j].0 == k);
            before.lemma_entry_in_view(j);
            assert(before.keys()[j] == k);
            lemma_name_order_total(k, key);
        } else if j > p {
            assert(before.entries()[j - 1].0 == k);
            before.lemma_entry_in_view(j - 1);
            assert(before.keys()[j - 1] == k);
            lemma_name_order_total(key, k);
        }
    }
    assert(after@ =~= before@.insert(key, value));
}

} // verus!
