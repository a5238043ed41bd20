//! A small association map with deterministic iteration order.
//!
//! The picking logic keys many tables by pointers, entities or (pointer, button) pairs. This map
//! keeps its entries in a vector in insertion order, with at most one entry per key, and is viewed
//! as a mathematical `Map`.
use vstd::prelude::*;

verus! {

/// Keys that can be compared for equality in executable code.
pub trait MapKey: Copy {
    /// Returns `true` exactly when the two keys are equal.
    fn key_eq(&self, other: &Self) -> (b: bool)
        ensures
            b == (*self == *other),
    ;
}

impl MapKey for u64 {
    fn key_eq(&self, other: &Self) -> (b: bool) {
        *self == *other
    }
}

/// No key occurs twice in the sequence of entries.
pub open spec fn no_dup_keys<K, V>(s: Seq<(K, V)>) -> bool {
    forall|i: int, j: int| 0 <= i < s.len() && 0 <= j < s.len() && i != j ==> s[i].0 != s[j].0
}

/// The map described by a sequence of entries; a later entry for a key wins.
pub open spec fn entries_to_map<K, V>(s: Seq<(K, V)>) -> Map<K, V>
    decreases s.len(),
{
    if s.len() == 0 {
        Map::empty()
    } else {
        entries_to_map(s.drop_last()).insert(s.last().0, s.last().1)
    }
}

/// The keys of a sequence of entries, in order.
pub open spec fn entry_keys<K, V>(s: Seq<(K, V)>) -> Seq<K> {
    s.map_values(|e: (K, V)| e.0)
}

/// A key is in the map of the entries exactly when some entry has it.
pub proof fn lemma_entries_to_map_dom<K, V>(s: Seq<(K, V)>, k: K)
    ensures
        entries_to_map(s).contains_key(k) <==> (exists|i: int| 0 <= i < s.len() && s[i].0 == k),
    decreases s.len(),
{
    if s.len() > 0 {
        lemma_entries_to_map_dom(s.drop_last(), k);
        if entries_to_map(s).contains_key(k) && s.last().0 != k {
            let i = choose|i: int| 0 <= i < s.drop_last().len() && s.drop_last()[i].0 == k;
            assert(s[i].0 == k);
        }
        if exists|i: int| 0 <= i < s.len() && s[i].0 == k {
            let i = choose|i: int| 0 <= i < s.len() && s[i].0 == k;
            if i < s.len() - 1 {
                assert(s.drop_last()[i].0 == k);
            }
        }
    }
}

/// Without duplicate keys, the map of the entries holds every entry.
pub proof fn lemma_entries_to_map_index<K, V>(s: Seq<(K, V)>, i: int)
    requires
        no_dup_keys(s),
        0 <= i < s.len(),
    ensures
        entries_to_map(s).contains_key(s[i].0),
        entries_to_map(s)[s[i].0] == s[i].1,
    decreases s.len(),
{
    if i < s.len() - 1 {
        let t = s.drop_last();
        assert(t[i] == s[i]);
        assert(no_dup_keys(t));
        lemma_entries_to_map_index(t, i);
        assert(s.last().0 != s[i].0);
    }
}

/// The map of the entries is finite.
pub proof fn lemma_entries_to_map_finite<K, V>(s: Seq<(K, V)>)
    ensures
        entries_to_map(s).dom().finite(),
    decreases s.len(),
{
    if s.len() > 0 {
        lemma_entries_to_map_finite(s.drop_last());
    }
}

/// Two sequences of entries without duplicate keys describe the same map when every entry of each
/// is found in the other.
pub proof fn lemma_entries_to_map_ext<K, V>(s: Seq<(K, V)>, m: Map<K, V>)
    requires
        no_dup_keys(s),
        forall|i: int| 0 <= i < s.len() ==> #[trigger] m.contains_key(s[i].0) && m[s[i].0] == s[i].1,
        forall|k: K| #[trigger] m.contains_key(k) ==> exists|i: int| 0 <= i < s.len() && s[i].0 == k,
    ensures
        entries_to_map(s) == m,
{
    assert forall|k: K| entries_to_map(s).contains_key(k) <==> m.contains_key(k) by {
        lemma_entries_to_map_dom(s, k);
        if entries_to_map(s).contains_key(k) {
            let i = choose|i: int| 0 <= i < s.len() && s[i].0 == k;
            assert(m.contains_key(s[i].0));
        }
    }
    assert forall|k: K| #[trigger] m.contains_key(k) implies entries_to_map(s)[k] == m[k] by {
        let i = choose|i: int| 0 <= i < s.len() && s[i].0 == k;
        lemma_entries_to_map_index(s, i);
    }
    assert(entries_to_map(s).dom() =~= m.dom());
    assert(entries_to_map(s) =~= m);
}

/// Replacing the value of an entry replaces the value of its key in the map.
#[verifier::spinoff_prover]
pub proof fn lemma_entries_to_map_update<K, V>(s: Seq<(K, V)>, i: int, v: V)
    requires
        no_dup_keys(s),
        0 <= i < s.len(),
    ensures
        no_dup_keys(s.update(i, (s[i].0, v))),
        entries_to_map(s.update(i, (s[i].0, v))) == entries_to_map(s).insert(s[i].0, v),
{
    let t = s.update(i, (s[i].0, v));
    let m = entries_to_map(s).insert(s[i].0, v);
    assert forall|j: int| 0 <= j < t.len() implies #[trigger] m.contains_key(t[j].0) && m[t[j].0]
        == t[j].1 by {
        if j != i {
            lemma_entries_to_map_index(s, j);
        }
    }
    assert forall|k: K| #[trigger] m.contains_key(k) implies exists|j: int|
        0 <= j < t.len() && t[j].0 == k by {
        if k != s[i].0 {
            lemma_entries_to_map_dom(s, k);
            let j = choose|j: int| 0 <= j < s.len() && s[j].0 == k;
            assert(t[j].0 == k);
        } else {
            assert(t[i].0 == k);
        }
    }
    lemma_entries_to_map_ext(t, m);
}

/// Without duplicate keys, removing an entry removes its key from the map.
#[verifier::spinoff_prover]
pub proof fn lemma_entries_to_map_remove<K, V>(s: Seq<(K, V)>, i: int)
    requires
        no_dup_keys(s),
        0 <= i < s.len(),
    ensures
        no_dup_keys(s.remove(i)),
        entries_to_map(s.remove(i)) == entries_to_map(s).remove(s[i].0),
{
    let t = s.remove(i);
    let m = entries_to_map(s).remove(s[i].0);
    assert forall|a: int, b: int| 0 <= a < t.len() && 0 <= b < t.len() && a != b implies t[a].0
        != t[b].0 by {
        let a2 = if a < i { a } else { a + 1 };
        let b2 = if b < i { b } else { b + 1 };
        assert(t[a] == s[a2]);
        assert(t[b] == s[b2]);
    }
    assert forall|j: int| 0 <= j < t.len() implies #[trigger] m.contains_key(t[j].0) && m[t[j].0]
        == t[j].1 by {
        let j2 = if j < i { j } else { j + 1 };
        assert(t[j] == s[j2]);
        assert(j2 != i);
        assert(s[j2].0 != s[i].0);
        lemma_entries_to_map_index(s, j2);
    }
    assert forall|k: K| #[trigger] m.contains_key(k) implies exists|j: int|
        0 <= j < t.len() && t[j].0 == k by {
        lemma_entries_to_map_dom(s, k);
        let j = choose|j: int| 0 <= j < s.len() && s[j].0 == k;
        assert(j != i);
        let j2 = if j < i { j } else { j - 1 };
        assert(t[j2] == s[j]);
    }
    lemma_entries_to_map_ext(t, m);
}

/// Inserting an entry with a new key anywhere adds that key to the map.
#[verifier::spinoff_prover]
pub proof fn lemma_entries_to_map_insert_at<K, V>(s: Seq<(K, V)>, i: int, k: K, v: V)
    requires
        no_dup_keys(s),
        0 <= i <= s.len(),
        forall|j: int| 0 <= j < s.len() ==> s[j].0 != k,
    ensures
        no_dup_keys(s.insert(i, (k, v))),
        entries_to_map(s.insert(i, (k, v))) == entries_to_map(s).insert(k, v),
{
    let t = s.insert(i, (k, v));
    let m = entries_to_map(s).insert(k, v);
    assert forall|a: int, b: int| 0 <= a < t.len() && 0 <= b < t.len() && a != b implies t[a].0
        != t[b].0 by {
        if a != i && b != i {
            let a2 = if a < i { a } else { a - 1 };
            let b2 = if b < i { b } else { b - 1 };
            assert(t[a] == s[a2]);
            assert(t[b] == s[b2]);
        } else if a == i {
            let b2 = if b < i { b } else { b - 1 };
            assert(t[b] == s[b2]);
        } else {
            let a2 = if a < i { a } else { a - 1 };
            assert(t[a] == s[a2]);
        }
    }
    assert forall|j: int| 0 <= j < t.len() implies #[trigger] m.contains_key(t[j].0) && m[t[j].0]
        == t[j].1 by {
        if j != i {
            let j2 = if j < i { j } else { j - 1 };
            assert(t[j] == s[j2]);
            lemma_entries_to_map_index(s, j2);
        }
    }
    assert forall|key: K| #[trigger] m.contains_key(key) implies exists|j: int|
        0 <= j < t.len() && t[j].0 == key by {
        if key == k {
            assert(t[i].0 == key);
        } else {
            lemma_entries_to_map_dom(s, key);
            let j = choose|j: int| 0 <= j < s.len() && s[j].0 == key;
            let j2 = if j < i { j } else { j + 1 };
            assert(t[j2] == s[j]);
        }
    }
    lemma_entries_to_map_ext(t, m);
}

/// The position of the last entry with key `k`, or -1 if there is none.
pub open spec fn key_position<K, V>(s: Seq<(K, V)>, k: K) -> int
    decreases s.len(),
{
    if s.len() == 0 {
        -1
    } else if s.last().0 == k {
        s.len() - 1
    } else {
        key_position(s.drop_last(), k)
    }
}

/// The entries after storing `v` for `k`: an existing entry for `k` is updated in place, a new
/// key goes to the end.
pub open spec fn entries_insert<K, V>(s: Seq<(K, V)>, k: K, v: V) -> Seq<(K, V)> {
    if key_position(s, k) >= 0 {
        s.update(key_position(s, k), (k, v))
    } else {
        s.push((k, v))
    }
}

/// The entries after removing the entry for `k`, if any.
pub open spec fn entries_remove<K, V>(s: Seq<(K, V)>, k: K) -> Seq<(K, V)> {
    if key_position(s, k) >= 0 {
        s.remove(key_position(s, k))
    } else {
        s
    }
}

/// Some entry holds the key.
pub open spec fn has_key<K, V>(s: Seq<(K, V)>, k: K) -> bool {
    exists|i: int| 0 <= i < s.len() && s[i].0 == k
}

/// Storing a value for a key adds that key and keeps the others, and keeps keys unique.
pub proof fn lemma_entries_insert_keys<K, V>(s: Seq<(K, V)>, k: K, v: V)
    ensures
        forall|key: K| #[trigger] has_key(entries_insert(s, k, v), key) <==> has_key(s, key) || key == k,
        no_dup_keys(s) ==> no_dup_keys(entries_insert(s, k, v)),
{
    lemma_key_position(s, k);
    let t = entries_insert(s, k, v);
    if key_position(s, k) >= 0 {
        let p = key_position(s, k);
        assert forall|key: K| #[trigger] has_key(t, key) <==> has_key(s, key) || key == k by {
            if has_key(t, key) {
                let i = choose|i: int| 0 <= i < t.len() && t[i].0 == key;
                if i != p {
                    assert(t[i] == s[i]);
                }
            }
            if has_key(s, key) {
                let i = choose|i: int| 0 <= i < s.len() && s[i].0 == key;
                if i != p {
                    assert(t[i] == s[i]);
                } else {
                    assert(t[p].0 == key);
                }
            }
            if key == k {
                assert(t[p].0 == k);
            }
        }
        if no_dup_keys(s) {
            assert forall|a: int, b: int| 0 <= a < t.len() && 0 <= b < t.len() && a != b implies t[a].0 != t[b].0 by {
                assert(t[a].0 == s[a].0 && t[b].0 == s[b].0);
            }
        }
    } else {
        assert forall|key: K| #[trigger] has_key(t, key) <==> has_key(s, key) || key == k by {
            if has_key(t, key) {
                let i = choose|i: int| 0 <= i < t.len() && t[i].0 == key;
                if i < s.len() {
                    assert(t[i] == s[i]);
                }
            }
            if has_key(s, key) {
                let i = choose|i: int| 0 <= i < s.len() && s[i].0 == key;
                assert(t[i] == s[i]);
            }
            if key == k {
                assert(t[s.len() as int].0 == k);
            }
        }
        if no_dup_keys(s) {
            assert forall|a: int, b: int| 0 <= a < t.len() && 0 <= b < t.len() && a != b implies t[a].0 != t[b].0 by {
                if a < s.len() && b < s.len() {
                    assert(t[a] == s[a] && t[b] == s[b]);
                } else if a < s.len() {
                    assert(t[a] == s[a]);
                } else if b < s.len() {
                    assert(t[b] == s[b]);
                }
            }
        }
    }
}

/// Without duplicate keys, removing a key drops exactly that key, and keeps keys unique.
pub proof fn lemma_entries_remove_keys<K, V>(s: Seq<(K, V)>, k: K)
    requires
        no_dup_keys(s),
    ensures
        forall|key: K| #[trigger] has_key(entries_remove(s, k), key) <==> has_key(s, key) && key != k,
        no_dup_keys(entries_remove(s, k)),
{
    lemma_key_position(s, k);
    let t = entries_remove(s, k);
    if key_position(s, k) >= 0 {
        let p = key_position(s, k);
        lemma_entries_to_map_remove(s, p);
        assert forall|key: K| #[trigger] has_key(t, key) <==> has_key(s, key) && key != k by {
            if has_key(t, key) {
                let i = choose|i: int| 0 <= i < t.len() && t[i].0 == key;
                let i2 = if i < p { i } else { i + 1 };
                assert(t[i] == s[i2]);
                assert(i2 != p);
            }
            if has_key(s, key) && key != k {
                let i = choose|i: int| 0 <= i < s.len() && s[i].0 == key;
                assert(i != p);
                let i2 = if i < p { i } else { i - 1 };
                assert(t[i2] == s[i]);
            }
        }
    } else {
        assert forall|key: K| #[trigger] has_key(t, key) <==> has_key(s, key) && key != k by {
            if has_key(s, key) {
                let i = choose|i: int| 0 <= i < s.len() && s[i].0 == key;
                assert(s[i].0 != k);
            }
        }
    }
}

/// The position of a key is the entry that holds it, or -1 when no entry does.
pub proof fn lemma_key_position<K, V>(s: Seq<(K, V)>, k: K)
    ensures
        -1 <= key_position(s, k) < s.len(),
        key_position(s, k) >= 0 ==> s[key_position(s, k)].0 == k,
        key_position(s, k) < 0 <==> forall|i: int| 0 <= i < s.len() ==> s[i].0 != k,
        no_dup_keys(s) ==> forall|i: int|
            0 <= i < s.len() && s[i].0 == k ==> i == key_position(s, k),
    decreases s.len(),
{
    if s.len() > 0 {
        let t = s.drop_last();
        lemma_key_position(t, k);
        if s.last().0 != k {
            assert forall|i: int| 0 <= i < t.len() implies s[i] == t[i] by {}
            if key_position(s, k) < 0 {
                assert forall|i: int| 0 <= i < s.len() implies s[i].0 != k by {
                    if i < t.len() {
                        assert(s[i] == t[i]);
                    }
                }
            }
            if no_dup_keys(s) {
                assert(no_dup_keys(t));
                assert forall|i: int| 0 <= i < s.len() && s[i].0 == k implies i == key_position(
                    s,
                    k,
                ) by {
                    assert(i < t.len());
                    assert(s[i] == t[i]);
                }
            }
        } else {
            assert(s[s.len() - 1].0 == k);
        }
    }
}

/// An association map from `K` to `V` that iterates in insertion order.
pub struct VecMap<K, V> {
    entries: Vec<(K, V)>,
}

impl<K, V> View for VecMap<K, V> {
    type V = Map<K, V>;

    closed spec fn view(&self) -> Map<K, V> {
        entries_to_map(self.entries@)
    }
}

impl<K: MapKey, V> VecMap<K, V> {
    /// The entries of the map, in iteration order.
    pub closed spec fn entries(&self) -> Seq<(K, V)> {
        self.entries@
    }

    /// The map is well formed: no key occurs twice.
    pub open spec fn wf(&self) -> bool {
        no_dup_keys(self.entries())
    }

    /// The view of the map is the map of its entries.
    pub proof fn lemma_view(&self)
        ensures
            self@ == entries_to_map(self.entries()),
    {
    }

    /// Creates an empty map.
    pub fn new() -> (m: Self)
        ensures
            m.wf(),
            m@ == Map::<K, V>::empty(),
            m.entries() == Seq::<(K, V)>::empty(),
    {
        VecMap { entries: Vec::new() }
    }

    /// The number of entries.
    pub fn len(&self) -> (n: usize)
        ensures
            n == self.entries().len(),
    {
        self.entries.len()
    }

    /// The entry at position `i` of the iteration order.
    pub fn entry_at(&self, i: usize) -> (e: &(K, V))
        requires
            i < self.entries().len(),
        ensures
            *e == self.entries()[i as int],
    {
        &self.entries[i]
    }

    /// The position of `k` in the iteration order, if it is a key.
    pub fn find(&self, k: &K) -> (r: Option<usize>)
        ensures
            match r {
                Some(i) => i < self.entries().len() && self.entries()[i as int].0 == *k,
                None => forall|i: int| 0 <= i < self.entries().len() ==> self.entries()[i].0 != *k,
            },
    {
        let mut i: usize = 0;
        while i < self.entries.len()
            invariant
                i <= self.entries@.len(),
                forall|j: int| 0 <= j < i ==> self.entries@[j].0 != *k,
            decreases self.entries@.len() - i,
        {
            if self.entries[i].0.key_eq(k) {
                return Some(i);
            }
            i = i + 1;
        }
        None
    }

    /// Whether `k` is a key of the map.
    pub fn contains_key(&self, k: &K) -> (b: bool)
        ensures
            b == self@.contains_key(*k),
    {
        proof {
            lemma_entries_to_map_dom(self.entries@, *k);
        }
        match self.find(k) {
            Some(i) => {
                assert(self.entries@[i as int].0 == *k);
                assert(entries_to_map(self.entries@).contains_key(*k));
                true
            },
            None => {
                proof {
                    if entries_to_map(self.entries@).contains_key(*k) {
                        let i = choose|i: int|
                            0 <= i < self.entries@.len() && self.entries@[i].0 == *k;
                        assert(self.entries()[i].0 != *k);
                    }
                }
                false
            },
        }
    }

    /// The value stored for `k`, if any.
    pub fn get(&self, k: &K) -> (r: Option<&V>)
        requires
            self.wf(),
        ensures
            match r {
                Some(v) => self@.contains_key(*k) && *v == self@[*k],
                None => !self@.contains_key(*k),
            },
    {
        proof {
            lemma_entries_to_map_dom(self.entries@, *k);
        }
        match self.find(k) {
            Some(i) => {
                proof {
                    lemma_entries_to_map_index(self.entries@, i as int);
                }
                Some(&self.entries[i].1)
            },
            None => None,
        }
    }

    /// Stores `v` for `k`, replacing any earlier value. A new key goes to the end of the iteration
    /// order; an existing key keeps its position. Returns whether the key was already present.
    pub fn insert(&mut self, k: K, v: V) -> (was_present: bool)
        requires
            old(self).wf(),
        ensures
            final(self).wf(),
            final(self)@ == old(self)@.insert(k, v),
            was_present == old(self)@.contains_key(k),
            was_present ==> exists|i: int|
                0 <= i < old(self).entries().len() && old(self).entries()[i].0 == k
                    && final(self).entries() == old(self).entries().update(i, (k, v)),
            !was_present ==> final(self).entries() == old(self).entries().push((k, v)),
            final(self).entries() == entries_insert(old(self).entries(), k, v),
    {
        proof {
            lemma_entries_to_map_dom(self.entries@, k);
            lemma_key_position(self.entries@, k);
        }
        match self.find(&k) {
            Some(i) => {
                proof {
                    lemma_entries_to_map_update(self.entries@, i as int, v);
                }
                self.entries.set(i, (k, v));
                true
            },
            None => {
                self.entries.push((k, v));
                proof {
                    let s = self.entries@;
                    assert(s.drop_last() =~= old(self).entries@);
                }
                false
            },
        }
    }

    /// Removes the entry for `k`, if any, and returns its value. The other entries keep their
    /// relative order.
    pub fn remove(&mut self, k: &K) -> (r: Option<V>)
        requires
            old(self).wf(),
        ensures
            final(self).wf(),
            final(self)@ == old(self)@.remove(*k),
            match r {
                Some(v) => old(self)@.contains_key(*k) && v == old(self)@[*k] && exists|i: int|
                    0 <= i < old(self).entries().len() && old(self).entries()[i].0 == *k
                        && final(self).entries() == old(self).entries().remove(i),
                None => !old(self)@.contains_key(*k) && final(self).entries() == old(
                    self,
                ).entries(),
            },
            final(self).entries() == entries_remove(old(self).entries(), *k),
    {
        proof {
            lemma_entries_to_map_dom(self.entries@, *k);
            lemma_key_position(self.entries@, *k);
        }
        match self.find(k) {
            Some(i) => {
                proof {
                    lemma_entries_to_map_remove(self.entries@, i as int);
                    lemma_entries_to_map_index(self.entries@, i as int);
                }
                let e = self.entries.remove(i);
                Some(e.1)
            },
            None => {
                proof {
                    assert(old(self)@.remove(*k) =~= old(self)@);
                }
                None
            },
        }
    }

    /// Replaces the value of the entry at position `i`, keeping its key and position, and returns
    /// the value it held.
    pub fn replace_at(&mut self, i: usize, v: V) -> (prev: V)
        requires
            old(self).wf(),
            i < old(self).entries().len(),
        ensures
            final(self).wf(),
            prev == old(self).entries()[i as int].1,
            final(self).entries() == old(self).entries().update(
                i as int,
                (old(self).entries()[i as int].0, v),
            ),
            final(self)@ == old(self)@.insert(old(self).entries()[i as int].0, v),
    {
        proof {
            lemma_entries_to_map_update(self.entries@, i as int, v);
        }
        let k = self.entries[i].0;
        let mut pair = (k, v);
        self.entries.set_and_swap(i, &mut pair);
        pair.1
    }

    /// Removes the entry at position `i`; the others keep their relative order.
    pub fn remove_at(&mut self, i: usize) -> (e: (K, V))
        requires
            old(self).wf(),
            i < old(self).entries().len(),
        ensures
            final(self).wf(),
            e == old(self).entries()[i as int],
            final(self).entries() == old(self).entries().remove(i as int),
            final(self)@ == old(self)@.remove(old(self).entries()[i as int].0),
    {
        proof {
            lemma_entries_to_map_remove(self.entries@, i as int);
        }
        self.entries.remove(i)
    }

    /// A copy of the entries, in iteration order.
    pub fn to_vec(&self) -> (v: Vec<(K, V)>)
        where
            V: Copy,
        ensures
            v@ == self.entries(),
    {
        let mut v: Vec<(K, V)> = Vec::new();
        let mut i: usize = 0;
        while i < self.entries.len()
            invariant
                i <= self.entries@.len(),
                v@ == self.entries@.take(i as int),
            decreases self.entries@.len() - i,
        {
            v.push(self.entries[i]);
            proof {
                assert(self.entries@.take(i + 1) =~= self.entries@.take(i as int).push(
                    self.entries@[i as int],
                ));
            }
            i = i + 1;
        }
        proof {
            assert(self.entries@.take(self.entries@.len() as int) =~= self.entries@);
        }
        v
    }

    /// Removes every entry.
    pub fn clear(&mut self)
        ensures
            final(self).wf(),
            final(self)@ == Map::<K, V>::empty(),
            final(self).entries() == Seq::<(K, V)>::empty(),
    {
        self.entries = Vec::new();
    }
}

} // verus!
