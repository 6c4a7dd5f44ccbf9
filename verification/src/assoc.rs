//! `StrMap`: a map from `String` keys to values, kept as a vector of
//! entries with distinct keys.  It stands where a `HashMap<String, V>` holds
//! name-keyed data; its view is the `Map` from key characters to value
//! views, and it keeps the order in which keys were first inserted.

use vstd::prelude::*;

verus! {

pub struct StrMap<V> {
    entries: Vec<(String, V)>,
}

impl<V> StrMap<V> {
    /// The keys of the entries, in order.
    pub closed spec fn key_seq(self) -> Seq<Seq<char>> {
        self.entries@.map_values(|e: (String, V)| e.0@)
    }

    /// The entries, in order.
    pub closed spec fn entry_seq(self) -> Seq<(String, V)> {
        self.entries@
    }

    #[verifier::type_invariant]
    closed spec fn keys_distinct(self) -> bool {
        forall|i: int, j: int|
            0 <= i < self.entries@.len() && 0 <= j < self.entries@.len() && i != j
                ==> #[trigger] self.entries@[i].0@ != #[trigger] self.entries@[j].0@
    }

    closed spec fn index_of(self, k: Seq<char>) -> int {
        choose|i: int| 0 <= i < self.entries@.len() && self.entries@[i].0@ == k
    }

    closed spec fn has_key(self, k: Seq<char>) -> bool {
        exists|i: int| 0 <= i < self.entries@.len() && self.entries@[i].0@ == k
    }
}

impl<V: View> View for StrMap<V> {
    type V = Map<Seq<char>, V::V>;

    closed spec fn view(&self) -> Map<Seq<char>, V::V> {
        Map::new(|k: Seq<char>| self.has_key(k), |k: Seq<char>| self.entries@[self.index_of(k)].1@)
    }
}

impl<V: View> StrMap<V> {
    proof fn lemma_index(self, i: int)
        requires
            self.keys_distinct(),
            0 <= i < self.entries@.len(),
        ensures
            self.has_key(self.entries@[i].0@),
            self.index_of(self.entries@[i].0@) == i,
            self@.contains_key(self.entries@[i].0@),
            self@[self.entries@[i].0@] == self.entries@[i].1@,
    {
        let k = self.entries@[i].0@;
        assert(self.has_key(k));
        let j = self.index_of(k);
        if j != i {
            assert(self.entries@[j].0@ == k);
        }
    }

    /// An empty map.
    pub fn new() -> (m: Self)
        ensures
            m@ == Map::<Seq<char>, V::V>::empty(),
            m.entry_seq().len() == 0,
    {
        let m = StrMap { entries: Vec::new() };
        assert(m@ =~= Map::<Seq<char>, V::V>::empty());
        m
    }

    /// Position of the entry for `key`.
    fn find(&self, key: &String) -> (r: Option<usize>)
        ensures
            r is None <==> !self@.contains_key(key@),
            r matches Some(i) ==> i < self.entries@.len() && self.entries@[i as int].0@ == key@,
    {
        proof {
            use_type_invariant(self);
        }
        let mut i: usize = 0;
        while i < self.entries.len()
            invariant
                i <= self.entries@.len(),
                forall|k: int| 0 <= k < i ==> self.entries@[k].0@ != key@,
            decreases self.entries@.len() - i,
        {
            if self.entries[i].0 == *key {
                return Some(i);
            }
            i += 1;
        }
        None
    }

    /// The value stored for `key`, if any.
    pub fn get(&self, key: &str) -> (r: Option<&V>)
        ensures
            r is Some <==> self@.contains_key(key@),
            r matches Some(v) ==> v@ == self@[key@],
    {
        proof {
            use_type_invariant(self);
        }
        let k = String::from_str(key);
        match self.find(&k) {
            Some(i) => {
                proof {
                    self.lemma_index(i as int);
                }
                Some(&self.entries[i].1)
            },
            None => None,
        }
    }

    /// Whether `key` has an entry.
    pub fn contains_key(&self, key: &str) -> (r: bool)
        ensures
            r == self@.contains_key(key@),
    {
        self.get(key).is_some()
    }

    /// Stores `value` for `key`, replacing an earlier value; a new key goes
    /// after the existing ones.
    pub fn insert(&mut self, key: String, value: V)
        ensures
            final(self)@ == old(self)@.insert(key@, value@),
            old(self)@.contains_key(key@) ==> final(self).key_seq() == old(self).key_seq(),
            !old(self)@.contains_key(key@) ==> final(self).key_seq() == old(self).key_seq().push(
                key@,
            ),
    {
        proof {
            use_type_invariant(&*self);
        }
        let ghost old_self = *self;
        let ghost kv = key@;
        let ghost vv = value@;
        match self.find(&key) {
            Some(i) => {
                let mut e: Vec<(String, V)> = Vec::new();
                std::mem::swap(&mut e, &mut self.entries);
                e.set(i, (key, value));
                proof {
                    assert forall|a: int, b: int|
                        0 <= a < e@.len() && 0 <= b < e@.len() && a != b
                            implies #[trigger] e@[a].0@ != #[trigger] e@[b].0@ by {
                        if a != i && b != i {
                            assert(old_self.entries@[a].0@ != old_self.entries@[b].0@);
                        } else if a == i {
                            assert(old_self.entries@[i as int].0@ != old_self.entries@[b].0@);
                        } else {
                            assert(old_self.entries@[a].0@ != old_self.entries@[i as int].0@);
                        }
                    }
                }
                self.entries = e;
                proof {
                    self.lemma_after_set(old_self, i as int, kv, vv);
                }
            },
            None => {
                let mut e: Vec<(String, V)> = Vec::new();
                std::mem::swap(&mut e, &mut self.entries);
                e.push((key, value));
                proof {
                    let n = old_self.entries@.len();
                    assert forall|a: int, b: int|
                        0 <= a < e@.len() && 0 <= b < e@.len() && a != b
                            implies #[trigger] e@[a].0@ != #[trigger] e@[b].0@ by {
                        if a < n && b < n {
                            assert(old_self.entries@[a].0@ != old_self.entries@[b].0@);
                        } else if a == n {
                            assert(!old_self.has_key(kv));
                            assert(old_self.entries@[b] == e@[b]);
                        } else {
                            assert(!old_self.has_key(kv));
                            assert(old_self.entries@[a] == e@[a]);
                        }
                    }
                }
                self.entries = e;
                proof {
                    self.lemma_after_push(old_self, kv, vv);
                }
            },
        }
    }

    proof fn lemma_after_set(self, old_self: Self, i: int, kv: Seq<char>, vv: V::V)
        requires
            self.keys_distinct(),
            old_self.keys_distinct(),
            0 <= i < old_self.entries@.len(),
            old_self.entries@[i].0@ == kv,
            self.entries@.len() == old_self.entries@.len(),
            self.entries@[i].0@ == kv,
            self.entries@[i].1@ == vv,
            forall|j: int| 0 <= j < self.entries@.len() && j != i ==> self.entries@[j] == old_self.entries@[j],
        ensures
            self@ == old_self@.insert(kv, vv),
            self.key_seq() == old_self.key_seq(),
    {
        assert forall|k: Seq<char>| #[trigger] self.has_key(k) == old_self.has_key(k) by {
            if self.has_key(k) {
                let j = choose|j: int| 0 <= j < self.entries@.len() && self.entries@[j].0@ == k;
                if j == i {
                    assert(old_self.entries@[i].0@ == k);
                } else {
                    assert(old_self.entries@[j].0@ == k);
                }
            }
            if old_self.has_key(k) {
                let j = choose|j: int| 0 <= j < old_self.entries@.len() && old_self.entries@[j].0@ == k;
                if j == i {
                    assert(self.entries@[i].0@ == k);
                } else {
                    assert(self.entries@[j].0@ == k);
                }
            }
        }
        assert forall|k: Seq<char>| #[trigger] self@.contains_key(k) implies self@[k] == old_self@.insert(kv, vv)[k] by {
            let j = self.index_of(k);
            self.lemma_index(j);
            if j != i {
                old_self.lemma_index(j);
            }
        }
        assert(self@ =~= old_self@.insert(kv, vv));
        assert(self.key_seq() =~= old_self.key_seq());
    }

    proof fn lemma_after_push(self, old_self: Self, kv: Seq<char>, vv: V::V)
        requires
            self.keys_distinct(),
            old_self.keys_distinct(),
            !old_self.has_key(kv),
            self.entries@ == old_self.entries@.push(self.entries@.last()),
            self.entries@.last().0@ == kv,
            self.entries@.last().1@ == vv,
        ensures
            self@ == old_self@.insert(kv, vv),
            self.key_seq() == old_self.key_seq().push(kv),
    {
        let n = old_self.entries@.len() as int;
        assert forall|k: Seq<char>| #[trigger] self.has_key(k) == (old_self.has_key(k) || k == kv) by {
            if self.has_key(k) {
                let j = choose|j: int| 0 <= j < self.entries@.len() && self.entries@[j].0@ == k;
                if j < n {
                    assert(old_self.entries@[j].0@ == k);
                }
            }
            if old_self.has_key(k) {
                let j = choose|j: int| 0 <= j < old_self.entries@.len() && old_self.entries@[j].0@ == k;
                assert(self.entries@[j].0@ == k);
            }
            if k == kv {
                assert(self.entries@[n].0@ == k);
            }
        }
        assert forall|k: Seq<char>| #[trigger] self@.contains_key(k) implies self@[k] == old_self@.insert(kv, vv)[k] by {
            let j = self.index_of(k);
            self.lemma_index(j);
            if j != n {
                old_self.lemma_index(j);
            }
        }
        assert(self@ =~= old_self@.insert(kv, vv));
        assert(self.key_seq() =~= old_self.key_seq().push(kv));
    }

    /// Number of entries.
    pub fn len(&self) -> (r: usize)
        ensures
            r == self@.dom().len(),
            r == self.key_seq().len(),
    {
        proof {
            use_type_invariant(self);
            self.lemma_dom();
        }
        self.entries.len()
    }

    /// Whether the map has no entry.
    pub fn is_empty(&self) -> (r: bool)
        ensures
            r <==> self@ == Map::<Seq<char>, V::V>::empty(),
    {
        proof {
            use_type_invariant(self);
            if self.entries@.len() > 0 {
                self.lemma_index(0);
                assert(!Map::<Seq<char>, V::V>::empty().contains_key(self.entries@[0].0@));
            } else {
                assert(self@ =~= Map::<Seq<char>, V::V>::empty());
            }
        }
        self.entries.len() == 0
    }

    proof fn lemma_dom(self)
        requires
            self.keys_distinct(),
        ensures
            self@.dom() == self.key_seq().to_set(),
            self@.dom().len() == self.key_seq().len(),
            self.key_seq().no_duplicates(),
    {
        let ks = self.key_seq();
        assert forall|k: Seq<char>| #[trigger] self@.dom().contains(k) == ks.contains(k) by {
            if self.has_key(k) {
                let j = choose|j: int| 0 <= j < self.entries@.len() && self.entries@[j].0@ == k;
                assert(ks[j] == k);
            }
            if ks.contains(k) {
                let j = choose|j: int| 0 <= j < ks.len() && ks[j] == k;
                assert(self.entries@[j].0@ == k);
            }
        }
        assert(self@.dom() =~= ks.to_set());
        assert forall|i: int, j: int| 0 <= i < ks.len() && 0 <= j < ks.len() && i != j implies ks[i] != ks[j] by {
            assert(self.entries@[i].0@ != self.entries@[j].0@);
        }
        ks.unique_seq_to_set();
    }

    /// The entries, in key-insertion order; each key occurs once and the
    /// entries are exactly the map's pairs.
    pub fn entries(&self) -> (r: &Vec<(String, V)>)
        ensures
            r@ == self.entry_seq(),
            r@.len() == self@.dom().len(),
            forall|i: int| 0 <= i < r@.len() ==> #[trigger] self@.contains_key(r@[i].0@) && self@[r@[i].0@] == r@[i].1@,
            forall|k: Seq<char>| self@.contains_key(k) ==> exists|i: int| 0 <= i < r@.len() && #[trigger] r@[i].0@ == k,
            forall|i: int, j: int| 0 <= i < r@.len() && 0 <= j < r@.len() && i != j ==> #[trigger] r@[i].0@ != #[trigger] r@[j].0@,
    {
        proof {
            use_type_invariant(self);
            self.lemma_dom();
            assert forall|i: int| 0 <= i < self.entries@.len() implies #[trigger] self@.contains_key(self.entries@[i].0@) && self@[self.entries@[i].0@] == self.entries@[i].1@ by {
                self.lemma_index(i);
            }
        }
        &self.entries
    }
}

} // verus!
