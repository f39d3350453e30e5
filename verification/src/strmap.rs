//! A map from strings to values that keeps its keys in ascending order.
use vstd::prelude::*;

use crate::text::{chars_lt, chars_of, lemma_lt_asym, lemma_lt_irrefl, lemma_lt_total, lemma_lt_trans, seq_lt};

verus! {

/// A map with `String` keys, held as a vector of pairs sorted strictly by key.
/// Its keys come out in ascending order, as those of an ordered map do.
#[derive(Clone, Debug, PartialEq, Eq)]
pub struct StrMap<V> {
    items: Vec<(String, V)>,
}

impl<V> StrMap<V> {
    /// The keys in the order they are held.
    pub closed spec fn keys(&self) -> Seq<Seq<char>> {
        self.items@.map_values(|p: (String, V)| p.0@)
    }

    /// The values in the order they are held.
    pub closed spec fn vals(&self) -> Seq<V> {
        self.items@.map_values(|p: (String, V)| p.1)
    }

    /// Keys strictly ascending.
    pub open spec fn wf(&self) -> bool {
        &&& self.keys().len() == self.vals().len()
        &&& forall|i: int, j: int|
            0 <= i < j < self.keys().len() ==> seq_lt(#[trigger] self.keys()[i], #[trigger] self.keys()[j])
    }

    /// The map that the pairs describe.
    pub open spec fn view(&self) -> Map<Seq<char>, V> {
        Map::new(
            |k: Seq<char>| self.keys().contains(k),
            |k: Seq<char>| self.vals()[self.keys().index_of(k)],
        )
    }

    /// Facts that hold of every well-formed map.
    pub proof fn lemma_wf(&self)
        requires
            self.wf(),
        ensures
            self.keys().no_duplicates(),
            self.keys().to_set() == self@.dom(),
            self@.dom().finite(),
            self@.dom().len() == self.keys().len(),
            forall|i: int|
                0 <= i < self.keys().len() ==> #[trigger] self@[self.keys()[i]] == self.vals()[i],
    {
        assert forall|i: int, j: int|
            0 <= i < self.keys().len() && 0 <= j < self.keys().len() && i != j implies self.keys()[i]
            != self.keys()[j] by {
            if i < j {
                lemma_lt_irrefl(self.keys()[i]);
            } else {
                lemma_lt_irrefl(self.keys()[j]);
            }
        }
        assert(self.keys().to_set() =~= self@.dom());
        self.keys().unique_seq_to_set();
        assert forall|i: int| 0 <= i < self.keys().len() implies #[trigger] self@[self.keys()[i]]
            == self.vals()[i] by {
            let k = self.keys()[i];
            assert(self.keys().contains(k));
            let j = self.keys().index_of(k);
            assert(self.keys()[j] == k);
        }
    }

    /// An empty map.
    pub fn new() -> (m: Self)
        ensures
            m.wf(),
            m@ == Map::<Seq<char>, V>::empty(),
            m.keys().len() == 0,
    {
        let m = StrMap { items: Vec::new() };
        assert(m@ =~= Map::<Seq<char>, V>::empty());
        m
    }

    /// Number of keys.
    pub fn len(&self) -> (n: usize)
        ensures
            n == self.keys().len(),
    {
        self.items.len()
    }

    /// Whether the map is empty.
    pub fn is_empty(&self) -> (b: bool)
        ensures
            b == (self.keys().len() == 0),
    {
        self.items.len() == 0
    }

    /// The key at position `i` in ascending order.
    pub fn key_at(&self, i: usize) -> (k: &String)
        requires
            i < self.keys().len(),
        ensures
            k@ == self.keys()[i as int],
    {
        &self.items[i].0
    }

    /// The value at position `i` in ascending key order.
    pub fn value_at(&self, i: usize) -> (v: &V)
        requires
            i < self.keys().len(),
            self.wf(),
        ensures
            *v == self.vals()[i as int],
    {
        &self.items[i].1
    }

    /// Position of `key`, if present.
    pub fn position(&self, key: &String) -> (r: Option<usize>)
        requires
            self.wf(),
        ensures
            match r {
                Some(i) => i < self.keys().len() && self.keys()[i as int] == key@,
                None => !self@.dom().contains(key@),
            },
    {
        let mut i: usize = 0;
        while i < self.items.len()
            invariant
                i <= self.items@.len(),
                self.keys().len() == self.items@.len(),
                forall|j: int| 0 <= j < i ==> self.keys()[j] != key@,
            decreases self.items@.len() - i,
        {
            if self.items[i].0 == *key {
                return Some(i);
            }
            i += 1;
        }
        None
    }

    /// Whether `key` is present.
    pub fn contains_key(&self, key: &String) -> (b: bool)
        requires
            self.wf(),
        ensures
            b == self@.dom().contains(key@),
    {
        match self.position(key) {
            Some(i) => {
                assert(self.keys().contains(self.keys()[i as int]));
                true
            },
            None => false,
        }
    }

    /// The value under `key`, if any.
    pub fn get(&self, key: &String) -> (r: Option<&V>)
        requires
            self.wf(),
        ensures
            match r {
                Some(v) => self@.dom().contains(key@) && *v == self@[key@],
                None => !self@.dom().contains(key@),
            },
    {
        match self.position(key) {
            Some(i) => {
                proof {
                    self.lemma_wf();
                    assert(self.keys().contains(self.keys()[i as int]));
                }
                Some(&self.items[i].1)
            },
            None => None,
        }
    }

    /// Removes every key.
    pub fn clear(&mut self)
        ensures
            final(self).wf(),
            final(self)@ == Map::<Seq<char>, V>::empty(),
            final(self).keys().len() == 0,
    {
        self.items.clear();
        assert(self@ =~= Map::<Seq<char>, V>::empty());
    }

    /// Whether the key at position `i` sorts before `kc`.
    fn key_lt_at(&self, i: usize, kc: &[char]) -> (r: bool)
        requires
            i < self.keys().len(),
        ensures
            r == seq_lt(self.keys()[i as int], kc@),
    {
        let ic = chars_of(self.items[i].0.as_str());
        chars_lt(ic.as_slice(), kc)
    }

    /// Puts `value` under `key`, replacing what was there; says whether the key was present.
    pub fn insert(&mut self, key: String, value: V) -> (was_present: bool)
        requires
            old(self).wf(),
        ensures
            final(self).wf(),
            final(self)@ == old(self)@.insert(key@, value),
            was_present == old(self)@.dom().contains(key@),
    {
        proof {
            self.lemma_wf();
        }
        let kc = chars_of(key.as_str());
        let mut i: usize = 0;
        while i < self.items.len() && self.key_lt_at(i, kc.as_slice())
            invariant
                i <= self.items@.len(),
                self.wf(),
                kc@ == key@,
                self.keys().len() == self.items@.len(),
                forall|j: int| 0 <= j < i ==> seq_lt(#[trigger] self.keys()[j], key@),
            decreases self.items@.len() - i,
        {
            i += 1;
        }
        let ghost old_keys = self.keys();
        let ghost old_vals = self.vals();
        let ghost old_map = self@;
        if i < self.items.len() && self.items[i].0 == key {
            proof {
                assert(old_keys[i as int] == key@);
                assert(old_keys.contains(key@));
            }
            self.items.set(i, (key, value));
            proof {
                assert(self.keys() =~= old_keys);
                assert(self.vals() =~= old_vals.update(i as int, value));
                self.lemma_wf();
                assert forall|k: Seq<char>| #[trigger] self@.dom().contains(k) implies self@[k]
                    == old_map.insert(key@, value)[k] by {
                    let j = self.keys().index_of(k);
                    assert(self.keys()[j] == k);
                    if k != key@ {
                        assert(j != i);
                        assert(old_map[k] == old_vals[old_keys.index_of(k)]);
                        let j0 = old_keys.index_of(k);
                        assert(old_keys[j0] == k);
                        assert(old_keys.no_duplicates());
                    } else {
                        assert(self.keys()[i as int] == k);
                        assert(self.keys().no_duplicates());
                    }
                }
                assert(self@ =~= old_map.insert(key@, value));
            }
            true
        } else {
            proof {
                if i < old_keys.len() {
                    lemma_lt_total(old_keys[i as int], key@);
                    lemma_lt_asym(old_keys[i as int], key@);
                }
                assert(i < old_keys.len() ==> seq_lt(key@, old_keys[i as int]));
                assert(!old_keys.contains(key@)) by {
                    if old_keys.contains(key@) {
                        let j = old_keys.index_of(key@);
                        if j < i {
                            lemma_lt_irrefl(key@);
                        } else if j > i {
                            lemma_lt_asym(old_keys[i as int], key@);
                            lemma_lt_trans(key@, old_keys[i as int], old_keys[j]);
                            lemma_lt_irrefl(key@);
                        }
                    }
                }
            }
            let ghost kv = key@;
            self.items.insert(i, (key, value));
            proof {
                assert(self.keys() =~= old_keys.insert(i as int, kv));
                assert(self.vals() =~= old_vals.insert(i as int, value));
                assert forall|a: int, b: int| 0 <= a < b < self.keys().len() implies seq_lt(
                    #[trigger] self.keys()[a],
                    #[trigger] self.keys()[b],
                ) by {
                    if b < i {
                    } else if a < i && b == i {
                    } else if a < i && b > i {
                        if b - 1 > i {
                            lemma_lt_trans(kv, old_keys[i as int], old_keys[b - 1]);
                        }
                        lemma_lt_trans(old_keys[a], kv, old_keys[b - 1]);
                    } else if a == i {
                        if b - 1 > i {
                            lemma_lt_trans(kv, old_keys[i as int], old_keys[b - 1]);
                        }
                    } else {
                    }
                }
                self.lemma_wf();
                assert forall|k: Seq<char>| #[trigger] self@.dom().contains(k) implies self@[k]
                    == old_map.insert(kv, value)[k] by {
                    let j = self.keys().index_of(k);
                    assert(self.keys()[j] == k);
                    if k != kv {
                        let j0 = old_keys.index_of(k);
                        assert(old_keys.contains(k)) by {
                            if j < i {
                                assert(old_keys[j] == k);
                            } else {
                                assert(old_keys[j - 1] == k);
                            }
                        }
                        assert(old_keys[j0] == k);
                        assert(old_keys.no_duplicates());
                        if j < i {
                            assert(old_keys[j] == k);
                        } else {
                            assert(old_keys[j - 1] == k);
                        }
                    } else {
                        assert(self.keys()[i as int] == kv);
                    }
                }
                assert forall|k: Seq<char>| #[trigger] old_map.insert(kv, value).dom().contains(
                    k,
                ) implies self.keys().contains(k) by {
                    if k == kv {
                        assert(self.keys()[i as int] == kv);
                    } else {
                        let j = old_keys.index_of(k);
                        assert(old_keys[j] == k);
                        if j < i {
                            assert(self.keys()[j] == k);
                        } else {
                            assert(self.keys()[j + 1] == k);
                        }
                    }
                }
                assert(self@.dom() =~= old_map.insert(kv, value).dom());
                assert(self@ =~= old_map.insert(kv, value));
            }
            false
        }
    }
}


impl<V> StrMap<V> {
    /// Removes `key`, if present.
    pub fn remove(&mut self, key: &String)
        requires
            old(self).wf(),
        ensures
            final(self).wf(),
            final(self)@ == old(self)@.remove(key@),
    {
        proof {
            self.lemma_wf();
        }
        let ghost old_keys = self.keys();
        let ghost old_vals = self.vals();
        let ghost old_map = self@;
        match self.position(key) {
            None => {
                assert(self@ =~= old_map.remove(key@));
            },
            Some(p) => {
                let _ = self.items.remove(p);
                proof {
                    assert(self.keys() =~= old_keys.remove(p as int));
                    assert(self.vals() =~= old_vals.remove(p as int));
                    assert forall|a: int, b: int| 0 <= a < b < self.keys().len() implies seq_lt(
                        #[trigger] self.keys()[a],
                        #[trigger] self.keys()[b],
                    ) by {
                        if b < p {
                        } else if a < p {
                            assert(self.keys()[b] == old_keys[b + 1]);
                        } else {
                            assert(self.keys()[a] == old_keys[a + 1]);
                            assert(self.keys()[b] == old_keys[b + 1]);
                        }
                    }
                    self.lemma_wf();
                    assert forall|k: Seq<char>| #[trigger] old_map.remove(key@).dom().contains(k)
                        implies self.keys().contains(k) by {
                        let j = old_keys.index_of(k);
                        assert(old_keys[j] == k);
                        assert(j != p);
                        if j < p {
                            assert(self.keys()[j] == k);
                        } else {
                            assert(self.keys()[j - 1] == k);
                        }
                    }
                    assert forall|k: Seq<char>| #[trigger] self.keys().contains(k) implies old_map.remove(
                        key@,
                    ).dom().contains(k) && self@[k] == old_map[k] by {
                        let j = self.keys().index_of(k);
                        assert(self.keys()[j] == k);
                        let j0 = if j < p {
                            j
                        } else {
                            j + 1
                        };
                        assert(old_keys[j0] == k);
                        assert(old_keys.contains(k));
                        assert(k != key@) by {
                            if k == key@ {
                                assert(old_keys[p as int] == key@);
                                assert(old_keys.no_duplicates());
                            }
                        }
                        assert(old_map[k] == old_vals[j0]);
                        assert(self@[k] == self.vals()[j]);
                    }
                    assert(self@ =~= old_map.remove(key@));
                }
            },
        }
    }

    /// The keys in ascending order, as owned strings.
    pub fn key_list(&self) -> (r: Vec<String>)
        ensures
            r@.len() == self.keys().len(),
            forall|i: int| 0 <= i < r@.len() ==> #[trigger] r@[i]@ == self.keys()[i],
    {
        let mut out: Vec<String> = Vec::new();
        let mut i: usize = 0;
        while i < self.items.len()
            invariant
                i <= self.items@.len(),
                self.keys().len() == self.items@.len(),
                out@.len() == i,
                forall|j: int| 0 <= j < i ==> #[trigger] out@[j]@ == self.keys()[j],
            decreases self.items@.len() - i,
        {
            out.push(self.items[i].0.clone());
            i += 1;
        }
        out
    }

    /// Keeps only the keys that `keep` says to keep.
    pub fn retain_listed(&mut self, keep: &Vec<String>)
        requires
            old(self).wf(),
        ensures
            final(self).wf(),
            final(self)@ == old(self)@.restrict(keep@.map_values(|s: String| s@).to_set()),
    {
        let ghost orig = self@;
        let ghost kv = keep@.map_values(|s: String| s@);
        let ghost kset = kv.to_set();
        let listed = self.key_list();
        proof {
            self.lemma_wf();
            assert forall|k: Seq<char>| orig.dom().contains(k) <==> (exists|j: int|
                0 <= j < listed@.len() && listed@[j]@ == k) by {
                if orig.dom().contains(k) {
                    assert(self.keys().to_set().contains(k));
                    let j = choose|j: int| 0 <= j < self.keys().len() && self.keys()[j] == k;
                    assert(listed@[j]@ == k);
                }
                if exists|j: int| 0 <= j < listed@.len() && listed@[j]@ == k {
                    let j = choose|j: int| 0 <= j < listed@.len() && listed@[j]@ == k;
                    assert(self.keys()[j] == k);
                    assert(self.keys().contains(k));
                }
            }
            assert(orig.dom() =~= Set::new(|k: Seq<char>| exists|j: int| 0 <= j < listed@.len() && listed@[j]@ == k));
        }
        let mut i: usize = 0;
        while i < listed.len()
            invariant
                i <= listed@.len(),
                self.wf(),
                orig.dom() == Set::new(|k: Seq<char>| exists|j: int| 0 <= j < listed@.len() && listed@[j]@ == k),
                kv == keep@.map_values(|s: String| s@),
                kset == kv.to_set(),
                forall|k: Seq<char>| #[trigger] self@.dom().contains(k) <==> (orig.dom().contains(k) && (kset.contains(k) || !exists|j: int| 0 <= j < i && listed@[j]@ == k)),
                forall|k: Seq<char>| #[trigger] self@.dom().contains(k) ==> self@[k] == orig[k],
            decreases listed@.len() - i,
        {
            let mut found = false;
            let mut q: usize = 0;
            while q < keep.len()
                invariant
                    q <= keep@.len(),
                    i < listed@.len(),
                    found == exists|j: int| 0 <= j < q && keep@[j]@ == listed@[i as int]@,
                decreases keep@.len() - q,
            {
                if keep[q] == listed[i] {
                    found = true;
                }
                q += 1;
            }
            proof {
                if found {
                    let j = choose|j: int| 0 <= j < keep@.len() && keep@[j]@ == listed@[i as int]@;
                    assert(kv[j] == listed@[i as int]@);
                    assert(kset.contains(listed@[i as int]@));
                } else {
                    if kset.contains(listed@[i as int]@) {
                        let j = choose|j: int| 0 <= j < kv.len() && kv[j] == listed@[i as int]@;
                        assert(keep@[j]@ == listed@[i as int]@);
                    }
                }
            }
            if !found {
                self.remove(&listed[i]);
            }
            proof {
                assert forall|k: Seq<char>| #[trigger] self@.dom().contains(k) <==> (orig.dom().contains(k) && (kset.contains(k) || !exists|j: int| 0 <= j < i + 1 && listed@[j]@ == k)) by {
                    if exists|j: int| 0 <= j < i + 1 && listed@[j]@ == k {
                        let j = choose|j: int| 0 <= j < i + 1 && listed@[j]@ == k;
                        if j < i {
                            assert(exists|j2: int| 0 <= j2 < i && listed@[j2]@ == k);
                        }
                    }
                    if exists|j: int| 0 <= j < i && listed@[j]@ == k {
                        let j = choose|j: int| 0 <= j < i && listed@[j]@ == k;
                        assert(exists|j2: int| 0 <= j2 < i + 1 && listed@[j2]@ == k);
                    }
                    if k == listed@[i as int]@ {
                        assert(exists|j2: int| 0 <= j2 < i + 1 && listed@[j2]@ == k);
                    }
                }
            }
            i += 1;
        }
        proof {
            assert forall|k: Seq<char>| #[trigger] self@.dom().contains(k) <==> orig.restrict(kset).dom().contains(k) by {
                if orig.dom().contains(k) {
                    assert(exists|j: int| 0 <= j < listed@.len() && listed@[j]@ == k);
                }
            }
            assert(self@ =~= orig.restrict(kset));
        }
    }
}
} // verus!
