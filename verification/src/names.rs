//! A map from names to values that remembers the order in which names came.

use vstd::prelude::*;
use crate::text::same_text;

verus! {

/// Values looked up by name. Each name occurs once; a new name goes to the
/// end, so the names keep the order in which they were first inserted.
pub struct NameMap<V> {
    entries: Vec<(String, V)>,
}

impl<V> NameMap<V> {
    /// The names, in order.
    pub closed spec fn keys(&self) -> Seq<Seq<char>> {
        self.entries@.map_values(|e: (String, V)| e.0@)
    }

    /// The values, in the order of their names.
    pub closed spec fn values(&self) -> Seq<V> {
        self.entries@.map_values(|e: (String, V)| e.1)
    }

    /// What each name is mapped to.
    pub closed spec fn view(&self) -> Map<Seq<char>, V> {
        Map::new(
            |k: Seq<char>| self.keys().contains(k),
            |k: Seq<char>| self.values()[self.keys().index_of(k)],
        )
    }

    /// No name occurs twice.
    #[verifier::type_invariant]
    pub closed spec fn well_formed(&self) -> bool {
        self.keys().no_duplicates()
    }

    /// How the map, its names and its values relate.
    pub proof fn lemma_view(&self)
        requires
            self.well_formed(),
        ensures
            self.keys().len() == self.values().len(),
            self.keys().no_duplicates(),
            forall|k: Seq<char>| #[trigger] self@.contains_key(k) <==> self.keys().contains(k),
            forall|i: int| 0 <= i < self.keys().len() ==> self@.contains_key(#[trigger] self.keys()[i])
                && self@[self.keys()[i]] == self.values()[i],
    {
        assert forall|i: int| 0 <= i < self.keys().len() implies self@.contains_key(#[trigger] self.keys()[i])
            && self@[self.keys()[i]] == self.values()[i] by {
            assert(self.keys().contains(self.keys()[i]));
            let j = self.keys().index_of(self.keys()[i]);
            assert(self.keys()[j] == self.keys()[i]);
        }
    }

    /// An empty map.
    pub fn new() -> (m: Self)
        ensures
            m.keys() == Seq::<Seq<char>>::empty(),
            m.values() == Seq::<V>::empty(),
            m@ == Map::<Seq<char>, V>::empty(),
    {
        let m = NameMap { entries: Vec::new() };
        assert(m.keys() =~= Seq::<Seq<char>>::empty());
        assert(m.values() =~= Seq::<V>::empty());
        assert(m@ =~= Map::<Seq<char>, V>::empty());
        m
    }

    /// The number of names.
    pub fn len(&self) -> (n: usize)
        ensures
            n == self.keys().len(),
            n == self.values().len(),
    {
        self.entries.len()
    }

    /// The `i`-th name.
    pub fn key_at(&self, i: usize) -> (k: &String)
        requires
            i < self.keys().len(),
        ensures
            k@ == self.keys()[i as int],
    {
        &self.entries[i].0
    }

    /// The `i`-th value.
    pub fn value_at(&self, i: usize) -> (v: &V)
        requires
            i < self.values().len(),
        ensures
            *v == self.values()[i as int],
    {
        &self.entries[i].1
    }

    /// Where `k` stands among the names, if it is one of them.
    pub fn position(&self, k: &str) -> (r: Option<usize>)
        ensures
            match r {
                Some(i) => i < self.keys().len() && self.keys()[i as int] == k@,
                None => !self.keys().contains(k@),
            },
    {
        let mut i: usize = 0;
        while i < self.entries.len()
            invariant
                i <= self.entries@.len(),
                forall|j: int| 0 <= j < i ==> self.keys()[j] != k@,
            decreases self.entries@.len() - i,
        {
            if same_text(self.entries[i].0.as_str(), k) {
                return Some(i);
            }
            i = i + 1;
        }
        None
    }

    /// Whether `k` is one of the names.
    pub fn contains_key(&self, k: &str) -> (r: bool)
        ensures
            r == self@.contains_key(k@),
    {
        self.position(k).is_some()
    }

    /// The value of `k`, if it has one.
    pub fn get(&self, k: &str) -> (r: Option<&V>)
        ensures
            match r {
                Some(v) => self@.contains_key(k@) && *v == self@[k@],
                None => !self@.contains_key(k@),
            },
    {
        proof {
            use_type_invariant(self);
            self.lemma_view();
        }
        match self.position(k) {
            Some(i) => Some(&self.entries[i].1),
            None => None,
        }
    }

    /// Maps `k` to `v`: an existing name keeps its place, a new one goes to the end.
    pub fn insert(&mut self, k: String, v: V)
        ensures
            final(self)@ == old(self)@.insert(k@, v),
            final(self).keys() == (if old(self).keys().contains(k@) {
                old(self).keys()
            } else {
                old(self).keys().push(k@)
            }),
            final(self).values() == (if old(self).keys().contains(k@) {
                old(self).values().update(old(self).keys().index_of(k@), v)
            } else {
                old(self).values().push(v)
            }),
    {
        proof {
            use_type_invariant(&*self);
        }
        let ghost old_keys = self.keys();
        let ghost old_values = self.values();
        let ghost old_view = self@;
        let ghost kv = k@;
        let mut entries: Vec<(String, V)> = Vec::new();
        std::mem::swap(&mut entries, &mut self.entries);
        assert(entries@.map_values(|e: (String, V)| e.0@) == old_keys);
        assert(entries@.map_values(|e: (String, V)| e.1) == old_values);
        let found = self.position_in(&entries, k.as_str());
        match found {
            Some(i) => {
                assert(old_keys[i as int] == kv);
                assert(old_keys.contains(kv));
                assert(old_keys.index_of(kv) == i) by {
                    let j = old_keys.index_of(kv);
                    assert(old_keys[j] == kv);
                }
                entries.set(i, (k, v));
                let ghost new_keys = entries@.map_values(|e: (String, V)| e.0@);
                assert(new_keys =~= old_keys);
                assert(entries@.map_values(|e: (String, V)| e.1) =~= old_values.update(i as int, v));
                self.entries = entries;
                assert(self.keys() == old_keys);
                assert(self@ =~= old_view.insert(kv, v)) by {
                    assert forall|q: Seq<char>| self.keys().contains(q) implies
                        self.values()[self.keys().index_of(q)] == old_view.insert(kv, v)[q] by {
                        let a = self.keys().index_of(q);
                        let b = old_keys.index_of(q);
                        assert(old_keys.contains(q));
                        assert(a == b);
                    }
                }
            },
            None => {
                assert(!old_keys.contains(kv)) by {
                    if old_keys.contains(kv) {
                        let j = old_keys.index_of(kv);
                        assert(entries@[j].0@ == kv);
                    }
                }
                entries.push((k, v));
                let ghost new_keys = entries@.map_values(|e: (String, V)| e.0@);
                assert(new_keys =~= old_keys.push(kv));
                assert(entries@.map_values(|e: (String, V)| e.1) =~= old_values.push(v));
                self.entries = entries;
                assert(self@ =~= old_view.insert(kv, v)) by {
                    assert forall|q: Seq<char>| self.keys().contains(q) implies
                        self.values()[self.keys().index_of(q)] == old_view.insert(kv, v)[q] by {
                        let a = self.keys().index_of(q);
                        if q == kv {
                            assert(self.keys()[old_keys.len() as int] == kv);
                            assert(a == old_keys.len());
                        } else {
                            assert(a < old_keys.len());
                            assert(old_keys[a] == q);
                            assert(old_keys.contains(q));
                            let b = old_keys.index_of(q);
                            assert(a == b);
                        }
                    }
                    assert forall|q: Seq<char>| old_view.insert(kv, v).contains_key(q) implies
                        self.keys().contains(q) by {
                        if q == kv {
                            assert(self.keys()[old_keys.len() as int] == kv);
                        } else {
                            let b = old_keys.index_of(q);
                            assert(self.keys()[b] == q);
                        }
                    }
                }
            },
        }
    }

    /// Replaces the `i`-th value; the names stay as they are.
    pub fn set_value(&mut self, i: usize, v: V)
        requires
            i < old(self).values().len(),
        ensures
            final(self).keys() == old(self).keys(),
            final(self).values() == old(self).values().update(i as int, v),
            final(self)@ == old(self)@.insert(old(self).keys()[i as int], v),
    {
        proof {
            use_type_invariant(&*self);
            self.lemma_view();
        }
        let ghost old_keys = self.keys();
        let ghost old_values = self.values();
        let ghost old_view = self@;
        let mut entries: Vec<(String, V)> = Vec::new();
        std::mem::swap(&mut entries, &mut self.entries);
        assert(entries@.map_values(|e: (String, V)| e.0@) == old_keys);
        let ghost before = entries@;
        let (k, _) = entries.remove(i);
        entries.insert(i, (k, v));
        assert(entries@ =~= before.update(i as int, (before[i as int].0, v)));
        assert(entries@.map_values(|e: (String, V)| e.0@) =~= old_keys);
        assert(entries@.map_values(|e: (String, V)| e.1) =~= old_values.update(i as int, v));
        self.entries = entries;
        let ghost kv = old_keys[i as int];
        assert(old_keys.index_of(kv) == i) by {
            let j = old_keys.index_of(kv);
            assert(old_keys.contains(kv));
        }
        assert(self@ =~= old_view.insert(kv, v)) by {
            assert forall|q: Seq<char>| self.keys().contains(q) implies
                self.values()[self.keys().index_of(q)] == old_view.insert(kv, v)[q] by {
                let a = self.keys().index_of(q);
                let b = old_keys.index_of(q);
                assert(a == b);
            }
        }
    }

    /// The names, as texts.
    pub fn key_list(&self) -> (r: Vec<String>)
        ensures
            crate::text::texts(r@) == self.keys(),
    {
        let mut r: Vec<String> = Vec::new();
        let mut i: usize = 0;
        while i < self.entries.len()
            invariant
                i <= self.entries@.len(),
                crate::text::texts(r@) == self.keys().take(i as int),
            decreases self.entries@.len() - i,
        {
            let c = self.entries[i].0.clone();
            assert(c@ == self.keys()[i as int]);
            let ghost before = r@;
            r.push(c);
            assert(r@ == before.push(c));
            assert(crate::text::texts(r@) =~= crate::text::texts(before).push(c@));
            i = i + 1;
            assert(crate::text::texts(r@) =~= self.keys().take(i as int));
        }
        assert(self.keys().take(i as int) =~= self.keys());
        r
    }

    /// Where `k` stands among the names of a list of entries.
    fn position_in(&self, entries: &Vec<(String, V)>, k: &str) -> (r: Option<usize>)
        ensures
            match r {
                Some(i) => i < entries@.len() && entries@[i as int].0@ == k@,
                None => forall|j: int| 0 <= j < entries@.len() ==> entries@[j].0@ != k@,
            },
    {
        let mut i: usize = 0;
        while i < entries.len()
            invariant
                i <= entries@.len(),
                forall|j: int| 0 <= j < i ==> entries@[j].0@ != k@,
            decreases entries@.len() - i,
        {
            if same_text(entries[i].0.as_str(), k) {
                return Some(i);
            }
            i = i + 1;
        }
        None
    }
}

} // verus!
