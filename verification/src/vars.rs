//! `Variables`, a finite map from variable names to values, and `NameSet`,
//! a finite set of names. Both keep their entries in insertion order.

use vstd::prelude::*;

verus! {

/// `pairs` lists exactly the entries of `m`, each key once.
pub open spec fn lists_map(pairs: Seq<(String, String)>, m: Map<Seq<char>, Seq<char>>) -> bool {
    &&& forall|i: int, j: int| 0 <= i < j < pairs.len() ==> pairs[i].0@ != pairs[j].0@
    &&& forall|i: int| 0 <= i < pairs.len() ==> #[trigger] m.contains_key(pairs[i].0@)
        && m[pairs[i].0@] == pairs[i].1@
    &&& forall|k: Seq<char>| #[trigger] m.contains_key(k) ==> exists|i: int| 0 <= i < pairs.len() && pairs[i].0@ == k
}

/// A map from variable names to their values (`name -> value`).
#[derive(Debug)]
pub struct Variables {
    entries: Vec<(String, String)>,
}

impl Variables {
    /// No key occurs twice.
    pub closed spec fn distinct_keys(entries: Seq<(String, String)>) -> bool {
        forall|i: int, j: int| 0 <= i < j < entries.len() ==> entries[i].0@ != entries[j].0@
    }

    #[verifier::type_invariant]
    closed spec fn inv(self) -> bool {
        Self::distinct_keys(self.entries@)
    }

    /// The map that a sequence of entries with distinct keys stands for.
    pub closed spec fn map_of(entries: Seq<(String, String)>) -> Map<Seq<char>, Seq<char>> {
        Map::new(
            |k: Seq<char>| exists|i: int| 0 <= i < entries.len() && entries[i].0@ == k,
            |k: Seq<char>| entries[choose|i: int| 0 <= i < entries.len() && entries[i].0@ == k].1@,
        )
    }

    proof fn lemma_map_of(entries: Seq<(String, String)>)
        requires
            Self::distinct_keys(entries),
        ensures
            lists_map(entries, Self::map_of(entries)),
    {
        let m = Self::map_of(entries);
        assert forall|i: int| 0 <= i < entries.len() implies #[trigger] m.contains_key(entries[i].0@)
            && m[entries[i].0@] == entries[i].1@ by {
            let k = entries[i].0@;
            assert(exists|j: int| 0 <= j < entries.len() && entries[j].0@ == k);
            let c = choose|j: int| 0 <= j < entries.len() && entries[j].0@ == k;
            if c != i {
                if c < i {
                    assert(entries[c].0@ != entries[i].0@);
                } else {
                    assert(entries[i].0@ != entries[c].0@);
                }
            }
        }
    }

    /// An empty map.
    pub fn new() -> (r: Self)
        ensures
            r@ == Map::<Seq<char>, Seq<char>>::empty(),
    {
        let r = Variables { entries: Vec::new() };
        assert(r@ =~= Map::<Seq<char>, Seq<char>>::empty());
        r
    }

    /// Position of the entry whose key is `key`.
    fn find(&self, key: &String) -> (r: Option<usize>)
        ensures
            match r {
                Some(i) => i < self.entries@.len() && self.entries@[i as int].0@ == key@,
                None => forall|i: int| 0 <= i < self.entries@.len() ==> self.entries@[i].0@ != key@,
            },
    {
        let mut i: usize = 0;
        while i < self.entries.len()
            invariant
                i <= self.entries@.len(),
                forall|j: int| 0 <= j < i ==> self.entries@[j].0@ != key@,
            decreases self.entries@.len() - i,
        {
            if self.entries[i].0 == *key {
                return Some(i);
            }
            i += 1;
        }
        None
    }

    /// Sets `key` to `value`, returning the value it had before, if any.
    pub fn insert(&mut self, key: String, value: String) -> (r: Option<String>)
        ensures
            final(self)@ == old(self)@.insert(key@, value@),
            r matches Some(v) ==> old(self)@.contains_key(key@) && v@ == old(self)@[key@],
            r is None ==> !old(self)@.contains_key(key@),
    {
        proof {
            use_type_invariant(&*self);
            Self::lemma_map_of(self.entries@);
        }
        let ghost old_entries = self.entries@;
        match self.find(&key) {
            Some(i) => {
                let mut entries: Vec<(String, String)> = Vec::new();
                std::mem::swap(&mut entries, &mut self.entries);
                let old_value = entries[i].1.clone();
                let k = entries[i].0.clone();
                entries.set(i, (k, value));
                self.entries = entries;
                assert(self.entries@ == old_entries.update(i as int, (old_entries[i as int].0, value)));
                proof {
                    Self::lemma_map_of(self.entries@);
                    assert(self@ =~= old(self)@.insert(key@, value@)) by {
                        assert forall|k: Seq<char>| #[trigger] self@.contains_key(k) implies old(self)@.insert(key@, value@).contains_key(k) by {
                            let j = choose|j: int| 0 <= j < self.entries@.len() && self.entries@[j].0@ == k;
                        }
                        assert forall|k: Seq<char>| #[trigger] old(self)@.insert(key@, value@).contains_key(k) implies self@.contains_key(k) by {
                            if k != key@ {
                                let j = choose|j: int| 0 <= j < old_entries.len() && old_entries[j].0@ == k;
                                assert(self.entries@[j].0@ == k);
                            } else {
                                assert(self.entries@[i as int].0@ == k);
                            }
                        }
                        assert forall|k: Seq<char>| #[trigger] self@.contains_key(k) implies self@[k] == old(self)@.insert(key@, value@)[k] by {
                            let j = choose|j: int| 0 <= j < self.entries@.len() && self.entries@[j].0@ == k;
                            assert(self@[k] == self.entries@[j].1@);
                            if j != i {
                                assert(old(self)@[k] == old_entries[j].1@);
                            }
                        }
                    }
                }
                Some(old_value)
            },
            None => {
                let mut entries: Vec<(String, String)> = Vec::new();
                std::mem::swap(&mut entries, &mut self.entries);
                entries.push((key, value));
                self.entries = entries;
                proof {
                    Self::lemma_map_of(self.entries@);
                    assert(self@ =~= old(self)@.insert(key@, value@)) by {
                        assert forall|k: Seq<char>| #[trigger] self@.contains_key(k) implies old(self)@.insert(key@, value@).contains_key(k) by {
                            let j = choose|j: int| 0 <= j < self.entries@.len() && self.entries@[j].0@ == k;
                            if j < old_entries.len() {
                                assert(old_entries[j].0@ == k);
                            }
                        }
                        assert forall|k: Seq<char>| #[trigger] old(self)@.insert(key@, value@).contains_key(k) implies self@.contains_key(k) by {
                            if k != key@ {
                                let j = choose|j: int| 0 <= j < old_entries.len() && old_entries[j].0@ == k;
                                assert(self.entries@[j].0@ == k);
                            } else {
                                assert(self.entries@[old_entries.len() as int].0@ == k);
                            }
                        }
                        assert forall|k: Seq<char>| #[trigger] self@.contains_key(k) implies self@[k] == old(self)@.insert(key@, value@)[k] by {
                            let j = choose|j: int| 0 <= j < self.entries@.len() && self.entries@[j].0@ == k;
                            assert(self@[k] == self.entries@[j].1@);
                            if j < old_entries.len() {
                                assert(old_entries[j] == self.entries@[j]);
                                assert(old(self)@[k] == old_entries[j].1@);
                            }
                        }
                    }
                }
                None
            },
        }
    }
}

impl Variables {
    /// The value of `key`, if it has one.
    pub fn get(&self, key: &str) -> (r: Option<&String>)
        ensures
            r is Some <==> self@.contains_key(key@),
            r matches Some(v) ==> v@ == self@[key@],
    {
        proof {
            use_type_invariant(self);
            Self::lemma_map_of(self.entries@);
        }
        let k = key.to_owned();
        match self.find(&k) {
            Some(i) => Some(&self.entries[i].1),
            None => None,
        }
    }

    /// Whether `key` has a value.
    pub fn contains_key(&self, key: &str) -> (r: bool)
        ensures
            r == self@.contains_key(key@),
    {
        self.get(key).is_some()
    }

    /// Removes `key`, returning its value, if it had one.
    pub fn remove(&mut self, key: &str) -> (r: Option<String>)
        ensures
            final(self)@ == old(self)@.remove(key@),
            r is Some <==> old(self)@.contains_key(key@),
            r matches Some(v) ==> v@ == old(self)@[key@],
    {
        proof {
            use_type_invariant(&*self);
            Self::lemma_map_of(self.entries@);
        }
        let ghost old_entries = self.entries@;
        let k = key.to_owned();
        match self.find(&k) {
            Some(i) => {
                let mut entries: Vec<(String, String)> = Vec::new();
                std::mem::swap(&mut entries, &mut self.entries);
                let (_, v) = entries.remove(i);
                self.entries = entries;
                assert(self.entries@ == old_entries.remove(i as int));
                proof {
                    Self::lemma_map_of(self.entries@);
                    assert(self@ =~= old(self)@.remove(key@)) by {
                        assert forall|q: Seq<char>| #[trigger] self@.contains_key(q) implies old(self)@.remove(key@).contains_key(q) by {
                            let j = choose|j: int| 0 <= j < self.entries@.len() && self.entries@[j].0@ == q;
                            if j < i {
                                assert(old_entries[j] == self.entries@[j]);
                            } else {
                                assert(old_entries[j + 1] == self.entries@[j]);
                            }
                        }
                        assert forall|q: Seq<char>| #[trigger] old(self)@.remove(key@).contains_key(q) implies self@.contains_key(q) by {
                            let j = choose|j: int| 0 <= j < old_entries.len() && old_entries[j].0@ == q;
                            if j < i {
                                assert(self.entries@[j].0@ == q);
                            } else {
                                assert(self.entries@[j - 1].0@ == q);
                            }
                        }
                        assert forall|q: Seq<char>| #[trigger] self@.contains_key(q) implies self@[q] == old(self)@.remove(key@)[q] by {
                            let j = choose|j: int| 0 <= j < self.entries@.len() && self.entries@[j].0@ == q;
                            assert(self@[q] == self.entries@[j].1@);
                            if j < i {
                                assert(old_entries[j] == self.entries@[j]);
                                assert(old(self)@[q] == old_entries[j].1@);
                            } else {
                                assert(old_entries[j + 1] == self.entries@[j]);
                                assert(old(self)@[q] == old_entries[j + 1].1@);
                            }
                        }
                    }
                }
                Some(v)
            },
            None => {
                assert(old(self)@.remove(key@) =~= old(self)@);
                None
            },
        }
    }

    /// The number of names that have a value.
    pub fn len(&self) -> (r: usize)
        ensures
            r == self@.len(),
    {
        proof {
            use_type_invariant(self);
            Self::lemma_map_of(self.entries@);
            Self::lemma_len(self.entries@);
        }
        self.entries.len()
    }

    /// Whether no name has a value.
    pub fn is_empty(&self) -> (r: bool)
        ensures
            r == (self@.len() == 0),
    {
        self.len() == 0
    }

    proof fn lemma_len(entries: Seq<(String, String)>)
        requires
            Self::distinct_keys(entries),
        ensures
            Self::map_of(entries).dom().finite(),
            Self::map_of(entries).len() == entries.len(),
    {
        let keys = entries.map_values(|e: (String, String)| e.0@);
        assert(keys.no_duplicates()) by {
            assert forall|i: int, j: int| 0 <= i < keys.len() && 0 <= j < keys.len() && i != j implies keys[i] != keys[j] by {
                if i < j {
                    assert(entries[i].0@ != entries[j].0@);
                } else {
                    assert(entries[j].0@ != entries[i].0@);
                }
            }
        }
        keys.unique_seq_to_set();
        assert(Self::map_of(entries).dom() =~= keys.to_set()) by {
            assert forall|k: Seq<char>| #[trigger] Self::map_of(entries).dom().contains(k) implies keys.to_set().contains(k) by {
                let j = choose|j: int| 0 <= j < entries.len() && entries[j].0@ == k;
                assert(keys[j] == k);
            }
            assert forall|k: Seq<char>| keys.to_set().contains(k) implies #[trigger] Self::map_of(entries).dom().contains(k) by {
                let j = choose|j: int| 0 <= j < keys.len() && keys[j] == k;
                assert(entries[j].0@ == k);
            }
        }
    }

    /// The entries, each name once, in the order in which the names were first set.
    pub fn entries(&self) -> (r: &Vec<(String, String)>)
        ensures
            lists_map(r@, self@),
    {
        proof {
            use_type_invariant(self);
            Self::lemma_map_of(self.entries@);
        }
        &self.entries
    }
}

/// A finite set of names.
#[derive(Debug)]
pub struct NameSet {
    items: Vec<String>,
}

impl NameSet {
    /// The names of `items`, as character sequences.
    pub open spec fn names_of(items: Seq<String>) -> Seq<Seq<char>> {
        items.map_values(|s: String| s@)
    }

    #[verifier::type_invariant]
    closed spec fn inv(self) -> bool {
        Self::names_of(self.items@).no_duplicates()
    }

    /// An empty set.
    pub fn new() -> (r: Self)
        ensures
            r@ == Set::<Seq<char>>::empty(),
    {
        let r = NameSet { items: Vec::new() };
        assert(Self::names_of(r.items@).to_set() =~= Set::<Seq<char>>::empty());
        r
    }

    fn position(&self, name: &String) -> (r: Option<usize>)
        ensures
            match r {
                Some(i) => i < self.items@.len() && self.items@[i as int]@ == name@ && self@.contains(name@),
                None => !self@.contains(name@),
            },
    {
        let mut i: usize = 0;
        while i < self.items.len()
            invariant
                i <= self.items@.len(),
                forall|j: int| 0 <= j < i ==> self.items@[j]@ != name@,
            decreases self.items@.len() - i,
        {
            if self.items[i] == *name {
                assert(Self::names_of(self.items@)[i as int] == name@);
                return Some(i);
            }
            i += 1;
        }
        proof {
            if self@.contains(name@) {
                let j = choose|j: int| 0 <= j < self.items@.len() && Self::names_of(self.items@)[j] == name@;
                assert(self.items@[j]@ == name@);
            }
        }
        None
    }

    /// Adds `name`; returns whether it was not in the set before.
    pub fn insert(&mut self, name: String) -> (r: bool)
        ensures
            final(self)@ == old(self)@.insert(name@),
            r == !old(self)@.contains(name@),
    {
        proof {
            use_type_invariant(&*self);
        }
        match self.position(&name) {
            Some(i) => {
                assert(old(self)@.contains(name@)) by {
                    assert(Self::names_of(self.items@)[i as int] == name@);
                }
                assert(old(self)@.insert(name@) =~= old(self)@);
                false
            },
            None => {
                let ghost old_items = self.items@;
                let mut items: Vec<String> = Vec::new();
                std::mem::swap(&mut items, &mut self.items);
                items.push(name);
                assert(Self::names_of(items@) =~= Self::names_of(old_items).push(name@));
                assert(Self::names_of(items@).to_set() =~= Self::names_of(old_items).to_set().insert(name@)) by {
                    broadcast use vstd::seq_lib::group_seq_properties;
                }
                assert(Self::names_of(items@).no_duplicates()) by {
                    assert forall|a: int, b: int| 0 <= a < items@.len() && 0 <= b < items@.len() && a != b
                        implies Self::names_of(items@)[a] != Self::names_of(items@)[b] by {
                        if a == old_items.len() as int {
                            assert(!Self::names_of(old_items).to_set().contains(name@));
                            assert(Self::names_of(old_items).contains(Self::names_of(old_items)[b]));
                        } else if b == old_items.len() as int {
                            assert(Self::names_of(old_items).contains(Self::names_of(old_items)[a]));
                        }
                    }
                }
                self.items = items;
                true
            },
        }
    }

    /// Whether `name` is in the set.
    pub fn contains(&self, name: &str) -> (r: bool)
        ensures
            r == self@.contains(name@),
    {
        let n = name.to_owned();
        self.position(&n).is_some()
    }

    /// The number of names in the set.
    pub fn len(&self) -> (r: usize)
        ensures
            r == self@.len(),
            self@.finite(),
    {
        proof {
            use_type_invariant(self);
            Self::names_of(self.items@).unique_seq_to_set();
        }
        self.items.len()
    }

    /// Whether the set is empty.
    pub fn is_empty(&self) -> (r: bool)
        ensures
            r == (self@.len() == 0),
    {
        self.len() == 0
    }

    /// The names, each once, in the order in which they were added.
    pub fn items(&self) -> (r: &Vec<String>)
        ensures
            Self::names_of(r@).no_duplicates(),
            Self::names_of(r@).to_set() == self@,
    {
        proof {
            use_type_invariant(self);
        }
        &self.items
    }
}

impl View for NameSet {
    type V = Set<Seq<char>>;

    closed spec fn view(&self) -> Set<Seq<char>> {
        Self::names_of(self.items@).to_set()
    }
}

impl View for Variables {
    type V = Map<Seq<char>, Seq<char>>;

    closed spec fn view(&self) -> Map<Seq<char>, Seq<char>> {
        Self::map_of(self.entries@)
    }
}

} // verus!
