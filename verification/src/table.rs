use vstd::hash_map::StringHashMap;
use vstd::prelude::*;

verus! {

/// A map from strings to values that keeps its keys in the order in which
/// they first arrived, so that the entries can be walked by position.
///
/// The model is a pair of sequences of one length, `keys()` and `values()`,
/// in which no key stands twice; the view is the map that they spell out.
/// Keys are found through vstd's hash map of strings, the one hash map whose
/// specification covers string keys.
pub struct Table<V> {
    slots: StringHashMap<usize>,
    keys: Vec<String>,
    values: Vec<V>,
}

impl<V> View for Table<V> {
    type V = Map<Seq<char>, V>;

    open spec fn view(&self) -> Map<Seq<char>, V> {
        Map::new(
            |key: Seq<char>| self.keys().contains(key),
            |key: Seq<char>| self.values()[self.keys().index_of(key)],
        )
    }
}

impl<V> Table<V> {
    /// The keys, in the order in which they first arrived.
    pub closed spec fn keys(&self) -> Seq<Seq<char>> {
        self.keys.deep_view()
    }

    /// The values, each at the position of its key.
    pub closed spec fn values(&self) -> Seq<V> {
        self.values@
    }

    /// The hash map finds each key at its position, and nothing else.
    pub closed spec fn indexed(&self) -> bool {
        &&& forall|at: int|
            #![trigger self.keys@[at]]
            0 <= at < self.keys@.len() ==> self.slots@.contains_key(self.keys@[at]@)
                && self.slots@[self.keys@[at]@] == at
        &&& forall|key: Seq<char>| #[trigger]
            self.slots@.contains_key(key) ==> self.slots@[key] < self.keys@.len()
                && self.keys@[self.slots@[key] as int]@ == key
    }

    /// The table is well formed: one value for each key, and no key twice.
    pub open spec fn wf(&self) -> bool {
        &&& self.indexed()
        &&& self.keys().len() == self.values().len()
        &&& self.keys().no_duplicates()
    }

    /// `after` is this table with `value` put under `key`: in place of the
    /// value that stood under the key, or, for a key that the table did not
    /// hold, behind the last entry.
    pub open spec fn inserted(&self, key: Seq<char>, value: V, after: Table<V>) -> bool {
        &&& after.wf()
        &&& after@ == self@.insert(key, value)
        &&& self.keys().contains(key) ==> after.keys() == self.keys() && after.values()
            == self.values().update(self.keys().index_of(key), value)
        &&& !self.keys().contains(key) ==> after.keys() == self.keys().push(key) && after.values()
            == self.values().push(value)
    }

    /// In a well-formed table the value under the key at a position is the
    /// value at that position.
    pub proof fn lemma_value_at(&self, at: int)
        requires
            self.wf(),
            0 <= at < self.keys().len(),
        ensures
            self.keys().contains(self.keys()[at]),
            self.keys().index_of(self.keys()[at]) == at,
            self@.contains_key(self.keys()[at]),
            self@[self.keys()[at]] == self.values()[at],
    {
        let key = self.keys()[at];
        assert(self.keys().contains(key));
        let found = self.keys().index_of(key);
        assert(0 <= found < self.keys().len() && self.keys()[found] == key);
    }

    /// A table holds no more entries than can be counted.
    pub proof fn lemma_len_bound(&self)
        ensures
            self.values().len() <= usize::MAX,
    {
        assert(self.values.len() == self.values@.len());
    }

    /// An empty table.
    pub fn new() -> (table: Self)
        ensures
            table.wf(),
            table.keys() == Seq::<Seq<char>>::empty(),
            table.values() == Seq::<V>::empty(),
    {
        let table = Table { slots: StringHashMap::new(), keys: Vec::new(), values: Vec::new() };
        assert(table.keys() =~= Seq::<Seq<char>>::empty());
        table
    }

    /// The number of entries.
    pub fn len(&self) -> (n: usize)
        requires
            self.wf(),
        ensures
            n == self.keys().len(),
            n == self.values().len(),
    {
        self.keys.len()
    }

    /// The position of `key`, if the table holds it.
    pub fn position(&self, key: &str) -> (found: Option<usize>)
        requires
            self.wf(),
        ensures
            (match found {
                Some(at) => at < self.keys().len() && self.keys()[at as int] == key@,
                None => !self.keys().contains(key@),
            }),
    {
        match self.slots.get(key) {
            Some(at) => Some(*at),
            None => {
                assert forall|at: int| 0 <= at < self.keys().len() implies self.keys()[at]
                    != key@ by {
                    assert(self.slots@.contains_key(self.keys@[at]@));
                }
                None
            },
        }
    }

    /// The value under `key`, if the table holds it.
    pub fn get(&self, key: &str) -> (found: Option<&V>)
        requires
            self.wf(),
        ensures
            (match found {
                Some(value) => self@.contains_key(key@) && *value == self@[key@],
                None => !self@.contains_key(key@),
            }),
    {
        match self.position(key) {
            Some(at) => {
                proof {
                    self.lemma_value_at(at as int);
                }
                Some(&self.values[at])
            },
            None => None,
        }
    }

    /// The key at a position.
    pub fn key_at(&self, at: usize) -> (key: &String)
        requires
            self.wf(),
            at < self.keys().len(),
        ensures
            key@ == self.keys()[at as int],
    {
        &self.keys[at]
    }

    /// The value at a position.
    pub fn value_at(&self, at: usize) -> (value: &V)
        requires
            self.wf(),
            at < self.values().len(),
        ensures
            *value == self.values()[at as int],
    {
        &self.values[at]
    }

    /// Puts `value` at a position, in place of the value that stood there.
    pub fn set_value(&mut self, at: usize, value: V)
        requires
            old(self).wf(),
            at < old(self).values().len(),
        ensures
            final(self).wf(),
            final(self).keys() == old(self).keys(),
            final(self).values() == old(self).values().update(at as int, value),
            final(self)@ == old(self)@.insert(old(self).keys()[at as int], value),
    {
        proof {
            self.lemma_value_at(at as int);
        }
        self.values[at] = value;
        assert(self@ =~= old(self)@.insert(old(self).keys()[at as int], value)) by {
            assert forall|other: Seq<char>| self.keys().contains(other) implies self@[other] == old(
                self,
            )@.insert(old(self).keys()[at as int], value)[other] by {
                let found = self.keys().index_of(other);
                assert(0 <= found < self.keys().len() && self.keys()[found] == other);
            }
        }
    }

    /// Puts `value` under `key`: in place of the value that stood under it,
    /// or, for a key that the table did not hold, behind the last entry.
    pub fn insert(&mut self, key: String, value: V)
        requires
            old(self).wf(),
        ensures
            old(self).inserted(key@, value, *final(self)),
    {
        match self.position(key.as_str()) {
            Some(at) => {
                proof {
                    self.lemma_value_at(at as int);
                }
                self.set_value(at, value);
            },
            None => {
                let at = self.keys.len();
                self.slots.insert(key.clone(), at);
                self.keys.push(key);
                self.values.push(value);
                assert(self.keys() =~= old(self).keys().push(key@));
                assert(self.indexed()) by {
                    assert forall|at: int|
                        #![trigger self.keys@[at]]
                        0 <= at < self.keys@.len() implies self.slots@.contains_key(
                        self.keys@[at]@,
                    ) && self.slots@[self.keys@[at]@] == at by {
                        if at < old(self).keys@.len() {
                            assert(self.keys@[at] == old(self).keys@[at]);
                            assert(old(self).keys()[at] == self.keys@[at]@);
                        }
                    }
                }
                assert(self@ =~= old(self)@.insert(key@, value)) by {
                    assert forall|other: Seq<char>| self.keys().contains(other) implies self@[other]
                        == old(self)@.insert(key@, value)[other] by {
                        let found = self.keys().index_of(other);
                        assert(0 <= found < self.keys().len() && self.keys()[found] == other);
                        if other != key@ {
                            assert(old(self).keys()[found] == other);
                            let before = old(self).keys().index_of(other);
                            assert(0 <= before < old(self).keys().len() && old(self).keys()[before]
                                == other);
                            assert(self.keys()[before] == other);
                        }
                    }
                    assert forall|other: Seq<char>|
                        old(self)@.insert(key@, value).contains_key(
                            other,
                        ) implies self.keys().contains(other) by {
                        if other != key@ {
                            let before = old(self).keys().index_of(other);
                            assert(0 <= before < old(self).keys().len() && old(self).keys()[before]
                                == other);
                            assert(self.keys()[before] == other);
                        } else {
                            assert(self.keys()[self.keys().len() - 1] == key@);
                        }
                    }
                }
            },
        }
    }
}

} // verus!
