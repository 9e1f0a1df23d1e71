use vstd::prelude::*;

verus! {

/// The views of a sequence of strings.
pub open spec fn str_views(s: Seq<String>) -> Seq<Seq<char>> {
    s.map_values(|x: String| x@)
}

/// The view of an optional string.
pub open spec fn opt_view(o: Option<String>) -> Option<Seq<char>> {
    match o {
        Some(s) => Some(s@),
        None => None,
    }
}

/// Keys and values of the same number, and no key twice.
spec fn parts_ok<V>(keys: Seq<String>, values: Seq<V>) -> bool {
    &&& keys.len() == values.len()
    &&& str_views(keys).no_duplicates()
}

/// The position of `key` among `keys`, if present.
fn position(keys: &Vec<String>, key: &String) -> (r: Option<usize>)
    ensures
        r matches Some(i) ==> i < keys@.len() && str_views(keys@)[i as int] == key@,
        r is None ==> !str_views(keys@).contains(key@),
{
    let n = keys.len();
    for i in 0..n
        invariant
            n == keys@.len(),
            forall|j: int| 0 <= j < i ==> str_views(keys@)[j] != key@,
    {
        if keys[i] == *key {
            return Some(i);
        }
    }
    None
}

/// A map keyed by strings that remembers the order in which keys were first
/// inserted. Inserting an existing key replaces its value in place.
#[derive(Debug)]
pub struct StringMap<V> {
    keys: Vec<String>,
    values: Vec<V>,
}

impl<V> StringMap<V> {
    /// Keys in insertion order.
    pub closed spec fn key_seq(&self) -> Seq<Seq<char>> {
        str_views(self.keys@)
    }

    /// Values, aligned with `key_seq`.
    pub closed spec fn value_seq(&self) -> Seq<V> {
        self.values@
    }

    /// Keys and values line up, and no key occurs twice: the invariant of every map.
    #[verifier::type_invariant]
    pub closed spec fn wf(&self) -> bool {
        parts_ok(self.keys@, self.values@)
    }

    /// The map that the entries describe.
    pub open spec fn map(&self) -> Map<Seq<char>, V> {
        Map::new(
            |k: Seq<char>| self.key_seq().contains(k),
            |k: Seq<char>| self.value_seq()[self.key_seq().index_of(k)],
        )
    }

    pub proof fn lemma_map(&self)
        requires
            self.wf(),
        ensures
            self.key_seq().len() == self.value_seq().len(),
            self.key_seq().no_duplicates(),
            forall|k: Seq<char>| #[trigger]
                self.map().contains_key(k) <==> self.key_seq().contains(k),
            forall|i: int|
                0 <= i < self.key_seq().len() ==> self.map()[#[trigger] self.key_seq()[i]]
                    == self.value_seq()[i],
            self.map().dom().finite(),
            self.map().dom().len() == self.key_seq().len(),
    {
        assert forall|i: int| 0 <= i < self.key_seq().len() implies self.map()[
            #[trigger] self.key_seq()[i]] == self.value_seq()[i] by {
            let k = self.key_seq()[i];
            assert(self.key_seq().contains(k));
            let j = self.key_seq().index_of(k);
            assert(self.key_seq()[j] == k);
        }
        self.key_seq().unique_seq_to_set();
        assert(self.map().dom() =~= self.key_seq().to_set());
    }

    pub fn new() -> (r: Self)
        ensures
            r.key_seq() == Seq::<Seq<char>>::empty(),
            r.map() == Map::<Seq<char>, V>::empty(),
    {
        let r = StringMap { keys: Vec::new(), values: Vec::new() };
        assert(r.key_seq() =~= Seq::<Seq<char>>::empty());
        assert(r.map() =~= Map::<Seq<char>, V>::empty());
        r
    }

    pub fn len(&self) -> (n: usize)
        ensures
            n == self.key_seq().len(),
    {
        proof {
            use_type_invariant(self);
        }
        self.keys.len()
    }

    pub fn key_at(&self, i: usize) -> (k: &String)
        requires
            i < self.key_seq().len(),
        ensures
            k@ == self.key_seq()[i as int],
    {
        proof {
            use_type_invariant(self);
        }
        &self.keys[i]
    }

    pub fn value_at(&self, i: usize) -> (v: &V)
        requires
            i < self.key_seq().len(),
        ensures
            *v == self.value_seq()[i as int],
            *v == self.map()[self.key_seq()[i as int]],
    {
        proof {
            use_type_invariant(self);
            self.lemma_map();
        }
        &self.values[i]
    }

    /// The position of `key`, if present.
    pub fn find(&self, key: &String) -> (r: Option<usize>)
        ensures
            r matches Some(i) ==> i < self.key_seq().len() && self.key_seq()[i as int] == key@,
            r is None ==> !self.key_seq().contains(key@),
    {
        proof {
            use_type_invariant(self);
        }
        position(&self.keys, key)
    }

    pub fn contains_key(&self, key: &String) -> (b: bool)
        ensures
            b == self.map().contains_key(key@),
    {
        proof {
            use_type_invariant(self);
            self.lemma_map();
        }
        self.find(key).is_some()
    }

    pub fn get(&self, key: &String) -> (r: Option<&V>)
        ensures
            r is Some <==> self.map().contains_key(key@),
            r matches Some(v) ==> *v == self.map()[key@],
    {
        proof {
            use_type_invariant(self);
            self.lemma_map();
        }
        match self.find(key) {
            Some(i) => Some(&self.values[i]),
            None => None,
        }
    }

    /// Sets the value of `key`, keeping its position if it is already present.
    pub fn insert(&mut self, key: String, value: V)
        ensures
            final(self).map() == old(self).map().insert(key@, value),
            old(self).key_seq().contains(key@) ==> final(self).key_seq() == old(self).key_seq(),
            !old(self).key_seq().contains(key@) ==> final(self).key_seq() == old(
                self,
            ).key_seq().push(key@),
    {
        proof {
            use_type_invariant(&*self);
            self.lemma_map();
        }
        let mut taken = StringMap::new();
        std::mem::swap(self, &mut taken);
        let StringMap { mut keys, mut values } = taken;
        match position(&keys, &key) {
            Some(i) => {
                values.set(i, value);
                *self = StringMap { keys, values };
                assert(self.key_seq() == old(self).key_seq());
                proof {
                    self.lemma_map();
                }
                assert(self.map() =~= old(self).map().insert(key@, value));
            },
            None => {
                let ghost k = key@;
                keys.push(key);
                values.push(value);
                assert(str_views(keys@) =~= old(self).key_seq().push(k));
                *self = StringMap { keys, values };
                assert(self.key_seq() =~= old(self).key_seq().push(k));
                proof {
                    self.lemma_map();
                    old(self).lemma_map();
                    assert forall|x: Seq<char>|
                        #[trigger] self.map().contains_key(x) <==> old(self).map().insert(
                            k,
                            value,
                        ).contains_key(x) by {
                        if old(self).key_seq().contains(x) {
                            let j = old(self).key_seq().index_of(x);
                            assert(self.key_seq()[j] == x);
                        }
                        if self.key_seq().contains(x) && x != k {
                            let j = self.key_seq().index_of(x);
                            assert(old(self).key_seq()[j] == x);
                        }
                        if x == k {
                            assert(self.key_seq()[self.key_seq().len() - 1] == x);
                        }
                    }
                    assert forall|x: Seq<char>| #[trigger] self.map().contains_key(x) implies self.map()[x]
                        == old(self).map().insert(k, value)[x] by {
                        let j = self.key_seq().index_of(x);
                        assert(self.key_seq()[j] == x);
                        if x != k {
                            assert(old(self).key_seq()[j] == x);
                        }
                    }
                }
                assert(self.map() =~= old(self).map().insert(k, value));
            },
        }
    }
}

impl<T> StringMap<Vec<T>> {
    /// Appends `item` to the list stored under `key`, starting an empty
    /// list there first if the key is absent.
    pub fn push_to(&mut self, key: String, item: T)
        ensures
            final(self).map().remove(key@) == old(self).map().remove(key@),
            final(self).map().contains_key(key@),
            final(self).map()[key@]@ == (if old(self).map().contains_key(key@) {
                old(self).map()[key@]@
            } else {
                Seq::<T>::empty()
            }).push(item),
            old(self).key_seq().contains(key@) ==> final(self).key_seq() == old(self).key_seq(),
            !old(self).key_seq().contains(key@) ==> final(self).key_seq() == old(
                self,
            ).key_seq().push(key@),
    {
        proof {
            use_type_invariant(&*self);
            self.lemma_map();
        }
        match self.find(&key) {
            Some(i) => {
                let mut taken = StringMap::new();
                std::mem::swap(self, &mut taken);
                let StringMap { keys, mut values } = taken;
                let mut list = values.remove(i);
                list.push(item);
                values.insert(i, list);
                assert(values@ =~= old(self).values@.update(i as int, list));
                *self = StringMap { keys, values };
                proof {
                    assert(self.values@ =~= old(self).values@.update(i as int, list));
                    assert(self.key_seq() == old(self).key_seq());
                    self.lemma_map();
                    assert(self.map() =~= old(self).map().insert(key@, list));
                }
            },
            None => {
                let mut list = Vec::new();
                list.push(item);
                self.insert(key, list);
            },
        }
    }

    /// Makes sure `key` is present, with an empty list if it was absent.
    pub fn ensure_key(&mut self, key: String)
        ensures
            final(self).map().remove(key@) == old(self).map().remove(key@),
            final(self).map().contains_key(key@),
            old(self).map().contains_key(key@) ==> final(self).map() == old(self).map(),
            !old(self).map().contains_key(key@) ==> final(self).map()[key@]@ == Seq::<T>::empty(),
            old(self).key_seq().contains(key@) ==> final(self).key_seq() == old(self).key_seq(),
            !old(self).key_seq().contains(key@) ==> final(self).key_seq() == old(
                self,
            ).key_seq().push(key@),
    {
        if !self.contains_key(&key) {
            self.insert(key, Vec::new());
        }
    }
}

} // verus!
