use vstd::prelude::*;

verus! {

/// A finite map from names to values, kept as a list of entries whose keys are distinct.
/// This is the representation of scopes, object literals and closure environments.
#[derive(Debug)]
pub struct NameMap<V> {
    pub entries: Vec<(String, V)>,
}

impl<V> NameMap<V> {
    pub open spec fn key_at(self, i: int) -> Seq<char> {
        self.entries@[i].0@
    }

    pub open spec fn value_at(self, i: int) -> V {
        self.entries@[i].1
    }

    pub open spec fn len_spec(self) -> int {
        self.entries@.len() as int
    }

    /// Entry `i` holds key `k`.
    pub open spec fn has_key_at(self, k: Seq<char>, i: int) -> bool {
        0 <= i < self.entries@.len() && self.key_at(i) == k
    }

    /// No key occurs twice.
    pub open spec fn wf(self) -> bool {
        forall|i: int, j: int|
            0 <= i < self.entries@.len() && 0 <= j < self.entries@.len() && #[trigger] self.key_at(i)
                == #[trigger] self.key_at(j) ==> i == j
    }

    /// The map from keys to values that the entries describe.
    pub open spec fn as_map(self) -> Map<Seq<char>, V> {
        Map::new(
            |k: Seq<char>| exists|i: int| self.has_key_at(k, i),
            |k: Seq<char>| self.value_at(choose|i: int| self.has_key_at(k, i)),
        )
    }

    /// Under `wf`, entry `i` is exactly what the map holds for its key.
    pub proof fn lemma_entry(self, i: int)
        requires
            self.wf(),
            0 <= i < self.entries@.len(),
        ensures
            self.as_map().contains_key(self.key_at(i)),
            self.as_map()[self.key_at(i)] == self.value_at(i),
    {
        let k = self.key_at(i);
        assert(self.has_key_at(k, i));
        let j = choose|j: int| self.has_key_at(k, j);
        assert(self.key_at(i) == self.key_at(j));
    }

    /// Every key of the map is held by some entry.
    pub proof fn lemma_key(self, k: Seq<char>)
        requires
            self.as_map().contains_key(k),
        ensures
            exists|i: int| self.has_key_at(k, i),
    {
    }

    pub fn new() -> (m: Self)
        ensures
            m.wf(),
            m@ == Map::<Seq<char>, V>::empty(),
            m.entries@.len() == 0,
    {
        let m = NameMap { entries: Vec::new() };
        assert(m@ =~= Map::<Seq<char>, V>::empty());
        m
    }

    pub fn len(&self) -> (n: usize)
        ensures
            n == self.entries@.len(),
    {
        self.entries.len()
    }

    /// The index of the entry for `key`, if any.
    pub fn find(&self, key: &String) -> (r: Option<usize>)
        requires
            self.wf(),
        ensures
            r matches Some(i) ==> self.has_key_at(key@, i as int),
            r is None <==> !self@.contains_key(key@),
    {
        let mut i: usize = 0;
        while i < self.entries.len()
            invariant
                i <= self.entries@.len(),
                forall|j: int| 0 <= j < i ==> self.key_at(j) != key@,
            decreases self.entries@.len() - i,
        {
            if self.entries[i].0 == *key {
                assert(self.has_key_at(key@, i as int));
                return Some(i);
            }
            i = i + 1;
        }
        proof {
            if self@.contains_key(key@) {
                let j = choose|j: int| self.has_key_at(key@, j);
                assert(self.key_at(j) != key@);
            }
        }
        None
    }

    pub fn contains_key(&self, key: &str) -> (b: bool)
        requires
            self.wf(),
        ensures
            b == self@.contains_key(key@),
    {
        let k = key.to_owned();
        self.find(&k).is_some()
    }

    pub fn get(&self, key: &str) -> (r: Option<&V>)
        requires
            self.wf(),
        ensures
            match r {
                Some(v) => self@.contains_key(key@) && *v == self@[key@],
                None => !self@.contains_key(key@),
            },
    {
        let k = key.to_owned();
        match self.find(&k) {
            Some(i) => {
                proof {
                    self.lemma_entry(i as int);
                }
                Some(&self.entries[i].1)
            },
            None => None,
        }
    }

    /// Binds `key` to `value`, replacing an earlier binding of `key`.
    pub fn insert(&mut self, key: String, value: V)
        requires
            old(self).wf(),
        ensures
            final(self).wf(),
            final(self)@ == old(self)@.insert(key@, value),
    {
        let ghost k = key@;
        let ghost old_map = *old(self);
        match self.find(&key) {
            Some(i) => {
                self.entries.set(i, (key, value));
                proof {
                    let new_map = *self;
                    assert forall|a: int, b: int|
                        0 <= a < new_map.entries@.len() && 0 <= b < new_map.entries@.len()
                            && #[trigger] new_map.key_at(a) == #[trigger] new_map.key_at(b) implies a
                        == b by {
                        assert(old_map.key_at(a) == new_map.key_at(a));
                        assert(old_map.key_at(b) == new_map.key_at(b));
                    }
                    assert forall|k2: Seq<char>| #[trigger]
                        new_map@.contains_key(k2) == old_map@.insert(k, value).contains_key(
                            k2,
                        ) by {
                        if old_map@.contains_key(k2) {
                            let j = choose|j: int| old_map.has_key_at(k2, j);
                            assert(new_map.has_key_at(k2, j));
                        }
                        if new_map@.contains_key(k2) {
                            let j = choose|j: int| new_map.has_key_at(k2, j);
                            if j != i {
                                assert(old_map.has_key_at(k2, j));
                            }
                        }
                        if k2 == k {
                            assert(new_map.has_key_at(k2, i as int));
                        }
                    }
                    assert forall|k2: Seq<char>| #[trigger]
                        new_map@.contains_key(k2) implies new_map@[k2] == old_map@.insert(
                        k,
                        value,
                    )[k2] by {
                        let j = choose|j: int| new_map.has_key_at(k2, j);
                        new_map.lemma_entry(j);
                        if j != i {
                            assert(old_map.has_key_at(k2, j));
                            old_map.lemma_entry(j);
                        }
                    }
                    assert(new_map@ =~= old_map@.insert(k, value));
                }
            },
            None => {
                self.entries.push((key, value));
                proof {
                    let new_map = *self;
                    let n = old_map.entries@.len() as int;
                    assert forall|a: int, b: int|
                        0 <= a < new_map.entries@.len() && 0 <= b < new_map.entries@.len()
                            && #[trigger] new_map.key_at(a) == #[trigger] new_map.key_at(b) implies a
                        == b by {
                        if a < n && b < n {
                            assert(old_map.key_at(a) == new_map.key_at(a));
                            assert(old_map.key_at(b) == new_map.key_at(b));
                        } else if a < n {
                            assert(old_map.has_key_at(k, a));
                        } else if b < n {
                            assert(old_map.has_key_at(k, b));
                        }
                    }
                    assert forall|k2: Seq<char>| #[trigger]
                        new_map@.contains_key(k2) == old_map@.insert(k, value).contains_key(
                            k2,
                        ) by {
                        if old_map@.contains_key(k2) {
                            let j = choose|j: int| old_map.has_key_at(k2, j);
                            assert(new_map.has_key_at(k2, j));
                        }
                        if new_map@.contains_key(k2) {
                            let j = choose|j: int| new_map.has_key_at(k2, j);
                            if j != n {
                                assert(old_map.has_key_at(k2, j));
                            }
                        }
                        if k2 == k {
                            assert(new_map.has_key_at(k2, n));
                        }
                    }
                    assert forall|k2: Seq<char>| #[trigger]
                        new_map@.contains_key(k2) implies new_map@[k2] == old_map@.insert(
                        k,
                        value,
                    )[k2] by {
                        let j = choose|j: int| new_map.has_key_at(k2, j);
                        new_map.lemma_entry(j);
                        if j != n {
                            assert(old_map.has_key_at(k2, j));
                            old_map.lemma_entry(j);
                        }
                    }
                    assert(new_map@ =~= old_map@.insert(k, value));
                }
            },
        }
    }
}

impl<V> View for NameMap<V> {
    type V = Map<Seq<char>, V>;

    open spec fn view(&self) -> Map<Seq<char>, V> {
        self.as_map()
    }
}

} // verus!
