//! A map from strings to strings, kept as two vectors with distinct keys.
use vstd::prelude::*;

verus! {

/// A finite map from strings to strings.
pub struct StringMap {
    keys: Vec<String>,
    values: Vec<String>,
}

impl StringMap {
    /// The keys are distinct and each has a value.
    #[verifier::type_invariant]
    spec fn wf(self) -> bool {
        &&& self.keys.len() == self.values.len()
        &&& forall|i: int, j: int|
            0 <= i < j < self.keys.len() ==> #[trigger] self.keys@[i]@ != #[trigger] self.keys@[j]@
    }

    spec fn index_of(self, k: Seq<char>) -> int {
        choose|i: int| 0 <= i < self.keys.len() && self.keys@[i]@ == k
    }

    spec fn has(self, k: Seq<char>) -> bool {
        exists|i: int| 0 <= i < self.keys.len() && self.keys@[i]@ == k
    }
}

impl View for StringMap {
    type V = Map<Seq<char>, Seq<char>>;

    closed spec fn view(&self) -> Map<Seq<char>, Seq<char>> {
        Map::new(|k: Seq<char>| self.has(k), |k: Seq<char>| self.values@[self.index_of(k)]@)
    }
}

impl StringMap {
    proof fn lemma_view_at(self, i: int)
        requires
            self.wf(),
            0 <= i < self.keys.len(),
        ensures
            self@.contains_key(self.keys@[i]@),
            self@[self.keys@[i]@] == self.values@[i]@,
    {
        let k = self.keys@[i]@;
        assert(self.has(k));
        let j = self.index_of(k);
        if j != i {
            if j < i {
                assert(self.keys@[j]@ != self.keys@[i]@);
            } else {
                assert(self.keys@[i]@ != self.keys@[j]@);
            }
        }
    }

    /// The empty map.
    pub fn new() -> (res: StringMap)
        ensures
            res@ == Map::<Seq<char>, Seq<char>>::empty(),
    {
        let res = StringMap { keys: Vec::new(), values: Vec::new() };
        assert(res@ =~= Map::<Seq<char>, Seq<char>>::empty());
        res
    }

    /// The position of key `k`.
    fn find(&self, k: &str) -> (res: Option<usize>)
        ensures
            match res {
                Some(i) => i < self.keys.len() && self.keys@[i as int]@ == k@,
                None => !self@.contains_key(k@),
            },
    {
        proof {
            use_type_invariant(self);
        }
        let key = k.to_owned();
        let mut i: usize = 0;
        while i < self.keys.len()
            invariant
                i <= self.keys.len(),
                key@ == k@,
                forall|j: int| 0 <= j < i ==> self.keys@[j]@ != k@,
            decreases self.keys.len() - i,
        {
            if self.keys[i] == key {
                return Some(i);
            }
            i += 1;
        }
        None
    }

    /// The value of key `k`, if there is one.
    pub fn get(&self, k: &str) -> (res: Option<String>)
        ensures
            match res {
                Some(v) => self@.contains_key(k@) && v@ == self@[k@],
                None => !self@.contains_key(k@),
            },
    {
        proof {
            use_type_invariant(self);
        }
        match self.find(k) {
            Some(i) => {
                proof {
                    self.lemma_view_at(i as int);
                }
                Some(self.values[i].clone())
            },
            None => None,
        }
    }

    /// Whether key `k` has a value.
    pub fn contains(&self, k: &str) -> (res: bool)
        ensures
            res == self@.contains_key(k@),
    {
        proof {
            use_type_invariant(self);
        }
        match self.find(k) {
            Some(i) => {
                proof {
                    self.lemma_view_at(i as int);
                }
                true
            },
            None => false,
        }
    }

    fn clone_parts(&self) -> (res: (Vec<String>, Vec<String>))
        ensures
            res.0@ == self.keys@,
            res.1@ == self.values@,
    {
        let keys = self.keys.clone();
        let values = self.values.clone();
        proof {
            assert(keys@ =~= self.keys@);
            assert(values@ =~= self.values@);
        }
        (keys, values)
    }

    /// Gives key `k` the value `v`, in place of any value it had.
    pub fn insert(&mut self, k: String, v: String)
        ensures
            final(self)@ == old(self)@.insert(k@, v@),
    {
        proof {
            use_type_invariant(&*self);
        }
        let ghost old_self = *self;
        let ghost old_map = self@;
        let ghost kv = k@;
        let ghost vv = v@;
        let ghost ks = self.keys@;
        let ghost vs = self.values@;
        let found = self.find(k.as_str());
        let (mut keys, mut values) = self.clone_parts();
        match found {
            Some(i) => {
                values.set(i, v);
            },
            None => {
                keys.push(k);
                values.push(v);
            },
        }
        let m = StringMap { keys, values };
        proof {
            assert forall|a: int, b: int| 0 <= a < b < m.keys.len() implies #[trigger] m.keys@[a]@
                != #[trigger] m.keys@[b]@ by {
                if b == ks.len() {
                    assert(m.keys@[a] == ks[a]);
                    assert(old_map.contains_key(ks[a]@)) by {
                        old_self.lemma_view_at(a);
                    }
                }
            }
        }
        *self = m;
        proof {
            assert forall|key: Seq<char>| #[trigger] self@.contains_key(key) <==> old_map.insert(
                kv,
                vv,
            ).contains_key(key) by {
                if self.has(key) {
                    let j = choose|j: int| 0 <= j < self.keys.len() && self.keys@[j]@ == key;
                    if j < ks.len() {
                        assert(self.keys@[j] == ks[j]);
                        old_self.lemma_view_at(j);
                    }
                }
                if old_map.contains_key(key) {
                    let j = choose|j: int| 0 <= j < ks.len() && ks[j]@ == key;
                    assert(self.keys@[j] == ks[j]);
                }
                if key == kv {
                    match found {
                        Some(i) => assert(self.keys@[i as int]@ == kv),
                        None => assert(self.keys@[ks.len() as int]@ == kv),
                    }
                }
            }
            assert forall|key: Seq<char>| self@.contains_key(key) implies #[trigger] self@[key]
                == old_map.insert(kv, vv)[key] by {
                let j = choose|j: int| 0 <= j < self.keys.len() && self.keys@[j]@ == key;
                self.lemma_view_at(j);
                if j < ks.len() {
                    assert(self.keys@[j] == ks[j]);
                    old_self.lemma_view_at(j);
                    match found {
                        Some(i) => {
                            if j != i as int {
                                assert(self.values@[j] == vs[j]);
                                if key == kv {
                                    assert(ks[i as int]@ == kv);
                                    if j < i {
                                        assert(ks[j]@ != ks[i as int]@);
                                    } else {
                                        assert(ks[i as int]@ != ks[j]@);
                                    }
                                }
                            }
                        },
                        None => {
                            assert(self.values@[j] == vs[j]);
                        },
                    }
                }
            }
            assert(self@ =~= old_map.insert(kv, vv));
        }
    }

    /// Removes key `k` and its value, if it has one.
    pub fn remove(&mut self, k: &str)
        ensures
            final(self)@ == old(self)@.remove(k@),
    {
        proof {
            use_type_invariant(&*self);
        }
        let ghost old_self = *self;
        let ghost old_map = self@;
        let ghost ks = self.keys@;
        let ghost vs = self.values@;
        match self.find(k) {
            None => {
                assert(old_map.remove(k@) =~= old_map);
            },
            Some(i) => {
                let (mut keys, mut values) = self.clone_parts();
                keys.remove(i);
                values.remove(i);
                let m = StringMap { keys, values };
                proof {
                    assert forall|a: int, b: int| 0 <= a < b < m.keys.len() implies #[trigger] m.keys@[a]@
                        != #[trigger] m.keys@[b]@ by {
                        let a0 = if a < i { a } else { a + 1 };
                        let b0 = if b < i { b } else { b + 1 };
                        assert(m.keys@[a] == ks[a0]);
                        assert(m.keys@[b] == ks[b0]);
                    }
                }
                *self = m;
                proof {
                    assert forall|key: Seq<char>| #[trigger] self@.contains_key(key)
                        <==> old_map.remove(k@).contains_key(key) by {
                        if self.has(key) {
                            let j = choose|j: int| 0 <= j < self.keys.len() && self.keys@[j]@ == key;
                            let j0 = if j < i { j } else { j + 1 };
                            assert(self.keys@[j] == ks[j0]);
                            old_self.lemma_view_at(j0);
                            if j0 < i {
                                assert(ks[j0]@ != ks[i as int]@);
                            } else {
                                assert(ks[i as int]@ != ks[j0]@);
                            }
                        }
                        if old_map.contains_key(key) && key != k@ {
                            let j = choose|j: int| 0 <= j < ks.len() && ks[j]@ == key;
                            if j < i {
                                assert(self.keys@[j] == ks[j]);
                            } else {
                                assert(j != i);
                                assert(self.keys@[j - 1] == ks[j]);
                            }
                        }
                    }
                    assert forall|key: Seq<char>| self@.contains_key(key) implies #[trigger] self@[key]
                        == old_map.remove(k@)[key] by {
                        let j = choose|j: int| 0 <= j < self.keys.len() && self.keys@[j]@ == key;
                        self.lemma_view_at(j);
                        let j0 = if j < i { j } else { j + 1 };
                        assert(ks[j0] == self.keys@[j]);
                        assert(vs[j0] == self.values@[j]);
                        old_self.lemma_view_at(j0);
                    }
                    assert(self@ =~= old_map.remove(k@));
                }
            },
        }
    }
}

} // verus!
