//! The variable map: names bound to strings.

use vstd::prelude::*;

verus! {

/// Variable bindings, kept in the order in which names were first bound.
#[derive(Debug)]
pub struct VarMap {
    names: Vec<Vec<char>>,
    values: Vec<Vec<char>>,
}

/// Whether two character vectors hold the same characters.
pub fn same_chars(a: &[char], b: &[char]) -> (r: bool)
    ensures
        r == (a@ == b@),
{
    if a.len() != b.len() {
        return false;
    }
    let mut i: usize = 0;
    while i < a.len()
        invariant
            a@.len() == b@.len(),
            i <= a@.len(),
            forall|j: int| 0 <= j < i ==> a@[j] == b@[j],
        decreases a@.len() - i,
    {
        if a[i] != b[i] {
            return false;
        }
        i += 1;
    }
    assert(a@ =~= b@);
    true
}

impl VarMap {
    pub closed spec fn wf(&self) -> bool {
        &&& self.names@.len() == self.values@.len()
        &&& forall|i: int, j: int|
            0 <= i < j < self.names@.len() ==> self.names@[i]@ != self.names@[j]@
    }

    pub closed spec fn position(&self, k: Seq<char>) -> int {
        choose|i: int| 0 <= i < self.names@.len() && self.names@[i]@ == k
    }

    /// The bindings as a map from names to values.
    pub closed spec fn view(&self) -> Map<Seq<char>, Seq<char>> {
        Map::new(
            |k: Seq<char>| exists|i: int| 0 <= i < self.names@.len() && self.names@[i]@ == k,
            |k: Seq<char>| self.values@[self.position(k)]@,
        )
    }

    pub fn new() -> (r: VarMap)
        ensures
            r.wf(),
            r@ == Map::<Seq<char>, Seq<char>>::empty(),
    {
        let r = VarMap { names: Vec::new(), values: Vec::new() };
        assert(r@ =~= Map::<Seq<char>, Seq<char>>::empty());
        r
    }

    fn find(&self, k: &[char]) -> (r: Option<usize>)
        requires
            self.wf(),
        ensures
            r.is_none() ==> !self@.contains_key(k@),
            r.is_some() ==> r.unwrap() < self.names@.len() && self.names@[r.unwrap() as int]@
                == k@ && self@.contains_key(k@) && self@[k@] == self.values@[r.unwrap() as int]@,
    {
        let mut i: usize = 0;
        while i < self.names.len()
            invariant
                self.wf(),
                i <= self.names@.len(),
                forall|j: int| 0 <= j < i ==> self.names@[j]@ != k@,
            decreases self.names@.len() - i,
        {
            if same_chars(&self.names[i], k) {
                proof {
                    let p = self.position(k@);
                    assert(self.names@[p]@ == k@);
                    if p != i {
                        assert(false) by {
                            if p < i {
                            } else {
                            }
                        }
                    }
                }
                return Some(i);
            }
            i += 1;
        }
        None
    }

    /// The value bound to `k`, if any.
    pub fn lookup(&self, k: &[char]) -> (r: Option<&Vec<char>>)
        requires
            self.wf(),
        ensures
            r.is_some() == self@.contains_key(k@),
            r.is_some() ==> r.unwrap()@ == self@[k@],
    {
        match self.find(k) {
            Some(i) => Some(&self.values[i]),
            None => None,
        }
    }

    /// Binds `k` to `v`, replacing any earlier value.
    pub fn bind(&mut self, k: Vec<char>, v: Vec<char>)
        requires
            old(self).wf(),
        ensures
            final(self).wf(),
            final(self)@ == old(self)@.insert(k@, v@),
    {
        let ghost old_map = self@;
        match self.find(&k) {
            Some(i) => {
                self.values.set(i, v);
                proof {
                    assert forall|key: Seq<char>| #[trigger] self@.contains_key(key)
                        == old_map.insert(k@, v@).contains_key(key) by {
                        if old_map.insert(k@, v@).contains_key(key) {
                            if key != k@ {
                                let j = choose|j: int|
                                    0 <= j < self.names@.len() && self.names@[j]@ == key;
                                assert(self.names@[j]@ == key);
                            }
                        }
                    }
                    assert forall|key: Seq<char>| #[trigger] self@.contains_key(key) implies self@[key]
                        == old_map.insert(k@, v@)[key] by {
                        let p = self.position(key);
                        let q = old(self).position(key);
                        assert(self.names@[p]@ == key);
                        assert(old(self).names@[q]@ == key);
                        if p != q {
                            assert(false) by {
                                if p < q {
                                } else {
                                }
                            }
                        }
                        if key == k@ {
                            if p != i {
                                assert(false) by {
                                    if p < i {
                                    } else {
                                    }
                                }
                            }
                        }
                    }
                    assert(self@ =~= old_map.insert(k@, v@));
                }
            },
            None => {
                self.names.push(k);
                self.values.push(v);
                proof {
                    let n = self.names@.len() - 1;
                    assert forall|key: Seq<char>| #[trigger] self@.contains_key(key)
                        == old_map.insert(k@, v@).contains_key(key) by {
                        if old_map.insert(k@, v@).contains_key(key) {
                            if key != k@ {
                                let j = choose|j: int|
                                    0 <= j < old(self).names@.len() && old(self).names@[j]@ == key;
                                assert(self.names@[j]@ == key);
                            } else {
                                assert(self.names@[n]@ == key);
                            }
                        }
                    }
                    assert forall|key: Seq<char>| #[trigger] self@.contains_key(key) implies self@[key]
                        == old_map.insert(k@, v@)[key] by {
                        let p = self.position(key);
                        assert(self.names@[p]@ == key);
                        if key != k@ {
                            let q = old(self).position(key);
                            assert(old(self).names@[q]@ == key);
                            assert(self.names@[q]@ == key);
                            if p != q {
                                assert(false) by {
                                    if p < q {
                                    } else {
                                    }
                                }
                            }
                        } else {
                            if p != n {
                                assert(old(self).names@[p]@ == k@);
                            }
                        }
                    }
                    assert(self@ =~= old_map.insert(k@, v@));
                }
            },
        }
    }

    /// The value bound to `name`, if any.
    pub fn get(&self, name: &str) -> (r: Option<String>)
        requires
            self.wf(),
        ensures
            r.is_some() == self@.contains_key(name@),
            r.is_some() ==> r.unwrap()@ == self@[name@],
    {
        let k = crate::chars::to_chars(name);
        match self.lookup(&k) {
            Some(v) => Some(crate::chars::from_chars(v)),
            None => None,
        }
    }

    /// Binds `name` to `value`, replacing any earlier value.
    pub fn insert(&mut self, name: &str, value: &str)
        requires
            old(self).wf(),
        ensures
            final(self).wf(),
            final(self)@ == old(self)@.insert(name@, value@),
    {
        self.bind(crate::chars::to_chars(name), crate::chars::to_chars(value));
    }

    /// The number of bound names.
    pub fn len(&self) -> (r: usize)
        requires
            self.wf(),
        ensures
            r == self@.dom().len(),
    {
        proof {
            self.lemma_dom_len();
        }
        self.names.len()
    }

    proof fn lemma_dom_len(&self)
        requires
            self.wf(),
        ensures
            self@.dom().len() == self.names@.len(),
            self@.dom().finite(),
    {
        let f = |i: int| self.names@[i]@;
        let s = Set::new(|i: int| 0 <= i < self.names@.len());
        assert(s =~= vstd::set_lib::set_int_range(0, self.names@.len() as int));
        vstd::set_lib::lemma_int_range(0, self.names@.len() as int);
        assert forall|k: Seq<char>| #[trigger] self@.dom().contains(k) implies s.map(f).contains(k) by {
            let i = choose|i: int| 0 <= i < self.names@.len() && self.names@[i]@ == k;
            assert(s.contains(i) && f(i) == k);
        }
        assert(self@.dom() =~= s.map(f));
        assert forall|a: int, b: int| s.contains(a) && s.contains(b) && #[trigger] f(a) == #[trigger] f(b)
            implies a == b by {
            if a < b {
            } else if b < a {
            }
        }
        vstd::set_lib::lemma_map_size(s, s.map(f), f);
    }

    /// The name and value bound at `i`, in the order names were first bound.
    pub fn entry(&self, i: usize) -> (r: (&Vec<char>, &Vec<char>))
        requires
            self.wf(),
            i < self@.dom().len(),
        ensures
            self@.contains_key(r.0@),
            self@[r.0@] == r.1@,
    {
        proof {
            self.lemma_dom_len();
            let p = self.position(self.names@[i as int]@);
            assert(self.names@[p]@ == self.names@[i as int]@);
            if p != i {
                assert(false) by {
                    if p < i {
                    } else {
                    }
                }
            }
        }
        (&self.names[i], &self.values[i])
    }
}

impl Clone for VarMap {
    fn clone(&self) -> (r: VarMap)
        ensures
            self.wf() ==> r.wf() && r@ == self@,
    {
        let mut names: Vec<Vec<char>> = Vec::new();
        let mut values: Vec<Vec<char>> = Vec::new();
        let mut i: usize = 0;
        while i < self.names.len()
            invariant
                i <= self.names@.len(),
                names@.len() == i,
                values@.len() == i,
                i <= self.values@.len() || self.names@.len() != self.values@.len(),
                forall|j: int| 0 <= j < i ==> names@[j]@ == self.names@[j]@,
                forall|j: int| 0 <= j < i && j < self.values@.len() ==> values@[j]@ == self.values@[j]@,
            decreases self.names@.len() - i,
        {
            names.push(self.names[i].clone());
            if i < self.values.len() {
                values.push(self.values[i].clone());
            } else {
                values.push(Vec::new());
            }
            i += 1;
        }
        let r = VarMap { names, values };
        proof {
            assert(r.names@.len() == self.names@.len());
            if self.wf() {
                assert forall|key: Seq<char>| #[trigger] r@.contains_key(key) == self@.contains_key(key) by {
                    if r@.contains_key(key) {
                        let j = choose|j: int| 0 <= j < r.names@.len() && r.names@[j]@ == key;
                        assert(self.names@[j]@ == key);
                    }
                    if self@.contains_key(key) {
                        let j = choose|j: int| 0 <= j < self.names@.len() && self.names@[j]@ == key;
                        assert(r.names@[j]@ == key);
                    }
                }
                assert forall|key: Seq<char>| #[trigger] r@.contains_key(key) implies r@[key] == self@[key] by {
                    let p = r.position(key);
                    let q = self.position(key);
                    assert(r.names@[p]@ == key);
                    assert(self.names@[q]@ == key);
                    if p != q {
                        assert(false) by {
                            if p < q {
                            } else {
                            }
                        }
                    }
                }
                assert(r@ =~= self@);
            }
        }
        r
    }
}

} // verus!
