use vstd::prelude::*;

use crate::symbols::CellRole;

verus! {

/// A one-to-one table between characters and cell roles, searchable in
/// both directions.
pub struct BiMap {
    pairs: Vec<(char, CellRole)>,
    map: Ghost<Map<char, CellRole>>,
}

impl View for BiMap {
    type V = Map<char, CellRole>;

    closed spec fn view(&self) -> Map<char, CellRole> {
        self.map@
    }
}

/// The table once the pair `(k, v)` is in it and every other pair that
/// shared its key or its value is gone.
pub open spec fn map_after_insert(
    m: Map<char, CellRole>,
    k: char,
    v: CellRole,
) -> Map<char, CellRole> {
    Map::new(|k2: char| m.contains_key(k2) && k2 != k && m[k2] != v, |k2: char| m[k2]).insert(k, v)
}

impl BiMap {
    /// No key and no value occurs twice, and the table lists exactly the
    /// pairs of the view.
    pub closed spec fn wf(&self) -> bool {
        &&& forall|i: int, j: int|
            0 <= i < j < self.pairs@.len() ==> self.pairs@[i].0 != self.pairs@[j].0
                && self.pairs@[i].1 != self.pairs@[j].1
        &&& forall|i: int|
            0 <= i < self.pairs@.len() ==> #[trigger] self.map@.contains_key(self.pairs@[i].0)
                && self.map@[self.pairs@[i].0] == self.pairs@[i].1
        &&& forall|k: char|
            #[trigger] self.map@.contains_key(k) ==> exists|i: int|
                0 <= i < self.pairs@.len() && self.pairs@[i].0 == k
    }

    pub fn new() -> (r: Self)
        ensures
            r.wf(),
            r@ == Map::<char, CellRole>::empty(),
    {
        BiMap { pairs: Vec::new(), map: Ghost(Map::empty()) }
    }

    /// Index of the pair whose key is `k`, if any.
    fn index_of_key(&self, k: char) -> (r: Option<usize>)
        requires
            self.wf(),
        ensures
            r.is_some() == self@.contains_key(k),
            r.is_some() ==> r.unwrap() < self.pairs@.len() && self.pairs@[r.unwrap() as int].0
                == k,
    {
        let n = self.pairs.len();
        for i in 0..n
            invariant
                n == self.pairs@.len(),
                self.wf(),
                forall|j: int| 0 <= j < i ==> self.pairs@[j].0 != k,
        {
            if self.pairs[i].0 == k {
                assert(self.map@.contains_key(self.pairs@[i as int].0));
                return Some(i);
            }
        }
        None
    }

    /// Index of the pair whose value is `v`, if any.
    fn index_of_value(&self, v: CellRole) -> (r: Option<usize>)
        requires
            self.wf(),
        ensures
            r.is_some() == (exists|k: char| self@.contains_key(k) && self@[k] == v),
            r.is_some() ==> r.unwrap() < self.pairs@.len() && self.pairs@[r.unwrap() as int].1
                == v,
    {
        let n = self.pairs.len();
        for i in 0..n
            invariant
                n == self.pairs@.len(),
                self.wf(),
                forall|j: int| 0 <= j < i ==> self.pairs@[j].1 != v,
        {
            if self.pairs[i].1 == v {
                assert(self.map@.contains_key(self.pairs@[i as int].0));
                return Some(i);
            }
        }
        proof {
            assert forall|k: char| self@.contains_key(k) implies self@[k] != v by {
                let j = choose|j: int| 0 <= j < n && self.pairs@[j].0 == k;
                assert(self.map@.contains_key(self.pairs@[j].0));
            }
        }
        None
    }

    /// Drops the pair at index `i`.
    fn remove_at(&mut self, i: usize)
        requires
            old(self).wf(),
            i < old(self).pairs@.len(),
        ensures
            final(self).wf(),
            final(self)@ == old(self)@.remove(old(self).pairs@[i as int].0),
    {
        let ghost key = self.pairs@[i as int].0;
        let ghost s0 = self.pairs@;
        self.pairs.remove(i);
        self.map = Ghost(self.map@.remove(key));
        proof {
            assert forall|j: int| 0 <= j < self.pairs@.len() implies self.pairs@[j]
                == s0[if j < i { j } else { j + 1 }] by {}
            assert forall|kk: char| #[trigger] self.map@.contains_key(kk) implies exists|j: int|
                0 <= j < self.pairs@.len() && self.pairs@[j].0 == kk by {
                let j = choose|j: int| 0 <= j < s0.len() && s0[j].0 == kk;
                if j < i {
                    assert(self.pairs@[j].0 == kk);
                } else {
                    assert(self.pairs@[j - 1].0 == kk);
                }
            }
            assert forall|a: int| 0 <= a < self.pairs@.len() implies #[trigger] self.map@.contains_key(
                self.pairs@[a].0,
            ) && self.map@[self.pairs@[a].0] == self.pairs@[a].1 by {
                let b = if a < i { a } else { a + 1 };
                assert(old(self).map@.contains_key(s0[b].0));
            }
        }
    }

    /// Puts the pair `(k, v)` in the table, dropping the pairs that held `k`
    /// or `v` before, and hands the pair back.
    pub fn insert(&mut self, k: char, v: CellRole) -> (r: Option<(char, CellRole)>)
        requires
            old(self).wf(),
        ensures
            final(self).wf(),
            final(self)@ == map_after_insert(old(self)@, k, v),
            r == Some((k, v)),
    {
        if let Some(i) = self.index_of_key(k) {
            self.remove_at(i);
        }
        let ghost m1 = self@;
        if let Some(j) = self.index_of_value(v) {
            let ghost kk = self.pairs@[j as int].0;
            assert(self.map@.contains_key(kk));
            self.remove_at(j);
        }
        proof {
            assert forall|a: int| 0 <= a < self.pairs@.len() implies self.pairs@[a].0 != k
                && self.pairs@[a].1 != v by {
                assert(self.map@.contains_key(self.pairs@[a].0));
            }
        }
        let ghost s_before = self.pairs@;
        let ghost m_before = self.map@;
        self.pairs.push((k, v));
        self.map = Ghost(self.map@.insert(k, v));
        proof {
            let len = self.pairs@.len();
            assert(self.pairs@[len - 1] == (k, v));
            assert forall|kk: char| #[trigger] self.map@.contains_key(kk) implies exists|i: int|
                0 <= i < self.pairs@.len() && self.pairs@[i].0 == kk by {
                if kk == k {
                    assert(self.pairs@[len - 1].0 == kk);
                } else {
                    assert(m_before.contains_key(kk));
                    let j = choose|j: int| 0 <= j < s_before.len() && s_before[j].0 == kk;
                    assert(self.pairs@[j].0 == kk);
                }
            }
            assert forall|a: int, b: int|
                0 <= a < b < self.pairs@.len() implies self.pairs@[a].0 != self.pairs@[b].0
                    && self.pairs@[a].1 != self.pairs@[b].1 by {
                if b == len - 1 {
                    assert(s_before[a].0 != k && s_before[a].1 != v);
                } else {
                    assert(s_before[a].0 != s_before[b].0);
                }
            }
            assert forall|a: int| 0 <= a < self.pairs@.len() implies #[trigger] self.map@.contains_key(
                self.pairs@[a].0,
            ) && self.map@[self.pairs@[a].0] == self.pairs@[a].1 by {
                if a < len - 1 {
                    assert(m_before.contains_key(s_before[a].0));
                }
            }
            assert(self.wf());
            assert(self@ =~= map_after_insert(old(self)@, k, v));
        }
        Some((k, v))
    }

    /// The role paired with `k`, if any.
    pub fn get_by_key(&self, k: &char) -> (r: Option<&CellRole>)
        requires
            self.wf(),
        ensures
            r.is_some() == self@.contains_key(*k),
            r.is_some() ==> *r.unwrap() == self@[*k],
    {
        match self.index_of_key(*k) {
            Some(i) => {
                assert(self.map@.contains_key(self.pairs@[i as int].0));
                Some(&self.pairs[i].1)
            },
            None => None,
        }
    }

    /// The character paired with `v`, if any.
    pub fn get_by_value(&self, v: &CellRole) -> (r: Option<&char>)
        requires
            self.wf(),
        ensures
            r.is_some() == (exists|k: char| self@.contains_key(k) && self@[k] == *v),
            r.is_some() ==> self@.contains_key(*r.unwrap()) && self@[*r.unwrap()] == *v,
    {
        match self.index_of_value(*v) {
            Some(i) => {
                assert(self.map@.contains_key(self.pairs@[i as int].0));
                Some(&self.pairs[i].0)
            },
            None => None,
        }
    }
}

} // verus!
