//! Values with unique identities.

use vstd::prelude::*;

verus! {

/// A map from identities to values.
pub struct IdMap<V> {
    items: Vec<(u64, V)>,
}

impl<V> View for IdMap<V> {
    type V = Map<u64, V>;

    closed spec fn view(&self) -> Map<u64, V> {
        Map::new(
            |id: u64| exists|i: int| #[trigger] self.is_at(id, i),
            |id: u64| self.items@[choose|i: int| #[trigger] self.is_at(id, i)].1,
        )
    }
}

impl<V> IdMap<V> {
    /// The identity is at the position.
    spec fn is_at(&self, id: u64, i: int) -> bool {
        0 <= i < self.items@.len() && self.items@[i].0 == id
    }

    /// The identities are unique.
    pub closed spec fn wf(&self) -> bool {
        forall|i: int, j: int|
            0 <= i < self.items@.len() && 0 <= j < self.items@.len() && (#[trigger] self.items@[i]).0 == (
            #[trigger] self.items@[j]).0 ==> i == j
    }

    /// The value at a position.
    proof fn lemma_at(&self, i: int)
        requires
            self.wf(),
            0 <= i < self.items@.len(),
        ensures
            self@.contains_key(self.items@[i].0),
            self@[self.items@[i].0] == self.items@[i].1,
    {
        let id = self.items@[i].0;
        assert(self.is_at(id, i));
        let k = choose|k: int| #[trigger] self.is_at(id, k);
        assert(self.items@[k].0 == self.items@[i].0);
    }

    /// No values.
    pub fn new() -> (r: Self)
        ensures
            r.wf(),
            r@ == Map::<u64, V>::empty(),
    {
        let r = IdMap { items: Vec::new() };
        assert(r@ =~= Map::<u64, V>::empty());
        r
    }

    /// Returns the position of an identity.
    fn find(&self, id: u64) -> (r: Option<usize>)
        requires
            self.wf(),
        ensures
            r is Some <==> self@.contains_key(id),
            r matches Some(i) ==> i < self.items@.len() && self.items@[i as int].0 == id && self.items@[i as int].1
                == self@[id],
    {
        let mut i: usize = 0;
        while i < self.items.len()
            invariant
                self.wf(),
                i <= self.items@.len(),
                forall|k: int| 0 <= k < i ==> (#[trigger] self.items@[k]).0 != id,
            decreases self.items@.len() - i,
        {
            if self.items[i].0 == id {
                proof {
                    self.lemma_at(i as int);
                }
                return Some(i);
            }
            i = i + 1;
        }
        None
    }

    /// Tells whether an identity has a value.
    pub fn contains(&self, id: u64) -> (r: bool)
        requires
            self.wf(),
        ensures
            r == self@.contains_key(id),
    {
        self.find(id).is_some()
    }

    /// Returns the value of an identity.
    pub fn get(&self, id: u64) -> (r: &V)
        requires
            self.wf(),
            self@.contains_key(id),
        ensures
            *r == self@[id],
    {
        let i: usize = match self.find(id) {
            Some(i) => i,
            None => 0,
        };
        &self.items[i].1
    }

    /// The value at a position was replaced.
    proof fn lemma_replaced(self, i: int, value: V)
        requires
            self.wf(),
            0 <= i < self.items@.len(),
        ensures
            forall|after: Self|
                #[trigger] after.items@ == self.items@.update(i, (self.items@[i].0, value)) ==> after.wf() && after@
                    == self@.insert(self.items@[i].0, value),
    {
        assert forall|after: Self| #[trigger] after.items@ == self.items@.update(i, (self.items@[i].0, value)) implies after.wf()
            && after@ == self@.insert(self.items@[i].0, value) by {
            let id = self.items@[i].0;
            let expected = self@.insert(id, value);
            assert forall|x: int, y: int|
                0 <= x < after.items@.len() && 0 <= y < after.items@.len() && (#[trigger] after.items@[x]).0 == (
                #[trigger] after.items@[y]).0 implies x == y by {
                assert(self.items@[x].0 == self.items@[y].0);
            }
            assert forall|m: u64| after@.contains_key(m) == expected.contains_key(m) by {
                if after@.contains_key(m) {
                    let k = choose|k: int| #[trigger] after.is_at(m, k);
                    self.lemma_at(k);
                }
                if self@.contains_key(m) {
                    let k = choose|k: int| #[trigger] self.is_at(m, k);
                    after.lemma_at(k);
                }
                after.lemma_at(i);
            }
            assert forall|m: u64| #[trigger] after@.contains_key(m) implies after@[m] == expected[m] by {
                let k = choose|k: int| #[trigger] after.is_at(m, k);
                after.lemma_at(k);
                self.lemma_at(k);
            }
            assert(after@ =~= expected);
        }
    }

    /// Returns the value of an identity for modification.
    pub fn get_mut(&mut self, id: u64) -> (r: &mut V)
        requires
            old(self).wf(),
            old(self)@.contains_key(id),
        ensures
            *r == old(self)@[id],
            final(self).wf(),
            final(self)@ == old(self)@.insert(id, *final(r)),
    {
        let i: usize = match self.find(id) {
            Some(i) => i,
            None => 0,
        };
        let ghost before = *self;
        let r = &mut self.items[i].1;
        proof {
            before.lemma_replaced(i as int, *final(r));
        }
        r
    }

    /// Adds a value with a new identity.
    pub fn insert(&mut self, id: u64, value: V)
        requires
            old(self).wf(),
            !old(self)@.contains_key(id),
        ensures
            final(self).wf(),
            final(self)@ == old(self)@.insert(id, value),
    {
        let ghost before = *self;
        self.items.push((id, value));
        proof {
            let last = before.items@.len() as int;
            assert forall|x: int, y: int|
                0 <= x < self.items@.len() && 0 <= y < self.items@.len() && (#[trigger] self.items@[x]).0 == (
                #[trigger] self.items@[y]).0 implies x == y by {
                if x < last {
                    before.lemma_at(x);
                }
                if y < last {
                    before.lemma_at(y);
                }
                if x < last && y < last {
                    assert(before.items@[x].0 == before.items@[y].0);
                }
            }
            let expected = before@.insert(id, value);
            assert forall|m: u64| self@.contains_key(m) == expected.contains_key(m) by {
                if self@.contains_key(m) {
                    let k = choose|k: int| #[trigger] self.is_at(m, k);
                    if k < last {
                        before.lemma_at(k);
                    }
                }
                if before@.contains_key(m) {
                    let k = choose|k: int| #[trigger] before.is_at(m, k);
                    assert(self.is_at(m, k));
                }
                self.lemma_at(last);
            }
            assert forall|m: u64| #[trigger] self@.contains_key(m) implies self@[m] == expected[m] by {
                let k = choose|k: int| #[trigger] self.is_at(m, k);
                self.lemma_at(k);
                if k < last {
                    before.lemma_at(k);
                }
            }
            assert(self@ =~= expected);
        }
    }

    /// Takes out the value of an identity.
    pub fn remove(&mut self, id: u64) -> (r: V)
        requires
            old(self).wf(),
            old(self)@.contains_key(id),
        ensures
            final(self).wf(),
            final(self)@ == old(self)@.remove(id),
            r == old(self)@[id],
    {
        let i: usize = match self.find(id) {
            Some(i) => i,
            None => 0,
        };
        let ghost before = *self;
        let item = self.items.remove(i);
        proof {
            before.lemma_removed(*self, i as int);
        }
        item.1
    }

    /// The value at a position was taken out.
    proof fn lemma_removed(&self, after: Self, i: int)
        requires
            self.wf(),
            0 <= i < self.items@.len(),
            after.items@ == self.items@.remove(i),
        ensures
            after.wf(),
            after@ == self@.remove(self.items@[i].0),
    {
        let id = self.items@[i].0;
        assert forall|x: int, y: int|
            0 <= x < after.items@.len() && 0 <= y < after.items@.len() && (#[trigger] after.items@[x]).0 == (
            #[trigger] after.items@[y]).0 implies x == y by {
            let x0 = if x < i { x } else { x + 1 };
            let y0 = if y < i { y } else { y + 1 };
            assert(self.items@[x0].0 == self.items@[y0].0);
        }
        let expected = self@.remove(id);
        assert forall|m: u64| after@.contains_key(m) == expected.contains_key(m) by {
            if after@.contains_key(m) {
                let k = choose|k: int| #[trigger] after.is_at(m, k);
                let k0 = if k < i { k } else { k + 1 };
                self.lemma_at(k0);
                if m == id {
                    assert(self.items@[k0].0 == self.items@[i].0);
                }
            }
            if expected.contains_key(m) {
                let k0 = choose|k: int| #[trigger] self.is_at(m, k);
                assert(k0 != i);
                let k = if k0 < i { k0 } else { k0 - 1 };
                after.lemma_at(k);
            }
        }
        assert forall|m: u64| #[trigger] after@.contains_key(m) implies after@[m] == expected[m] by {
            let k = choose|k: int| #[trigger] after.is_at(m, k);
            let k0 = if k < i { k } else { k + 1 };
            after.lemma_at(k);
            self.lemma_at(k0);
        }
        assert(after@ =~= expected);
    }
}

} // verus!
