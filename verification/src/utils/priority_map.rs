//! Arrays and maps with a slot for each priority.

use vstd::prelude::*;

use crate::priority::{lemma_code_bijective, Priority, PrioritySet};

verus! {

/// Number of priorities.
pub const PRIORITY_LEVEL_COUNT: usize = 8;

/// A value for each priority.
pub struct PriorityArray<T> {
    items: Vec<T>,
}

impl<T> View for PriorityArray<T> {
    type V = Seq<T>;

    /// The values by the codes of their priorities.
    closed spec fn view(&self) -> Seq<T> {
        self.items@
    }
}

impl<T> PriorityArray<T> {
    /// Every priority has a value.
    pub open spec fn wf(&self) -> bool {
        self@.len() == 8
    }

    /// The value of a priority.
    pub open spec fn at(&self, priority: Priority) -> T {
        self@[priority.code() as int]
    }

    /// Returns the value of a priority.
    pub fn get(&self, index: Priority) -> (r: &T)
        requires
            self.wf(),
        ensures
            *r == self.at(index),
    {
        &self.items[index.into_u8() as usize]
    }

    /// Returns the value of a priority for modification.
    pub fn get_mut(&mut self, index: Priority) -> (r: &mut T)
        requires
            old(self).wf(),
        ensures
            *r == old(self).at(index),
            final(self)@ == old(self)@.update(index.code() as int, *final(r)),
    {
        &mut self.items[index.into_u8() as usize]
    }

    /// Overwrites the value of a priority.
    pub fn set(&mut self, index: Priority, value: T)
        requires
            old(self).wf(),
        ensures
            final(self)@ == old(self)@.update(index.code() as int, value),
    {
        self.items[index.into_u8() as usize] = value;
    }

    /// Fills the array with the results of a function of the priority.
    pub fn from_fn(cb: impl Fn(Priority) -> T) -> (r: Self)
        requires
            forall|p: Priority| call_requires(cb, (p,)),
        ensures
            r.wf(),
            forall|p: Priority| call_ensures(cb, (p,), #[trigger] r.at(p)),
    {
        let mut items: Vec<T> = Vec::new();
        let mut i: u8 = 0;
        while i < 8
            invariant
                i <= 8,
                items@.len() == i,
                forall|p: Priority| call_requires(cb, (p,)),
                forall|p: Priority|
                    p.code() < i ==> call_ensures(cb, (p,), #[trigger] items@[p.code() as int]),
            decreases 8 - i,
        {
            let p = Priority::from_u8_truncating(i);
            let ghost before = items@;
            items.push(cb(p));
            proof {
                assert forall|q: Priority| q.code() < i + 1 implies call_ensures(
                    cb,
                    (q,),
                    #[trigger] items@[q.code() as int],
                ) by {
                    lemma_code_bijective(q, p);
                    if q != p {
                        assert(items@[q.code() as int] == before[q.code() as int]);
                    }
                }
            }
            i = i + 1;
        }
        let r = PriorityArray { items };
        assert forall|p: Priority| call_ensures(cb, (p,), #[trigger] r.at(p)) by {
            assert(p.code() < 8);
            assert(r.at(p) == items@[p.code() as int]);
        }
        r
    }
}

impl<T: Copy> PriorityArray<T> {
    /// Fills the array with copies of a value.
    pub fn repeat(value: T) -> (r: Self)
        ensures
            r.wf(),
            forall|p: Priority| #[trigger] r.at(p) == value,
            r@ == Seq::new(8, |i: int| value),
    {
        let mut items: Vec<T> = Vec::new();
        let mut i: usize = 0;
        while i < 8
            invariant
                i <= 8,
                items@ == Seq::new(i as nat, |i: int| value),
            decreases 8 - i,
        {
            items.push(value);
            i = i + 1;
            assert(items@ =~= Seq::new(i as nat, |i: int| value));
        }
        PriorityArray { items }
    }
}

/// A map from priorities to values.
#[derive(Debug, Clone)]
pub struct PriorityMap<V> {
    set: PrioritySet,
    values: Vec<Option<V>>,
}

impl<V> View for PriorityMap<V> {
    type V = Map<Priority, V>;

    closed spec fn view(&self) -> Map<Priority, V> {
        Map::new(
            |p: Priority| self.values@[p.code() as int] is Some,
            |p: Priority| self.values@[p.code() as int]->0,
        )
    }
}

impl<V> PriorityMap<V> {
    /// The set holds the priorities that have a value.
    pub closed spec fn wf(&self) -> bool {
        self.values@.len() == 8 && self.set@ == self@.dom()
    }

    /// No priority has a value.
    pub fn new() -> (r: Self)
        ensures
            r.wf(),
            r@ == Map::<Priority, V>::empty(),
    {
        let mut values: Vec<Option<V>> = Vec::new();
        let mut i: usize = 0;
        while i < PRIORITY_LEVEL_COUNT
            invariant
                i <= 8,
                values@.len() == i,
                forall|k: int| 0 <= k < i ==> (#[trigger] values@[k]) is None,
            decreases 8 - i,
        {
            values.push(None);
            i = i + 1;
        }
        let r = Self { set: PrioritySet::none(), values };
        assert(r@.dom() =~= Set::<Priority>::empty());
        assert(r@ =~= Map::<Priority, V>::empty());
        r
    }

    /// Returns the priorities that have a value.
    pub fn keys(&self) -> (r: PrioritySet)
        requires
            self.wf(),
        ensures
            r@ == self@.dom(),
    {
        self.set
    }

    /// Tells whether no priority has a value.
    pub fn is_empty(&self) -> (r: bool)
        requires
            self.wf(),
        ensures
            r == (self@.dom() == Set::<Priority>::empty()),
    {
        self.set.is_empty()
    }

    /// Gives a value to a priority, and returns the value that it had before.
    pub fn insert(&mut self, key: Priority, value: V) -> (r: Option<V>)
        requires
            old(self).wf(),
        ensures
            final(self).wf(),
            r == (if old(self)@.contains_key(key) { Some(old(self)@[key]) } else { None }),
            final(self)@ == old(self)@.insert(key, value),
    {
        let ghost before = *self;
        self.set.insert(key);
        let i: usize = key.into_u8() as usize;
        let previous: Option<V> = self.values[i].take();
        self.values.set(i, Some(value));
        proof {
            self.lemma_slots(before, key);
            assert(self@ =~= before@.insert(key, value));
            assert(self.set@ =~= self@.dom());
        }
        previous
    }

    /// Takes the value of a priority out.
    pub fn remove(&mut self, key: Priority) -> (r: Option<V>)
        requires
            old(self).wf(),
        ensures
            final(self).wf(),
            r == (if old(self)@.contains_key(key) { Some(old(self)@[key]) } else { None }),
            final(self)@ == old(self)@.remove(key),
    {
        let ghost before = *self;
        self.set.remove(key);
        let previous: Option<V> = self.values[key.into_u8() as usize].take();
        proof {
            self.lemma_slots(before, key);
            assert(self@ =~= before@.remove(key));
            assert(self.set@ =~= self@.dom());
        }
        previous
    }

    /// The other slots stay.
    proof fn lemma_slots(&self, before: Self, key: Priority)
        requires
            self.values@.len() == 8,
            before.values@.len() == 8,
            forall|i: int| 0 <= i < 8 && i != key.code() ==> self.values@[i] == before.values@[i],
        ensures
            forall|p: Priority|
                p != key ==> self@.contains_key(p) == before@.contains_key(p) && (before@.contains_key(p)
                    ==> self@[p] == before@[p]),
    {
        assert forall|p: Priority| p != key implies self@.contains_key(p) == before@.contains_key(p) && (
        before@.contains_key(p) ==> self@[p] == before@[p]) by {
            lemma_code_bijective(p, key);
            assert(self.values@[p.code() as int] == before.values@[p.code() as int]);
        }
    }

    /// Returns the value of a priority that has one.
    pub fn get(&self, index: Priority) -> (r: &V)
        requires
            self.wf(),
            self@.contains_key(index),
        ensures
            *r == self@[index],
    {
        self.values[index.into_u8() as usize].as_ref().unwrap()
    }

    /// Returns the value of a priority that has one for modification.
    pub fn get_mut(&mut self, index: Priority) -> (r: &mut V)
        requires
            old(self).wf(),
            old(self)@.contains_key(index),
        ensures
            *r == old(self)@[index],
            final(self).wf(),
            final(self)@ == old(self)@.insert(index, *final(r)),
    {
        let ghost before = *self;
        let i: usize = index.into_u8() as usize;
        let slot = &mut self.values[i];
        let r = slot.as_mut().unwrap();
        proof {
            before.lemma_overwritten(index, *final(r));
        }
        r
    }

    /// The map after the value of a priority was overwritten.
    proof fn lemma_overwritten(self, key: Priority, value: V)
        requires
            self.wf(),
            self@.contains_key(key),
        ensures
            forall|after: Self|
                after.set == self.set && #[trigger] after.values@ == self.values@.update(
                    key.code() as int,
                    Some(value),
                ) ==> after.wf() && after@ == self@.insert(key, value),
    {
        assert forall|after: Self|
            after.set == self.set && #[trigger] after.values@ == self.values@.update(
                key.code() as int,
                Some(value),
            ) implies after.wf() && after@ == self@.insert(key, value) by {
            after.lemma_slots(self, key);
            assert(after@ =~= self@.insert(key, value));
            assert(after.set@ =~= after@.dom());
        }
    }
}

impl<V> Default for PriorityMap<V> {
    fn default() -> (r: Self)
        ensures
            r.wf(),
            r@ == Map::<Priority, V>::empty(),
    {
        Self::new()
    }
}

} // verus!
