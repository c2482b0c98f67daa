//! Arrays made of several parts.

use vstd::prelude::*;

verus! {

/// Array of `N1 + N2` elements with uniform access.
pub struct DuplexArray<T, const N1: usize, const N2: usize> {
    items: Vec<T>,
}

impl<T, const N1: usize, const N2: usize> View for DuplexArray<T, N1, N2> {
    type V = Seq<T>;

    closed spec fn view(&self) -> Seq<T> {
        self.items@
    }
}

impl<T, const N1: usize, const N2: usize> DuplexArray<T, N1, N2> {
    /// The elements are all there.
    pub open spec fn wf(&self) -> bool {
        self@.len() == N1 + N2
    }

    /// Fills the array with the results of a function of the index.
    pub fn from_fn(cb: impl Fn(usize) -> T) -> (r: Self)
        requires
            N1 + N2 <= usize::MAX,
            forall|i: usize| i < N1 + N2 ==> call_requires(cb, (i,)),
        ensures
            r.wf(),
            forall|i: usize| i < N1 + N2 ==> call_ensures(cb, (i,), #[trigger] r@[i as int]),
    {
        let mut items: Vec<T> = Vec::new();
        let mut i: usize = 0;
        while i < N1 + N2
            invariant
                N1 + N2 <= usize::MAX,
                i <= N1 + N2,
                items@.len() == i,
                forall|i: usize| i < N1 + N2 ==> call_requires(cb, (i,)),
                forall|k: usize| k < i ==> call_ensures(cb, (k,), #[trigger] items@[k as int]),
            decreases N1 + N2 - i,
        {
            items.push(cb(i));
            i = i + 1;
        }
        DuplexArray { items }
    }

    /// Returns the element at an index.
    pub fn get(&self, index: usize) -> (r: &T)
        requires
            index < self@.len(),
        ensures
            *r == self@[index as int],
    {
        &self.items[index]
    }

    /// Overwrites the element at an index.
    pub fn set(&mut self, index: usize, value: T)
        requires
            index < old(self)@.len(),
        ensures
            final(self)@ == old(self)@.update(index as int, value),
    {
        self.items[index] = value;
    }

    /// Returns the element at an index for modification.
    pub fn get_mut(&mut self, index: usize) -> (r: &mut T)
        requires
            index < old(self)@.len(),
        ensures
            *r == old(self)@[index as int],
            final(self)@ == old(self)@.update(index as int, *final(r)),
    {
        &mut self.items[index]
    }

    /// Returns the number of elements.
    pub fn len(&self) -> (r: usize)
        requires
            self.wf(),
        ensures
            r == N1 + N2,
    {
        self.items.len()
    }

    /// Returns the elements as a vector.
    pub fn into_vec(self) -> (r: Vec<T>)
        ensures
            r@ == self@,
    {
        self.items
    }
}

impl<T: Copy, const N1: usize, const N2: usize> DuplexArray<T, N1, N2> {
    /// Fills the array with copies of a value.
    pub fn repeat(val: T) -> (r: Self)
        requires
            N1 + N2 <= usize::MAX,
        ensures
            r@ == Seq::new((N1 + N2) as nat, |i: int| val),
    {
        let mut items: Vec<T> = Vec::new();
        let mut i: usize = 0;
        while i < N1 + N2
            invariant
                N1 + N2 <= usize::MAX,
                i <= N1 + N2,
                items@ == Seq::new(i as nat, |i: int| val),
            decreases N1 + N2 - i,
        {
            items.push(val);
            i = i + 1;
            assert(items@ =~= Seq::new(i as nat, |i: int| val));
        }
        DuplexArray { items }
    }
}

impl<T, const N1: usize, const N2: usize> core::ops::Deref for DuplexArray<T, N1, N2> {
    type Target = [T];

    fn deref(&self) -> (r: &[T])
        ensures
            r@ == self@,
    {
        self.items.as_slice()
    }
}

/// Array of `N1 + N2 + N3` elements with uniform access.
pub struct TriplexArray<T, const N1: usize, const N2: usize, const N3: usize> {
    items: Vec<T>,
}

impl<T, const N1: usize, const N2: usize, const N3: usize> View for TriplexArray<T, N1, N2, N3> {
    type V = Seq<T>;

    closed spec fn view(&self) -> Seq<T> {
        self.items@
    }
}

impl<T, const N1: usize, const N2: usize, const N3: usize> TriplexArray<T, N1, N2, N3> {
    /// The elements are all there.
    pub open spec fn wf(&self) -> bool {
        self@.len() == N1 + N2 + N3
    }

    /// Fills the array with the results of a function of the index.
    pub fn from_fn(cb: impl Fn(usize) -> T) -> (r: Self)
        requires
            N1 + N2 + N3 <= usize::MAX,
            forall|i: usize| i < N1 + N2 + N3 ==> call_requires(cb, (i,)),
        ensures
            r.wf(),
            forall|i: usize| i < N1 + N2 + N3 ==> call_ensures(cb, (i,), #[trigger] r@[i as int]),
    {
        let mut items: Vec<T> = Vec::new();
        let mut i: usize = 0;
        while i < N1 + N2 + N3
            invariant
                N1 + N2 + N3 <= usize::MAX,
                i <= N1 + N2 + N3,
                items@.len() == i,
                forall|i: usize| i < N1 + N2 + N3 ==> call_requires(cb, (i,)),
                forall|k: usize| k < i ==> call_ensures(cb, (k,), #[trigger] items@[k as int]),
            decreases N1 + N2 + N3 - i,
        {
            items.push(cb(i));
            i = i + 1;
        }
        TriplexArray { items }
    }

    /// Returns the element at an index.
    pub fn get(&self, index: usize) -> (r: &T)
        requires
            index < self@.len(),
        ensures
            *r == self@[index as int],
    {
        &self.items[index]
    }

    /// Returns the element at an index for modification.
    pub fn get_mut(&mut self, index: usize) -> (r: &mut T)
        requires
            index < old(self)@.len(),
        ensures
            *r == old(self)@[index as int],
            final(self)@ == old(self)@.update(index as int, *final(r)),
    {
        &mut self.items[index]
    }

    /// Returns the number of elements.
    pub fn len(&self) -> (r: usize)
        requires
            self.wf(),
        ensures
            r == N1 + N2 + N3,
    {
        self.items.len()
    }

    /// Returns the elements as a vector.
    pub fn into_vec(self) -> (r: Vec<T>)
        ensures
            r@ == self@,
    {
        self.items
    }
}

impl<T, const N1: usize, const N2: usize, const N3: usize> core::ops::Deref for TriplexArray<
    T,
    N1,
    N2,
    N3,
> {
    type Target = [T];

    fn deref(&self) -> (r: &[T])
        ensures
            r@ == self@,
    {
        self.items.as_slice()
    }
}

} // verus!
