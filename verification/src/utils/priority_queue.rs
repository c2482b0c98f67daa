//! A bounded queue of values for each priority.

use vstd::prelude::*;

use crate::priority::{lemma_code_bijective, Priority, PrioritySet};
use crate::utils::multi_class_queue::{
    is_at, is_queued, lemma_disjoint_insert, lemma_disjoint_remove, lemma_total_empty,
    lemma_total_nonnegative, lemma_total_update, lemma_without_free, lemma_without_queued, total, without,
    Lists, MultiClassQueue,
};

verus! {

const PRIORITY_CLASS: u8 = 0;

const FREE_CLASS: u8 = 8;

const CLASS_COUNT: usize = 9;

/// Limit for the number of values.
pub const MAX_CAPACITY: usize = 247;

/// The values that are queued for each priority, by its code, the oldest first.
pub type Queues<V> = Seq<Seq<V>>;

/// The queues of a set of empty queues.
pub open spec fn empty_queues<V>() -> Queues<V> {
    Seq::new(8, |c: int| Seq::<V>::empty())
}

/// The priorities that have a value.
pub open spec fn queued_priorities<V>(queues: Queues<V>) -> Set<Priority> {
    Set::new(|p: Priority| queues[p.code() as int].len() > 0)
}

/// A queue for each priority. Together they hold at most `N` values.
pub struct PriorityQueue<V, const N: usize> {
    entry_queue: MultiClassQueue<CLASS_COUNT, N>,
    entry_values: Vec<Option<V>>,
    priority_set: PrioritySet,
}

/// The values of the entries of a list.
spec fn values_of<V>(list: Seq<u8>, values: Seq<Option<V>>) -> Seq<V> {
    Seq::new(list.len(), |i: int| values[list[i] as int]->0)
}

impl<V, const N: usize> View for PriorityQueue<V, N> {
    type V = Queues<V>;

    closed spec fn view(&self) -> Queues<V> {
        Seq::new(8, |c: int| values_of(self.entry_queue@[c], self.entry_values@))
    }
}

/// Without the free class, the lists have the lengths of the queues.
proof fn lemma_lengths<V>(lists: Lists, queues: Queues<V>)
    requires
        lists.len() == 9,
        queues.len() == 8,
        forall|c: int| 0 <= c < 8 ==> (#[trigger] lists[c]).len() == queues[c].len(),
    ensures
        total(lists) == total(queues) + lists[8].len(),
{
    reveal_with_fuel(total, 10);
    let l = lists.drop_last();
    assert(l.len() == 8);
    lemma_same_total(l, queues);
}

/// Sequences with the same lengths have the same total.
pub proof fn lemma_same_total<A, B>(a: Seq<Seq<A>>, b: Seq<Seq<B>>)
    requires
        a.len() == b.len(),
        forall|c: int| 0 <= c < a.len() ==> (#[trigger] a[c]).len() == b[c].len(),
    ensures
        total(a) == total(b),
    decreases a.len(),
{
    if a.len() > 0 {
        assert(a[a.len() - 1].len() == b[b.len() - 1].len());
        assert forall|c: int| 0 <= c < a.drop_last().len() implies (#[trigger] a.drop_last()[c]).len()
            == b.drop_last()[c].len() by {
            assert(a[c].len() == b[c].len());
        }
        lemma_same_total(a.drop_last(), b.drop_last());
    }
}

impl<V, const N: usize> PriorityQueue<V, N> {
    /// Each entry is free or holds a value.
    pub closed spec fn wf(&self) -> bool {
        let lists = self.entry_queue@;
        &&& N <= MAX_CAPACITY
        &&& self.entry_queue.wf()
        &&& self.entry_values@.len() == N
        &&& forall|e: u8| e < N ==> #[trigger] is_queued(lists, e)
        &&& forall|c: int, i: int|
            0 <= c < 8 && 0 <= i < lists[c].len() ==> self.entry_values@[(#[trigger] lists[c][i]) as int] is Some
        &&& forall|i: int| 0 <= i < lists[8].len() ==> self.entry_values@[(#[trigger] lists[8][i]) as int] is None
        &&& total(lists) == N
        &&& self.priority_set@ == queued_priorities(self@)
    }

    /// The entries that hold the queued values, in the order of the values.
    pub closed spec fn entries(&self) -> Seq<Seq<u8>> {
        self.entry_queue@.take(8)
    }

    /// The queue of a priority has an entry for each of its values.
    pub open spec fn is_held(&self, entry: u8, c: int, i: int) -> bool {
        0 <= c < 8 && 0 <= i < self.entries()[c].len() && self.entries()[c][i] == entry
    }

    /// A queue exists for each priority, and together they are not longer than `N`. Each value has
    /// an entry of its own.
    pub proof fn lemma_wf(&self)
        requires
            self.wf(),
        ensures
            self@.len() == 8,
            0 <= total(self@) <= N,
            N <= MAX_CAPACITY,
            self.entries().len() == 8,
            forall|c: int| 0 <= c < 8 ==> (#[trigger] self.entries()[c]).len() == self@[c].len(),
            forall|e: u8, c: int, i: int| #[trigger] self.is_held(e, c, i) ==> e < N,
            forall|e: u8, c: int, i: int, d: int, j: int|
                #![trigger self.is_held(e, c, i), self.is_held(e, d, j)]
                self.is_held(e, c, i) && self.is_held(e, d, j) ==> c == d && i == j,
    {
        self.entry_queue.lemma_wf();
        lemma_lengths(self.entry_queue@, self@);
        lemma_total_nonnegative(self@);
        assert forall|e: u8, c: int, i: int| #[trigger] self.is_held(e, c, i) implies e < N by {
            assert(is_at(self.entry_queue@, c, i, e));
        }
        assert forall|e: u8, c: int, i: int, d: int, j: int|
            #![trigger self.is_held(e, c, i), self.is_held(e, d, j)]
            self.is_held(e, c, i) && self.is_held(e, d, j) implies c == d && i == j by {
            assert(is_at(self.entry_queue@, c, i, e) && is_at(self.entry_queue@, d, j, e));
        }
    }

    /// Returns the value that an entry holds, for modification.
    pub fn get_value_mut(&mut self, entry: u8) -> (r: Option<&mut V>)
        requires
            old(self).wf(),
            entry < N,
        ensures
            final(self).wf(),
            final(self).entries() == old(self).entries(),
            match r {
                Some(value) => exists|c: int, i: int| #[trigger]
                    old(self).is_held(entry, c, i) && *value == old(self)@[c][i] && final(self)@ == old(self)@.update(
                        c,
                        old(self)@[c].update(i, *final(value)),
                    ),
                None => {
                    &&& forall|c: int, i: int| !#[trigger] old(self).is_held(entry, c, i)
                    &&& final(self)@ == old(self)@
                },
            },
    {
        let ghost before = *self;
        let ghost lists = self.entry_queue@;
        proof {
            self.entry_queue.lemma_wf();
            assert(is_queued(lists, entry));
        }
        let ghost (c, i) = choose|c: int, i: int| #[trigger] is_at(lists, c, i, entry);
        let slot = &mut self.entry_values[entry as usize];
        proof {
            assert forall|c: int, i: int| #[trigger] before.is_held(entry, c, i) implies *slot is Some by {
                assert(before.entry_values@[lists[c][i] as int] is Some);
            }
            if *slot is Some {
                assert(c < 8);
                assert(before.is_held(entry, c, i));
            }
            assert forall|after: Self|
                after.entry_queue == before.entry_queue && after.priority_set == before.priority_set
                    && #[trigger] after.entry_values@ == before.entry_values@.update(entry as int, *final(slot)) && (
                *final(slot) is Some <==> *slot is Some) implies after.wf() && after@ == (match *final(slot) {
                Some(value) => before@.update(c, before@[c].update(i, value)),
                None => before@,
            }) by {
                before.lemma_slot_changed(after, entry, c, i, *final(slot));
            }
        }
        slot.as_mut()
    }

    /// The value of an entry has changed.
    proof fn lemma_slot_changed(self, after: Self, entry: u8, c: int, i: int, slot: Option<V>)
        requires
            self.wf(),
            is_at(self.entry_queue@, c, i, entry),
            after.entry_queue == self.entry_queue,
            after.priority_set == self.priority_set,
            after.entry_values@ == self.entry_values@.update(entry as int, slot),
            slot is Some <==> self.entry_values@[entry as int] is Some,
        ensures
            after.wf(),
            after@ == (match slot {
                Some(value) => self@.update(c, self@[c].update(i, value)),
                None => self@,
            }),
    {
        let lists = self.entry_queue@;
        self.entry_queue.lemma_wf();
        assert(slot is Some <==> c < 8);
        let expected = match slot {
            Some(value) => self@.update(c, self@[c].update(i, value)),
            None => self@,
        };
        assert forall|d: int| 0 <= d < 8 implies after@[d] == expected[d] by {
            assert forall|j: int| 0 <= j < lists[d].len() && !(d == c && j == i) implies #[trigger] lists[d][j]
                != entry by {
                assert(is_at(lists, d, j, lists[d][j]));
            }
            assert(after@[d] =~= expected[d]);
        }
        assert(after@ =~= expected);
        assert forall|d: int, j: int| 0 <= d < 8 && 0 <= j < lists[d].len() implies after.entry_values@[(
        #[trigger] lists[d][j]) as int] is Some by {
            assert(self.entry_values@[lists[d][j] as int] is Some);
        }
        assert forall|j: int| 0 <= j < lists[8].len() implies after.entry_values@[(#[trigger] lists[8][j]) as int] is None by {
            assert(self.entry_values@[lists[8][j] as int] is None);
        }
        assert(queued_priorities(after@) =~= queued_priorities(self@));
    }

    /// All queues are empty.
    pub fn new() -> (r: Self)
        requires
            N <= MAX_CAPACITY,
        ensures
            r.wf(),
            r@ == empty_queues::<V>(),
            total(r@) == 0,
    {
        let mut queue: MultiClassQueue<CLASS_COUNT, N> = MultiClassQueue::new();
        let mut entry_values: Vec<Option<V>> = Vec::new();
        proof {
            lemma_total_empty(queue@);
        }
        let mut i: usize = 0;
        while i < N
            invariant
                N <= MAX_CAPACITY,
                i <= N,
                queue.wf(),
                entry_values@.len() == i,
                forall|k: int| 0 <= k < i ==> #[trigger] entry_values@[k] is None,
                queue@.len() == 9,
                total(queue@) == i,
                forall|c: int| 0 <= c < 8 ==> (#[trigger] queue@[c]).len() == 0,
                forall|e: u8| #[trigger] is_queued(queue@, e) <==> e < i,
            decreases N - i,
        {
            let ghost before = queue@;
            let entry: u8 = i as u8;
            proof {
                queue.lemma_wf();
                assert(!is_queued(before, entry));
                lemma_without_free(before, entry);
                let len = before[8].len() as int;
                lemma_disjoint_insert(before, N as int, entry, 8, len);
                assert(before[8].insert(len, entry) =~= before[8].push(entry));
                lemma_total_update(before, 8, before[8].push(entry));
            }
            queue.move_back(FREE_CLASS, entry);
            entry_values.push(None);
            i = i + 1;
        }
        let r = Self { entry_queue: queue, entry_values, priority_set: PrioritySet::none() };
        proof {
            assert forall|c: int| 0 <= c < 8 implies (#[trigger] r@[c]).len() == 0 by {
                assert(queue@[c].len() == 0);
            }
            lemma_total_empty(r@);
            assert(r@ =~= empty_queues::<V>()) by {
                assert forall|c: int| 0 <= c < 8 implies r@[c] == Seq::<V>::empty() by {
                    assert(r@[c].len() == 0);
                    assert(r@[c] =~= Seq::<V>::empty());
                }
            }
            assert(r.priority_set@ =~= queued_priorities(r@));
            assert forall|i: int| 0 <= i < r.entry_queue@[8].len() implies r.entry_values@[(
            #[trigger] r.entry_queue@[8][i]) as int] is None by {
                assert(is_at(queue@, 8, i, queue@[8][i]));
                assert(is_queued(queue@, queue@[8][i]));
            }
            assert forall|c: int, i: int|
                0 <= c < 8 && 0 <= i < r.entry_queue@[c].len() implies r.entry_values@[(
            #[trigger] r.entry_queue@[c][i]) as int] is Some by {
                assert(queue@[c].len() == 0);
            }
        }
        r
    }

    /// Appends a value to the queue of a priority, or hands it back if `N` values are queued.
    pub fn push(&mut self, priority: Priority, value: V) -> (r: Result<(), V>)
        requires
            old(self).wf(),
        ensures
            final(self).wf(),
            r == (if total(old(self)@) < N { Ok(()) } else { Err(value) }),
            final(self)@ == (if total(old(self)@) < N {
                old(self)@.update(
                    priority.code() as int,
                    old(self)@[priority.code() as int].push(value),
                )
            } else {
                old(self)@
            }),
            total(old(self)@) < N ==> total(final(self)@) == total(old(self)@) + 1,
            r is Ok ==> exists|e: u8|
                final(self).entries() == old(self).entries().update(
                    priority.code() as int,
                    #[trigger] old(self).entries()[priority.code() as int].push(e),
                ),
            r is Err ==> final(self).entries() == old(self).entries(),
    {
        let ghost before = *self;
        let ghost lists = self.entry_queue@;
        proof {
            self.entry_queue.lemma_wf();
            lemma_lengths(lists, self@);
        }
        let entry: u8 = match self.entry_queue.front(FREE_CLASS) {
            Some(entry) => entry,
            None => {
                return Err(value);
            },
        };
        let class: u8 = PRIORITY_CLASS + priority.into_u8();
        proof {
            assert(is_at(lists, 8, 0, entry));
            assert(lists[8][0] < N);
            lemma_without_queued(lists, N as int, entry, 8, 0);
            lemma_disjoint_remove(lists, N as int, entry, 8, 0);
            let w = without(lists, entry);
            let len = w[class as int].len() as int;
            lemma_disjoint_insert(w, N as int, entry, class as int, len);
            assert(w[class as int].insert(len, entry) =~= w[class as int].push(entry));
            lemma_total_update(w, class as int, w[class as int].push(entry));
        }
        self.entry_queue.move_back(class, entry);
        self.priority_set.insert(priority);
        self.entry_values.set(entry as usize, Some(value));
        proof {
            let after = self.entry_queue@;
            assert forall|c: int, i: int| 0 <= c < 8 && 0 <= i < after[c].len() implies self.entry_values@[(
            #[trigger] after[c][i]) as int] is Some && (c == class && i == lists[c].len() || after[c][i]
                == lists[c][i] && after[c][i] != entry) by {
                if !(c == class && i == lists[c].len()) {
                    assert(after[c][i] == lists[c][i]);
                    assert(lists[8][0] == entry);
                    assert(before.entry_values@[lists[c][i] as int] is Some);
                }
            }
            let expected = before@.update(class as int, before@[class as int].push(value));
            assert forall|c: int| 0 <= c < 8 implies self@[c] == expected[c] by {
                assert(self@[c] =~= expected[c]);
            }
            assert(self@ =~= expected);
            assert(self.entries() =~= before.entries().update(
                class as int,
                before.entries()[class as int].push(entry),
            ));
            lemma_total_update(before@, class as int, before@[class as int].push(value));
            assert forall|p: Priority| self.priority_set@.contains(p) == queued_priorities(self@).contains(p) by {
                lemma_code_bijective(p, priority);
                assert(before.priority_set@.contains(p) == queued_priorities(before@).contains(p));
            }
            assert(self.priority_set@ =~= queued_priorities(self@));
        }
        Ok(())
    }

    /// Takes the oldest value of a priority out.
    pub fn pop(&mut self, priority: Priority) -> (r: Option<V>)
        requires
            old(self).wf(),
        ensures
            final(self).wf(),
            ({
                let c = priority.code() as int;
                let queue = old(self)@[c];
                if queue.len() == 0 {
                    &&& r is None
                    &&& final(self)@ == old(self)@
                    &&& final(self).entries() == old(self).entries()
                } else {
                    &&& final(self).entries() == old(self).entries().update(c, old(self).entries()[c].drop_first())
                    &&& r == Some(queue[0])
                    &&& final(self)@ == old(self)@.update(c, queue.drop_first())
                    &&& total(final(self)@) == total(old(self)@) - 1
                }
            }),
    {
        let ghost before = *self;
        let ghost lists = self.entry_queue@;
        proof {
            self.entry_queue.lemma_wf();
        }
        let class: u8 = PRIORITY_CLASS + priority.into_u8();
        let entry: u8 = match self.entry_queue.front(class) {
            Some(entry) => entry,
            None => {
                return None;
            },
        };
        proof {
            assert(is_at(lists, class as int, 0, entry));
            assert(lists[class as int][0] < N);
            lemma_without_queued(lists, N as int, entry, class as int, 0);
            lemma_disjoint_remove(lists, N as int, entry, class as int, 0);
            let w = without(lists, entry);
            let len = w[8].len() as int;
            lemma_disjoint_insert(w, N as int, entry, 8, len);
            assert(w[8].insert(len, entry) =~= w[8].push(entry));
            lemma_total_update(w, 8, w[8].push(entry));
        }
        self.entry_queue.move_back(FREE_CLASS, entry);
        if self.entry_queue.is_empty(class) {
            self.priority_set.remove(priority);
        }
        let value: Option<V> = self.entry_values[entry as usize].take();
        proof {
            let after = self.entry_queue@;
            let k = class as int;
            assert forall|c: int, i: int| 0 <= c < 8 && 0 <= i < after[c].len() implies self.entry_values@[(
            #[trigger] after[c][i]) as int] is Some && after[c][i] == lists[c][if c == k { i + 1 } else { i }]
                && after[c][i] != entry by {
                let j = if c == k { i + 1 } else { i };
                assert(after[c][i] == lists[c][j]);
                assert(lists[k][0] == entry);
                assert(before.entry_values@[lists[c][j] as int] is Some);
            }
            let expected = before@.update(k, before@[k].drop_first());
            assert forall|c: int| 0 <= c < 8 implies self@[c] == expected[c] by {
                assert(self@[c] =~= expected[c]);
            }
            assert(self@ =~= expected);
            assert forall|c: int| 0 <= c < 8 implies self.entries()[c] == before.entries().update(
                k,
                before.entries()[k].drop_first(),
            )[c] by {
                assert(self.entries()[c] =~= before.entries().update(k, before.entries()[k].drop_first())[c]);
            }
            assert(self.entries() =~= before.entries().update(k, before.entries()[k].drop_first()));
            lemma_total_update(before@, k, before@[k].drop_first());
            assert forall|p: Priority| self.priority_set@.contains(p) == queued_priorities(self@).contains(p) by {
                lemma_code_bijective(p, priority);
                assert(before.priority_set@.contains(p) == queued_priorities(before@).contains(p));
            }
            assert(self.priority_set@ =~= queued_priorities(self@));
        }
        value
    }

    /// Returns the priorities that have a value.
    pub fn priorities(&self) -> (r: PrioritySet)
        requires
            self.wf(),
        ensures
            r@ == queued_priorities(self@),
    {
        self.priority_set
    }

    /// Returns the least urgent priority that has a value.
    pub fn max_priority(&self) -> (r: Option<Priority>)
        requires
            self.wf(),
        ensures
            PrioritySet::is_last(queued_priorities(self@), r),
    {
        self.priority_set.last()
    }
}

} // verus!
