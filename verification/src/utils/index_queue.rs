//! A bounded map with a queue of its keys.

use vstd::prelude::*;

use crate::ids::NodeId;
use crate::utils::multi_class_queue::{
    is_at, is_queued, lemma_disjoint_insert, lemma_disjoint_remove, lemma_without_free, lemma_without_queued,
    without, without_entry, MultiClassQueue,
};
use crate::utils::stacked_array::DuplexArray;

verus! {

const QUEUE_CLASS: u8 = 0;

const FREE_CLASS: u8 = 1;

const CLASS_COUNT: usize = 2;

/// Limit for the number of keys.
pub const MAX_CAPACITY: usize = 254;

/// The key is not in the map.
#[derive(Debug, Clone, Copy, PartialEq, Eq, Structural)]
pub struct NoKey;

const NO_ENTRY: u8 = 255;

/// A key that is a small number.
pub trait IndexKey: Copy {
    /// The number of the key.
    spec fn index(self) -> int;

    /// Returns the number of the key.
    fn to_index(self) -> (r: usize)
        ensures
            r == self.index(),
    ;

    /// The number determines the key.
    proof fn lemma_index(a: Self, b: Self)
        requires
            a.index() == b.index(),
        ensures
            a == b,
    ;
}

impl IndexKey for NodeId {
    open spec fn index(self) -> int {
        self.value() as int
    }

    fn to_index(self) -> (r: usize) {
        self.into_u8() as usize
    }

    proof fn lemma_index(a: Self, b: Self) {
        a.lemma_value();
        b.lemma_value();
    }
}

/// The values of the keys, and the order of those that are queued.
///
/// A key has no value after it was inserted a second time.
#[verifier::ext_equal]
#[verifier::reject_recursive_types(K)]
pub struct Indexed<K, V> {
    /// The value of each key.
    pub values: Map<K, Option<V>>,
    /// The keys that are queued, the first one at the front.
    pub order: Seq<K>,
}

impl<K, V> Indexed<K, V> {
    /// The queue without a key.
    pub open spec fn order_without(self, key: K) -> Seq<K> {
        if self.order.contains(key) {
            self.order.remove(self.order.index_of(key))
        } else {
            self.order
        }
    }
}

/// A map from keys up to `K_MAX` to values, which holds at most `N` keys, with a queue of keys.
#[verifier::reject_recursive_types(K)]
pub struct IndexQueue<K, V, const K_MAX: usize, const N: usize> {
    keys: Vec<Option<K>>,
    values: Vec<Option<V>>,
    index: DuplexArray<u8, 1, K_MAX>,
    queue: MultiClassQueue<CLASS_COUNT, N>,
}

impl<K: IndexKey, V, const K_MAX: usize, const N: usize> View for IndexQueue<K, V, K_MAX, N> {
    type V = Indexed<K, V>;

    closed spec fn view(&self) -> Indexed<K, V> {
        Indexed {
            values: Map::new(|k: K| self.has(k), |k: K| self.values@[self.index@[k.index()] as int]),
            order: Seq::new(self.queue@[0].len(), |i: int| self.keys@[self.queue@[0][i] as int]->0),
        }
    }
}

impl<K: IndexKey, V, const K_MAX: usize, const N: usize> IndexQueue<K, V, K_MAX, N> {
    /// The key has an entry.
    spec fn has(&self, key: K) -> bool {
        0 <= key.index() <= K_MAX && self.index@[key.index()] != NO_ENTRY
    }

    /// The entry of a key is known by the key and the other way round, and the entries without a
    /// key are free.
    pub closed spec fn wf(&self) -> bool {
        &&& N <= MAX_CAPACITY
        &&& K_MAX < usize::MAX
        &&& self.keys@.len() == N
        &&& self.values@.len() == N
        &&& self.index.wf()
        &&& self.queue.wf()
        &&& forall|k: K|
            #[trigger] self.has(k) ==> self.index@[k.index()] < N && self.keys@[self.index@[k.index()] as int]
                == Some(k)
        &&& forall|e: int|
            0 <= e < N && (#[trigger] self.keys@[e]) is Some ==> {
                let k = self.keys@[e]->0;
                0 <= k.index() <= K_MAX && self.index@[k.index()] == e
            }
        &&& forall|j: int| 0 <= j <= K_MAX && #[trigger] self.index@[j] != NO_ENTRY ==> self.index@[j] < N
            && self.keys@[self.index@[j] as int] is Some && (self.keys@[self.index@[j] as int]->0).index() == j
        &&& forall|e: u8|
            e < N ==> ((#[trigger] self.keys@[e as int]) is None <==> self.queue@[1].contains(e))
        &&& forall|i: int|
            0 <= i < self.queue@[0].len() ==> self.keys@[(#[trigger] self.queue@[0][i]) as int] is Some
        &&& self@.values.dom().finite()
        &&& self@.values.dom().len() + self.queue@[1].len() == N
    }

    /// The entry of a key.
    spec fn entry(&self, key: K) -> u8 {
        self.index@[key.index()]
    }

    /// Different keys have different entries, and the queue holds keys of the map, each once.
    pub proof fn lemma_wf(&self)
        requires
            self.wf(),
        ensures
            N <= MAX_CAPACITY,
            self@.values.dom().finite(),
            self@.values.dom().len() <= N,
            self@.order.no_duplicates(),
            forall|i: int| 0 <= i < self@.order.len() ==> self@.values.contains_key(#[trigger] self@.order[i]),
            forall|k: K| #[trigger] self@.values.contains_key(k) ==> 0 <= k.index() <= K_MAX,
    {
        self.queue.lemma_wf();
        let q = self.queue@[0];
        assert forall|i: int| 0 <= i < self@.order.len() implies self@.values.contains_key(
            #[trigger] self@.order[i],
        ) && self.entry(self@.order[i]) == q[i] by {
            assert(self.keys@[q[i] as int] is Some);
            assert(q[i] < N);
            assert(self.has(self@.order[i]));
        }
        assert forall|i: int, j: int| 0 <= i < j < self@.order.len() implies self@.order[i] != self@.order[j] by {
            assert(self.entry(self@.order[i]) == q[i]);
            assert(self.entry(self@.order[j]) == q[j]);
            assert(self.queue@[0][i] != self.queue@[0][j]);
        }
    }

    /// A key is queued where its entry is.
    proof fn lemma_queued(&self, key: K)
        requires
            self.wf(),
            self.has(key),
        ensures
            self@.order.contains(key) <==> self.queue@[0].contains(self.entry(key)),
            self@.order.contains(key) ==> self@.order.index_of(key) == self.queue@[0].index_of(self.entry(key)),
            !self.queue@[1].contains(self.entry(key)),
    {
        self.lemma_wf();
        self.queue.lemma_wf();
        let q = self.queue@[0];
        let e = self.entry(key);
        assert(self.keys@[e as int] == Some(key));
        if q.contains(e) {
            let i = q.index_of(e);
            assert(self@.order[i] == key);
        }
        if self@.order.contains(key) {
            let i = self@.order.index_of(key);
            let k = self.keys@[q[i] as int]->0;
            assert(self.keys@[q[i] as int] is Some);
            assert(q[i] < N);
            assert(k == key);
            assert(self.index@[k.index()] == q[i]);
            assert(q[i] == e);
            assert(q.contains(e));
            let j = q.index_of(e);
            assert(self.queue@[0][j] == self.queue@[0][i]);
        }
    }

    /// All entries are free.
    pub fn new() -> (r: Self)
        requires
            N <= MAX_CAPACITY,
            K_MAX < usize::MAX,
        ensures
            r.wf(),
            r@.values == Map::<K, Option<V>>::empty(),
            r@.order == Seq::<K>::empty(),
    {
        let mut queue: MultiClassQueue<CLASS_COUNT, N> = MultiClassQueue::new();
        let mut keys: Vec<Option<K>> = Vec::new();
        let mut values: Vec<Option<V>> = Vec::new();
        let mut i: usize = 0;
        while i < N
            invariant
                N <= MAX_CAPACITY,
                i <= N,
                queue.wf(),
                keys@.len() == i,
                values@.len() == i,
                forall|k: int| 0 <= k < i ==> (#[trigger] keys@[k]) is None,
                queue@.len() == 2,
                queue@[0].len() == 0,
                queue@[1].len() == i,
                forall|e: u8| #[trigger] is_queued(queue@, e) <==> e < i,
            decreases N - i,
        {
            let ghost before = queue@;
            let entry: u8 = i as u8;
            proof {
                queue.lemma_wf();
                assert(!is_queued(before, entry));
                lemma_without_free(before, entry);
                let len = before[1].len() as int;
                lemma_disjoint_insert(before, N as int, entry, 1, len);
                assert(before[1].insert(len, entry) =~= before[1].push(entry));
            }
            queue.move_back(FREE_CLASS, entry);
            keys.push(None);
            values.push(None);
            i = i + 1;
        }
        let r = Self { keys, values, index: DuplexArray::repeat(NO_ENTRY), queue };
        proof {
            assert forall|e: u8| e < N implies r.queue@[1].contains(e) by {
                assert(is_queued(r.queue@, e));
                let (c, k) = choose|c: int, k: int| #[trigger] is_at(r.queue@, c, k, e);
                assert(r.queue@[1][k] == e);
            }
            assert(r@.values =~= Map::<K, Option<V>>::empty());
            assert(r@.values.dom() =~= Set::<K>::empty());
            assert(r@.order =~= Seq::<K>::empty());
        }
        r
    }

    fn get_index(&self, key: K) -> (r: Result<u8, NoKey>)
        requires
            self.wf(),
        ensures
            r == (if self.has(key) { Ok(self.entry(key)) } else { Err(NoKey) }),
            self@.values.contains_key(key) == self.has(key),
            self.has(key) ==> self.entry(key) < N && self@.values[key] == self.values@[self.entry(key) as int],
    {
        let i: usize = key.to_index();
        if i > K_MAX {
            return Err(NoKey);
        }
        let idx: u8 = *self.index.get(i);
        if idx != NO_ENTRY {
            Ok(idx)
        } else {
            Err(NoKey)
        }
    }

    /// Tells whether a key is in the map.
    pub fn contains(&self, key: K) -> (r: bool)
        requires
            self.wf(),
        ensures
            r == self@.values.contains_key(key),
    {
        self.get_index(key).is_ok()
    }

    /// Returns the value of a key.
    pub fn get(&self, key: K) -> (r: Option<&V>)
        requires
            self.wf(),
            self@.values.contains_key(key) ==> self@.values[key] is Some,
        ensures
            r is Some <==> self@.values.contains_key(key),
            r matches Some(v) ==> self@.values[key] == Some(*v),
    {
        match self.get_index(key) {
            Ok(idx) => self.values[idx as usize].as_ref(),
            Err(_) => None,
        }
    }

    /// Takes a key into the map, unless it is too large or the map is full.
    ///
    /// The new key is not queued. If the key is in the map, its value is taken out and returned,
    /// and the key stays without a value.
    pub fn insert(&mut self, key: K, value: V) -> (r: Result<Option<V>, (K, V)>)
        requires
            old(self).wf(),
            old(self)@.values.contains_key(key) ==> old(self)@.values[key] is Some,
        ensures
            final(self).wf(),
            final(self)@.order == old(self)@.order,
            ({
                let before = old(self)@.values;
                if before.contains_key(key) {
                    r is Ok && r->Ok_0 == before[key] && final(self)@.values == before.insert(key, None)
                } else if key.index() > K_MAX || before.dom().len() == N {
                    r is Err && r->Err_0 == (key, value) && final(self)@.values == before
                } else {
                    r is Ok && r->Ok_0 is None && final(self)@.values == before.insert(key, Some(value))
                }
            }),
    {
        let ghost before = *self;
        let i: usize = key.to_index();
        if i > K_MAX {
            proof {
                self.lemma_wf();
            }
            return Err((key, value));
        }
        if let Ok(idx) = self.get_index(key) {
            let old_value: Option<V> = self.values[idx as usize].take();
            proof {
                self.lemma_same_keys(before);
                assert(self@.values =~= before@.values.insert(key, None)) by {
                    before.lemma_distinct_entries(key);
                }
                assert(self@.order =~= before@.order);
                assert(self@.values.dom() =~= before@.values.dom());
            }
            return Ok(old_value);
        }
        proof {
            self.queue.lemma_wf();
        }
        let idx: u8 = match self.queue.front(FREE_CLASS) {
            Some(idx) => idx,
            None => {
                return Err((key, value));
            },
        };
        let ghost lists = self.queue@;
        proof {
            assert(is_at(lists, 1, 0, idx));
            assert(lists[1][0] < N);
            lemma_without_queued(lists, N as int, idx, 1, 0);
            lemma_disjoint_remove(lists, N as int, idx, 1, 0);
            assert(lists[1].contains(idx));
            assert(self.keys@[idx as int] is None);
        }
        self.queue.remove(idx);

        self.keys.set(idx as usize, Some(key));
        self.values.set(idx as usize, Some(value));
        self.index.set(i, idx);
        proof {
            assert(self.queue@[0] == lists[0]);
            assert(self.queue@[1] == lists[1].remove(0));
            assert forall|k: K| #[trigger] self.has(k) implies self.index@[k.index()] < N
                && self.keys@[self.index@[k.index()] as int] == Some(k) by {
                if k.index() == key.index() {
                    K::lemma_index(k, key);
                } else {
                    assert(before.has(k));
                }
            }
            assert forall|e: u8| e < N implies ((#[trigger] self.keys@[e as int]) is None
                <==> self.queue@[1].contains(e)) by {
                if e == idx {
                    assert(!is_queued(self.queue@, idx));
                    if self.queue@[1].contains(e) {
                        let k = self.queue@[1].index_of(e);
                        assert(is_at(self.queue@, 1, k, e));
                    }
                } else {
                    assert(before.keys@[e as int] is None <==> lists[1].contains(e));
                    if lists[1].contains(e) {
                        let k = lists[1].index_of(e);
                        assert(self.queue@[1][k - 1] == e);
                    }
                    if self.queue@[1].contains(e) {
                        let k = self.queue@[1].index_of(e);
                        assert(lists[1][k + 1] == e);
                    }
                }
            }
            assert forall|k: int| 0 <= k < self.queue@[0].len() implies self.keys@[(
            #[trigger] self.queue@[0][k]) as int] is Some && self.queue@[0][k] != idx by {
                assert(before.keys@[lists[0][k] as int] is Some);
            }
            assert forall|k: K| self.has(k) == (before.has(k) || k == key) by {
                if k.index() == key.index() {
                    K::lemma_index(k, key);
                }
            }
            assert(self@.values =~= before@.values.insert(key, Some(value))) by {
                assert forall|k: K| self.has(k) && k != key implies self.entry(k) == before.entry(k)
                    && self.entry(k) != idx by {
                    assert(before.has(k));
                    if k.index() == key.index() {
                        K::lemma_index(k, key);
                    }
                }
            }
            assert(self@.values.dom() =~= before@.values.dom().insert(key));
            assert(self@.order =~= before@.order);
        }
        Ok(None)
    }

    /// Keys and queue are the same as before.
    proof fn lemma_same_keys(&self, before: Self)
        requires
            before.wf(),
            self.keys == before.keys,
            self.index == before.index,
        ensures
            forall|k: K| #[trigger] self.has(k) == before.has(k),
    {
    }

    /// The entries of two keys are different.
    proof fn lemma_distinct_entries(&self, key: K)
        requires
            self.wf(),
            self.has(key),
        ensures
            forall|k: K| self.has(k) && k != key ==> #[trigger] self.entry(k) != self.entry(key),
    {
        assert forall|k: K| self.has(k) && k != key implies #[trigger] self.entry(k) != self.entry(key) by {
            assert(self.keys@[self.index@[k.index()] as int] == Some(k));
            assert(self.keys@[self.index@[key.index()] as int] == Some(key));
        }
    }

    /// Returns the value of a key for modification.
    pub fn get_mut(&mut self, key: K) -> (r: Option<&mut V>)
        requires
            old(self).wf(),
            old(self)@.values.contains_key(key) ==> old(self)@.values[key] is Some,
        ensures
            final(self).wf(),
            final(self)@.order == old(self)@.order,
            r is Some <==> old(self)@.values.contains_key(key),
            match r {
                Some(v) => {
                    &&& old(self)@.values[key] == Some(*v)
                    &&& final(self)@.values == old(self)@.values.insert(key, Some(*final(v)))
                },
                None => final(self)@.values == old(self)@.values,
            },
    {
        let ghost before = *self;
        match self.get_index(key) {
            Ok(idx) => {
                let slot = &mut self.values[idx as usize];
                proof {
                    before.lemma_set_value(key, *final(slot));
                }
                slot.as_mut()
            },
            Err(_) => None,
        }
    }

    /// The map after the value of a key was overwritten.
    proof fn lemma_set_value(self, key: K, value: Option<V>)
        requires
            self.wf(),
            self.has(key),
        ensures
            forall|after: Self|
                after.keys == self.keys && after.index == self.index && after.queue == self.queue
                    && #[trigger] after.values@ == self.values@.update(self.entry(key) as int, value)
                    ==> after.wf() && after@.order == self@.order && after@.values
                    == self@.values.insert(key, value),
    {
        assert forall|after: Self|
            after.keys == self.keys && after.index == self.index && after.queue == self.queue
                && #[trigger] after.values@ == self.values@.update(self.entry(key) as int, value) implies after.wf()
            && after@.order == self@.order && after@.values == self@.values.insert(key, value) by {
            after.lemma_same_keys(self);
            self.lemma_distinct_entries(key);
            assert(self.keys@[self.entry(key) as int] == Some(key));
            assert(after@.values =~= self@.values.insert(key, value));
            assert(after@.values.dom() =~= self@.values.dom());
            assert(after@.order =~= self@.order);
        }
    }

    /// Takes a key out of the map and the queue, and returns its value.
    pub fn remove(&mut self, key: K) -> (r: Option<V>)
        requires
            old(self).wf(),
            old(self)@.values.contains_key(key) ==> old(self)@.values[key] is Some,
        ensures
            final(self).wf(),
            final(self)@.order == old(self)@.order_without(key),
            final(self)@.values == old(self)@.values.remove(key),
            r == (if old(self)@.values.contains_key(key) { old(self)@.values[key] } else { None }),
    {
        let ghost before = *self;
        let ghost lists = self.queue@;
        let idx: u8 = match self.get_index(key) {
            Ok(idx) => idx,
            Err(_) => {
                proof {
                    self.lemma_wf();
                    assert(!self@.order.contains(key));
                    assert(self@.values.remove(key) =~= self@.values);
                }
                return None;
            },
        };
        let i: usize = key.to_index();
        proof {
            self.queue.lemma_wf();
            self.lemma_queued(key);
            self.lemma_distinct_entries(key);
            self.lemma_wf();
            assert(self.keys@[idx as int] == Some(key));
            assert(!lists[1].contains(idx));
        }
        self.index.set(i, NO_ENTRY);
        self.queue.move_back(FREE_CLASS, idx);
        self.keys.set(idx as usize, None);
        let value: Option<V> = self.values[idx as usize].take();
        proof {
            assert(without(lists, idx)[0] == without_entry(lists[0], idx));
            assert(without(lists, idx)[1] == lists[1]);
            let q = self.queue@[0];
            assert(q == without_entry(lists[0], idx));
            assert(self.queue@[1] == lists[1].push(idx));
            self.queue.lemma_wf();
            assert forall|k: K| #[trigger] self.has(k) == (before.has(k) && k != key) by {
                if k.index() == key.index() {
                    K::lemma_index(k, key);
                }
            }
            assert forall|k: K| #[trigger] self.has(k) implies self.index@[k.index()] < N
                && self.keys@[self.index@[k.index()] as int] == Some(k) by {
                assert(before.has(k));
                assert(self.entry(k) == before.entry(k));
                assert(before.entry(k) != idx);
            }
            assert forall|j: int| 0 <= j <= K_MAX && #[trigger] self.index@[j] != NO_ENTRY implies self.index@[j] < N
                && self.keys@[self.index@[j] as int] is Some && (self.keys@[self.index@[j] as int]->0).index() == j by {
                assert(j != key.index());
                assert(before.index@[j] == self.index@[j]);
                assert(before.keys@[before.index@[j] as int] is Some);
            }
            assert forall|e: u8| e < N implies ((#[trigger] self.keys@[e as int]) is None
                <==> self.queue@[1].contains(e)) by {
                assert(before.keys@[e as int] is None <==> lists[1].contains(e));
                if e == idx {
                    assert(self.queue@[1].last() == idx);
                } else {
                    if lists[1].contains(e) {
                        let k = lists[1].index_of(e);
                        assert(self.queue@[1][k] == e);
                    }
                    if self.queue@[1].contains(e) {
                        let k = self.queue@[1].index_of(e);
                        assert(lists[1][k] == e);
                    }
                }
            }
            assert forall|k: int| 0 <= k < q.len() implies self.keys@[(#[trigger] q[k]) as int] is Some
                && q[k] != idx by {
                let j = if lists[0].contains(idx) && k >= lists[0].index_of(idx) { k + 1 } else { k };
                assert(lists[0][j] == q[k]);
                assert(before.keys@[lists[0][j] as int] is Some);
                if q[k] == idx {
                    assert(lists[0][lists[0].index_of(idx)] == lists[0][j]);
                }
            }
            assert(self@.values =~= before@.values.remove(key)) by {
                assert forall|k: K| self.has(k) implies self.entry(k) == before.entry(k) && self.entry(k) != idx by {
                    assert(before.has(k));
                }
            }
            assert(self@.values.dom() =~= before@.values.dom().remove(key));
            assert(self@.order =~= before@.order_without(key));
        }
        value
    }

    /// Returns the key at the front of the queue.
    pub fn front(&self) -> (r: Option<K>)
        requires
            self.wf(),
        ensures
            r == (if self@.order.len() == 0 { None } else { Some(self@.order.first()) }),
    {
        proof {
            self.queue.lemma_wf();
        }
        match self.queue.front(QUEUE_CLASS) {
            Some(idx) => {
                proof {
                    assert(self.keys@[self.queue@[0][0] as int] is Some);
                    assert(self.queue@[0][0] < N);
                }
                self.keys[idx as usize]
            },
            None => None,
        }
    }

    /// Returns the key at the back of the queue.
    pub fn back(&self) -> (r: Option<K>)
        requires
            self.wf(),
        ensures
            r == (if self@.order.len() == 0 { None } else { Some(self@.order.last()) }),
    {
        proof {
            self.queue.lemma_wf();
        }
        match self.queue.back(QUEUE_CLASS) {
            Some(idx) => {
                proof {
                    let last = self.queue@[0].len() - 1;
                    assert(self.keys@[self.queue@[0][last] as int] is Some);
                    assert(self.queue@[0][last] < N);
                }
                self.keys[idx as usize]
            },
            None => None,
        }
    }

    /// The queue was changed around one key.
    proof fn lemma_requeued(&self, before: Self, key: K, front: bool, back: bool)
        requires
            before.wf(),
            before.has(key),
            self.keys == before.keys,
            self.values == before.values,
            self.index == before.index,
            self.queue.wf(),
            !(front && back),
            ({
                let e = before.entry(key);
                let rest = without_entry(before.queue@[0], e);
                &&& self.queue@[0] == (if front {
                    rest.insert(0, e)
                } else if back {
                    rest.push(e)
                } else {
                    rest
                })
                &&& self.queue@[1] == without_entry(before.queue@[1], e)
            }),
        ensures
            self.wf(),
            self@.values == before@.values,
            self@.order == (if front {
                before@.order_without(key).insert(0, key)
            } else if back {
                before@.order_without(key).push(key)
            } else {
                before@.order_without(key)
            }),
    {
        let e = before.entry(key);
        let q = self.queue@[0];
        let q0 = before.queue@[0];
        let rest = without_entry(q0, e);
        before.lemma_queued(key);
        before.lemma_wf();
        before.queue.lemma_wf();
        self.lemma_same_keys(before);
        assert(before.keys@[e as int] == Some(key));
        assert forall|k: int| 0 <= k < rest.len() implies self.keys@[(#[trigger] rest[k]) as int] is Some by {
            let j = if q0.contains(e) && k >= q0.index_of(e) { k + 1 } else { k };
            assert(q0[j] == rest[k]);
            assert(before.keys@[q0[j] as int] is Some);
        }
        assert forall|k: int| 0 <= k < q.len() implies self.keys@[(#[trigger] q[k]) as int] is Some by {
            if front && k > 0 {
                assert(q[k] == rest[k - 1]);
            } else if !front && k < rest.len() {
                assert(q[k] == rest[k]);
            }
        }
        assert(self@.values =~= before@.values);
        assert(self@.values.dom() =~= before@.values.dom());
        let expected = if front {
            before@.order_without(key).insert(0, key)
        } else if back {
            before@.order_without(key).push(key)
        } else {
            before@.order_without(key)
        };
        assert forall|k: int| 0 <= k < rest.len() implies #[trigger] before@.order_without(key)[k]
            == self.keys@[rest[k] as int]->0 by {
            let j = if q0.contains(e) && k >= q0.index_of(e) { k + 1 } else { k };
            assert(q0[j] == rest[k]);
        }
        assert(self@.order =~= expected);
    }

    /// Moves a key to the front of the queue.
    pub fn enqueue_front(&mut self, key: K) -> (r: Result<(), NoKey>)
        requires
            old(self).wf(),
        ensures
            final(self).wf(),
            final(self)@.values == old(self)@.values,
            r == (if old(self)@.values.contains_key(key) { Ok(()) } else { Err(NoKey) }),
            final(self)@.order == (if old(self)@.values.contains_key(key) {
                old(self)@.order_without(key).insert(0, key)
            } else {
                old(self)@.order
            }),
    {
        let ghost before = *self;
        match self.get_index(key) {
            Ok(idx) => {
                proof {
                    self.queue.lemma_wf();
                }
                self.queue.move_front(QUEUE_CLASS, idx);
                proof {
                    self.lemma_requeued(before, key, true, false);
                }
                Ok(())
            },
            Err(e) => Err(e),
        }
    }

    /// Moves a key to the back of the queue.
    pub fn enqueue_back(&mut self, key: K) -> (r: Result<(), NoKey>)
        requires
            old(self).wf(),
        ensures
            final(self).wf(),
            final(self)@.values == old(self)@.values,
            r == (if old(self)@.values.contains_key(key) { Ok(()) } else { Err(NoKey) }),
            final(self)@.order == (if old(self)@.values.contains_key(key) {
                old(self)@.order_without(key).push(key)
            } else {
                old(self)@.order
            }),
    {
        let ghost before = *self;
        match self.get_index(key) {
            Ok(idx) => {
                proof {
                    self.queue.lemma_wf();
                }
                self.queue.move_back(QUEUE_CLASS, idx);
                proof {
                    self.lemma_requeued(before, key, false, true);
                }
                Ok(())
            },
            Err(e) => Err(e),
        }
    }

    /// Takes a key out of the queue. It stays in the map.
    pub fn dequeue(&mut self, key: K) -> (r: Result<(), NoKey>)
        requires
            old(self).wf(),
        ensures
            final(self).wf(),
            final(self)@.values == old(self)@.values,
            r == (if old(self)@.values.contains_key(key) { Ok(()) } else { Err(NoKey) }),
            final(self)@.order == (if old(self)@.values.contains_key(key) {
                old(self)@.order_without(key)
            } else {
                old(self)@.order
            }),
    {
        let ghost before = *self;
        match self.get_index(key) {
            Ok(idx) => {
                proof {
                    self.queue.lemma_wf();
                }
                self.queue.remove(idx);
                proof {
                    self.lemma_requeued(before, key, false, false);
                }
                Ok(())
            },
            Err(e) => Err(e),
        }
    }
}

/// A key that leaves the order leaves the others in their places.
pub proof fn law_key_leaves_order<K, V>(indexed: Indexed<K, V>, key: K, k: int)
    requires
        indexed.order.no_duplicates(),
        0 <= k < indexed.order.len(),
        indexed.order[k] == key,
    ensures
        ({
            let after = indexed.order_without(key);
            &&& after.len() == indexed.order.len() - 1
            &&& forall|i: int| 0 <= i < k ==> #[trigger] after[i] == indexed.order[i]
            &&& forall|i: int| k <= i < after.len() ==> #[trigger] after[i] == indexed.order[i + 1]
        }),
{
    assert(indexed.order.contains(key));
    let j = indexed.order.index_of(key);
    assert(indexed.order[j] == indexed.order[k]);
}

} // verus!
