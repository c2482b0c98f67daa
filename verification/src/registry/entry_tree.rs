//! Endpoints in the order of their subjects.

use vstd::prelude::*;

use crate::buffer::DynamicRxBuffer;
use crate::frame::{Frame, Mtu};
use crate::ids::SubjectId;

verus! {

/// An endpoint and its buffer.
pub struct Entry<B> {
    id: u64,
    subject: SubjectId,
    is_head: bool,
    buffer: B,
}

/// What an endpoint is, and what its buffer holds.
#[verifier::ext_equal]
pub struct Slot<S> {
    /// Identity of the endpoint.
    pub id: u64,
    /// The subject that the endpoint receives.
    pub subject: SubjectId,
    /// The endpoint is the first one of its subject.
    pub head: bool,
    /// What the buffer holds.
    pub state: S,
}

impl<S> Slot<S> {
    /// The number of the subject.
    pub open spec fn number(self) -> int {
        self.subject.value() as int
    }
}

/// Endpoints in their order.
pub type Slots<S> = Seq<Slot<S>>;

/// The subjects do not decrease.
pub open spec fn is_sorted<S>(slots: Slots<S>) -> bool {
    forall|i: int, j: int| 0 <= i <= j < slots.len() ==> (#[trigger] slots[i]).number() <= (#[trigger] slots[j]).number()
}

/// No two endpoints are the same.
pub open spec fn has_unique_ids<S>(slots: Slots<S>) -> bool {
    forall|i: int, j: int|
        0 <= i < slots.len() && 0 <= j < slots.len() && (#[trigger] slots[i]).id == (#[trigger] slots[j]).id ==> i == j
}

/// The identities of the endpoints are below a limit.
pub open spec fn has_ids_below<S>(slots: Slots<S>, limit: u64) -> bool {
    forall|i: int| 0 <= i < slots.len() ==> (#[trigger] slots[i]).id < limit
}

/// Some endpoint has the identity.
pub open spec fn has_id<S>(slots: Slots<S>, id: u64) -> bool {
    exists|i: int| 0 <= i < slots.len() && (#[trigger] slots[i]).id == id
}

/// The position of an endpoint.
pub open spec fn position<S>(slots: Slots<S>, id: u64) -> int {
    choose|i: int| 0 <= i < slots.len() && (#[trigger] slots[i]).id == id
}

/// Some endpoint receives the subject.
pub open spec fn has_subject<S>(slots: Slots<S>, number: int) -> bool {
    exists|i: int| 0 <= i < slots.len() && (#[trigger] slots[i]).number() == number
}

/// The number of leading endpoints of subjects up to `number`: a new endpoint is inserted behind
/// the other ones of its subject.
pub open spec fn upper_bound<S>(slots: Slots<S>, number: int) -> int
    decreases slots.len(),
{
    if slots.len() == 0 {
        0
    } else if slots.last().number() <= number {
        slots.len() as int
    } else {
        upper_bound(slots.drop_last(), number)
    }
}

/// What lies before the upper bound is not larger, and what lies behind it is.
pub proof fn lemma_upper_bound<S>(slots: Slots<S>, number: int)
    requires
        is_sorted(slots),
    ensures
        0 <= upper_bound(slots, number) <= slots.len(),
        forall|i: int| 0 <= i < upper_bound(slots, number) ==> (#[trigger] slots[i]).number() <= number,
        forall|i: int| upper_bound(slots, number) <= i < slots.len() ==> (#[trigger] slots[i]).number() > number,
        has_subject(slots, number) <==> upper_bound(slots, number) > 0 && slots[upper_bound(slots, number) - 1].number()
            == number,
    decreases slots.len(),
{
    if slots.len() > 0 {
        let last = slots.len() - 1;
        if slots.last().number() <= number {
            assert forall|i: int| 0 <= i < slots.len() implies (#[trigger] slots[i]).number() <= number by {
                assert(slots[i].number() <= slots[last].number());
            }
            if has_subject(slots, number) {
                let i = choose|i: int| 0 <= i < slots.len() && (#[trigger] slots[i]).number() == number;
                assert(slots[i].number() <= slots[last].number());
            }
        } else {
            let short = slots.drop_last();
            assert forall|i: int, j: int| 0 <= i <= j < short.len() implies (#[trigger] short[i]).number() <= (
            #[trigger] short[j]).number() by {
                assert(slots[i].number() <= slots[j].number());
            }
            lemma_upper_bound(short, number);
            let b = upper_bound(short, number);
            assert forall|i: int| 0 <= i < b implies (#[trigger] slots[i]).number() <= number by {
                assert(short[i].number() <= number);
            }
            assert forall|i: int| b <= i < slots.len() implies (#[trigger] slots[i]).number() > number by {
                if i < last {
                    assert(short[i].number() > number);
                }
            }
            if has_subject(slots, number) {
                let i = choose|i: int| 0 <= i < slots.len() && (#[trigger] slots[i]).number() == number;
                assert(i < b);
                assert(slots[i].number() <= slots[b - 1].number());
                assert(slots[b - 1].number() <= number);
            }
        }
    }
}

/// Inserting at the upper bound keeps the order, taking out keeps it too.
pub proof fn lemma_sorted_changes<S>(slots: Slots<S>, slot: Slot<S>, i: int)
    requires
        is_sorted(slots),
    ensures
        is_sorted(slots.insert(upper_bound(slots, slot.number()), slot)),
        0 <= i < slots.len() ==> is_sorted(slots.remove(i)),
{
    let b = upper_bound(slots, slot.number());
    lemma_upper_bound(slots, slot.number());
    let after = slots.insert(b, slot);
    assert forall|x: int, y: int| 0 <= x <= y < after.len() implies (#[trigger] after[x]).number() <= (
    #[trigger] after[y]).number() by {
        let x0 = if x > b { x - 1 } else { x };
        let y0 = if y > b { y - 1 } else { y };
        if x != b {
            assert(after[x] == slots[x0]);
        }
        if y != b {
            assert(after[y] == slots[y0]);
        }
        if x != b && y != b {
            assert(slots[x0].number() <= slots[y0].number());
        }
    }
    if 0 <= i < slots.len() {
        let less = slots.remove(i);
        assert forall|x: int, y: int| 0 <= x <= y < less.len() implies (#[trigger] less[x]).number() <= (
        #[trigger] less[y]).number() by {
            let x0 = if x >= i { x + 1 } else { x };
            let y0 = if y >= i { y + 1 } else { y };
            assert(slots[x0].number() <= slots[y0].number());
        }
    }
}

/// An endpoint is at one position only.
pub proof fn lemma_position<S>(slots: Slots<S>, i: int)
    requires
        has_unique_ids(slots),
        0 <= i < slots.len(),
    ensures
        has_id(slots, slots[i].id),
        position(slots, slots[i].id) == i,
{
    assert(slots[i].id == slots[i].id);
    let k = position(slots, slots[i].id);
    assert(0 <= k < slots.len() && slots[k].id == slots[i].id);
}

/// Endpoints that differ in what their buffers hold only.
pub open spec fn is_same_but_state<S>(a: Slots<S>, b: Slots<S>) -> bool {
    &&& a.len() == b.len()
    &&& forall|i: int|
        #![trigger a[i]]
        #![trigger b[i]]
        0 <= i < a.len() ==> a[i].id == b[i].id && a[i].subject == b[i].subject && a[i].head == b[i].head
}

/// Endpoints in the order of their subjects, those of the same subject in the order of their
/// registration.
pub struct EntryTree<B> {
    entries: Vec<Entry<B>>,
}

impl<B: DynamicRxBuffer> View for Entry<B> {
    type V = Slot<B::State>;

    closed spec fn view(&self) -> Slot<B::State> {
        Slot { id: self.id, subject: self.subject, head: self.is_head, state: self.buffer.state() }
    }
}

impl<B: DynamicRxBuffer> View for EntryTree<B> {
    type V = Slots<B::State>;

    closed spec fn view(&self) -> Slots<B::State> {
        Seq::new(self.entries@.len(), |i: int| self.entries@[i]@)
    }
}

impl<B: DynamicRxBuffer> Entry<B> {
    /// The buffer is in a valid state.
    pub closed spec fn wf(&self) -> bool {
        self.buffer.wf()
    }

    /// Makes an endpoint of a buffer.
    pub fn new(id: u64, subject: SubjectId, is_head: bool, buffer: B) -> (r: Self)
        requires
            buffer.wf(),
        ensures
            r.wf(),
            r@ == (Slot { id, subject, head: is_head, state: buffer.state() }),
    {
        Entry { id, subject, is_head, buffer }
    }

    /// Returns the subject.
    pub fn subject(&self) -> (r: SubjectId)
        ensures
            r == self@.subject,
    {
        self.subject
    }

    /// Tells whether the endpoint is the first one of its subject.
    pub fn is_head(&self) -> (r: bool)
        ensures
            r == self@.head,
    {
        self.is_head
    }

    /// Makes the endpoint the first one of its subject, or another one.
    pub fn set_head(&mut self, is_head: bool)
        requires
            old(self).wf(),
        ensures
            final(self).wf(),
            final(self)@ == (Slot { head: is_head, ..old(self)@ }),
    {
        self.is_head = is_head;
    }
}

impl<B: DynamicRxBuffer> EntryTree<B> {
    /// The endpoints are sorted, and their buffers are in a valid state.
    pub closed spec fn wf(&self) -> bool {
        &&& is_sorted(self@)
        &&& forall|i: int| 0 <= i < self.entries@.len() ==> (#[trigger] self.entries@[i]).wf()
    }

    /// The endpoints are sorted.
    pub proof fn lemma_wf(&self)
        requires
            self.wf(),
        ensures
            is_sorted(self@),
    {
    }

    /// No endpoints.
    pub fn new() -> (r: Self)
        ensures
            r.wf(),
            r@ == Seq::<Slot<B::State>>::empty(),
    {
        let r = EntryTree { entries: Vec::new() };
        assert(r@ =~= Seq::<Slot<B::State>>::empty());
        r
    }

    /// Returns the number of endpoints.
    pub fn len(&self) -> (r: usize)
        ensures
            r == self@.len(),
    {
        self.entries.len()
    }

    /// Returns the subject of the endpoint at a position.
    pub fn subject_at(&self, i: usize) -> (r: SubjectId)
        requires
            i < self@.len(),
        ensures
            r == self@[i as int].subject,
    {
        self.entries[i].subject
    }

    /// Returns the identity of the endpoint at a position.
    pub fn id_at(&self, i: usize) -> (r: u64)
        requires
            i < self@.len(),
        ensures
            r == self@[i as int].id,
    {
        self.entries[i].id
    }

    /// Tells whether the endpoint at a position is the first one of its subject.
    pub fn is_head_at(&self, i: usize) -> (r: bool)
        requires
            i < self@.len(),
        ensures
            r == self@[i as int].head,
    {
        self.entries[i].is_head
    }

    /// Makes the endpoint at a position the first one of its subject, and returns whether it was.
    pub fn replace_head_at(&mut self, i: usize) -> (r: bool)
        requires
            old(self).wf(),
            i < old(self)@.len(),
        ensures
            final(self).wf(),
            r == old(self)@[i as int].head,
            final(self)@ == old(self)@.update(i as int, Slot { head: true, ..old(self)@[i as int] }),
    {
        let ghost before = *self;
        let was_head: bool = self.entries[i].is_head;
        self.entries[i].is_head = true;
        proof {
            assert(self@ =~= before@.update(i as int, Slot { head: true, ..before@[i as int] }));
            before.lemma_updated(*self, i as int);
        }
        was_head
    }

    /// One endpoint changed, but not its subject.
    proof fn lemma_updated(&self, after: Self, i: int)
        requires
            self.wf(),
            0 <= i < self@.len(),
            after.entries@.len() == self.entries@.len(),
            after.entries@[i].wf(),
            after.entries@[i].subject == self.entries@[i].subject,
            forall|k: int| 0 <= k < self.entries@.len() && k != i ==> after.entries@[k] == self.entries@[k],
        ensures
            after.wf(),
    {
        assert forall|x: int, y: int| 0 <= x <= y < after@.len() implies (#[trigger] after@[x]).number() <= (
        #[trigger] after@[y]).number() by {
            assert(self@[x].number() <= self@[y].number());
        }
        assert forall|k: int| 0 <= k < after.entries@.len() implies (#[trigger] after.entries@[k]).wf() by {
            if k != i {
                assert(self.entries@[k].wf());
            }
        }
    }

    /// Returns the position of an endpoint.
    pub fn find(&self, id: u64) -> (r: Option<usize>)
        ensures
            r is Some <==> has_id(self@, id),
            r matches Some(i) ==> i < self@.len() && self@[i as int].id == id,
    {
        let mut i: usize = 0;
        while i < self.entries.len()
            invariant
                i <= self.entries@.len(),
                forall|k: int| 0 <= k < i ==> (#[trigger] self@[k]).id != id,
            decreases self.entries@.len() - i,
        {
            if self.entries[i].id == id {
                proof {
                    assert(self@[i as int].id == id);
                }
                return Some(i);
            }
            i = i + 1;
        }
        None
    }

    /// Returns the position of the first endpoint of a subject.
    pub fn find_subject(&self, subject: SubjectId) -> (r: Option<usize>)
        ensures
            r is Some <==> has_subject(self@, subject.value() as int),
            r matches Some(i) ==> i < self@.len() && self@[i as int].number() == subject.value() && forall|k: int|
                0 <= k < i ==> (#[trigger] self@[k]).number() != subject.value(),
    {
        let number: u16 = subject.into_u16();
        let mut i: usize = 0;
        while i < self.entries.len()
            invariant
                i <= self.entries@.len(),
                number == subject.value(),
                forall|k: int| 0 <= k < i ==> (#[trigger] self@[k]).number() != number,
            decreases self.entries@.len() - i,
        {
            if self.entries[i].subject.into_u16() == number {
                proof {
                    assert(self@[i as int].number() == number);
                }
                return Some(i);
            }
            i = i + 1;
        }
        None
    }

    /// Returns the number of leading endpoints of subjects up to the given one.
    pub fn upper_bound(&self, subject: SubjectId) -> (r: usize)
        ensures
            r == upper_bound(self@, subject.value() as int),
    {
        let number: u16 = subject.into_u16();
        let mut n: usize = self.entries.len();
        proof {
            assert(self@.take(n as int) =~= self@);
        }
        while n > 0
            invariant
                n <= self.entries@.len(),
                number == subject.value(),
                upper_bound(self@.take(n as int), number as int) == upper_bound(self@, number as int),
            decreases n,
        {
            proof {
                assert(self@.take(n as int).last() == self@[n - 1]);
                assert(self@.take(n as int).drop_last() =~= self@.take(n - 1));
            }
            if self.entries[n - 1].subject.into_u16() <= number {
                return n;
            }
            n = n - 1;
        }
        n
    }

    /// Inserts an endpoint behind the other ones of its subject.
    pub fn insert(&mut self, entry: Entry<B>)
        requires
            old(self).wf(),
            entry.wf(),
        ensures
            final(self).wf(),
            final(self)@ == old(self)@.insert(upper_bound(old(self)@, entry@.number()), entry@),
    {
        let ghost before = *self;
        let ghost slot = entry@;
        let i: usize = self.upper_bound(entry.subject);
        proof {
            lemma_upper_bound(self@, entry@.number());
            lemma_sorted_changes(self@, entry@, 0);
        }
        self.entries.insert(i, entry);
        proof {
            assert(self@ =~= before@.insert(i as int, slot));
            assert forall|k: int| 0 <= k < self.entries@.len() implies (#[trigger] self.entries@[k]).wf() by {
                if k < i {
                    assert(before.entries@[k].wf());
                } else if k > i {
                    assert(before.entries@[k - 1].wf());
                }
            }
        }
    }

    /// Takes out the endpoint at a position.
    pub fn remove(&mut self, i: usize) -> (r: Entry<B>)
        requires
            old(self).wf(),
            i < old(self)@.len(),
        ensures
            final(self).wf(),
            final(self)@ == old(self)@.remove(i as int),
            r.wf(),
            r@ == old(self)@[i as int],
    {
        let ghost before = *self;
        proof {
            lemma_sorted_changes(self@, self@[i as int], i as int);
        }
        let entry = self.entries.remove(i);
        proof {
            assert(self@ =~= before@.remove(i as int));
            assert forall|k: int| 0 <= k < self.entries@.len() implies (#[trigger] self.entries@[k]).wf() by {
                if k < i {
                    assert(before.entries@[k].wf());
                } else {
                    assert(before.entries@[k + 1].wf());
                }
            }
        }
        entry
    }

    /// Hands a frame to the endpoint at a position.
    pub fn push_frame_at(&mut self, i: usize, frame: &Frame, mtu: Mtu)
        requires
            old(self).wf(),
            i < old(self)@.len(),
        ensures
            final(self).wf(),
            final(self)@ == old(self)@.update(
                i as int,
                Slot { state: B::after_frame(old(self)@[i as int].state, *frame), ..old(self)@[i as int] },
            ),
    {
        let ghost before = *self;
        proof {
            assert(self.entries@[i as int].wf());
        }
        self.entries[i].buffer.push_frame(frame, mtu);
        proof {
            assert(self@ =~= before@.update(
                i as int,
                Slot { state: B::after_frame(before@[i as int].state, *frame), ..before@[i as int] },
            ));
            before.lemma_updated(*self, i as int);
        }
    }

    /// Returns the buffer of the endpoint at a position.
    pub fn buffer_at(&self, i: usize) -> (r: &B)
        requires
            self.wf(),
            i < self@.len(),
        ensures
            r.wf(),
            r.state() == self@[i as int].state,
    {
        proof {
            assert(self.entries@[i as int].wf());
        }
        &self.entries[i].buffer
    }

    /// Returns the buffer of the endpoint at a position for modification.
    pub fn buffer_mut_at(&mut self, i: usize) -> (r: &mut B)
        requires
            old(self).wf(),
            i < old(self)@.len(),
        ensures
            r.wf(),
            r.state() == old(self)@[i as int].state,
            final(r).wf() ==> final(self).wf(),
            final(self)@ == old(self)@.update(
                i as int,
                Slot { state: final(r).state(), ..old(self)@[i as int] },
            ),
    {
        let ghost before = *self;
        proof {
            assert(self.entries@[i as int].wf());
        }
        let r = &mut self.entries[i].buffer;
        proof {
            before.lemma_buffer_changed(i as int, *final(r));
        }
        r
    }

    /// The buffer of an endpoint was replaced.
    proof fn lemma_buffer_changed(self, i: int, buffer: B)
        requires
            self.wf(),
            0 <= i < self@.len(),
        ensures
            forall|after: Self|
                #[trigger] after.entries@ == self.entries@.update(
                    i,
                    Entry { buffer, ..self.entries@[i] },
                ) ==> (buffer.wf() ==> after.wf()) && after@ == self@.update(
                    i,
                    Slot { state: buffer.state(), ..self@[i] },
                ),
    {
        assert forall|after: Self|
            #[trigger] after.entries@ == self.entries@.update(i, Entry { buffer, ..self.entries@[i] }) implies (
        buffer.wf() ==> after.wf()) && after@ == self@.update(i, Slot { state: buffer.state(), ..self@[i] }) by {
            assert(after@ =~= self@.update(i, Slot { state: buffer.state(), ..self@[i] }));
            if buffer.wf() {
                self.lemma_updated(after, i);
            }
        }
    }
}

} // verus!
