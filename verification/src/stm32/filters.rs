//! Slots for the subjects and the destination that a driver receives.

use vstd::prelude::*;

use crate::ids::{NodeId, SubjectId};
use crate::link::{Filter, FilterUpdate};

verus! {

/// All slots are taken.
#[derive(Debug, Clone, Copy, PartialEq, Eq, Structural)]
pub struct NoFreeSlots;

/// A slot holds a subject of a range.
pub open spec fn is_subject_in(slot: Option<SubjectId>, range: [SubjectId; 2]) -> bool {
    slot matches Some(id) && range@[0].value() <= id.value() <= range@[1].value()
}

/// The slot holds a node of a range.
pub open spec fn is_node_in(slot: Option<NodeId>, range: [NodeId; 2]) -> bool {
    slot matches Some(id) && range@[0].value() <= id.value() <= range@[1].value()
}

/// The slots after the subjects of a range were taken out of the first `n` of them.
pub open spec fn cleared(
    slots: Seq<Option<SubjectId>>,
    range: [SubjectId; 2],
    n: int,
) -> Seq<Option<SubjectId>> {
    Seq::new(
        slots.len(),
        |i: int|
            if i < n && is_subject_in(slots[i], range) {
                None
            } else {
                slots[i]
            },
    )
}

/// The numbers of the subjects in slots.
pub open spec fn slot_subjects(slots: Seq<Option<SubjectId>>) -> Set<int> {
    Set::new(|s: int| exists|i: int| #[trigger] holds(slots, i, s))
}

/// A slot holds the subject of a number.
pub open spec fn holds(slots: Seq<Option<SubjectId>>, i: int, s: int) -> bool {
    0 <= i < slots.len() && slots[i] is Some && slots[i]->0.value() == s
}

/// No subject has two slots.
pub open spec fn is_distinct(slots: Seq<Option<SubjectId>>) -> bool {
    forall|i: int, j: int, s: int| #[trigger] holds(slots, i, s) && #[trigger] holds(slots, j, s) ==> i == j
}

/// The slot is the first free one.
pub open spec fn is_first_free(slots: Seq<Option<SubjectId>>, i: int) -> bool {
    0 <= i < slots.len() && slots[i] is None && forall|j: int| 0 <= j < i ==> (#[trigger] slots[j]) is Some
}

/// Slots for subjects, and a slot for a destination.
pub struct FilterTable {
    /// Subjects whose messages are received.
    pub subjects: Vec<Option<SubjectId>>,
    /// Node whose service transfers are received.
    pub destination: Option<NodeId>,
}

impl FilterTable {
    /// What the table lets pass.
    pub open spec fn filter(&self) -> Filter {
        Filter {
            subjects: slot_subjects(self.subjects@),
            destinations: match self.destination {
                Some(id) => Set::empty().insert(id.value() as int),
                None => Set::empty(),
            },
        }
    }

    /// Returns a table with free slots only.
    pub fn new(slots: usize) -> (r: Self)
        ensures
            r.subjects@ == Seq::new(slots as nat, |i: int| None::<SubjectId>),
            r.destination is None,
            r.filter() == Filter::nothing(),
    {
        let mut subjects: Vec<Option<SubjectId>> = Vec::new();
        let mut i: usize = 0;
        while i < slots
            invariant
                i <= slots,
                subjects@ == Seq::new(i as nat, |i: int| None::<SubjectId>),
            decreases slots - i,
        {
            subjects.push(None);
            i = i + 1;
            assert(subjects@ =~= Seq::new(i as nat, |i: int| None::<SubjectId>));
        }
        let r = FilterTable { subjects, destination: None };
        assert forall|s: int| !slot_subjects(r.subjects@).contains(s) by {
            if slot_subjects(r.subjects@).contains(s) {
                let i = choose|i: int| #[trigger] holds(r.subjects@, i, s);
                assert(r.subjects@[i] is None);
            }
        }
        assert(r.filter() =~= Filter::nothing());
        r
    }

    /// Puts a subject into the first free slot, and returns the number of the slot.
    pub fn add_subject(&mut self, subject: SubjectId) -> (r: Result<usize, NoFreeSlots>)
        ensures
            r is Err <==> forall|i: int|
                0 <= i < old(self).subjects@.len() ==> (#[trigger] old(self).subjects@[i]) is Some,
            match r {
                Ok(i) => {
                    &&& is_first_free(old(self).subjects@, i as int)
                    &&& final(self).subjects@ == old(self).subjects@.update(i as int, Some(subject))
                    &&& final(self).filter() == old(self).filter().updated(FilterUpdate::AddSubject(subject))
                },
                Err(_) => final(self).subjects@ == old(self).subjects@,
            },
            final(self).destination == old(self).destination,
    {
        let mut i: usize = 0;
        while i < self.subjects.len() && self.subjects[i].is_some()
            invariant
                *self == *old(self),
                i <= self.subjects@.len(),
                forall|j: int| 0 <= j < i ==> (#[trigger] self.subjects@[j]) is Some,
            decreases self.subjects@.len() - i,
        {
            i = i + 1;
        }
        if i >= self.subjects.len() {
            return Err(NoFreeSlots);
        }
        let ghost before = *self;
        self.subjects.set(i, Some(subject));
        proof {
            lemma_added(before.subjects@, i as int, subject);
            assert(self.filter() =~= before.filter().updated(FilterUpdate::AddSubject(subject)));
        }
        Ok(i)
    }

    /// Frees a slot if it holds a subject of a range, and tells whether it did.
    pub fn clear_slot(&mut self, i: usize, range: [SubjectId; 2]) -> (r: bool)
        requires
            i < old(self).subjects@.len(),
        ensures
            r == is_subject_in(old(self).subjects@[i as int], range),
            final(self).subjects@ == (if r {
                old(self).subjects@.update(i as int, None)
            } else {
                old(self).subjects@
            }),
            final(self).destination == old(self).destination,
    {
        let taken: bool = match self.subjects[i] {
            Some(id) => range[0].into_u16() <= id.into_u16() && id.into_u16() <= range[1].into_u16(),
            None => false,
        };
        if taken {
            self.subjects.set(i, None);
        }
        taken
    }

    /// Takes the destination, if the slot is free.
    pub fn add_destination(&mut self, node: NodeId) -> (r: Result<(), NoFreeSlots>)
        ensures
            r is Err <==> old(self).destination is Some,
            final(self).subjects == old(self).subjects,
            match r {
                Ok(_) => {
                    &&& final(self).destination == Some(node)
                    &&& final(self).filter() == old(self).filter().updated(FilterUpdate::AddDestination(node))
                },
                Err(_) => final(self).destination == old(self).destination,
            },
    {
        if self.destination.is_some() {
            return Err(NoFreeSlots);
        }
        let ghost before = *self;
        self.destination = Some(node);
        assert(self.filter() =~= before.filter().updated(FilterUpdate::AddDestination(node)));
        Ok(())
    }

    /// Frees the slot of the destination if it holds a node of a range, and tells whether it did.
    pub fn remove_destination_range(&mut self, range: [NodeId; 2]) -> (r: bool)
        ensures
            r == is_node_in(old(self).destination, range),
            final(self).destination == (if r { None } else { old(self).destination }),
            final(self).subjects == old(self).subjects,
            final(self).filter() == old(self).filter().updated(FilterUpdate::RemoveDestinationRange(range)),
    {
        let ghost before = *self;
        let taken: bool = match self.destination {
            Some(id) => range[0].into_u8() <= id.into_u8() && id.into_u8() <= range[1].into_u8(),
            None => false,
        };
        if taken {
            self.destination = None;
        }
        assert(self.filter() =~= before.filter().updated(FilterUpdate::RemoveDestinationRange(range)));
        taken
    }
}

/// The subjects after one was put into a free slot.
proof fn lemma_added(slots: Seq<Option<SubjectId>>, i: int, subject: SubjectId)
    requires
        0 <= i < slots.len(),
        slots[i] is None,
    ensures
        slot_subjects(slots.update(i, Some(subject))) == slot_subjects(slots).insert(subject.value() as int),
{
    let after = slots.update(i, Some(subject));
    assert forall|s: int| slot_subjects(after).contains(s) == slot_subjects(slots).insert(
        subject.value() as int,
    ).contains(s) by {
        if slot_subjects(after).contains(s) {
            let j = choose|j: int| #[trigger] holds(after, j, s);
            assert(j != i ==> holds(slots, j, s));
        }
        if slot_subjects(slots).contains(s) {
            let j = choose|j: int| #[trigger] holds(slots, j, s);
            assert(holds(after, j, s));
        }
        assert(holds(after, i, subject.value() as int));
    }
    assert(slot_subjects(after) =~= slot_subjects(slots).insert(subject.value() as int));
}

/// The subjects after a range was taken out of all slots.
pub proof fn lemma_cleared(slots: Seq<Option<SubjectId>>, range: [SubjectId; 2])
    ensures
        slot_subjects(cleared(slots, range, slots.len() as int)) == slot_subjects(slots).filter(
            |s: int| s < range@[0].value() || range@[1].value() < s,
        ),
        is_distinct(slots) ==> is_distinct(cleared(slots, range, slots.len() as int)),
{
    let after = cleared(slots, range, slots.len() as int);
    let kept = slot_subjects(slots).filter(|s: int| s < range@[0].value() || range@[1].value() < s);
    assert forall|s: int| slot_subjects(after).contains(s) == kept.contains(s) by {
        if slot_subjects(after).contains(s) {
            let j = choose|j: int| #[trigger] holds(after, j, s);
            assert(holds(slots, j, s));
        }
        if kept.contains(s) {
            let j = choose|j: int| #[trigger] holds(slots, j, s);
            assert(holds(after, j, s));
        }
    }
    assert(slot_subjects(after) =~= kept);
    if is_distinct(slots) {
        assert forall|i: int, j: int, s: int| #[trigger] holds(after, i, s) && #[trigger] holds(after, j, s)
            implies i == j by {
            assert(holds(slots, i, s));
            assert(holds(slots, j, s));
        }
    }
}

/// A subject that has no slot yet can take a free one, and no subject has two slots then.
pub proof fn law_slots_stay_distinct(slots: Seq<Option<SubjectId>>, i: int, subject: SubjectId)
    requires
        is_distinct(slots),
        0 <= i < slots.len(),
        slots[i] is None,
        !slot_subjects(slots).contains(subject.value() as int),
    ensures
        is_distinct(slots.update(i, Some(subject))),
{
    let after = slots.update(i, Some(subject));
    assert forall|a: int, b: int, s: int| #[trigger] holds(after, a, s) && #[trigger] holds(after, b, s)
        implies a == b by {
        assert(a != i ==> holds(slots, a, s));
        assert(b != i ==> holds(slots, b, s));
    }
}

/// Where no subject has two slots and fewer subjects are received than there are slots, a slot
/// is free.
pub proof fn law_slot_is_free(slots: Seq<Option<SubjectId>>)
    requires
        is_distinct(slots),
        slot_subjects(slots).len() < slots.len(),
    ensures
        exists|i: int| is_first_free(slots, i),
{
    if forall|i: int| 0 <= i < slots.len() ==> (#[trigger] slots[i]) is Some {
        let numbers = Seq::new(slots.len(), |i: int| slots[i]->0.value() as int);
        assert forall|i: int, j: int|
            0 <= i < numbers.len() && 0 <= j < numbers.len() && i != j implies numbers[i] != numbers[j] by {
            assert(holds(slots, i, numbers[i]));
            assert(holds(slots, j, numbers[j]));
        }
        assert(numbers.no_duplicates());
        assert forall|s: int| numbers.to_set().contains(s) == slot_subjects(slots).contains(s) by {
            if numbers.contains(s) {
                let i = choose|i: int| 0 <= i < numbers.len() && numbers[i] == s;
                assert(holds(slots, i, s));
            }
            if slot_subjects(slots).contains(s) {
                let i = choose|i: int| #[trigger] holds(slots, i, s);
                assert(numbers[i] == s);
            }
        }
        assert(numbers.to_set() =~= slot_subjects(slots));
        numbers.unique_seq_to_set();
    } else {
        let i = choose|i: int| 0 <= i < slots.len() && !((#[trigger] slots[i]) is Some);
        lemma_first_free(slots, i);
    }
}

/// If a slot is free, there is a first one.
proof fn lemma_first_free(slots: Seq<Option<SubjectId>>, i: int)
    requires
        0 <= i < slots.len(),
        slots[i] is None,
    ensures
        exists|j: int| is_first_free(slots, j),
    decreases i,
{
    if forall|j: int| 0 <= j < i ==> (#[trigger] slots[j]) is Some {
        assert(is_first_free(slots, i));
    } else {
        let j = choose|j: int| 0 <= j < i && !((#[trigger] slots[j]) is Some);
        lemma_first_free(slots, j);
    }
}

/// The contents of a filter that have to be written into the periphery.
#[derive(Debug, PartialEq, Eq)]
pub struct FilterWrite<E> {
    /// Number of the filter.
    pub index: usize,
    /// Its contents.
    pub element: E,
}

/// A write puts into a filter what it holds afterwards.
pub open spec fn is_right<E>(after: Seq<E>, write: FilterWrite<E>) -> bool {
    write.index < after.len() && write.element == after[write.index as int]
}

/// A filter is written.
pub open spec fn is_touched<E>(writes: Seq<FilterWrite<E>>, i: int) -> bool {
    exists|k: int| 0 <= k < writes.len() && (#[trigger] writes[k]).index == i
}

/// A filter holds something else afterwards.
pub open spec fn is_different<E>(before: Seq<E>, after: Seq<E>, i: int) -> bool {
    0 <= i < after.len() && before[i] != after[i]
}

/// Writes turn one contents of the filters into another: they write what stands in the
/// other one, cover all differences, and touch no filter twice.
pub open spec fn is_turned<E>(before: Seq<E>, after: Seq<E>, writes: Seq<FilterWrite<E>>) -> bool {
    &&& forall|k: int| 0 <= k < writes.len() ==> is_right(after, #[trigger] writes[k])
    &&& forall|k: int, l: int|
        0 <= k < l < writes.len() ==> (#[trigger] writes[k]).index < (#[trigger] writes[l]).index
    &&& forall|i: int| #[trigger] is_different(before, after, i) ==> is_touched(writes, i)
}

/// The filters after writes.
pub open spec fn rewritten<E>(memory: Seq<E>, writes: Seq<FilterWrite<E>>) -> Seq<E>
    decreases writes.len(),
{
    if writes.len() == 0 {
        memory
    } else {
        rewritten(memory, writes.drop_last()).update(writes.last().index as int, writes.last().element)
    }
}

/// A filter after writes holds what was written, or what it held before.
proof fn lemma_rewritten<E>(before: Seq<E>, after: Seq<E>, writes: Seq<FilterWrite<E>>, i: int)
    requires
        before.len() == after.len(),
        forall|k: int| 0 <= k < writes.len() ==> is_right(after, #[trigger] writes[k]),
        0 <= i < after.len(),
    ensures
        rewritten(before, writes).len() == before.len(),
        rewritten(before, writes)[i] == (if is_touched(writes, i) {
            after[i]
        } else {
            before[i]
        }),
    decreases writes.len(),
{
    if writes.len() > 0 {
        let rest = writes.drop_last();
        assert forall|k: int| 0 <= k < rest.len() implies is_right(after, #[trigger] rest[k]) by {
            assert(rest[k] == writes[k]);
        }
        lemma_rewritten(before, after, rest, i);
        let last = writes.last();
        assert(last == writes[writes.len() - 1]);
        assert(is_right(after, last));
        if last.index == i {
            assert(is_touched(writes, i));
        } else if is_touched(rest, i) {
            let k = choose|k: int| 0 <= k < rest.len() && (#[trigger] rest[k]).index == i;
            assert(writes[k].index == i);
        } else if is_touched(writes, i) {
            let k = choose|k: int| 0 <= k < writes.len() && (#[trigger] writes[k]).index == i;
            assert(rest[k].index == i);
        }
    }
}

/// Writes that turn one contents into another lead from the one to the other.
pub proof fn law_memory_follows<E>(before: Seq<E>, after: Seq<E>, writes: Seq<FilterWrite<E>>)
    requires
        before.len() == after.len(),
        after.len() > 0,
        is_turned(before, after, writes),
    ensures
        rewritten(before, writes) == after,
{
    lemma_rewritten(before, after, writes, 0);
    assert forall|i: int| 0 <= i < after.len() implies rewritten(before, writes)[i] == after[i] by {
        lemma_rewritten(before, after, writes, i);
        assert(is_different(before, after, i) == (before[i] != after[i]));
    }
    assert(rewritten(before, writes) =~= after);
}

/// One write turns the contents if it covers the only difference.
pub proof fn lemma_single<E>(before: Seq<E>, after: Seq<E>, write: FilterWrite<E>)
    requires
        is_right(after, write),
        forall|i: int| 0 <= i < after.len() && i != write.index ==> before[i] == #[trigger] after[i],
    ensures
        is_turned(before, after, seq![write]),
{
    let writes = seq![write];
    assert forall|i: int| #[trigger] is_different(before, after, i) implies is_touched(writes, i) by {
        assert(i == write.index);
        assert(writes[0].index == i);
    }
}

/// The subjects of the slots and the destination are what is received, and nothing else.
pub proof fn law_table_is_received(table: &FilterTable, s: int)
    ensures
        table.filter().subjects.contains(s) <==> exists|i: int|
            0 <= i < table.subjects@.len() && (#[trigger] table.subjects@[i] matches Some(id) && id.value() == s),
        table.filter().destinations.contains(s) <==> (table.destination matches Some(id) && id.value() == s),
{
    if table.filter().subjects.contains(s) {
        let i = choose|i: int| #[trigger] holds(table.subjects@, i, s);
        assert(table.subjects@[i] is Some);
    }
    if exists|i: int|
        0 <= i < table.subjects@.len() && (#[trigger] table.subjects@[i] matches Some(id) && id.value() == s) {
        let i = choose|i: int|
            0 <= i < table.subjects@.len() && (#[trigger] table.subjects@[i] matches Some(id) && id.value() == s);
        assert(holds(table.subjects@, i, s));
    }
}

/// What is in a range, bounds included.
pub proof fn law_ranges(subject: SubjectId, subjects: [SubjectId; 2], node: NodeId, nodes: [NodeId; 2])
    ensures
        is_subject_in(Some(subject), subjects) <==> subjects@[0].value() <= subject.value() && subject.value()
            <= subjects@[1].value(),
        !is_subject_in(None, subjects),
        is_node_in(Some(node), nodes) <==> nodes@[0].value() <= node.value() && node.value() <= nodes@[1].value(),
        !is_node_in(None, nodes),
{
}

} // verus!
