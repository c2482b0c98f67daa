//! Filters, timestamps and wakers of the driver.

use core::task::Waker;
use embassy_sync::waitqueue::WakerRegistration;
use vstd::prelude::*;

use crate::frame::Frame;
use crate::ids::{NodeId, SubjectId};
use crate::link::{Filter, FilterUpdate};
use crate::stm32::filters::{
    cleared, holds, is_different, is_node_in, is_right, is_touched, is_turned, lemma_cleared, lemma_single,
    slot_subjects, FilterTable, FilterWrite, NoFreeSlots,
};
use crate::stm32::format::{
    is_message_id, is_service_id, law_free_msg_filter, law_free_srv_filter, law_global_mask, law_msg_filter,
    law_srv_filter, message_fields, msg_pattern, pattern_node, pattern_subject, service_fields, srv_pattern,
    MSG_FILTER_MASK, SRV_FILTER_MASK,
};
use crate::stm32::native::config::TimestampSource;
use crate::stm32::native::raw::{
    make_message_filter, make_service_filter, read_message_filter, read_service_filter, FilterAction,
    FilterElement, FilterType, RawFrame, MESSAGE_FILTER_COUNT, SERVICE_FILTER_OFFSET,
};
use crate::stm32::native::utils::{all_mailboxes, TxMailboxSet};
use crate::task::{is_waiting, new_registration, register_waker, wake_registered};
use crate::time::Instant;

verus! {

/// Number of message subjects that can be received at the same time.
pub const SUBJECT_SLOT_COUNT: usize = 14;

/// The filter of the messages of two slots.
pub open spec fn message_element(a: Option<SubjectId>, b: Option<SubjectId>) -> FilterElement {
    FilterElement {
        filter_type: FilterType::DualId,
        id1: msg_pattern(a),
        id2: msg_pattern(b),
        action: FilterAction::StoreInFifo0,
    }
}

/// The filter of the service transfers to a node.
pub open spec fn service_element(node: Option<NodeId>) -> FilterElement {
    FilterElement {
        filter_type: FilterType::Classic,
        id1: srv_pattern(node),
        id2: SRV_FILTER_MASK,
        action: FilterAction::StoreInFifo1,
    }
}

/// The filters of all slots: two subjects in each of the first seven, and the destination in the
/// last one.
pub open spec fn elements(slots: Seq<Option<SubjectId>>, node: Option<NodeId>) -> Seq<FilterElement> {
    Seq::new(
        8,
        |i: int|
            if i < 7 {
                message_element(slots[2 * i], slots[2 * i + 1])
            } else {
                service_element(node)
            },
    )
}

/// What the driver knows of the filters in the message memory.
pub struct RxFilterRunner {
    table: FilterTable,
}

impl RxFilterRunner {
    /// There are slots for all subjects.
    pub closed spec fn wf(&self) -> bool {
        self.table.subjects@.len() == SUBJECT_SLOT_COUNT
    }

    /// The slots of the subjects.
    pub closed spec fn slots(&self) -> Seq<Option<SubjectId>> {
        self.table.subjects@
    }

    /// The slot of the destination.
    pub closed spec fn destination(&self) -> Option<NodeId> {
        self.table.destination
    }

    /// What passes the filters.
    pub closed spec fn filter(&self) -> Filter {
        self.table.filter()
    }

    /// What the filters pass is what stands in the slots.
    pub proof fn lemma_filter(&self)
        requires
            self.wf(),
        ensures
            self.slots().len() == SUBJECT_SLOT_COUNT,
            self.filter().subjects == slot_subjects(self.slots()),
            self.filter().destinations == (match self.destination() {
                Some(id) => Set::empty().insert(id.value() as int),
                None => Set::empty(),
            }),
    {
    }

    /// The contents of the message memory.
    pub open spec fn memory(&self) -> Seq<FilterElement> {
        elements(self.slots(), self.destination())
    }

    /// Returns the state in which nothing is received.
    pub fn new() -> (r: Self)
        ensures
            r.wf(),
            r.filter() == Filter::nothing(),
            r.memory() == elements(Seq::new(14, |i: int| None::<SubjectId>), None),
    {
        RxFilterRunner { table: FilterTable::new(SUBJECT_SLOT_COUNT) }
    }

    /// Returns the filters that have to be written before the periphery is started.
    pub fn init_filters(&self) -> (r: Vec<FilterWrite<FilterElement>>)
        requires
            self.wf(),
        ensures
            r@.len() == 8,
            forall|i: int|
                0 <= i < 8 ==> (#[trigger] r@[i]) == (FilterWrite { index: i as usize, element: self.memory()[i] }),
    {
        let mut writes: Vec<FilterWrite<FilterElement>> = Vec::new();
        let mut i: usize = 0;
        while i < MESSAGE_FILTER_COUNT
            invariant
                self.wf(),
                i <= 7,
                writes@.len() == i,
                forall|k: int|
                    0 <= k < i ==> (#[trigger] writes@[k]) == (FilterWrite {
                        index: k as usize,
                        element: self.memory()[k],
                    }),
            decreases 7 - i,
        {
            writes.push(self.message_write(i));
            i = i + 1;
        }
        writes.push(self.service_write());
        writes
    }

    /// Returns the state that stands in the message memory.
    pub fn load(filters: &Vec<FilterElement>) -> (r: Self)
        requires
            filters@.len() == 8,
            forall|i: int| 0 <= i < 7 ==> (#[trigger] filters@[i]).filter_type == FilterType::DualId,
            filters@[7].filter_type == FilterType::Classic,
        ensures
            r.wf(),
            forall|i: int|
                0 <= i < 14 ==> #[trigger] r.slots()[i] == pattern_subject(
                    if i % 2 == 0 {
                        filters@[i / 2].id1
                    } else {
                        filters@[i / 2].id2
                    },
                ),
            r.destination() == pattern_node(filters@[7].id1),
    {
        let mut table = FilterTable::new(SUBJECT_SLOT_COUNT);
        let mut i: usize = 0;
        while i < MESSAGE_FILTER_COUNT
            invariant
                i <= 7,
                filters@.len() == 8,
                forall|i: int| 0 <= i < 7 ==> (#[trigger] filters@[i]).filter_type == FilterType::DualId,
                table.subjects@.len() == 14,
                forall|k: int|
                    0 <= k < 2 * i ==> #[trigger] table.subjects@[k] == pattern_subject(
                        if k % 2 == 0 {
                            filters@[k / 2].id1
                        } else {
                            filters@[k / 2].id2
                        },
                    ),
            decreases 7 - i,
        {
            let subjects = read_message_filter(&filters[i]);
            assert(subjects@[0] == pattern_subject(filters@[i as int].id1));
            assert(subjects@[1] == pattern_subject(filters@[i as int].id2));
            table.subjects.set(2 * i, subjects[0]);
            table.subjects.set(2 * i + 1, subjects[1]);
            i = i + 1;
        }
        table.destination = read_service_filter(&filters[SERVICE_FILTER_OFFSET]);
        RxFilterRunner { table }
    }

    /// Returns the write of a filter for messages.
    fn message_write(&self, i: usize) -> (r: FilterWrite<FilterElement>)
        requires
            self.wf(),
            i < 7,
        ensures
            r == (FilterWrite { index: i, element: self.memory()[i as int] }),
    {
        FilterWrite {
            index: i,
            element: make_message_filter([self.table.subjects[2 * i], self.table.subjects[2 * i + 1]]),
        }
    }

    /// Returns the write of the filter for service transfers.
    fn service_write(&self) -> (r: FilterWrite<FilterElement>)
        requires
            self.wf(),
        ensures
            r == (FilterWrite { index: 7, element: self.memory()[7] }),
    {
        FilterWrite { index: SERVICE_FILTER_OFFSET, element: make_service_filter(self.table.destination) }
    }

    /// Adds a subject in the first free slot, and returns the filter to write.
    fn add_subject(&mut self, subject: SubjectId) -> (r: Result<FilterWrite<FilterElement>, NoFreeSlots>)
        requires
            old(self).wf(),
        ensures
            final(self).wf(),
            r is Err <==> forall|i: int| 0 <= i < 14 ==> (#[trigger] old(self).slots()[i]) is Some,
            match r {
                Ok(write) => {
                    &&& is_turned(old(self).memory(), final(self).memory(), seq![write])
                    &&& final(self).filter() == old(self).filter().updated(FilterUpdate::AddSubject(subject))
                    &&& final(self).destination() == old(self).destination()
                },
                Err(_) => final(self).slots() == old(self).slots() && final(self).destination()
                    == old(self).destination(),
            },
    {
        let ghost before = *self;
        let slot: usize = self.table.add_subject(subject)?;
        let write = self.message_write(slot / 2);
        proof {
            lemma_single(before.memory(), self.memory(), write);
        }
        Ok(write)
    }

    /// Takes the subjects of a range out, and returns the filters to write.
    fn remove_subject_range(&mut self, range: [SubjectId; 2]) -> (r: Vec<FilterWrite<FilterElement>>)
        requires
            old(self).wf(),
        ensures
            final(self).wf(),
            is_turned(old(self).memory(), final(self).memory(), r@),
            final(self).slots() == cleared(old(self).slots(), range, 14),
            final(self).destination() == old(self).destination(),
            final(self).filter() == old(self).filter().updated(FilterUpdate::RemoveSubjectRange(range)),
    {
        let ghost before = *self;
        let ghost after = elements(cleared(before.slots(), range, 14), before.destination());
        let mut writes: Vec<FilterWrite<FilterElement>> = Vec::new();
        let mut i: usize = 0;
        while i < MESSAGE_FILTER_COUNT
            invariant
                self.wf(),
                before.wf(),
                i <= 7,
                self.slots() =~= cleared(before.slots(), range, 2 * i),
                self.destination() == before.destination(),
                after == elements(cleared(before.slots(), range, 14), before.destination()),
                forall|k: int|
                    0 <= k < writes@.len() ==> (#[trigger] writes@[k]).index < i && is_right(after, writes@[k]),
                forall|k: int, l: int|
                    0 <= k < l < writes@.len() ==> (#[trigger] writes@[k]).index < (#[trigger] writes@[l]).index,
                forall|j: int|
                    j < i && #[trigger] is_different(before.memory(), after, j) ==> is_touched(writes@, j),
            decreases 7 - i,
        {
            let ghost was = writes@;
            let first: bool = self.table.clear_slot(2 * i, range);
            let second: bool = self.table.clear_slot(2 * i + 1, range);
            assert(self.slots() =~= cleared(before.slots(), range, 2 * i + 2));
            if first || second {
                writes.push(self.message_write(i));
                assert(writes@[writes@.len() - 1].index == i);
            }
            proof {
                assert forall|j: int| j < i + 1 && #[trigger] is_different(before.memory(), after, j) implies
                    is_touched(writes@, j) by {
                    if j < i {
                        let k = choose|k: int| 0 <= k < was.len() && (#[trigger] was[k]).index == j;
                        assert(writes@[k] == was[k]);
                    } else if !first && !second {
                        assert(before.memory()[j] == after[j]);
                    }
                }
            }
            i = i + 1;
        }
        proof {
            assert(self.memory() =~= after);
            assert(before.memory()[7] == after[7]);
            lemma_cleared(before.slots(), range);
            assert(self.filter() =~= before.filter().updated(FilterUpdate::RemoveSubjectRange(range)));
        }
        writes
    }

    /// Takes the destination, and returns the filter to write.
    fn add_destination(&mut self, node: NodeId) -> (r: Result<FilterWrite<FilterElement>, NoFreeSlots>)
        requires
            old(self).wf(),
        ensures
            final(self).wf(),
            final(self).slots() == old(self).slots(),
            r is Err <==> old(self).destination() is Some,
            match r {
                Ok(write) => {
                    &&& is_turned(old(self).memory(), final(self).memory(), seq![write])
                    &&& final(self).filter() == old(self).filter().updated(FilterUpdate::AddDestination(node))
                },
                Err(_) => final(self).destination() == old(self).destination(),
            },
    {
        let ghost before = *self;
        self.table.add_destination(node)?;
        let write = self.service_write();
        proof {
            lemma_single(before.memory(), self.memory(), write);
        }
        Ok(write)
    }

    /// Takes the destination out if it is in a range, and returns the filter to write then.
    fn remove_destination_range(&mut self, range: [NodeId; 2]) -> (r: Option<FilterWrite<FilterElement>>)
        requires
            old(self).wf(),
        ensures
            final(self).wf(),
            final(self).slots() == old(self).slots(),
            r is Some <==> is_node_in(old(self).destination(), range),
            is_turned(
                old(self).memory(),
                final(self).memory(),
                match r {
                    Some(write) => seq![write],
                    None => seq![],
                },
            ),
            final(self).filter() == old(self).filter().updated(FilterUpdate::RemoveDestinationRange(range)),
    {
        let ghost before = *self;
        if self.table.remove_destination_range(range) {
            let write = self.service_write();
            proof {
                lemma_single(before.memory(), self.memory(), write);
            }
            Some(write)
        } else {
            None
        }
    }

    /// Carries out an update, and returns the filters to write.
    pub fn update(&mut self, update: FilterUpdate) -> (r: Result<Vec<FilterWrite<FilterElement>>, NoFreeSlots>)
        requires
            old(self).wf(),
        ensures
            final(self).wf(),
            r is Err <==> match update {
                FilterUpdate::AddSubject(_) => forall|i: int|
                    0 <= i < 14 ==> (#[trigger] old(self).slots()[i]) is Some,
                FilterUpdate::AddDestination(_) => old(self).destination() is Some,
                _ => false,
            },
            match r {
                Ok(writes) => {
                    &&& is_turned(old(self).memory(), final(self).memory(), writes@)
                    &&& final(self).filter() == old(self).filter().updated(update)
                },
                Err(_) => final(self).slots() == old(self).slots() && final(self).destination()
                    == old(self).destination(),
            },
    {
        let mut writes: Vec<FilterWrite<FilterElement>> = Vec::new();
        match update {
            FilterUpdate::AddSubject(subject) => {
                let write = self.add_subject(subject)?;
                writes.push(write);
                assert(writes@ =~= seq![write]);
            },
            FilterUpdate::RemoveSubjectRange(range) => {
                writes = self.remove_subject_range(range);
            },
            FilterUpdate::AddDestination(node) => {
                let write = self.add_destination(node)?;
                writes.push(write);
                assert(writes@ =~= seq![write]);
            },
            FilterUpdate::RemoveDestinationRange(range) => {
                if let Some(write) = self.remove_destination_range(range) {
                    writes.push(write);
                    assert(writes@ =~= seq![write]);
                } else {
                    assert(writes@ =~= seq![]);
                }
            },
        }
        Ok(writes)
    }
}

/// A filter lets an identifier pass. The global mask applies to every identifier first.
pub open spec fn element_passes(element: FilterElement, can_id: u32) -> bool {
    let masked = can_id & MSG_FILTER_MASK;
    match element.filter_type {
        FilterType::DualId => masked == element.id1 || masked == element.id2,
        FilterType::Classic => masked & element.id2 == element.id1 & element.id2,
    }
}

/// One of the filters lets an identifier pass.
pub open spec fn passes(memory: Seq<FilterElement>, can_id: u32) -> bool {
    exists|i: int| 0 <= i < memory.len() && element_passes(#[trigger] memory[i], can_id)
}

/// The filters let exactly the messages of the subjects and the service transfers to the
/// destination pass.
pub proof fn law_filters_are_exact(slots: Seq<Option<SubjectId>>, node: Option<NodeId>, can_id: u32)
    requires
        slots.len() == SUBJECT_SLOT_COUNT,
        forall|i: int|
            0 <= i < slots.len() && (#[trigger] slots[i]) is Some ==> SubjectId::is_valid(slots[i]->0.value() as int),
        node matches Some(id) ==> NodeId::is_valid(id.value() as int),
    ensures
        is_message_id(can_id) ==> (passes(elements(slots, node), can_id) <==> slot_subjects(slots).contains(
            message_fields(can_id).subject.value() as int,
        )),
        is_service_id(can_id) ==> (passes(elements(slots, node), can_id) <==> node == Some(
            service_fields(can_id).destination,
        )),
{
    broadcast use SubjectId::lemma_value;
    let memory = elements(slots, node);
    let subject = message_fields(can_id).subject;
    law_global_mask(can_id);
    law_free_msg_filter(can_id);
    law_free_srv_filter(can_id);
    if let Some(id) = node {
        law_srv_filter(can_id, id);
    }
    assert forall|i: int| 0 <= i < 14 implies (can_id & MSG_FILTER_MASK == msg_pattern(#[trigger] slots[i])
        <==> is_message_id(can_id) && slots[i] == Some(subject)) by {
        if let Some(id) = slots[i] {
            law_msg_filter(can_id, id);
        }
    }
    if is_message_id(can_id) {
        assert(!element_passes(memory[7], can_id));
        if passes(memory, can_id) {
            let i = choose|i: int| 0 <= i < memory.len() && element_passes(#[trigger] memory[i], can_id);
            assert(slots[2 * i] == Some(subject) || slots[2 * i + 1] == Some(subject));
            assert(holds(slots, 2 * i, subject.value() as int) || holds(slots, 2 * i + 1, subject.value() as int));
        }
        if slot_subjects(slots).contains(subject.value() as int) {
            let i = choose|i: int| #[trigger] holds(slots, i, subject.value() as int);
            assert(SubjectId::of(slots[i]->0.value()) == slots[i]->0);
            assert(SubjectId::of(subject.value()) == subject);
            assert(slots[i] == Some(subject));
            assert(i == 2 * (i / 2) || i == 2 * (i / 2) + 1);
            assert(element_passes(memory[i / 2], can_id));
        }
    }
    if is_service_id(can_id) {
        if passes(memory, can_id) {
            let i = choose|i: int| 0 <= i < memory.len() && element_passes(#[trigger] memory[i], can_id);
            if i < 7 {
                assert(can_id & MSG_FILTER_MASK == msg_pattern(slots[2 * i]) || can_id & MSG_FILTER_MASK
                    == msg_pattern(slots[2 * i + 1]));
            }
        }
        if node == Some(service_fields(can_id).destination) {
            assert(element_passes(memory[7], can_id));
        }
    }
}

/// The latest instant that is not behind `epoch` and whose last 16 bits are `counter`, or the
/// start of the clock if there is none.
pub open spec fn timestamp_at(epoch: Instant, counter: u16) -> Instant {
    let offset = (epoch.ticks - counter) % 0x1_0000;
    Instant {
        ticks: if epoch.ticks >= offset {
            (epoch.ticks - offset) as u64
        } else {
            0
        },
    }
}

/// The instant of a value of the timestamp counter, or the current time without a counter.
pub open spec fn frame_time(now: Instant, counter: u16, offset: Option<u16>) -> Instant {
    match offset {
        Some(offset) => timestamp_at(now, ((counter - offset) % 0x1_0000) as u16),
        None => now,
    }
}

/// Returns the difference of two 16-bit numbers, modulo their range.
fn difference(a: u16, b: u16) -> (r: u16)
    ensures
        r == (a - b) % 0x1_0000,
{
    a.wrapping_sub(b)
}

/// Makes a timestamp from the counter and a later instant.
pub fn make_timestamp(epoch: Instant, counter: u16) -> (r: Instant)
    ensures
        r == timestamp_at(epoch, counter),
{
    let offset: u16 = difference((epoch.as_ticks() % 0x1_0000) as u16, counter);
    Instant::from_ticks(epoch.as_ticks().saturating_sub(offset as u64))
}

/// Returns the value that the counter had at the start of the clock, if there is a counter.
pub fn timestamp_offset(source: TimestampSource, instant: Instant, counter: u16) -> (r: Option<u16>)
    ensures
        r == (match source {
            TimestampSource::System => None,
            _ => Some(((counter - instant.ticks) % 0x1_0000) as u16),
        }),
{
    match source {
        TimestampSource::System => None,
        TimestampSource::Internal(_) => Some(difference(counter, (instant.as_ticks() % 0x1_0000) as u16)),
        TimestampSource::ExternalTIM3 => Some(difference(counter, (instant.as_ticks() % 0x1_0000) as u16)),
    }
}

/// Returns the timestamp of a frame: from the counter, or the current time.
pub fn frame_timestamp(now: Instant, counter: u16, offset: Option<u16>) -> (r: Instant)
    ensures
        r == frame_time(now, counter, offset),
{
    if let Some(offset) = offset {
        make_timestamp(now, difference(counter, offset))
    } else {
        now
    }
}

/// Returns the frame of a received element.
pub fn receive_frame(raw_frame: RawFrame, now: Instant, offset: Option<u16>) -> (r: Frame)
    ensures
        r.header == raw_frame.header,
        r.data == raw_frame.data,
        r.timestamp == frame_time(now, raw_frame.timestamp, offset),
        !r.loop_back,
{
    Frame {
        header: raw_frame.header,
        data: raw_frame.data,
        timestamp: frame_timestamp(now, raw_frame.timestamp, offset),
        loop_back: false,
    }
}

/// A counter instant is found again within the period of the counter.
pub proof fn law_timestamp(instant: Instant, epoch: Instant)
    requires
        instant.ticks <= epoch.ticks <= instant.ticks + u16::MAX,
    ensures
        timestamp_at(epoch, (instant.ticks % 0x1_0000) as u16) == instant,
{
    let d = epoch.ticks - instant.ticks;
    let c = (instant.ticks % 0x1_0000) as int;
    assert(epoch.ticks - c == d + (instant.ticks / 0x1_0000) * 0x1_0000);
    assert((epoch.ticks - c) % 0x1_0000 == d);
}

/// A counter that advances with the clock gives exact timestamps: if it had the value `start`
/// when the driver was started at `origin`, a frame that appears at `instant` gets this instant
/// as its timestamp, as long as it is handled before the counter has gone round.
pub proof fn law_hardware_timestamp(source: TimestampSource, origin: Instant, start: u16, instant: Instant, now: Instant)
    requires
        source != TimestampSource::System,
        origin.ticks <= instant.ticks <= now.ticks <= instant.ticks + u16::MAX,
    ensures
        frame_time(
            now,
            ((start + (instant.ticks - origin.ticks)) % 0x1_0000) as u16,
            Some(((start - origin.ticks) % 0x1_0000) as u16),
        ) == instant,
{
    let o = (start - origin.ticks) % 0x1_0000;
    let c = (start + (instant.ticks - origin.ticks)) % 0x1_0000;
    assert((c - o) % 0x1_0000 == (instant.ticks % 0x1_0000) as int) by {
        let a = start - origin.ticks;
        assert(start + (instant.ticks - origin.ticks) == a + instant.ticks);
        vstd::arithmetic::div_mod::lemma_sub_mod_noop(a + instant.ticks, a, 0x1_0000);
    }
    law_timestamp(instant, now);
}

/// State that the interrupts share with the tasks.
pub struct Info {
    rx_trigger: WakerRegistration,
    tx_unpend_mask: TxMailboxSet,
    tx_trigger: WakerRegistration,
    ref_counter: u8,
}

impl Info {
    /// The task of the receiver waits.
    pub closed spec fn rx_waits(&self) -> bool {
        is_waiting(self.rx_trigger)
    }

    /// The task of the transmitter waits.
    pub closed spec fn tx_waits(&self) -> bool {
        is_waiting(self.tx_trigger)
    }

    /// The mailboxes that the transmitter waits for.
    pub closed spec fn awaited(&self) -> Set<int> {
        self.tx_unpend_mask@
    }

    /// Number of users.
    pub closed spec fn users(&self) -> nat {
        self.ref_counter as nat
    }

    /// Returns the state of a driver with one user.
    pub fn new() -> (r: Self)
        ensures
            !r.rx_waits(),
            !r.tx_waits(),
            r.awaited() == all_mailboxes(),
            r.users() == 1,
    {
        Info {
            rx_trigger: new_registration(),
            tx_unpend_mask: TxMailboxSet::all(),
            tx_trigger: new_registration(),
            ref_counter: 1,
        }
    }

    /// Wakes the receiver: a frame has arrived.
    pub fn wake_rx(&mut self)
        ensures
            !final(self).rx_waits(),
            final(self).tx_waits() == old(self).tx_waits(),
            final(self).awaited() == old(self).awaited(),
            final(self).users() == old(self).users(),
    {
        wake_registered(&mut self.rx_trigger);
    }

    /// Wakes the transmitter if none of the mailboxes that it waits for is pending any more.
    pub fn wake_tx(&mut self, pending_mailboxes: TxMailboxSet)
        ensures
            final(self).tx_waits() == (old(self).tx_waits() && pending_mailboxes@.intersect(
                old(self).awaited(),
            ) != Set::<int>::empty()),
            final(self).rx_waits() == old(self).rx_waits(),
            final(self).awaited() == old(self).awaited(),
            final(self).users() == old(self).users(),
    {
        if pending_mailboxes.intersect(self.tx_unpend_mask).is_empty() {
            wake_registered(&mut self.tx_trigger);
        }
    }

    /// The receiver waits.
    pub fn register_rx_waker(&mut self, waker: &Waker)
        ensures
            final(self).rx_waits(),
            final(self).tx_waits() == old(self).tx_waits(),
            final(self).awaited() == old(self).awaited(),
            final(self).users() == old(self).users(),
    {
        register_waker(&mut self.rx_trigger, waker);
    }

    /// The transmitter waits until the mailboxes are not pending.
    pub fn register_tx_waker(&mut self, waker: &Waker, unpend_mask: TxMailboxSet)
        ensures
            final(self).tx_waits(),
            final(self).awaited() == unpend_mask@,
            final(self).rx_waits() == old(self).rx_waits(),
            final(self).users() == old(self).users(),
    {
        self.tx_unpend_mask = unpend_mask;
        register_waker(&mut self.tx_trigger, waker);
    }

    /// Adds a user.
    pub fn add_user(&mut self)
        requires
            old(self).users() < u8::MAX,
        ensures
            final(self).users() == old(self).users() + 1,
            final(self).rx_waits() == old(self).rx_waits(),
            final(self).tx_waits() == old(self).tx_waits(),
            final(self).awaited() == old(self).awaited(),
    {
        self.ref_counter = self.ref_counter + 1;
    }

    /// Takes a user out, and tells whether it was the last one. The periphery has to be stopped
    /// then.
    pub fn remove_user(&mut self) -> (r: bool)
        requires
            old(self).users() > 0,
        ensures
            final(self).users() == old(self).users() - 1,
            r == (final(self).users() == 0),
            final(self).rx_waits() == old(self).rx_waits(),
            final(self).tx_waits() == old(self).tx_waits(),
            final(self).awaited() == old(self).awaited(),
    {
        self.ref_counter = self.ref_counter - 1;
        self.ref_counter == 0
    }
}

/// The timestamp of a counter value is the last instant not after the present at which the counter had
/// this value, or the beginning of time if there is none.
pub proof fn law_timestamp_is_recent(epoch: Instant, counter: u16)
    ensures
        ({
            let t = timestamp_at(epoch, counter).ticks as int;
            &&& 0 <= t <= epoch.ticks
            &&& epoch.ticks - t < 0x1_0000
            &&& t % 0x1_0000 == counter || (t == 0 && epoch.ticks < counter)
        }),
{
    let offset = (epoch.ticks - counter) % 0x1_0000;
    assert(0 <= offset < 0x1_0000);
    if epoch.ticks >= offset {
        assert((epoch.ticks - offset) % 0x1_0000 == counter as int);
    } else {
        assert(epoch.ticks < counter);
    }
}

/// Without a hardware counter the time of a frame is the time at which it is handled.
pub proof fn law_system_timestamp(now: Instant, counter: u16)
    ensures
        frame_time(now, counter, None) == now,
{
}

/// The messages go to the first receive queue, two subjects to a filter, and the service transfers to
/// the second one.
pub proof fn law_queues_of_filters(slots: Seq<Option<SubjectId>>, node: Option<NodeId>, i: int)
    requires
        slots.len() == SUBJECT_SLOT_COUNT,
        0 <= i < 7,
    ensures
        elements(slots, node).len() == 8,
        elements(slots, node)[i].filter_type == FilterType::DualId,
        elements(slots, node)[i].action == FilterAction::StoreInFifo0,
        elements(slots, node)[i].id1 == msg_pattern(slots[2 * i]),
        elements(slots, node)[i].id2 == msg_pattern(slots[2 * i + 1]),
        elements(slots, node)[7].filter_type == FilterType::Classic,
        elements(slots, node)[7].action == FilterAction::StoreInFifo1,
        elements(slots, node)[7].id1 == srv_pattern(node),
        elements(slots, node)[7].id2 == SRV_FILTER_MASK,
{
}

} // verus!
