//! Filters and frames of the adapter.

use embedded_can::ExtendedId;
use vstd::prelude::*;

use crate::frame::{Data, DataLength, Frame, Header};
use crate::ids::{NodeId, SubjectId};
use crate::link::{Filter, FilterUpdate};
use crate::priority::Priority;
use crate::stm32::embassy::config::FrameFormat;
use crate::stm32::embassy::utils::{FdFrame, FrameId};
use crate::stm32::filters::{
    cleared, holds, is_different, is_node_in, is_right, is_subject_in, is_touched, is_turned, lemma_cleared,
    lemma_single, slot_subjects, FilterTable, FilterWrite, NoFreeSlots,
};
use crate::stm32::format::{
    decode_can_id_priority, is_message_id, is_service_id, law_free_srv_filter, law_msg_filter, law_srv_filter,
    make_msg_filter_pattern, make_srv_filter_pattern, message_fields, msg_pattern, service_fields, srv_pattern,
    MSG_FILTER_MASK, SRV_FILTER_MASK,
};
use crate::stm32::header::{
    convert_raw_header, has_valid_ids, header_id, id_header, is_sendable, law_header_round_trip, make_can_id,
    InvalidFrameHeader,
};
use crate::time::Instant;

verus! {

/// Number of message subjects that can be received at the same time.
pub const SUBJECT_SLOT_COUNT: usize = 7;

/// Number of the filter for service transfers.
pub const SERVICE_FILTER_OFFSET: usize = 7;

/// Where frames that pass a filter go.
#[derive(Debug, Clone, Copy, PartialEq, Eq, Structural)]
pub enum Action {
    /// They are stored in the first queue.
    StoreInFifo0,
    /// They are stored in the second queue.
    StoreInFifo1,
}

/// A filter that compares the bits of a mask.
#[derive(Debug, Clone, Copy, PartialEq, Eq, Structural)]
pub struct ExtendedFilter {
    /// The bits.
    pub filter: u32,
    /// The bits that are compared.
    pub mask: u32,
    /// Where frames that pass go.
    pub action: Action,
}

/// The filter of a slot.
pub open spec fn subject_filter(slot: Option<SubjectId>) -> ExtendedFilter {
    ExtendedFilter { filter: msg_pattern(slot), mask: MSG_FILTER_MASK, action: Action::StoreInFifo0 }
}

/// The filter of the destination.
pub open spec fn service_filter(node: Option<NodeId>) -> ExtendedFilter {
    ExtendedFilter { filter: srv_pattern(node), mask: SRV_FILTER_MASK, action: Action::StoreInFifo1 }
}

/// The filters of all slots: a subject in each of the first seven, and the destination in the
/// last one.
pub open spec fn extended_filters(slots: Seq<Option<SubjectId>>, node: Option<NodeId>) -> Seq<ExtendedFilter> {
    Seq::new(
        8,
        |i: int|
            if i < 7 {
                subject_filter(slots[i])
            } else {
                service_filter(node)
            },
    )
}

/// What the adapter knows of the filters of the periphery.
pub struct RxFilterRunner {
    table: FilterTable,
}

impl RxFilterRunner {
    /// There are slots for all subjects.
    pub closed spec fn wf(&self) -> bool {
        self.table.subjects@.len() == SUBJECT_SLOT_COUNT
    }

    /// The slots of the subjects.
    pub closed spec fn slots(&self) -> Seq<Option<SubjectId>> {
        self.table.subjects@
    }

    /// The slot of the destination.
    pub closed spec fn destination(&self) -> Option<NodeId> {
        self.table.destination
    }

    /// What passes the filters.
    pub closed spec fn filter(&self) -> Filter {
        self.table.filter()
    }

    /// What the filters pass is what stands in the slots.
    pub proof fn lemma_filter(&self)
        requires
            self.wf(),
        ensures
            self.slots().len() == SUBJECT_SLOT_COUNT,
            self.filter().subjects == slot_subjects(self.slots()),
            self.filter().destinations == (match self.destination() {
                Some(id) => Set::empty().insert(id.value() as int),
                None => Set::empty(),
            }),
    {
    }

    /// The filters of the periphery.
    pub open spec fn filters(&self) -> Seq<ExtendedFilter> {
        extended_filters(self.slots(), self.destination())
    }

    /// Returns the state in which nothing is received.
    pub fn new() -> (r: Self)
        ensures
            r.wf(),
            r.filter() == Filter::nothing(),
            r.slots() == Seq::new(7, |i: int| None::<SubjectId>),
            r.destination() is None,
    {
        RxFilterRunner { table: FilterTable::new(SUBJECT_SLOT_COUNT) }
    }

    /// Returns the write of the filter of a slot.
    fn set_subject_filter(slot: usize, value: Option<SubjectId>) -> (r: FilterWrite<ExtendedFilter>)
        ensures
            r == (FilterWrite { index: slot, element: subject_filter(value) }),
    {
        FilterWrite {
            index: slot,
            element: ExtendedFilter {
                filter: make_msg_filter_pattern(value),
                mask: MSG_FILTER_MASK,
                action: Action::StoreInFifo0,
            },
        }
    }

    /// Returns the write of the filter of the destination.
    fn set_service_filter(value: Option<NodeId>) -> (r: FilterWrite<ExtendedFilter>)
        ensures
            r == (FilterWrite { index: 7, element: service_filter(value) }),
    {
        FilterWrite {
            index: SERVICE_FILTER_OFFSET,
            element: ExtendedFilter {
                filter: make_srv_filter_pattern(value),
                mask: SRV_FILTER_MASK,
                action: Action::StoreInFifo1,
            },
        }
    }

    /// Adds a subject in the first free slot, and returns the filter to write.
    fn add_subject(&mut self, subject: SubjectId) -> (r: Result<FilterWrite<ExtendedFilter>, NoFreeSlots>)
        requires
            old(self).wf(),
        ensures
            final(self).wf(),
            r is Err <==> forall|i: int| 0 <= i < 7 ==> (#[trigger] old(self).slots()[i]) is Some,
            match r {
                Ok(write) => {
                    &&& is_turned(old(self).filters(), final(self).filters(), seq![write])
                    &&& final(self).filter() == old(self).filter().updated(FilterUpdate::AddSubject(subject))
                },
                Err(_) => final(self).slots() == old(self).slots(),
            },
            final(self).destination() == old(self).destination(),
    {
        let ghost before = *self;
        let idx: usize = self.table.add_subject(subject)?;
        let write = Self::set_subject_filter(idx, Some(subject));
        proof {
            lemma_single(before.filters(), self.filters(), write);
        }
        Ok(write)
    }

    /// Takes the subjects of a range out, and returns the filters to write.
    fn remove_subject_range(&mut self, range: [SubjectId; 2]) -> (r: Vec<FilterWrite<ExtendedFilter>>)
        requires
            old(self).wf(),
        ensures
            final(self).wf(),
            is_turned(old(self).filters(), final(self).filters(), r@),
            final(self).slots() == cleared(old(self).slots(), range, 7),
            final(self).destination() == old(self).destination(),
            final(self).filter() == old(self).filter().updated(FilterUpdate::RemoveSubjectRange(range)),
    {
        let ghost before = *self;
        let ghost after = extended_filters(cleared(before.slots(), range, 7), before.destination());
        let mut writes: Vec<FilterWrite<ExtendedFilter>> = Vec::new();
        let mut i: usize = 0;
        while i < SUBJECT_SLOT_COUNT
            invariant
                self.wf(),
                before.wf(),
                i <= 7,
                self.slots() =~= cleared(before.slots(), range, i as int),
                self.destination() == before.destination(),
                after == extended_filters(cleared(before.slots(), range, 7), before.destination()),
                forall|k: int|
                    0 <= k < writes@.len() ==> (#[trigger] writes@[k]).index < i && is_right(after, writes@[k]),
                forall|k: int, l: int|
                    0 <= k < l < writes@.len() ==> (#[trigger] writes@[k]).index < (#[trigger] writes@[l]).index,
                forall|j: int|
                    j < i && #[trigger] is_different(before.filters(), after, j) ==> is_touched(writes@, j),
            decreases 7 - i,
        {
            let ghost was = writes@;
            let taken: bool = self.table.clear_slot(i, range);
            assert(taken == is_subject_in(before.slots()[i as int], range));
            assert(self.slots() =~= cleared(before.slots(), range, i + 1));
            if taken {
                writes.push(Self::set_subject_filter(i, None));
                assert(writes@[writes@.len() - 1].index == i);
            }
            proof {
                assert forall|j: int| j < i + 1 && #[trigger] is_different(before.filters(), after, j) implies
                    is_touched(writes@, j) by {
                    if j < i {
                        let k = choose|k: int| 0 <= k < was.len() && (#[trigger] was[k]).index == j;
                        assert(writes@[k] == was[k]);
                    } else if !taken {
                        assert(before.filters()[j] == after[j]);
                    }
                }
            }
            i = i + 1;
        }
        proof {
            assert(self.filters() =~= after);
            assert(before.filters()[7] == after[7]);
            lemma_cleared(before.slots(), range);
            assert(self.filter() =~= before.filter().updated(FilterUpdate::RemoveSubjectRange(range)));
        }
        writes
    }

    /// Takes the destination, and returns the filter to write.
    fn add_destination(&mut self, node: NodeId) -> (r: Result<FilterWrite<ExtendedFilter>, NoFreeSlots>)
        requires
            old(self).wf(),
        ensures
            final(self).wf(),
            final(self).slots() == old(self).slots(),
            r is Err <==> old(self).destination() is Some,
            match r {
                Ok(write) => {
                    &&& is_turned(old(self).filters(), final(self).filters(), seq![write])
                    &&& final(self).filter() == old(self).filter().updated(FilterUpdate::AddDestination(node))
                },
                Err(_) => final(self).destination() == old(self).destination(),
            },
    {
        let ghost before = *self;
        self.table.add_destination(node)?;
        let write = Self::set_service_filter(self.table.destination);
        proof {
            lemma_single(before.filters(), self.filters(), write);
        }
        Ok(write)
    }

    /// Takes the destination out if it is in a range, and returns the filter to write then.
    fn remove_destination_range(&mut self, range: [NodeId; 2]) -> (r: Option<FilterWrite<ExtendedFilter>>)
        requires
            old(self).wf(),
        ensures
            final(self).wf(),
            final(self).slots() == old(self).slots(),
            r is Some <==> is_node_in(old(self).destination(), range),
            is_turned(
                old(self).filters(),
                final(self).filters(),
                match r {
                    Some(write) => seq![write],
                    None => seq![],
                },
            ),
            final(self).filter() == old(self).filter().updated(FilterUpdate::RemoveDestinationRange(range)),
    {
        let ghost before = *self;
        if self.table.remove_destination_range(range) {
            let write = Self::set_service_filter(self.table.destination);
            proof {
                lemma_single(before.filters(), self.filters(), write);
            }
            Some(write)
        } else {
            None
        }
    }

    /// Carries out an update, and returns the filters to write.
    pub fn update(&mut self, update: FilterUpdate) -> (r: Result<Vec<FilterWrite<ExtendedFilter>>, NoFreeSlots>)
        requires
            old(self).wf(),
        ensures
            final(self).wf(),
            r is Err <==> match update {
                FilterUpdate::AddSubject(_) => forall|i: int|
                    0 <= i < 7 ==> (#[trigger] old(self).slots()[i]) is Some,
                FilterUpdate::AddDestination(_) => old(self).destination() is Some,
                _ => false,
            },
            match r {
                Ok(writes) => {
                    &&& is_turned(old(self).filters(), final(self).filters(), writes@)
                    &&& final(self).filter() == old(self).filter().updated(update)
                },
                Err(_) => final(self).slots() == old(self).slots() && final(self).destination()
                    == old(self).destination(),
            },
    {
        let mut writes: Vec<FilterWrite<ExtendedFilter>> = Vec::new();
        match update {
            FilterUpdate::AddSubject(subject) => {
                let write = self.add_subject(subject)?;
                writes.push(write);
                assert(writes@ =~= seq![write]);
            },
            FilterUpdate::RemoveSubjectRange(range) => {
                writes = self.remove_subject_range(range);
            },
            FilterUpdate::AddDestination(node) => {
                let write = self.add_destination(node)?;
                writes.push(write);
                assert(writes@ =~= seq![write]);
            },
            FilterUpdate::RemoveDestinationRange(range) => {
                if let Some(write) = self.remove_destination_range(range) {
                    writes.push(write);
                    assert(writes@ =~= seq![write]);
                } else {
                    assert(writes@ =~= seq![]);
                }
            },
        }
        Ok(writes)
    }
}

/// A filter lets an identifier pass.
pub open spec fn filter_passes(filter: ExtendedFilter, can_id: u32) -> bool {
    can_id & filter.mask == filter.filter & filter.mask
}

/// One of the filters lets an identifier pass.
pub open spec fn passes(filters: Seq<ExtendedFilter>, can_id: u32) -> bool {
    exists|i: int| 0 <= i < filters.len() && filter_passes(#[trigger] filters[i], can_id)
}

/// Which bits the pattern of a message filter has under its mask.
proof fn lemma_masked(v: u32)
    by (bit_vector)
    requires
        v < 0x2000,
    ensures
        (v * 0x100) as u32 & MSG_FILTER_MASK == (v * 0x100) as u32,
        0x1d60_007fu32 & MSG_FILTER_MASK == 0,
{
}

/// The filters let the messages of the subjects and the service transfers to the destination
/// pass. A slot that is not in use lets the messages of subject zero pass, and nothing else.
pub proof fn law_filters_are_complete(slots: Seq<Option<SubjectId>>, node: Option<NodeId>, can_id: u32)
    requires
        slots.len() == SUBJECT_SLOT_COUNT,
        forall|i: int|
            0 <= i < slots.len() && (#[trigger] slots[i]) is Some ==> SubjectId::is_valid(slots[i]->0.value() as int),
        node matches Some(id) ==> NodeId::is_valid(id.value() as int),
    ensures
        is_message_id(can_id) ==> (passes(extended_filters(slots, node), can_id) <==> slot_subjects(
            slots,
        ).contains(message_fields(can_id).subject.value() as int) || (message_fields(can_id).subject.value() == 0
            && slots.contains(None))),
        is_service_id(can_id) ==> (passes(extended_filters(slots, node), can_id) <==> node == Some(
            service_fields(can_id).destination,
        )),
{
    broadcast use {SubjectId::lemma_value, SubjectId::lemma_of};
    let filters = extended_filters(slots, node);
    let subject = message_fields(can_id).subject;
    law_free_srv_filter(can_id);
    if let Some(id) = node {
        law_srv_filter(can_id, id);
    }
    law_msg_filter(can_id, SubjectId::of(0));
    assert forall|i: int| 0 <= i < 7 implies (filter_passes(filters[i], can_id) <==> is_message_id(can_id) && (
    (#[trigger] slots[i]) == Some(subject) || (slots[i] is None && subject.value() == 0))) by {
        lemma_masked(0);
        if let Some(id) = slots[i] {
            lemma_masked(id.value() as u32);
            law_msg_filter(can_id, id);
        } else {
            assert(SubjectId::of(subject.value()) == subject);
        }
    }
    if is_message_id(can_id) {
        assert(!filter_passes(filters[7], can_id));
        if passes(filters, can_id) {
            let i = choose|i: int| 0 <= i < filters.len() && filter_passes(#[trigger] filters[i], can_id);
            if slots[i] == Some(subject) {
                assert(holds(slots, i, subject.value() as int));
            }
        }
        if slot_subjects(slots).contains(subject.value() as int) {
            let i = choose|i: int| #[trigger] holds(slots, i, subject.value() as int);
            assert(SubjectId::of(slots[i]->0.value()) == slots[i]->0);
            assert(SubjectId::of(subject.value()) == subject);
            assert(slots[i] == Some(subject));
            assert(filter_passes(filters[i], can_id));
        }
        if slots.contains(None) && subject.value() == 0 {
            let i = choose|i: int| 0 <= i < slots.len() && slots[i] is None;
            assert(slots[i] is None);
            assert(filter_passes(filters[i], can_id));
        }
    }
    if is_service_id(can_id) {
        if passes(filters, can_id) {
            let i = choose|i: int| 0 <= i < filters.len() && filter_passes(#[trigger] filters[i], can_id);
            if i < 7 {
                assert(slots[i] == slots[i]);
            }
        }
        if node == Some(service_fields(can_id).destination) {
            assert(filter_passes(filters[7], can_id));
        }
    }
}

/// A frame as the periphery receives it.
pub struct FdEnvelope {
    /// The identifier.
    pub id: FrameId,
    /// The frame has the FD format.
    pub fd: bool,
    /// Number of data bytes.
    pub length: u8,
    /// The data bytes, and maybe more.
    pub data: Vec<u8>,
    /// When the frame was received.
    pub ts: Instant,
}

impl FdEnvelope {
    /// The length is one of a frame, and the bytes are there.
    pub open spec fn wf(&self) -> bool {
        DataLength::is_valid(self.length as int) && self.length <= self.data@.len()
    }

    /// The header that the identifier encodes.
    pub open spec fn header(&self) -> Option<Header> {
        match self.id {
            FrameId::Extended(id) => id_header(id),
            FrameId::Standard(_) => None,
        }
    }
}

/// Returns the frame of an envelope, unless its identifier does not encode a header.
pub fn convert_raw_envelope(envelope: &FdEnvelope) -> (r: Option<Frame>)
    requires
        envelope.wf(),
    ensures
        r is Some <==> envelope.header() is Some,
        r matches Some(frame) ==> {
            &&& Some(frame.header) == envelope.header()
            &&& frame.data@ == envelope.data@.subrange(0, envelope.length as int)
            &&& frame.data.valid()
            &&& frame.timestamp == envelope.ts
            &&& !frame.loop_back
        },
{
    let can_id: u32 = match envelope.id {
        FrameId::Extended(id) => id,
        FrameId::Standard(_) => {
            return None;
        },
    };
    let header: Header = convert_raw_header(can_id)?;
    let length: usize = envelope.length as usize;
    match Data::new(vstd::slice::slice_subrange(envelope.data.as_slice(), 0, length)) {
        Ok(data) => Some(Frame { header, data, timestamp: envelope.ts, loop_back: false }),
        Err(_) => None,
    }
}

/// Returns the frame of an envelope, unless it is not one that the format allows.
pub fn fetch_frame(envelope: &FdEnvelope, format: FrameFormat) -> (r: Option<Frame>)
    requires
        envelope.wf(),
    ensures
        r is Some <==> envelope.header() is Some && !(envelope.fd && format == FrameFormat::Classic),
        r matches Some(frame) ==> {
            &&& Some(frame.header) == envelope.header()
            &&& frame.data@ == envelope.data@.subrange(0, envelope.length as int)
            &&& frame.data.valid()
            &&& frame.timestamp == envelope.ts
            &&& !frame.loop_back
        },
{
    if envelope.fd && !format.fd() {
        return None;
    }
    convert_raw_envelope(envelope)
}

/// Calls `embedded_can::ExtendedId::new` and reads the identifier: a number of at most 29 bits is
/// kept, another one is refused.
#[verifier::external_body]
fn extended_id(raw: u32) -> (r: Option<u32>)
    ensures
        r == (if raw <= 0x1fff_ffff { Some(raw) } else { None }),
{
    ExtendedId::new(raw).map(|id| id.as_raw())
}

/// Returns the priority of a frame with an extended identifier.
pub fn raw_frame_priority(frame: &FdFrame) -> (r: Option<Priority>)
    ensures
        r == id_priority(frame.id),
{
    match frame.id {
        FrameId::Extended(id) => Some(decode_can_id_priority(id)),
        FrameId::Standard(_) => None,
    }
}

/// The priority of an extended identifier.
pub open spec fn id_priority(id: FrameId) -> Option<Priority> {
    match id {
        FrameId::Extended(id) => Some(Priority::of_code((id / 0x400_0000) as int)),
        FrameId::Standard(_) => None,
    }
}

/// Returns a frame as the periphery sends it.
pub fn make_raw_frame(frame: &Frame, format: FrameFormat) -> (r: Result<FdFrame, InvalidFrameHeader>)
    ensures
        r is Ok <==> is_sendable(&frame.header),
        r matches Ok(raw) ==> raw == raw_frame(frame, format),
{
    let can_id: u32 = match make_can_id(&frame.header) {
        Ok(can_id) => can_id,
        Err(error) => {
            return Err(error);
        },
    };
    let id: u32 = extended_id(can_id).unwrap();
    Ok(
        FdFrame {
            id: FrameId::Extended(id),
            fd: format.fd(),
            bit_rate_switch: format.fd() && format.bit_rate_switch(),
            data: frame.data,
        },
    )
}

/// A frame as the periphery sends it.
pub open spec fn raw_frame(frame: &Frame, format: FrameFormat) -> FdFrame {
    FdFrame {
        id: FrameId::Extended(header_id(&frame.header) as u32),
        fd: format != FrameFormat::Classic,
        bit_rate_switch: format == FrameFormat::FdBrs,
        data: frame.data,
    }
}

/// What is sent is what is received: an envelope with the identifier and the data of a sent frame
/// has the header of that frame, and the priority of the raw frame is the one of the header.
pub proof fn law_header_is_kept(frame: &Frame, format: FrameFormat, envelope: &FdEnvelope)
    requires
        is_sendable(&frame.header),
        has_valid_ids(&frame.header),
        envelope.id == raw_frame(frame, format).id,
    ensures
        envelope.header() == Some(frame.header),
        id_priority(raw_frame(frame, format).id) == Some(frame.header.priority),
{
    law_header_round_trip(frame.header);
}

/// The messages go to the first receive queue, one subject to a filter, and the service transfers to
/// the second one.
pub proof fn law_queues_of_filters(slots: Seq<Option<SubjectId>>, node: Option<NodeId>, i: int)
    requires
        slots.len() == SUBJECT_SLOT_COUNT,
        0 <= i < 7,
    ensures
        extended_filters(slots, node).len() == 8,
        extended_filters(slots, node)[i].filter == msg_pattern(slots[i]),
        extended_filters(slots, node)[i].mask == MSG_FILTER_MASK,
        extended_filters(slots, node)[i].action == Action::StoreInFifo0,
        extended_filters(slots, node)[7].filter == srv_pattern(node),
        extended_filters(slots, node)[7].mask == SRV_FILTER_MASK,
        extended_filters(slots, node)[7].action == Action::StoreInFifo1,
{
}

/// Only extended identifiers mean something, and they mean what the bits say.
pub proof fn law_envelope_header(envelope: &FdEnvelope)
    ensures
        match envelope.id {
            FrameId::Extended(id) => envelope.header() == id_header(id),
            FrameId::Standard(_) => envelope.header() is None,
        },
{
}

} // verus!
