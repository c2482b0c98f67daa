//! Receive buffer that keeps the last message.

use core::marker::PhantomData;
use core::task::Waker;
use vstd::prelude::*;
use vstd::slice::slice_subrange;

use crate::buffer::rx_msg::Buffer;
use crate::buffer::DynamicRxBuffer;
use crate::buffer::gather::{clip, store, write_at};
use crate::buffer::sessions::{
    contents, lemma_rearranged, unused_indexes, SessionTable, Sessions,
};
use crate::encoding::{BufferType, StaticBuffer};
use crate::endpoint::TransferMeta;
use crate::format::{tail_fields, TailByte, SOT_TOGGLE_BIT};
use crate::frame::{Data, DataSpecifier, Frame, Mtu};
use crate::ids::{NodeId, SubjectId};
use crate::priority::{Priority, PrioritySet};
use crate::task::Poll;
use crate::time::{Duration, Instant};
use crate::utils::multi_class_queue::{
    is_at, is_disjoint, is_queued, lemma_disjoint_insert, lemma_disjoint_remove, Lists,
};
use crate::utils::stacked_array::DuplexArray;
use crate::utils::priority_trigger::{PriorityTrigger, Waiting};

pub use crate::buffer::sessions::MAX_SESSION_COUNT;

verus! {

/// The transfer that waits in the slot.
pub struct Latest {
    /// What is known of the transfer.
    pub meta: TransferMeta,
    /// The payload, as far as it fits into a buffer.
    pub bytes: Seq<u8>,
}

/// The state of the buffer.
#[verifier::ext_equal]
pub struct WatchState {
    /// Frames of other data are ignored.
    pub data_specifier: DataSpecifier,
    /// Timeout of the sessions.
    pub timeout: Duration,
    /// Size of the payload buffers.
    pub capacity: nat,
    /// The sessions.
    pub table: SessionTable,
    /// The transfer that has not been fetched.
    pub slot: Option<Latest>,
    /// The time of the last accepted transfer.
    pub min_timestamp: Instant,
    /// The task that waits for a transfer.
    pub waiting: Waiting,
}

impl WatchState {
    /// Nothing has been received yet.
    pub open spec fn fresh(data_specifier: DataSpecifier, timeout: Duration, capacity: nat, sessions: int) -> WatchState {
        WatchState {
            data_specifier,
            timeout,
            capacity,
            table: SessionTable::fresh(sessions),
            slot: None,
            min_timestamp: Instant { ticks: 0 },
            waiting: Waiting::idle(),
        }
    }

    /// A transfer has been received. It is accepted unless it is older than an accepted one.
    pub open spec fn offered(self, latest: Latest) -> WatchState {
        if self.min_timestamp.ticks <= latest.meta.timestamp.ticks {
            WatchState {
                slot: Some(latest),
                min_timestamp: latest.meta.timestamp,
                waiting: self.waiting.woken(Set::empty().insert(latest.meta.priority)),
                ..self
            }
        } else {
            self
        }
    }

    /// A frame of a known source has been received.
    pub open spec fn received_regular(
        self,
        source: NodeId,
        priority: Priority,
        data: Seq<u8>,
        timestamp: Instant,
        loop_back: bool,
    ) -> WatchState {
        let (table, assembled) = self.table.received(
            source,
            self.timeout,
            self.capacity,
            priority,
            data,
            timestamp,
        );
        let next = WatchState { table, ..self };
        match assembled {
            None => next,
            Some(a) => next.offered(
                Latest {
                    meta: TransferMeta {
                        priority: a.transfer.priority,
                        address: Some(source),
                        transfer_id: a.transfer.id,
                        timestamp: a.transfer.timestamp,
                        loop_back,
                    },
                    bytes: a.bytes,
                },
            ),
        }
    }

    /// An anonymous frame has been received. Only single-frame transfers can be anonymous.
    pub open spec fn received_anonymous(
        self,
        priority: Priority,
        data: Seq<u8>,
        timestamp: Instant,
        loop_back: bool,
    ) -> WatchState {
        if data.len() == 0 {
            self
        } else {
            let tail = tail_fields(data.last());
            if tail.sot && tail.eot && tail.toggle == SOT_TOGGLE_BIT {
                self.offered(
                    Latest {
                        meta: TransferMeta {
                            priority,
                            address: None,
                            transfer_id: tail.transfer_id,
                            timestamp,
                            loop_back,
                        },
                        bytes: clip(data.drop_last(), self.capacity as int),
                    },
                )
            } else {
                self
            }
        }
    }

    /// A frame has been received.
    pub open spec fn received(self, frame: Frame) -> WatchState {
        let header = frame.header;
        if header.data_spec != self.data_specifier {
            self
        } else {
            match header.source {
                Some(source) => self.received_regular(
                    source,
                    header.priority,
                    frame.data@,
                    frame.timestamp,
                    frame.loop_back,
                ),
                None => self.received_anonymous(
                    header.priority,
                    frame.data@,
                    frame.timestamp,
                    frame.loop_back,
                ),
            }
        }
    }

    /// The priority of the transfer in the slot.
    pub open spec fn ready(self) -> Set<Priority> {
        match self.slot {
            Some(latest) => Set::empty().insert(latest.meta.priority),
            None => Set::empty(),
        }
    }
}

/// The times of the accepted transfers never go back, and an accepted transfer replaces the one
/// in the slot.
pub proof fn law_newest_wins(state: WatchState, frame: Frame)
    ensures
        state.min_timestamp.ticks <= state.received(frame).min_timestamp.ticks,
        state.received(frame).slot != state.slot ==> {
            &&& state.received(frame).slot is Some
            &&& (state.received(frame).slot->0).meta.timestamp == state.received(frame).min_timestamp
        },
{
}

#[derive(Debug, Clone, Copy)]
struct TransferEntry {
    meta: TransferMeta,
    buffer_length: usize,
}

/// Who holds which buffer: the transfer slot, the transfer that is read, the sessions, and those
/// that no session has taken yet.
spec fn holders(transfer: u8, readout: u8, sessions: Seq<u8>, base: int, session_count: int) -> Lists {
    seq![seq![transfer], seq![readout], sessions, unused_indexes(base, session_count)]
}

/// Receive buffer that keeps the last message.
///
/// There are `SN` slots for sessions and one for a transfer. One more buffer holds the transfer
/// that was fetched last.
pub struct Inner<T: BufferType, const SN: usize> {
    data_specifier: DataSpecifier,
    buffers: Vec<StaticBuffer>,
    sessions: Sessions<SN>,
    transfer: Option<TransferEntry>,
    transfer_min_timestamp: Instant,
    transfer_buffer_idx: u8,
    readout_buffer_idx: u8,
    timeout: Duration,
    priority_trigger: PriorityTrigger,
    _phantom: PhantomData<T>,
}

impl<T: BufferType, const SN: usize> View for Inner<T, SN> {
    type V = WatchState;

    closed spec fn view(&self) -> WatchState {
        WatchState {
            data_specifier: self.data_specifier,
            timeout: self.timeout,
            capacity: T::capacity(),
            table: self.sessions.table(contents(self.buffers@)),
            slot: match self.transfer {
                Some(entry) => Some(
                    Latest {
                        meta: entry.meta,
                        bytes: self.buffers@[self.transfer_buffer_idx as int]@.take(
                            entry.buffer_length as int,
                        ),
                    },
                ),
                None => None,
            },
            min_timestamp: self.transfer_min_timestamp,
            waiting: self.priority_trigger@,
        }
    }
}

/// A session and the transfer slot exchange their buffers.
proof fn lemma_exchanged(lists: Lists, count: int, pos: int)
    requires
        lists.len() == 4,
        is_disjoint(lists, count),
        lists[0].len() == 1,
        0 <= pos < lists[2].len(),
    ensures
        is_disjoint(
            lists.update(0, seq![lists[2][pos]]).update(2, lists[2].update(pos, lists[0][0])),
            count,
        ),
{
    let x = lists[0][0];
    let y = lists[2][pos];
    assert(is_at(lists, 0, 0, x));
    assert(lists[0][0] < count);
    assert(lists[2][pos] < count);
    lemma_disjoint_remove(lists, count, x, 0, 0);
    let a = lists.update(0, lists[0].remove(0));
    assert(is_at(a, 2, pos, y));
    lemma_disjoint_remove(a, count, y, 2, pos);
    let b = a.update(2, a[2].remove(pos));
    assert(!is_queued(b, x));
    lemma_disjoint_insert(b, count, x, 2, pos);
    let c = b.update(2, b[2].insert(pos, x));
    assert(b[2].insert(pos, x) =~= lists[2].update(pos, x));
    assert(!is_queued(c, y));
    lemma_disjoint_insert(c, count, y, 0, 0);
    assert(c[0].insert(0, y) =~= seq![y]);
    assert(c.update(0, c[0].insert(0, y)) =~= lists.update(0, seq![y]).update(2, lists[2].update(pos, x)));
}

impl<T: BufferType, const SN: usize> Inner<T, SN> {
    spec fn holders(&self) -> Lists {
        holders(
            self.transfer_buffer_idx,
            self.readout_buffer_idx,
            self.sessions.indexes(),
            self.sessions.base(),
            SN as int,
        )
    }

    /// Each buffer has at most one holder.
    pub closed spec fn wf(&self) -> bool {
        &&& SN <= MAX_SESSION_COUNT
        &&& self.buffers@.len() == SN + 2
        &&& forall|i: int| 0 <= i < self.buffers@.len() ==> (#[trigger] self.buffers@[i])@.len() == T::capacity()
        &&& self.sessions.wf()
        &&& self.transfer matches Some(entry) ==> entry.buffer_length <= T::capacity()
        &&& is_disjoint(self.holders(), SN + 2)
    }

    /// The sessions have buffers of their own, and the two other buffers exist.
    proof fn lemma_placed(&self)
        requires
            self.wf(),
        ensures
            self.sessions.is_placed(SN + 2),
            self.transfer_buffer_idx < SN + 2,
            self.readout_buffer_idx < SN + 2,
            self.transfer_buffer_idx != self.readout_buffer_idx,
    {
        self.sessions.lemma_wf();
        let lists = self.holders();
        let ids = self.sessions.indexes();
        let base = self.sessions.base();
        assert(lists[0][0] < SN + 2 && lists[1][0] < SN + 2 && lists[0][0] != lists[1][0]);
        assert forall|i: int, j: int| 0 <= i < j < ids.len() implies ids[i] != ids[j] by {
            assert(lists[2][i] != lists[2][j]);
        }
        assert forall|i: int| 0 <= i < ids.len() implies (#[trigger] ids[i]) < SN + 2 && (ids[i] < base
            || ids[i] >= SN) by {
            assert(lists[2][i] < SN + 2);
            if base <= ids[i] < SN {
                assert(lists[3][ids[i] - base] == lists[2][i]);
            }
        }
    }

    /// The buffer of a session is in the list of the sessions, and is not that of the slot.
    proof fn lemma_session_index(&self, source: NodeId)
        requires
            self.sessions.wf(),
            self.sessions.has(source),
            is_disjoint(self.holders(), SN + 2),
        ensures
            ({
                let pos = self.sessions.order().index_of(source);
                &&& 0 <= pos < self.sessions.indexes().len()
                &&& self.sessions.indexes()[pos] == self.sessions.index(source)
                &&& self.sessions.index(source) < SN + 2
                &&& self.sessions.index(source) != self.transfer_buffer_idx
                &&& self.sessions.index(source) != self.readout_buffer_idx
            }),
    {
        self.sessions.lemma_wf();
        let pos = self.sessions.order().index_of(source);
        let lists = self.holders();
        assert(lists[2][pos] == self.sessions.index(source));
        assert(lists[2][pos] < SN + 2);
        assert(lists[2][pos] != lists[0][0]);
        assert(lists[2][pos] != lists[1][0]);
    }

    /// Nothing has been received yet.
    pub fn new(data_specifier: DataSpecifier, timeout: Duration, buffers: Vec<StaticBuffer>) -> (r: Self)
        requires
            SN <= MAX_SESSION_COUNT,
            buffers@.len() == SN + 2,
            forall|i: int| 0 <= i < buffers@.len() ==> (#[trigger] buffers@[i])@.len() == T::capacity(),
        ensures
            r.wf(),
            r@ == WatchState::fresh(data_specifier, timeout, T::capacity(), SN as int),
    {
        let r = Self {
            data_specifier,
            buffers,
            sessions: Sessions::new(),
            transfer: None,
            transfer_min_timestamp: Instant::min(),
            transfer_buffer_idx: SN as u8,
            readout_buffer_idx: (SN + 1) as u8,
            timeout,
            priority_trigger: PriorityTrigger::new(),
            _phantom: PhantomData,
        };
        proof {
            assert(r.sessions.indexes() =~= Seq::<u8>::empty());
        }
        r
    }

    fn push_regular_frame(
        &mut self,
        source: NodeId,
        priority: Priority,
        data: &Data,
        timestamp: Instant,
        loop_back: bool,
        mtu: Mtu,
    )
        requires
            old(self).wf(),
        ensures
            final(self).wf(),
            final(self)@ == old(self)@.received_regular(source, priority, data@, timestamp, loop_back),
    {
        let ghost before = *self;
        let ghost count = SN + 2;
        proof {
            self.lemma_placed();
            assert(self.buffers@[0]@.len() == T::capacity());
        }
        let transfer = self.sessions.receive(
            &mut self.buffers,
            self.timeout,
            source,
            priority,
            data.as_slice(),
            timestamp,
            mtu,
        );
        let ghost s1 = *self;
        proof {
            before.sessions.lemma_wf();
            self.sessions.lemma_wf();
            let lists = before.holders();
            lemma_rearranged(
                lists,
                2,
                3,
                before.sessions.base(),
                self.sessions.indexes(),
                self.sessions.base(),
                SN as int,
                count,
            );
            assert(self.holders() =~= lists.update(3, unused_indexes(self.sessions.base(), SN as int)).update(
                2,
                self.sessions.indexes(),
            ));
            if self.sessions.has(source) {
                self.lemma_session_index(source);
            }
            assert(self.buffers@[self.transfer_buffer_idx as int] == before.buffers@[self.transfer_buffer_idx as int]);
            assert(self@ == (WatchState { table: self@.table, ..before@ }));
        }
        if let Some(transfer) = transfer {
            if self.transfer_min_timestamp.ticks <= transfer.timestamp.ticks {
                self.transfer_min_timestamp = transfer.timestamp;

                let meta = TransferMeta {
                    priority: transfer.priority,
                    address: Some(source),
                    transfer_id: transfer.id,
                    timestamp: transfer.timestamp,
                    loop_back,
                };

                let previous: u8 = self.transfer_buffer_idx;
                let idx: u8 = self.sessions.replace_buffer(source, previous);
                self.transfer_buffer_idx = idx;
                let capacity: usize = self.buffers[idx as usize].as_ref().len();
                let buffer_length: usize = if (transfer.length as usize) < capacity {
                    transfer.length as usize
                } else {
                    capacity
                };
                self.transfer = Some(TransferEntry { meta, buffer_length });
                self.priority_trigger.wake(PrioritySet::new_eq(priority));
                proof {
                    let pos = s1.sessions.order().index_of(source);
                    let lists = s1.holders();
                    lemma_exchanged(lists, count, pos);
                    assert(self.holders() =~= lists.update(0, seq![lists[2][pos]]).update(
                        2,
                        lists[2].update(pos, lists[0][0]),
                    ));
                    assert(self.buffers@[idx as int]@.take(buffer_length as int) =~= clip(
                        self.buffers@[idx as int]@,
                        transfer.length as int,
                    ));
                }
            }
        }
    }

    fn push_anonymous_frame(
        &mut self,
        priority: Priority,
        data: &Data,
        timestamp: Instant,
        loop_back: bool,
    )
        requires
            old(self).wf(),
        ensures
            final(self).wf(),
            final(self)@ == old(self)@.received_anonymous(priority, data@, timestamp, loop_back),
    {
        let ghost before = *self;
        let ghost bytes0 = contents(self.buffers@);
        let frame = data.as_slice();
        let n: usize = frame.len();
        if n == 0 {
            return;
        }
        let tail = TailByte::from_u8(frame[n - 1]);
        let payload = slice_subrange(frame, 0, n - 1);
        assert(payload@ =~= data@.drop_last());
        let valid_frame: bool = tail.sot() && tail.eot() && tail.toggle() == SOT_TOGGLE_BIT;
        if !valid_frame {
            return;
        }
        if self.transfer_min_timestamp.ticks > timestamp.ticks {
            return;
        }
        self.transfer_min_timestamp = timestamp;
        let meta = TransferMeta {
            priority,
            address: None,
            transfer_id: tail.transfer_id(),
            timestamp,
            loop_back,
        };
        proof {
            before.lemma_placed();
        }
        let idx: usize = self.transfer_buffer_idx as usize;
        // A longer message of a compatible type may exceed the buffer.
        write_at(self.buffers[idx].as_mut(), 0, payload);
        let capacity: usize = self.buffers[idx].as_ref().len();
        let buffer_length: usize = if payload.len() < capacity { payload.len() } else { capacity };
        self.transfer = Some(TransferEntry { meta, buffer_length });
        self.priority_trigger.wake(PrioritySet::new_eq(priority));
        proof {
            let bytes1 = contents(self.buffers@);
            assert(bytes1 =~= bytes0.update(idx as int, store(bytes0[idx as int], 0, payload@)));
            assert forall|k: NodeId| #[trigger] self.sessions.has(k) implies bytes0[self.sessions.index(k) as int]
                == bytes1[self.sessions.index(k) as int] by {
                before.lemma_session_index(k);
            }
            self.sessions.lemma_table_depends(bytes0, bytes1);
            assert(self.buffers@[idx as int]@.take(buffer_length as int) =~= clip(
                payload@,
                T::capacity() as int,
            ));
        }
    }

    /// Receives a frame.
    pub fn push_frame(&mut self, frame: &Frame, mtu: Mtu)
        requires
            old(self).wf(),
        ensures
            final(self).wf(),
            final(self)@ == old(self)@.received(*frame),
    {
        if frame.header.data_spec != self.data_specifier {
            return;
        }
        match frame.header.source {
            Some(node) => self.push_regular_frame(
                node,
                frame.header.priority,
                &frame.data,
                frame.timestamp,
                frame.loop_back,
                mtu,
            ),
            None => self.push_anonymous_frame(
                frame.header.priority,
                &frame.data,
                frame.timestamp,
                frame.loop_back,
            ),
        }
    }

    /// Returns the priority of the transfer in the slot.
    pub fn pop_readiness(&self) -> (r: PrioritySet)
        requires
            self.wf(),
        ensures
            r@ == self@.ready(),
    {
        match self.transfer {
            Some(transfer) => PrioritySet::new_eq(transfer.meta.priority),
            None => PrioritySet::none(),
        }
    }

    /// Returns the priorities of the mask that have a transfer, or lets the task wait for one.
    pub fn poll_pop_readiness(&mut self, waker: &Waker, priority_mask: PrioritySet) -> (r: Poll<PrioritySet>)
        requires
            old(self).wf(),
        ensures
            final(self).wf(),
            ({
                let ready = old(self)@.ready().intersect(priority_mask@);
                match r {
                    Poll::Ready(set) => {
                        set@ == ready && ready != Set::<Priority>::empty() && final(self)@ == old(self)@
                    },
                    Poll::Pending => {
                        &&& ready == Set::<Priority>::empty()
                        &&& final(self)@ == (WatchState {
                            waiting: Waiting::registered(priority_mask@),
                            ..old(self)@
                        })
                    },
                }
            }),
    {
        let priorities = self.pop_readiness().intersect(priority_mask);
        if !priorities.is_empty() {
            Poll::Ready(priorities)
        } else {
            self.priority_trigger.register(waker, priority_mask);
            Poll::Pending
        }
    }

    /// Fetches the transfer in the slot, if its priority is in the mask.
    ///
    /// The payload stays available until the next transfer is fetched.
    pub fn try_pop(&mut self, priority_mask: PrioritySet) -> (r: Option<(TransferMeta, &[u8])>)
        requires
            old(self).wf(),
        ensures
            final(self).wf(),
            match r {
                Some((meta, bytes)) => {
                    &&& old(self)@.slot == Some(Latest { meta, bytes: bytes@ })
                    &&& priority_mask@.contains(meta.priority)
                    &&& final(self)@ == (WatchState { slot: None, ..old(self)@ })
                },
                None => {
                    &&& old(self)@.slot matches Some(latest) ==> !priority_mask@.contains(latest.meta.priority)
                    &&& final(self)@ == old(self)@
                },
            },
    {
        let ghost before = *self;
        let transfer = match self.transfer {
            Some(transfer) => {
                if !priority_mask.contains(transfer.meta.priority) {
                    return None;
                }
                transfer
            },
            None => {
                return None;
            },
        };
        self.transfer = None;
        let idx: u8 = self.transfer_buffer_idx;
        self.transfer_buffer_idx = self.readout_buffer_idx;
        self.readout_buffer_idx = idx;
        proof {
            before.lemma_placed();
            let lists = before.holders();
            let after = self.holders();
            assert forall|c1: int, i1: int, c2: int, i2: int|
                0 <= c1 < after.len() && 0 <= i1 < after[c1].len() && 0 <= c2 < after.len() && 0 <= i2
                    < after[c2].len() && #[trigger] after[c1][i1] == #[trigger] after[c2][i2] implies c1
                == c2 && i1 == i2 by {
                let d1 = if c1 == 0 { 1 } else if c1 == 1 { 0 } else { c1 };
                let d2 = if c2 == 0 { 1 } else if c2 == 1 { 0 } else { c2 };
                assert(lists[d1][i1] == after[c1][i1]);
                assert(lists[d2][i2] == after[c2][i2]);
            }
            assert forall|c: int, i: int| 0 <= c < after.len() && 0 <= i < after[c].len() implies (
            #[trigger] after[c][i]) < SN + 2 by {
                let d = if c == 0 { 1 } else if c == 1 { 0 } else { c };
                assert(lists[d][i] == after[c][i]);
            }
        }
        let buffer = self.buffers[self.readout_buffer_idx as usize].as_ref();
        let valid_buffer = slice_subrange(buffer, 0, transfer.buffer_length);
        assert(valid_buffer@ =~= before.buffers@[idx as int]@.take(transfer.buffer_length as int));
        Some((transfer.meta, valid_buffer))
    }
}

impl<T: BufferType, const SN: usize> DynamicRxBuffer for Inner<T, SN> {
    type State = WatchState;

    open spec fn wf(&self) -> bool {
        self.wf()
    }

    open spec fn state(&self) -> WatchState {
        self@
    }

    open spec fn after_frame(state: WatchState, frame: Frame) -> WatchState {
        state.received(frame)
    }

    open spec fn after_wait(state: WatchState, priorities: Set<Priority>) -> WatchState {
        WatchState { waiting: Waiting::registered(priorities), ..state }
    }

    open spec fn ready(state: WatchState) -> Set<Priority> {
        state.ready()
    }

    open spec fn count(state: WatchState) -> nat {
        if state.slot is Some {
            1
        } else {
            0
        }
    }

    open spec fn is_fetch(
        before: WatchState,
        priorities: Set<Priority>,
        transfer: Option<(TransferMeta, Seq<u8>)>,
        after: WatchState,
    ) -> bool {
        match transfer {
            Some((meta, bytes)) => {
                &&& before.slot == Some(Latest { meta, bytes })
                &&& priorities.contains(meta.priority)
                &&& after == (WatchState { slot: None, ..before })
            },
            None => {
                &&& before.slot matches Some(latest) ==> !priorities.contains(latest.meta.priority)
                &&& after == before
            },
        }
    }

    proof fn lemma_count(
        before: WatchState,
        priorities: Set<Priority>,
        transfer: Option<(TransferMeta, Seq<u8>)>,
        after: WatchState,
    ) {
    }

    fn push_frame(&mut self, frame: &Frame, mtu: Mtu) {
        self.push_frame(frame, mtu)
    }

    fn pop_readiness(&self) -> (r: PrioritySet) {
        self.pop_readiness()
    }

    fn poll_pop_readiness(&mut self, waker: &Waker, priority_mask: PrioritySet) -> (r: Poll<PrioritySet>) {
        self.poll_pop_readiness(waker, priority_mask)
    }

    fn try_pop(&mut self, priority_mask: PrioritySet) -> (r: Option<(TransferMeta, &[u8])>) {
        proof {
            let ready = self@.ready().intersect(priority_mask@);
            if let Some(latest) = self@.slot {
                if priority_mask@.contains(latest.meta.priority) {
                    assert(ready.contains(latest.meta.priority));
                } else {
                    assert(ready =~= Set::<Priority>::empty());
                }
            } else {
                assert(ready =~= Set::<Priority>::empty());
            }
        }
        self.try_pop(priority_mask)
    }
}

/// Buffer for the last message of a subject.
///
/// The buffer has `SN` (at most 128) slots for sessions and one slot for a transfer.
///
/// A session slot follows the transfers of one source. It is taken by the first frame of a
/// transfer of an unknown source. When the timeout has elapsed since the last first frame, the
/// slot may be given to another source. Anonymous transfers need no session.
///
/// A transfer is accepted if it is not older than any accepted one, and replaces the transfer in
/// the slot. So a transfer that took long to receive does not replace a newer one.
///
/// There are `SN + 2` payload buffers, one more than needed, so that a fetched payload need not
/// be copied.
pub struct Watch<T: BufferType, const SN: usize> {
    buffers: DuplexArray<StaticBuffer, SN, 2>,
    _phantom: PhantomData<T>,
}

impl<T: BufferType, const SN: usize> Watch<T, SN> {
    /// There is a payload buffer for each purpose.
    pub closed spec fn wf(&self) -> bool {
        &&& SN <= MAX_SESSION_COUNT
        &&& self.buffers.wf()
        &&& forall|i: int| 0 <= i < self.buffers@.len() ==> (#[trigger] self.buffers@[i])@.len() == T::capacity()
    }

    /// Allocates the payload buffers.
    pub fn new() -> (r: Self)
        requires
            SN <= MAX_SESSION_COUNT,
        ensures
            r.wf(),
    {
        let make = |_i: usize| -> (buffer: StaticBuffer)
            ensures
                buffer@.len() == T::capacity(),
            { T::new_buffer() };
        let buffers: DuplexArray<StaticBuffer, SN, 2> = DuplexArray::from_fn(make);
        proof {
            assert forall|i: int| 0 <= i < buffers@.len() implies (#[trigger] buffers@[i])@.len() == T::capacity() by {
                let k = i as usize;
                assert(call_ensures(make, (k,), buffers@[k as int]));
            }
        }
        Self { buffers, _phantom: PhantomData }
    }
}

impl<T: BufferType, const SN: usize> Buffer<T> for Watch<T, SN> {
    type Inner = Inner<T, SN>;

    open spec fn wf(&self) -> bool {
        self.wf()
    }

    open spec fn fresh(subject: SubjectId, timeout: Duration) -> WatchState {
        WatchState::fresh(DataSpecifier::Message(subject), timeout, T::capacity(), SN as int)
    }

    fn init(self, subject: SubjectId, timeout: Duration) -> (r: Inner<T, SN>) {
        Inner::new(DataSpecifier::Message(subject), timeout, self.buffers.into_vec())
    }
}

} // verus!
