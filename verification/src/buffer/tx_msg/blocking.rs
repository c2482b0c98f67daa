//! Message buffer that holds a transfer until it has been sent.

use core::marker::PhantomData;
use core::task::Waker;
use embassy_sync::waitqueue::WakerRegistration;
use vstd::prelude::*;

use crate::buffer::tx_msg::Buffer;
use crate::buffer::scatter::Scatter;
use crate::buffer::tx_transfer::TxTransfer;
use crate::buffer::{BufferError, DynamicTxBuffer};
use crate::encoding::{BufferType, StaticBuffer};
use crate::endpoint::TransferMeta;
use crate::format::{law_tail_round_trip, tail_byte, tail_fields, TransferCrc, SOT_TOGGLE_BIT};
use crate::frame::{DataSpecifier, Frame, Header, Mtu};
use crate::ids::{SubjectId, TransferId};
use crate::priority::{Priority, PrioritySet};
use crate::task::{is_waiting, new_registration, register_waker, wake_registered, Poll};
use crate::time::Instant;

verus! {

/// The state of the buffer.
#[verifier::ext_equal]
pub struct BlockingState {
    /// The subject of the messages.
    pub subject: SubjectId,
    /// The priority of the messages.
    pub priority: Priority,
    /// The transfer that is being sent.
    pub pending: Option<TxTransfer>,
    /// A payload may be in the buffer.
    pub scratchpad_provided: bool,
    /// The contents of the buffer.
    pub buffer: Seq<u8>,
    /// A task waits until a transfer can be pushed.
    pub push_waiting: bool,
    /// A task waits until everything has been sent.
    pub empty_waiting: bool,
}

impl BlockingState {
    /// Nothing is to be sent.
    pub open spec fn fresh(subject: SubjectId, priority: Priority, buffer: Seq<u8>) -> BlockingState {
        BlockingState {
            subject,
            priority,
            pending: None,
            scratchpad_provided: false,
            buffer,
            push_waiting: false,
            empty_waiting: false,
        }
    }

    /// The priorities of which a frame can be fetched.
    pub open spec fn pop_ready(self) -> Set<Priority> {
        if self.pending is Some {
            Set::empty().insert(self.priority)
        } else {
            Set::empty()
        }
    }

    /// The priorities of which a transfer can be pushed.
    pub open spec fn push_ready(self) -> Set<Priority> {
        if self.pending is None {
            Set::empty().insert(self.priority)
        } else {
            Set::empty()
        }
    }

    /// A frame has been fetched.
    pub open spec fn popped(self, mtu: Mtu) -> BlockingState {
        match (self.pending->0).sent(mtu) {
            Some(rest) => BlockingState { pending: Some(rest), ..self },
            None => BlockingState { pending: None, push_waiting: false, empty_waiting: false, ..self },
        }
    }

    /// Why a transfer is refused.
    pub open spec fn refusal(self, meta: TransferMeta) -> Option<BufferError> {
        if meta.address is Some {
            Some(BufferError::MessageAddressSpecified)
        } else if !self.push_ready().contains(meta.priority) {
            Some(BufferError::PriorityNotReady)
        } else if !self.scratchpad_provided {
            Some(BufferError::ScratchpadNotInitialized)
        } else {
            None
        }
    }

    /// A transfer has been pushed.
    pub open spec fn pushed(self, meta: TransferMeta, length: int, crc: u16) -> BlockingState {
        BlockingState {
            scratchpad_provided: false,
            pending: Some(TxTransfer::fresh(meta, self.buffer, length, crc)),
            ..self
        }
    }
}

/// A message with a destination is refused, and so is one while another is being sent or one of
/// another priority. Every other one is taken once its payload has been written, and then the
/// buffer takes no message until the last frame has been fetched.
pub proof fn law_transfer_blocks(state: BlockingState, meta: TransferMeta, length: int, crc: u16, mtu: Mtu)
    requires
        state.pending is None ==> state.scratchpad_provided,
        state.pending matches Some(transfer) ==> transfer.wf() && TransferId::is_valid(
            transfer.outgoing.id.value() as int,
        ),
    ensures
        state.refusal(meta) == (if meta.address is Some {
            Some(BufferError::MessageAddressSpecified)
        } else if meta.priority != state.priority || state.pending is Some {
            Some(BufferError::PriorityNotReady)
        } else {
            None
        }),
        state.pushed(meta, length, crc).push_ready() == Set::<Priority>::empty(),
        state.pending matches Some(transfer) ==> {
            let frame = transfer.outgoing.frame(transfer.data, mtu.size() as int);
            state.popped(mtu).push_ready() == (if tail_fields(frame.last()).eot {
                Set::empty().insert(state.priority)
            } else {
                Set::<Priority>::empty()
            })
        },
{
    if let Some(transfer) = state.pending {
        let o = transfer.outgoing;
        let size = mtu.size() as int;
        let (payload, offset) = o.segment(transfer.data, size);
        let toggle = if o.is_single(size) {
            SOT_TOGGLE_BIT
        } else {
            o.toggle
        };
        law_tail_round_trip(o.offset == 0, offset == o.length + 2, toggle, o.id, 0);
        assert(o.frame(transfer.data, size).last() == tail_byte(o.offset == 0, offset == o.length + 2, toggle, o.id) as u8);
    }
}

#[derive(Debug)]
struct TransferEntry {
    scatter: Scatter,
    deadline: Instant,
    loop_back: bool,
}

/// Message buffer that holds a transfer until it has been sent.
pub struct Inner<T: BufferType> {
    subject: SubjectId,
    priority: Priority,
    buffer: StaticBuffer,
    pending_transfer: Option<TransferEntry>,
    scratchpad_provided: bool,
    non_full_trigger: WakerRegistration,
    empty_trigger: WakerRegistration,
    _phantom: PhantomData<T>,
}

impl<T: BufferType> View for Inner<T> {
    type V = BlockingState;

    closed spec fn view(&self) -> BlockingState {
        BlockingState {
            subject: self.subject,
            priority: self.priority,
            pending: match self.pending_transfer {
                Some(entry) => Some(
                    TxTransfer {
                        outgoing: entry.scatter@,
                        data: self.buffer@.take(entry.scatter@.length),
                        destination: None,
                        deadline: entry.deadline,
                        loop_back: entry.loop_back,
                    },
                ),
                None => None,
            },
            scratchpad_provided: self.scratchpad_provided,
            buffer: self.buffer@,
            push_waiting: is_waiting(self.non_full_trigger),
            empty_waiting: is_waiting(self.empty_trigger),
        }
    }
}

impl<T: BufferType> Inner<T> {
    /// A pending transfer is in the buffer, and something of it is left to be sent.
    pub closed spec fn wf(&self) -> bool {
        self.pending_transfer matches Some(entry) ==> {
            &&& entry.scatter.wf()
            &&& 0 <= entry.scatter@.length <= self.buffer@.len()
            &&& 0 <= entry.scatter@.offset < entry.scatter@.length + 2
        }
    }

    /// Nothing is to be sent.
    pub fn new(subject: SubjectId, priority: Priority, buffer: StaticBuffer) -> (r: Self)
        ensures
            r.wf(),
            r@ == BlockingState::fresh(subject, priority, buffer@),
    {
        Self {
            subject,
            priority,
            buffer,
            pending_transfer: None,
            scratchpad_provided: false,
            non_full_trigger: new_registration(),
            empty_trigger: new_registration(),
            _phantom: PhantomData,
        }
    }

    /// Returns the priorities of which a frame can be fetched.
    pub fn pop_readiness(&self) -> (r: PrioritySet)
        ensures
            r@ == self@.pop_ready(),
    {
        if self.pending_transfer.is_some() {
            PrioritySet::new_eq(self.priority)
        } else {
            PrioritySet::none()
        }
    }

    /// Fetches the next frame, if the priority is in the mask.
    pub fn try_pop(&mut self, priority_mask: PrioritySet, mtu: Mtu) -> (r: Option<Frame>)
        requires
            old(self).wf(),
        ensures
            final(self).wf(),
            match r {
                Some(frame) => {
                    &&& old(self)@.pending is Some
                    &&& priority_mask@.contains(old(self)@.priority)
                    &&& (old(self)@.pending->0).wf()
                    &&& (old(self)@.pending->0).is_next_frame(
                        frame,
                        old(self)@.priority,
                        DataSpecifier::Message(old(self)@.subject),
                        mtu,
                    )
                    &&& final(self)@ == old(self)@.popped(mtu)
                },
                None => {
                    &&& old(self)@.pop_ready().intersect(priority_mask@) == Set::<Priority>::empty()
                    &&& final(self)@ == old(self)@
                },
            },
    {
        let ghost before = self@;
        if self.pop_readiness().intersect(priority_mask).is_empty() {
            return None;
        }
        proof {
            if before.pending is None || !priority_mask@.contains(before.priority) {
                assert(before.pop_ready().intersect(priority_mask@) =~= Set::<Priority>::empty());
            }
        }
        let mut entry = self.pending_transfer.take().unwrap();
        let data = entry.scatter.fetch_frame_data(self.buffer.as_ref(), mtu).unwrap();
        let frame = Frame {
            header: Header {
                priority: self.priority,
                data_spec: DataSpecifier::Message(self.subject),
                source: None,
                destination: None,
            },
            data,
            timestamp: entry.deadline,
            loop_back: entry.loop_back,
        };
        proof {
            (before.pending->0).lemma_frame_length(mtu);
        }
        if entry.scatter.is_exhausted() {
            wake_registered(&mut self.non_full_trigger);
            wake_registered(&mut self.empty_trigger);
        } else {
            self.pending_transfer = Some(entry);
        }
        Some(frame)
    }

    /// Tells whether everything has been sent.
    pub fn is_empty(&self) -> (r: bool)
        ensures
            r == (self@.pending is None),
    {
        self.pending_transfer.is_none()
    }

    /// Lets the task wait until everything has been sent.
    pub fn poll_is_empty(&mut self, waker: &Waker) -> (r: Poll<()>)
        requires
            old(self).wf(),
        ensures
            final(self).wf(),
            r is Ready <==> old(self)@.pending is None,
            final(self)@ == (if r is Ready {
                old(self)@
            } else {
                BlockingState { empty_waiting: true, ..old(self)@ }
            }),
    {
        if self.is_empty() {
            Poll::Ready(())
        } else {
            register_waker(&mut self.empty_trigger, waker);
            Poll::Pending
        }
    }

    /// Returns the priorities of which a transfer can be pushed.
    pub fn push_readiness(&self) -> (r: PrioritySet)
        ensures
            r@ == self@.push_ready(),
    {
        if self.pending_transfer.is_none() {
            PrioritySet::new_eq(self.priority)
        } else {
            PrioritySet::none()
        }
    }

    /// Lets the task wait until a transfer of one of the priorities can be pushed.
    ///
    /// A task that waits for other priorities only is never woken.
    pub fn poll_push_readiness(&mut self, waker: &Waker, priority_mask: PrioritySet) -> (r: Poll<PrioritySet>)
        requires
            old(self).wf(),
        ensures
            final(self).wf(),
            ({
                let ready = old(self)@.push_ready().intersect(priority_mask@);
                match r {
                    Poll::Ready(set) => {
                        set@ == ready && ready != Set::<Priority>::empty() && final(self)@ == old(self)@
                    },
                    Poll::Pending => {
                        &&& ready == Set::<Priority>::empty()
                        &&& final(self)@ == (if priority_mask@.contains(old(self)@.priority) {
                            BlockingState { push_waiting: true, ..old(self)@ }
                        } else {
                            old(self)@
                        })
                    },
                }
            }),
    {
        let ghost ready = self@.push_ready().intersect(priority_mask@);
        if priority_mask.contains(self.priority) {
            if self.pending_transfer.is_none() {
                proof {
                    assert(ready =~= Set::empty().insert(self.priority));
                    assert(ready.contains(self.priority));
                }
                Poll::Ready(PrioritySet::new_eq(self.priority))
            } else {
                proof {
                    assert(ready =~= Set::<Priority>::empty());
                }
                register_waker(&mut self.non_full_trigger, waker);
                Poll::Pending
            }
        } else {
            proof {
                assert(ready =~= Set::<Priority>::empty());
            }
            Poll::Pending
        }
    }

    /// Returns the buffer for the payload of the next transfer, and the priorities of which it
    /// can be pushed.
    pub fn get_scratchpad(&mut self) -> (r: Option<(PrioritySet, &mut [u8])>)
        requires
            old(self).wf(),
        ensures
            final(self).wf(),
            match r {
                Some((priorities, buffer)) => {
                    &&& old(self)@.pending is None
                    &&& priorities@ == old(self)@.push_ready()
                    &&& buffer@ == old(self)@.buffer
                    &&& final(self)@ == (BlockingState {
                        scratchpad_provided: true,
                        buffer: final(buffer)@,
                        ..old(self)@
                    })
                },
                None => old(self)@.pending is Some && final(self)@ == old(self)@,
            },
    {
        let priorities = self.push_readiness();
        if self.pending_transfer.is_some() {
            return None;
        }
        self.scratchpad_provided = true;
        Some((priorities, self.buffer.as_mut()))
    }

    /// Takes the first `length` bytes of the buffer for transmission.
    pub fn try_push(&mut self, meta: TransferMeta, length: usize, crc: TransferCrc) -> (r: Result<(), BufferError>)
        requires
            old(self).wf(),
            old(self)@.scratchpad_provided ==> length <= old(self)@.buffer.len(),
            length + 2 <= usize::MAX,
        ensures
            final(self).wf(),
            match old(self)@.refusal(meta) {
                Some(error) => r == Err::<(), BufferError>(error) && final(self)@ == old(self)@,
                None => r is Ok && final(self)@ == old(self)@.pushed(meta, length as int, crc@),
            },
    {
        if meta.address.is_some() {
            return Err(BufferError::MessageAddressSpecified);
        }
        if !self.push_readiness().contains(meta.priority) {
            return Err(BufferError::PriorityNotReady);
        }
        if !self.scratchpad_provided {
            return Err(BufferError::ScratchpadNotInitialized);
        }
        self.scratchpad_provided = false;
        let scatter = Scatter::new(meta.transfer_id, self.buffer.as_ref(), length, crc);
        self.pending_transfer = Some(
            TransferEntry { scatter, deadline: meta.timestamp, loop_back: meta.loop_back },
        );
        Ok(())
    }
}

impl<T: BufferType> DynamicTxBuffer for Inner<T> {
    type State = BlockingState;

    open spec fn wf(&self) -> bool {
        self.wf()
    }

    open spec fn state(&self) -> BlockingState {
        self@
    }

    open spec fn is_service(state: BlockingState) -> bool {
        false
    }

    open spec fn capacity(state: BlockingState) -> nat {
        T::capacity()
    }

    open spec fn is_sized(&self) -> bool {
        self@.buffer.len() == T::capacity()
    }

    open spec fn pop_ready(state: BlockingState) -> Set<Priority> {
        state.pop_ready()
    }

    open spec fn push_ready(state: BlockingState) -> Set<Priority> {
        state.push_ready()
    }

    open spec fn is_fetch(before: BlockingState, priorities: Set<Priority>, mtu: Mtu, frame: Option<Frame>, after: BlockingState) -> bool {
        match frame {
            Some(frame) => {
                &&& before.pending is Some
                &&& priorities.contains(before.priority)
                &&& (before.pending->0).wf()
                &&& (before.pending->0).is_next_frame(
                    frame,
                    before.priority,
                    DataSpecifier::Message(before.subject),
                    mtu,
                )
                &&& after == before.popped(mtu)
            },
            None => before.pop_ready().intersect(priorities) == Set::<Priority>::empty() && after == before,
        }
    }

    open spec fn after_wait_empty(state: BlockingState) -> BlockingState {
        BlockingState { empty_waiting: true, ..state }
    }

    open spec fn after_wait_push(state: BlockingState, priorities: Set<Priority>) -> BlockingState {
        if priorities.contains(state.priority) {
            BlockingState { push_waiting: true, ..state }
        } else {
            state
        }
    }

    open spec fn scratchpad(state: BlockingState) -> Option<Seq<u8>> {
        if state.scratchpad_provided {
            Some(state.buffer)
        } else {
            None
        }
    }

    open spec fn after_write(state: BlockingState, bytes: Seq<u8>) -> BlockingState {
        BlockingState { scratchpad_provided: true, buffer: bytes, ..state }
    }

    open spec fn refusal(state: BlockingState, meta: TransferMeta) -> Option<BufferError> {
        state.refusal(meta)
    }

    open spec fn after_push(state: BlockingState, meta: TransferMeta, length: int, crc: u16) -> BlockingState {
        state.pushed(meta, length, crc)
    }

    fn pop_readiness(&self) -> (r: PrioritySet) {
        self.pop_readiness()
    }

    fn try_pop(&mut self, priority_mask: PrioritySet, mtu: Mtu) -> (r: Option<Frame>) {
        let ghost before = self@;
        let r = self.try_pop(priority_mask, mtu);
        proof {
            if let Some(frame) = r {
                let ready = before.pop_ready().intersect(priority_mask@);
                assert(ready =~= Set::empty().insert(before.priority));
                (before.pending->0).lemma_frame_length(mtu);
            }
        }
        r
    }

    fn is_empty(&self) -> (r: bool) {
        proof {
            if self@.pending is Some {
                assert(self@.pop_ready().contains(self@.priority));
            }
        }
        self.is_empty()
    }

    fn poll_is_empty(&mut self, waker: &Waker) -> (r: Poll<()>) {
        proof {
            if self@.pending is Some {
                assert(self@.pop_ready().contains(self@.priority));
            }
        }
        self.poll_is_empty(waker)
    }

    fn push_readiness(&self) -> (r: PrioritySet) {
        self.push_readiness()
    }

    fn poll_push_readiness(&mut self, waker: &Waker, priority_mask: PrioritySet) -> (r: Poll<PrioritySet>) {
        self.poll_push_readiness(waker, priority_mask)
    }

    fn get_scratchpad(&mut self) -> (r: Option<(PrioritySet, &mut [u8])>) {
        proof {
            if self@.pending is None {
                assert(self@.push_ready().contains(self@.priority));
            }
        }
        self.get_scratchpad()
    }

    fn try_push(&mut self, meta: TransferMeta, length: usize, crc: TransferCrc) -> (r: Result<(), BufferError>) {
        self.try_push(meta, length, crc)
    }

    proof fn lemma_after_write(state: BlockingState, bytes: Seq<u8>) {
    }

    proof fn lemma_after_wait(state: BlockingState, priorities: Set<Priority>) {
    }

    proof fn lemma_after_push(state: BlockingState, meta: TransferMeta, length: int, crc: u16) {
    }

    proof fn lemma_after_fetch(
        before: BlockingState,
        priorities: Set<Priority>,
        mtu: Mtu,
        frame: Option<Frame>,
        after: BlockingState,
    ) {
    }

    proof fn lemma_taken(state: BlockingState, meta: TransferMeta) {
    }

    proof fn lemma_still_ready(state: BlockingState, bytes: Seq<u8>, priorities: Set<Priority>) {
    }

    proof fn lemma_written(state: BlockingState, bytes: Seq<u8>) {
        if state.pending is Some {
            assert(state.push_ready() =~= Set::<Priority>::empty());
        }
    }
}

/// Blocking message buffer.
///
/// The buffer holds a single transfer of a fixed priority. It takes the next one only after all
/// frames of the previous one have been fetched. There is one payload buffer.
pub struct Blocking<T: BufferType> {
    buffer: StaticBuffer,
    _phantom: PhantomData<T>,
}

impl<T: BufferType> Blocking<T> {
    /// The contents of the payload buffer.
    pub closed spec fn bytes(&self) -> Seq<u8> {
        self.buffer@
    }

    /// Allocates the payload buffer.
    pub fn new() -> (r: Self)
        ensures
            r.bytes() == Seq::new(T::capacity(), |i: int| 0u8),
    {
        Self { buffer: T::new_buffer(), _phantom: PhantomData }
    }
}

impl<T: BufferType> Default for Blocking<T> {
    fn default() -> (r: Self)
        ensures
            r.bytes() == Seq::new(T::capacity(), |i: int| 0u8),
    {
        Self::new()
    }
}

impl<T: BufferType> Buffer<T> for Blocking<T> {
    type Inner = Inner<T>;

    closed spec fn wf(&self) -> bool {
        self.bytes() == Seq::new(T::capacity(), |i: int| 0u8)
    }

    open spec fn fresh(subject: SubjectId, priority: Priority) -> BlockingState {
        BlockingState::fresh(subject, priority, Seq::new(T::capacity(), |i: int| 0u8))
    }

    fn init(self, subject: SubjectId, priority: Priority) -> (r: Inner<T>) {
        Inner::new(subject, priority, self.buffer)
    }
}

} // verus!
