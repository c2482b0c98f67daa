//! Message buffer that keeps the latest transfer.

use core::marker::PhantomData;
use core::task::Waker;
use embassy_sync::waitqueue::WakerRegistration;
use vstd::prelude::*;

use crate::buffer::tx_msg::Buffer;
use crate::buffer::scatter::Scatter;
use crate::buffer::tx_transfer::TxTransfer;
use crate::buffer::{BufferError, DynamicTxBuffer};
use crate::encoding::{BufferType, StaticBuffer};
use crate::endpoint::TransferMeta;
use crate::format::TransferCrc;
use crate::frame::{DataSpecifier, Frame, Header, Mtu};
use crate::ids::SubjectId;
use crate::priority::{Priority, PrioritySet};
use crate::task::{is_waiting, new_registration, register_waker, wake_registered, Poll};
use crate::time::Instant;
use crate::utils::byte_stack::ByteStack;
use crate::utils::multi_class_queue::{is_disjoint, lemma_disjoint_move, total, Lists};

verus! {

const BUFFER_COUNT: usize = 2;

/// The state of the buffer.
#[verifier::ext_equal]
pub struct SignalState {
    /// The subject of the messages.
    pub subject: SubjectId,
    /// The priority of the messages.
    pub priority: Priority,
    /// The latest transfer, of which nothing has been sent.
    pub pending: Option<TxTransfer>,
    /// The transfer that is being sent.
    pub fragmented: Option<TxTransfer>,
    /// The buffer for the next payload, once it has been provided.
    pub scratchpad: Option<Seq<u8>>,
    /// A task waits until everything has been sent.
    pub empty_waiting: bool,
}

impl SignalState {
    /// Nothing is to be sent.
    pub open spec fn fresh(subject: SubjectId, priority: Priority) -> SignalState {
        SignalState {
            subject,
            priority,
            pending: None,
            fragmented: None,
            scratchpad: None,
            empty_waiting: false,
        }
    }

    /// Everything has been sent.
    pub open spec fn is_empty(self) -> bool {
        self.pending is None && self.fragmented is None
    }

    /// The priorities of which a frame can be fetched.
    pub open spec fn pop_ready(self) -> Set<Priority> {
        if !self.is_empty() {
            Set::empty().insert(self.priority)
        } else {
            Set::empty()
        }
    }

    /// The priorities of which a transfer can be pushed.
    pub open spec fn push_ready(self) -> Set<Priority> {
        Set::empty().insert(self.priority)
    }

    /// A started transfer is continued, otherwise the latest one is started.
    pub open spec fn promoted(self) -> SignalState {
        if self.fragmented is None {
            SignalState { fragmented: self.pending, pending: None, ..self }
        } else {
            self
        }
    }

    /// A frame has been fetched.
    pub open spec fn popped(self, mtu: Mtu) -> SignalState {
        let next = self.promoted();
        let fragmented = (next.fragmented->0).sent(mtu);
        SignalState {
            fragmented,
            empty_waiting: self.empty_waiting && !(fragmented is None && next.pending is None),
            ..next
        }
    }

    /// The pending transfer has to give way when no other buffer is left.
    pub open spec fn reserved(self, scratchpad: Seq<u8>) -> SignalState {
        SignalState {
            scratchpad: Some(scratchpad),
            pending: if self.scratchpad is None && self.fragmented is Some {
                None
            } else {
                self.pending
            },
            ..self
        }
    }

    /// Why a transfer is refused.
    pub open spec fn refusal(self, meta: TransferMeta) -> Option<BufferError> {
        if meta.address is Some {
            Some(BufferError::MessageAddressSpecified)
        } else if meta.priority != self.priority {
            Some(BufferError::PriorityNotReady)
        } else if self.scratchpad is None {
            Some(BufferError::ScratchpadNotInitialized)
        } else {
            None
        }
    }

    /// A transfer has been pushed. It replaces one of which nothing has been sent.
    pub open spec fn pushed(self, meta: TransferMeta, length: int, crc: u16) -> SignalState {
        SignalState {
            scratchpad: None,
            pending: Some(TxTransfer::fresh(meta, self.scratchpad->0, length, crc)),
            ..self
        }
    }
}

/// A started transfer is always sent to its end, whatever is pushed meanwhile.
pub proof fn law_started_transfer_completes(state: SignalState, meta: TransferMeta, length: int, crc: u16, bytes: Seq<u8>)
    ensures
        state.reserved(bytes).fragmented == state.fragmented,
        state.pushed(meta, length, crc).fragmented == state.fragmented,
{
}

#[derive(Debug, Clone, Copy)]
struct TransferEntry {
    buffer_idx: u8,
    scatter: Scatter,
    timestamp: Instant,
    loop_back: bool,
}

/// Message buffer that keeps the latest transfer.
pub struct Inner<T: BufferType> {
    subject: SubjectId,
    buffers: Vec<StaticBuffer>,
    priority: Priority,
    pending_transfer: Option<TransferEntry>,
    fragmented_transfer: Option<TransferEntry>,
    scratchpad_buffer_idx: Option<u8>,
    free_buffer_indexes: ByteStack,
    empty_waker: WakerRegistration,
    _phantom: PhantomData<T>,
}

spec fn entry_index(entry: Option<TransferEntry>) -> Seq<u8> {
    match entry {
        Some(entry) => seq![entry.buffer_idx],
        None => Seq::empty(),
    }
}

spec fn scratchpad_index(idx: Option<u8>) -> Seq<u8> {
    match idx {
        Some(idx) => seq![idx],
        None => Seq::empty(),
    }
}

spec fn entry_transfer(entry: Option<TransferEntry>, buffers: Seq<StaticBuffer>) -> Option<TxTransfer> {
    match entry {
        Some(entry) => Some(
            TxTransfer {
                outgoing: entry.scatter@,
                data: buffers[entry.buffer_idx as int]@.take(entry.scatter@.length),
                destination: None,
                deadline: entry.timestamp,
                loop_back: entry.loop_back,
            },
        ),
        None => None,
    }
}

spec fn entry_wf(entry: Option<TransferEntry>, buffers: Seq<StaticBuffer>) -> bool {
    entry matches Some(entry) ==> {
        &&& entry.scatter.wf()
        &&& 0 <= entry.scatter@.length <= buffers[entry.buffer_idx as int]@.len()
        &&& 0 <= entry.scatter@.offset < entry.scatter@.length + 2
    }
}

impl<T: BufferType> View for Inner<T> {
    type V = SignalState;

    closed spec fn view(&self) -> SignalState {
        SignalState {
            subject: self.subject,
            priority: self.priority,
            pending: entry_transfer(self.pending_transfer, self.buffers@),
            fragmented: entry_transfer(self.fragmented_transfer, self.buffers@),
            scratchpad: match self.scratchpad_buffer_idx {
                Some(idx) => Some(self.buffers@[idx as int]@),
                None => None,
            },
            empty_waiting: is_waiting(self.empty_waker),
        }
    }
}

impl<T: BufferType> Inner<T> {
    /// Who holds which buffer.
    spec fn holders(&self) -> Lists {
        seq![
            entry_index(self.pending_transfer),
            entry_index(self.fragmented_transfer),
            scratchpad_index(self.scratchpad_buffer_idx),
            self.free_buffer_indexes@,
        ]
    }

    /// Each of the two buffers has one holder, and something is left of the transfers.
    pub closed spec fn wf(&self) -> bool {
        &&& self.buffers@.len() == BUFFER_COUNT
        &&& is_disjoint(self.holders(), BUFFER_COUNT as int)
        &&& total(self.holders()) == BUFFER_COUNT
        &&& entry_wf(self.pending_transfer, self.buffers@)
        &&& entry_wf(self.fragmented_transfer, self.buffers@)
    }

    /// The buffers are large enough for every value of the type.
    pub closed spec fn is_sized(&self) -> bool {
        forall|i: int| 0 <= i < self.buffers@.len() ==> (#[trigger] self.buffers@[i])@.len() == T::capacity()
    }

    /// The buffer that has been provided is large enough.
    pub proof fn lemma_sized(&self)
        requires
            self.wf(),
            self.is_sized(),
        ensures
            self@.scratchpad matches Some(bytes) ==> bytes.len() == T::capacity(),
    {
        self.lemma_holders();
    }

    /// The number of free buffers follows from the other holders, which have different buffers.
    proof fn lemma_holders(&self)
        requires
            is_disjoint(self.holders(), BUFFER_COUNT as int),
            total(self.holders()) == BUFFER_COUNT,
        ensures
            self.free_buffer_indexes@.len() == 2 - entry_index(self.pending_transfer).len() - entry_index(
                self.fragmented_transfer,
            ).len() - scratchpad_index(self.scratchpad_buffer_idx).len(),
            self.pending_transfer matches Some(entry) ==> entry.buffer_idx < 2,
            self.fragmented_transfer matches Some(entry) ==> entry.buffer_idx < 2,
            self.scratchpad_buffer_idx matches Some(idx) ==> idx < 2,
            self.pending_transfer is Some && self.fragmented_transfer is Some ==> (
            self.pending_transfer->0).buffer_idx != (self.fragmented_transfer->0).buffer_idx,
            self.pending_transfer is Some && self.scratchpad_buffer_idx is Some ==> (
            self.pending_transfer->0).buffer_idx != self.scratchpad_buffer_idx->0,
            self.fragmented_transfer is Some && self.scratchpad_buffer_idx is Some ==> (
            self.fragmented_transfer->0).buffer_idx != self.scratchpad_buffer_idx->0,
    {
        let lists = self.holders();
        reveal_with_fuel(total, 5);
        assert(lists.drop_last().drop_last().drop_last().drop_last() =~= Seq::<Seq<u8>>::empty());
        if self.pending_transfer is Some {
            assert(lists[0][0] < 2);
        }
        if self.fragmented_transfer is Some {
            assert(lists[1][0] < 2);
        }
        if self.scratchpad_buffer_idx is Some {
            assert(lists[2][0] < 2);
        }
        if self.pending_transfer is Some && self.fragmented_transfer is Some {
            assert(lists[0][0] != lists[1][0]);
        }
        if self.pending_transfer is Some && self.scratchpad_buffer_idx is Some {
            assert(lists[0][0] != lists[2][0]);
        }
        if self.fragmented_transfer is Some && self.scratchpad_buffer_idx is Some {
            assert(lists[1][0] != lists[2][0]);
        }
    }

    /// Nothing is to be sent.
    pub fn new(subject: SubjectId, priority: Priority, buffers: Vec<StaticBuffer>) -> (r: Self)
        requires
            buffers@.len() == 2,
        ensures
            r.wf(),
            r@ == SignalState::fresh(subject, priority),
            (forall|i: int| 0 <= i < buffers@.len() ==> (#[trigger] buffers@[i])@.len() == T::capacity())
                ==> r.is_sized(),
    {
        let mut free_buffer_indexes = ByteStack::new();
        let _first = free_buffer_indexes.push(0);
        let _second = free_buffer_indexes.push(1);
        let r = Self {
            subject,
            buffers,
            priority,
            pending_transfer: None,
            fragmented_transfer: None,
            scratchpad_buffer_idx: None,
            free_buffer_indexes,
            empty_waker: new_registration(),
            _phantom: PhantomData,
        };
        proof {
            let lists = r.holders();
            reveal_with_fuel(total, 5);
            assert(lists.drop_last().drop_last().drop_last().drop_last() =~= Seq::<Seq<u8>>::empty());
        }
        r
    }

    /// Returns the priorities of which a frame can be fetched.
    pub fn pop_readiness(&self) -> (r: PrioritySet)
        ensures
            r@ == self@.pop_ready(),
    {
        if !self.is_empty() {
            PrioritySet::new_eq(self.priority)
        } else {
            PrioritySet::none()
        }
    }

    /// Fetches the next frame, if the priority is in the mask.
    pub fn try_pop(&mut self, priority_mask: PrioritySet, mtu: Mtu) -> (r: Option<Frame>)
        requires
            old(self).wf(),
        ensures
            final(self).wf(),
            old(self).is_sized() ==> final(self).is_sized(),
            match r {
                Some(frame) => {
                    let current = old(self)@.promoted().fragmented;
                    &&& current is Some
                    &&& priority_mask@.contains(old(self)@.priority)
                    &&& (current->0).wf()
                    &&& (current->0).is_next_frame(
                        frame,
                        old(self)@.priority,
                        DataSpecifier::Message(old(self)@.subject),
                        mtu,
                    )
                    &&& final(self)@ == old(self)@.popped(mtu)
                },
                None => {
                    &&& old(self)@.pop_ready().intersect(priority_mask@) == Set::<Priority>::empty()
                    &&& final(self)@ == old(self)@
                },
            },
    {
        let ghost before = *self;
        if !priority_mask.contains(self.priority) {
            proof {
                assert(self@.pop_ready().intersect(priority_mask@) =~= Set::<Priority>::empty());
            }
            return None;
        }
        if self.fragmented_transfer.is_none() {
            self.fragmented_transfer = self.pending_transfer.take();
        }
        proof {
            let lists = before.holders();
            if before.fragmented_transfer is None && before.pending_transfer is Some {
                lemma_disjoint_move(lists, 2, 0, 0, 1);
                assert(self.holders() =~~= lists.update(0, lists[0].remove(0)).update(1, lists[1].push(lists[0][0])));
            } else {
                assert(self.holders() =~~= lists);
            }
        }
        let ghost promoted = *self;
        proof {
            promoted.lemma_holders();
        }
        let mut entry: TransferEntry = match self.fragmented_transfer {
            Some(entry) => entry,
            None => {
                proof {
                    assert(before@.pop_ready().intersect(priority_mask@) =~= Set::<Priority>::empty());
                }
                return None;
            },
        };
        let data = entry.scatter.fetch_frame_data(self.buffers[entry.buffer_idx as usize].as_ref(), mtu).unwrap();
        let frame = Frame {
            header: Header {
                priority: self.priority,
                data_spec: DataSpecifier::Message(self.subject),
                source: None,
                destination: None,
            },
            data,
            timestamp: entry.timestamp,
            loop_back: entry.loop_back,
        };
        proof {
            (promoted@.fragmented->0).lemma_frame_length(mtu);
        }
        if entry.scatter.is_exhausted() {
            self.fragmented_transfer = None;
            let _freed = self.free_buffer_indexes.push(entry.buffer_idx);
            proof {
                let lists = promoted.holders();
                lemma_disjoint_move(lists, 2, 1, 0, 3);
                assert(self.holders() =~~= lists.update(1, lists[1].remove(0)).update(3, lists[3].push(lists[1][0])));
            }
        } else {
            self.fragmented_transfer = Some(entry);
            proof {
                assert(self.holders() =~~= promoted.holders());
            }
        }
        if self.is_empty() {
            wake_registered(&mut self.empty_waker);
        }
        Some(frame)
    }

    /// Tells whether everything has been sent.
    pub fn is_empty(&self) -> (r: bool)
        ensures
            r == self@.is_empty(),
    {
        self.fragmented_transfer.is_none() && self.pending_transfer.is_none()
    }

    /// Lets the task wait until everything has been sent.
    pub fn poll_is_empty(&mut self, waker: &Waker) -> (r: Poll<()>)
        requires
            old(self).wf(),
        ensures
            final(self).wf(),
            old(self).is_sized() ==> final(self).is_sized(),
            r is Ready <==> old(self)@.is_empty(),
            final(self)@ == (if r is Ready {
                old(self)@
            } else {
                SignalState { empty_waiting: true, ..old(self)@ }
            }),
    {
        let ghost before = *self;
        if self.is_empty() {
            Poll::Ready(())
        } else {
            register_waker(&mut self.empty_waker, waker);
            proof {
                assert(self.holders() =~~= before.holders());
            }
            Poll::Pending
        }
    }

    /// Returns the priorities of which a transfer can be pushed.
    pub fn push_readiness(&self) -> (r: PrioritySet)
        ensures
            r@ == self@.push_ready(),
    {
        PrioritySet::new_eq(self.priority)
    }

    /// A transfer can always be pushed. A task that waits for other priorities is never woken.
    pub fn poll_push_readiness(&mut self, _waker: &Waker, priority_mask: PrioritySet) -> (r: Poll<PrioritySet>)
        requires
            old(self).wf(),
        ensures
            final(self).wf(),
            old(self).is_sized() ==> final(self).is_sized(),
            final(self)@ == old(self)@,
            ({
                let ready = old(self)@.push_ready().intersect(priority_mask@);
                match r {
                    Poll::Ready(set) => set@ == ready && ready != Set::<Priority>::empty(),
                    Poll::Pending => ready == Set::<Priority>::empty(),
                }
            }),
    {
        let ghost ready = self@.push_ready().intersect(priority_mask@);
        if priority_mask.contains(self.priority) {
            proof {
                assert(ready =~= Set::empty().insert(self.priority));
                assert(ready.contains(self.priority));
            }
            Poll::Ready(PrioritySet::new_eq(self.priority))
        } else {
            proof {
                assert(ready =~= Set::<Priority>::empty());
            }
            Poll::Pending
        }
    }

    /// Returns the buffer for the payload of the next transfer.
    ///
    /// A buffer that is provided for the first time holds what was left in it. If none is free,
    /// the transfer of which nothing has been sent is given up.
    pub fn get_scratchpad(&mut self) -> (r: Option<(PrioritySet, &mut [u8])>)
        requires
            old(self).wf(),
        ensures
            final(self).wf(),
            match r {
                Some((priorities, buffer)) => {
                    &&& priorities@ == old(self)@.push_ready()
                    &&& old(self)@.scratchpad matches Some(bytes) ==> buffer@ == bytes
                    &&& final(self)@ == old(self)@.reserved(final(buffer)@)
                    &&& old(self).is_sized() ==> buffer@.len() == T::capacity()
                    &&& old(self).is_sized() && final(buffer)@.len() == buffer@.len() ==> final(self).is_sized()
                },
                None => false,
            },
    {
        let ghost before = *self;
        proof {
            before.lemma_holders();
        }
        if self.scratchpad_buffer_idx.is_none() {
            if let Some(idx) = self.free_buffer_indexes.pop() {
                self.scratchpad_buffer_idx = Some(idx);
                proof {
                    let lists = before.holders();
                    let last = lists[3].len() - 1;
                    lemma_disjoint_move(lists, 2, 3, last, 2);
                    assert(lists[3].remove(last) =~= lists[3].drop_last());
                    assert(self.holders() =~~= lists.update(3, lists[3].remove(last)).update(
                        2,
                        lists[2].push(lists[3][last]),
                    ));
                }
            } else {
                let entry = self.pending_transfer.take().unwrap();
                self.scratchpad_buffer_idx = Some(entry.buffer_idx);
                proof {
                    let lists = before.holders();
                    lemma_disjoint_move(lists, 2, 0, 0, 2);
                    assert(self.holders() =~~= lists.update(0, lists[0].remove(0)).update(
                        2,
                        lists[2].push(lists[0][0]),
                    ));
                }
            }
        }
        let idx: u8 = self.scratchpad_buffer_idx.unwrap();
        proof {
            self.lemma_holders();
        }
        let priorities = PrioritySet::new_eq(self.priority);
        Some((priorities, self.buffers[idx as usize].as_mut()))
    }

    /// Takes the first `length` bytes of the provided buffer for transmission.
    pub fn try_push(&mut self, meta: TransferMeta, length: usize, crc: TransferCrc) -> (r: Result<(), BufferError>)
        requires
            old(self).wf(),
            old(self)@.scratchpad matches Some(bytes) ==> length <= bytes.len(),
            length + 2 <= usize::MAX,
        ensures
            final(self).wf(),
            old(self).is_sized() ==> final(self).is_sized(),
            match old(self)@.refusal(meta) {
                Some(error) => r == Err::<(), BufferError>(error) && final(self)@ == old(self)@,
                None => r is Ok && final(self)@ == old(self)@.pushed(meta, length as int, crc@),
            },
    {
        let ghost before = *self;
        proof {
            before.lemma_holders();
        }
        if meta.address.is_some() {
            return Err(BufferError::MessageAddressSpecified);
        }
        if !self.push_readiness().contains(meta.priority) {
            return Err(BufferError::PriorityNotReady);
        }
        let buffer_idx: u8 = match self.scratchpad_buffer_idx.take() {
            Some(idx) => idx,
            None => {
                assert(self.holders() =~~= before.holders());
                return Err(BufferError::ScratchpadNotInitialized);
            },
        };
        let scatter = Scatter::new(
            meta.transfer_id,
            self.buffers[buffer_idx as usize].as_ref(),
            length,
            crc,
        );
        let entry = TransferEntry {
            buffer_idx,
            scatter,
            timestamp: meta.timestamp,
            loop_back: meta.loop_back,
        };
        let previous: Option<TransferEntry> = self.pending_transfer.take();
        self.pending_transfer = Some(entry);
        if let Some(prev_transfer) = previous {
            let _freed = self.free_buffer_indexes.push(prev_transfer.buffer_idx);
        }
        proof {
            let lists = before.holders();
            if previous is Some {
                lemma_disjoint_move(lists, 2, 0, 0, 3);
                let freed = lists.update(0, lists[0].remove(0)).update(3, lists[3].push(lists[0][0]));
                lemma_disjoint_move(freed, 2, 2, 0, 0);
                assert(self.holders() =~~= freed.update(2, freed[2].remove(0)).update(0, freed[0].push(freed[2][0])));
            } else {
                lemma_disjoint_move(lists, 2, 2, 0, 0);
                assert(self.holders() =~~= lists.update(2, lists[2].remove(0)).update(0, lists[0].push(lists[2][0])));
            }
        }
        Ok(())
    }
}

impl<T: BufferType> DynamicTxBuffer for Inner<T> {
    type State = SignalState;

    open spec fn wf(&self) -> bool {
        self.wf()
    }

    open spec fn state(&self) -> SignalState {
        self@
    }

    open spec fn is_service(state: SignalState) -> bool {
        false
    }

    open spec fn capacity(state: SignalState) -> nat {
        T::capacity()
    }

    open spec fn is_sized(&self) -> bool {
        self.is_sized()
    }

    open spec fn pop_ready(state: SignalState) -> Set<Priority> {
        state.pop_ready()
    }

    open spec fn push_ready(state: SignalState) -> Set<Priority> {
        state.push_ready()
    }

    open spec fn is_fetch(before: SignalState, priorities: Set<Priority>, mtu: Mtu, frame: Option<Frame>, after: SignalState) -> bool {
        match frame {
            Some(frame) => {
                let current = before.promoted().fragmented;
                &&& current is Some
                &&& priorities.contains(before.priority)
                &&& (current->0).wf()
                &&& (current->0).is_next_frame(
                    frame,
                    before.priority,
                    DataSpecifier::Message(before.subject),
                    mtu,
                )
                &&& after == before.popped(mtu)
            },
            None => before.pop_ready().intersect(priorities) == Set::<Priority>::empty() && after == before,
        }
    }

    open spec fn after_wait_empty(state: SignalState) -> SignalState {
        SignalState { empty_waiting: true, ..state }
    }

    open spec fn after_wait_push(state: SignalState, priorities: Set<Priority>) -> SignalState {
        state
    }

    open spec fn scratchpad(state: SignalState) -> Option<Seq<u8>> {
        state.scratchpad
    }

    open spec fn after_write(state: SignalState, bytes: Seq<u8>) -> SignalState {
        state.reserved(bytes)
    }

    open spec fn refusal(state: SignalState, meta: TransferMeta) -> Option<BufferError> {
        state.refusal(meta)
    }

    open spec fn after_push(state: SignalState, meta: TransferMeta, length: int, crc: u16) -> SignalState {
        state.pushed(meta, length, crc)
    }

    fn pop_readiness(&self) -> (r: PrioritySet) {
        self.pop_readiness()
    }

    fn try_pop(&mut self, priority_mask: PrioritySet, mtu: Mtu) -> (r: Option<Frame>) {
        let ghost before = self@;
        let r = self.try_pop(priority_mask, mtu);
        proof {
            if let Some(frame) = r {
                let ready = before.pop_ready().intersect(priority_mask@);
                assert(ready =~= Set::empty().insert(before.priority));
                (before.promoted().fragmented->0).lemma_frame_length(mtu);
            }
        }
        r
    }

    fn is_empty(&self) -> (r: bool) {
        proof {
            if !self@.is_empty() {
                assert(self@.pop_ready().contains(self@.priority));
            }
        }
        self.is_empty()
    }

    fn poll_is_empty(&mut self, waker: &Waker) -> (r: Poll<()>) {
        proof {
            if !self@.is_empty() {
                assert(self@.pop_ready().contains(self@.priority));
            }
        }
        self.poll_is_empty(waker)
    }

    fn push_readiness(&self) -> (r: PrioritySet) {
        self.push_readiness()
    }

    fn poll_push_readiness(&mut self, waker: &Waker, priority_mask: PrioritySet) -> (r: Poll<PrioritySet>) {
        self.poll_push_readiness(waker, priority_mask)
    }

    fn get_scratchpad(&mut self) -> (r: Option<(PrioritySet, &mut [u8])>) {
        proof {
            assert(self@.push_ready().contains(self@.priority));
        }
        self.get_scratchpad()
    }

    fn try_push(&mut self, meta: TransferMeta, length: usize, crc: TransferCrc) -> (r: Result<(), BufferError>) {
        self.try_push(meta, length, crc)
    }

    proof fn lemma_after_write(state: SignalState, bytes: Seq<u8>) {
    }

    proof fn lemma_after_wait(state: SignalState, priorities: Set<Priority>) {
    }

    proof fn lemma_after_push(state: SignalState, meta: TransferMeta, length: int, crc: u16) {
    }

    proof fn lemma_after_fetch(
        before: SignalState,
        priorities: Set<Priority>,
        mtu: Mtu,
        frame: Option<Frame>,
        after: SignalState,
    ) {
    }

    proof fn lemma_taken(state: SignalState, meta: TransferMeta) {
    }

    proof fn lemma_still_ready(state: SignalState, bytes: Seq<u8>, priorities: Set<Priority>) {
    }

    proof fn lemma_written(state: SignalState, bytes: Seq<u8>) {
    }
}

/// Non-blocking buffer for a single message.
///
/// The buffer holds one complete and one partly fetched transfer of a fixed priority. It always
/// takes a new transfer, which replaces the complete one. A transfer that was started is always
/// sent to its end, so transmission proceeds even if the message is updated in a tight loop.
/// There are two payload buffers.
pub struct Signal<T: BufferType> {
    buffers: Vec<StaticBuffer>,
    _phantom: PhantomData<T>,
}

impl<T: BufferType> Signal<T> {
    /// There are two payload buffers.
    pub closed spec fn wf(&self) -> bool {
        &&& self.buffers@.len() == BUFFER_COUNT
        &&& forall|i: int| 0 <= i < self.buffers@.len() ==> (#[trigger] self.buffers@[i])@.len() == T::capacity()
    }

    /// Allocates the payload buffers.
    pub fn new() -> (r: Self)
        ensures
            r.wf(),
    {
        let mut buffers: Vec<StaticBuffer> = Vec::new();
        buffers.push(T::new_buffer());
        buffers.push(T::new_buffer());
        Self { buffers, _phantom: PhantomData }
    }
}

impl<T: BufferType> Default for Signal<T> {
    fn default() -> (r: Self)
        ensures
            r.wf(),
    {
        Self::new()
    }
}

impl<T: BufferType> Buffer<T> for Signal<T> {
    type Inner = Inner<T>;

    open spec fn wf(&self) -> bool {
        self.wf()
    }

    open spec fn fresh(subject: SubjectId, priority: Priority) -> SignalState {
        SignalState::fresh(subject, priority)
    }

    fn init(self, subject: SubjectId, priority: Priority) -> (r: Inner<T>) {
        Inner::new(subject, priority, self.buffers)
    }
}

} // verus!
