//! Response buffer that holds a transfer of each priority until it has been sent.

use core::marker::PhantomData;
use core::task::Waker;
use embassy_sync::waitqueue::WakerRegistration;
use vstd::prelude::*;

use crate::buffer::tx_resp::Buffer;
use crate::buffer::scatter::Scatter;
use crate::buffer::tx_transfer::TxTransfer;
use crate::buffer::{BufferError, DynamicTxBuffer};
use crate::encoding::{BufferType, StaticBuffer};
use crate::endpoint::TransferMeta;
use crate::format::TransferCrc;
use crate::frame::{DataSpecifier, Frame, Header, Mtu};
use crate::ids::{NodeId, ServiceId};
use crate::priority::{lemma_code_bijective, Priority, PrioritySet};
use crate::task::{is_waiting, new_registration, register_waker, wake_registered, Poll};
use crate::time::Instant;
use crate::utils::byte_stack::ByteStack;
use crate::utils::multi_class_queue::{
    is_disjoint, lemma_disjoint_move, lemma_total_bound, lemma_total_empty, total, Lists,
};
use crate::utils::priority_map::PriorityMap;
use crate::utils::priority_trigger::{PriorityTrigger, Waiting};

verus! {

const BUFFER_COUNT: usize = 8;

/// The state of the buffer.
#[verifier::ext_equal]
pub struct ResponseState {
    /// The service that responds.
    pub service: ServiceId,
    /// The transfers that are being sent.
    pub transfers: Map<Priority, TxTransfer>,
    /// The buffer for the next payload, once it has been provided.
    pub scratchpad: Option<Seq<u8>>,
    /// The task that waits until a transfer can be pushed.
    pub push_waiting: Waiting,
    /// A task waits until everything has been sent.
    pub empty_waiting: bool,
}

impl ResponseState {
    /// Nothing is to be sent.
    pub open spec fn fresh(service: ServiceId) -> ResponseState {
        ResponseState {
            service,
            transfers: Map::empty(),
            scratchpad: None,
            push_waiting: Waiting::idle(),
            empty_waiting: false,
        }
    }

    /// The priorities of which a frame can be fetched.
    pub open spec fn pop_ready(self) -> Set<Priority> {
        self.transfers.dom()
    }

    /// The priorities of which a transfer can be pushed.
    pub open spec fn push_ready(self) -> Set<Priority> {
        self.transfers.dom().complement()
    }

    /// A frame of a priority has been fetched.
    pub open spec fn popped(self, priority: Priority, mtu: Mtu) -> ResponseState {
        match self.transfers[priority].sent(mtu) {
            Some(rest) => ResponseState { transfers: self.transfers.insert(priority, rest), ..self },
            None => ResponseState {
                transfers: self.transfers.remove(priority),
                push_waiting: self.push_waiting.woken(Set::empty().insert(priority)),
                empty_waiting: self.empty_waiting && self.transfers.remove(priority).dom() != Set::<Priority>::empty(),
                ..self
            },
        }
    }

    /// Why a transfer is refused.
    pub open spec fn refusal(self, meta: TransferMeta) -> Option<BufferError> {
        if meta.address is None {
            Some(BufferError::ServiceAddressNotSpecified)
        } else if self.transfers.contains_key(meta.priority) {
            Some(BufferError::PriorityNotReady)
        } else if self.scratchpad is None {
            Some(BufferError::ScratchpadNotInitialized)
        } else {
            None
        }
    }

    /// A transfer has been pushed.
    pub open spec fn pushed(self, meta: TransferMeta, length: int, crc: u16) -> ResponseState {
        ResponseState {
            scratchpad: None,
            transfers: self.transfers.insert(
                meta.priority,
                TxTransfer::fresh(meta, self.scratchpad->0, length, crc),
            ),
            ..self
        }
    }
}

/// A transfer of a ready priority that has a receiver and a payload is never refused.
pub proof fn law_ready_priority_is_taken(state: ResponseState, meta: TransferMeta)
    requires
        state.push_ready().contains(meta.priority),
        meta.address is Some,
        state.scratchpad is Some,
    ensures
        state.refusal(meta) is None,
{
}

#[derive(Debug, Clone, Copy)]
struct TransferEntry {
    address: NodeId,
    scatter: Scatter,
    deadline: Instant,
    loop_back: bool,
    buffer_idx: u8,
}

/// Response buffer that holds a transfer of each priority until it has been sent.
pub struct ResponseBufferInner<T: BufferType> {
    service: ServiceId,
    buffers: Vec<StaticBuffer>,
    scratchpad_buffer_idx: Option<u8>,
    free_buffer_idx: ByteStack,
    transfers: PriorityMap<TransferEntry>,
    non_full_trigger: PriorityTrigger,
    empty_trigger: WakerRegistration,
    _phantom: PhantomData<T>,
}

spec fn entry_transfer(entry: TransferEntry, buffers: Seq<StaticBuffer>) -> TxTransfer {
    TxTransfer {
        outgoing: entry.scatter@,
        data: buffers[entry.buffer_idx as int]@.take(entry.scatter@.length),
        destination: Some(entry.address),
        deadline: entry.deadline,
        loop_back: entry.loop_back,
    }
}

spec fn entry_wf(entry: TransferEntry, buffers: Seq<StaticBuffer>) -> bool {
    &&& entry.scatter.wf()
    &&& 0 <= entry.scatter@.length <= buffers[entry.buffer_idx as int]@.len()
    &&& 0 <= entry.scatter@.offset < entry.scatter@.length + 2
}

/// Who holds which buffer: the transfers by priority, the provided buffer, and the free ones.
spec fn holders(transfers: Map<Priority, TransferEntry>, scratchpad: Option<u8>, free: Seq<u8>) -> Lists {
    Seq::new(
        10,
        |c: int|
            if c < 8 {
                let p = Priority::of_code(c);
                if transfers.contains_key(p) {
                    seq![transfers[p].buffer_idx]
                } else {
                    Seq::<u8>::empty()
                }
            } else if c == 8 {
                match scratchpad {
                    Some(idx) => seq![idx],
                    None => Seq::<u8>::empty(),
                }
            } else {
                free
            },
    )
}

/// If one of the first eight lists is empty and none has more than one item, the rest of eight
/// items is in the last two.
proof fn lemma_room(lists: Lists, c: int)
    requires
        lists.len() == 10,
        total(lists) == 8,
        forall|d: int| 0 <= d < 8 ==> (#[trigger] lists[d]).len() <= 1,
        0 <= c < 8,
        lists[c].len() == 0,
    ensures
        lists[8].len() + lists[9].len() >= 1,
{
    reveal_with_fuel(total, 11);
    let l9 = lists.drop_last();
    let l8 = l9.drop_last();
    let l7 = l8.drop_last();
    let l6 = l7.drop_last();
    let l5 = l6.drop_last();
    let l4 = l5.drop_last();
    let l3 = l4.drop_last();
    let l2 = l3.drop_last();
    let l1 = l2.drop_last();
    assert(l1.drop_last() =~= Seq::<Seq<u8>>::empty());
    assert(lists[0].len() <= 1 && lists[1].len() <= 1 && lists[2].len() <= 1 && lists[3].len() <= 1);
    assert(lists[4].len() <= 1 && lists[5].len() <= 1 && lists[6].len() <= 1 && lists[7].len() <= 1);
    assert(total(lists) == lists[0].len() + lists[1].len() + lists[2].len() + lists[3].len() + lists[4].len()
        + lists[5].len() + lists[6].len() + lists[7].len() + lists[8].len() + lists[9].len());
}

impl<T: BufferType> View for ResponseBufferInner<T> {
    type V = ResponseState;

    closed spec fn view(&self) -> ResponseState {
        ResponseState {
            service: self.service,
            transfers: self.transfers@.map_values(|e: TransferEntry| entry_transfer(e, self.buffers@)),
            scratchpad: match self.scratchpad_buffer_idx {
                Some(idx) => Some(self.buffers@[idx as int]@),
                None => None,
            },
            push_waiting: self.non_full_trigger@,
            empty_waiting: is_waiting(self.empty_trigger),
        }
    }
}

impl<T: BufferType> ResponseBufferInner<T> {
    spec fn holders(&self) -> Lists {
        holders(self.transfers@, self.scratchpad_buffer_idx, self.free_buffer_idx@)
    }

    /// Each buffer has one holder, and something is left of each transfer.
    pub closed spec fn wf(&self) -> bool {
        &&& self.buffers@.len() == BUFFER_COUNT
        &&& self.transfers.wf()
        &&& is_disjoint(self.holders(), BUFFER_COUNT as int)
        &&& total(self.holders()) == BUFFER_COUNT
        &&& self.free_buffer_idx@.len() <= BUFFER_COUNT
        &&& forall|p: Priority| #[trigger] self.transfers@.contains_key(p) ==> entry_wf(self.transfers@[p], self.buffers@)
    }

    /// The buffers are large enough for every value of the type.
    pub closed spec fn is_sized(&self) -> bool {
        forall|i: int| 0 <= i < self.buffers@.len() ==> (#[trigger] self.buffers@[i])@.len() == T::capacity()
    }

    /// The buffer that has been provided is large enough.
    pub proof fn lemma_sized(&self)
        requires
            self.wf(),
            self.is_sized(),
        ensures
            self@.scratchpad matches Some(bytes) ==> bytes.len() == T::capacity(),
    {
        if self.scratchpad_buffer_idx is Some {
            assert(self.holders()[8][0] < 8);
        }
    }

    /// A transfer has a buffer of its own.
    proof fn lemma_transfer_index(&self, p: Priority)
        requires
            self.wf(),
            self.transfers@.contains_key(p),
        ensures
            self.transfers@[p].buffer_idx < 8,
            self.scratchpad_buffer_idx matches Some(idx) ==> idx != self.transfers@[p].buffer_idx && idx < 8,
            self.holders()[p.code() as int] == seq![self.transfers@[p].buffer_idx],
    {
        let lists = self.holders();
        let c = p.code() as int;
        lemma_code_bijective(p, p);
        assert(Priority::of_code(c) == p);
        assert(lists[c][0] < 8);
        if self.scratchpad_buffer_idx is Some {
            assert(lists[8][0] < 8);
            assert(lists[8][0] != lists[c][0]);
        }
    }

    /// Nothing is to be sent.
    pub fn new(service: ServiceId, buffers: Vec<StaticBuffer>) -> (r: Self)
        requires
            buffers@.len() == 8,
        ensures
            r.wf(),
            r@ == ResponseState::fresh(service),
            (forall|i: int| 0 <= i < buffers@.len() ==> (#[trigger] buffers@[i])@.len() == T::capacity())
                ==> r.is_sized(),
    {
        let mut free_buffer_idx = ByteStack::new();
        let mut i: u8 = 0;
        while i < 8
            invariant
                i <= 8,
                free_buffer_idx@ == Seq::new(i as nat, |k: int| k as u8),
            decreases 8 - i,
        {
            let _pushed = free_buffer_idx.push(i);
            i = i + 1;
            assert(free_buffer_idx@ =~= Seq::new(i as nat, |k: int| k as u8));
        }
        let r = Self {
            service,
            buffers,
            scratchpad_buffer_idx: None,
            free_buffer_idx,
            transfers: PriorityMap::new(),
            non_full_trigger: PriorityTrigger::new(),
            empty_trigger: new_registration(),
            _phantom: PhantomData,
        };
        proof {
            let lists = r.holders();
            reveal_with_fuel(total, 11);
            lemma_total_empty(lists.drop_last());
            assert(r@.transfers =~= Map::<Priority, TxTransfer>::empty());
        }
        r
    }

    /// Returns the priorities of which a frame can be fetched.
    pub fn pop_readiness(&self) -> (r: PrioritySet)
        requires
            self.wf(),
        ensures
            r@ == self@.pop_ready(),
    {
        proof {
            assert(self@.transfers.dom() =~= self.transfers@.dom());
        }
        self.transfers.keys()
    }

    /// Fetches the next frame of the most urgent priority of the mask.
    pub fn try_pop(&mut self, priority_mask: PrioritySet, mtu: Mtu) -> (r: Option<Frame>)
        requires
            old(self).wf(),
        ensures
            final(self).wf(),
            old(self).is_sized() ==> final(self).is_sized(),
            ({
                let ready = old(self)@.pop_ready().intersect(priority_mask@);
                match r {
                    Some(frame) => {
                        let p = frame.header.priority;
                        &&& PrioritySet::is_first(ready, Some(p))
                        &&& old(self)@.transfers.contains_key(p)
                        &&& old(self)@.transfers[p].wf()
                        &&& old(self)@.transfers[p].is_next_frame(
                            frame,
                            p,
                            DataSpecifier::Response(old(self)@.service),
                            mtu,
                        )
                        &&& final(self)@ == old(self)@.popped(p, mtu)
                    },
                    None => ready == Set::<Priority>::empty() && final(self)@ == old(self)@,
                }
            }),
    {
        let ghost before = *self;
        proof {
            assert(self@.transfers.dom() =~= self.transfers@.dom());
        }
        let ready = self.transfers.keys().intersect(priority_mask);
        let priority: Priority = match ready.first() {
            Some(priority) => priority,
            None => {
                return None;
            },
        };
        proof {
            assert(ready@.contains(priority));
            self.lemma_transfer_index(priority);
        }
        let mut entry: TransferEntry = *self.transfers.get(priority);
        let data = entry.scatter.fetch_frame_data(self.buffers[entry.buffer_idx as usize].as_ref(), mtu).unwrap();
        let frame = Frame {
            header: Header {
                priority,
                data_spec: DataSpecifier::Response(self.service),
                source: None,
                destination: Some(entry.address),
            },
            data,
            timestamp: entry.deadline,
            loop_back: entry.loop_back,
        };
        proof {
            before@.transfers[priority].lemma_frame_length(mtu);
        }
        if entry.scatter.is_exhausted() {
            let _freed = self.free_buffer_idx.push(entry.buffer_idx);
            let _removed = self.transfers.remove(priority);
            self.non_full_trigger.wake(PrioritySet::new_eq(priority));
            proof {
                let lists = before.holders();
                let c = priority.code() as int;
                lemma_disjoint_move(lists, 8, c, 0, 9);
                let after = lists.update(c, lists[c].remove(0)).update(9, lists[9].push(lists[c][0]));
                assert forall|d: int| 0 <= d < 10 implies self.holders()[d] =~= after[d] by {
                    if d < 8 {
                        lemma_code_bijective(Priority::of_code(d), priority);
                    }
                }
                assert(self.holders() =~= after);
                lemma_total_bound(after, 9);
                assert(self@.transfers =~= before@.transfers.remove(priority));
            }
        } else {
            let _replaced = self.transfers.insert(priority, entry);
            proof {
                assert forall|d: int| 0 <= d < 10 implies self.holders()[d] =~= before.holders()[d] by {}
                assert(self.holders() =~= before.holders());
                assert(self@.transfers =~= before@.transfers.insert(
                    priority,
                    before@.transfers[priority].sent(mtu)->0,
                ));
            }
        }
        let none_left: bool = self.transfers.is_empty();
        if none_left {
            wake_registered(&mut self.empty_trigger);
        }
        proof {
            assert(self@.transfers.dom() =~= self.transfers@.dom());
            if before@.transfers[priority].sent(mtu) is Some {
                assert(self@.transfers.contains_key(priority));
            }
        }
        Some(frame)
    }

    /// Tells whether everything has been sent.
    pub fn is_empty(&self) -> (r: bool)
        requires
            self.wf(),
        ensures
            r == (self@.pop_ready() == Set::<Priority>::empty()),
    {
        proof {
            assert(self@.transfers.dom() =~= self.transfers@.dom());
        }
        self.transfers.is_empty()
    }

    /// Lets the task wait until everything has been sent.
    pub fn poll_is_empty(&mut self, waker: &Waker) -> (r: Poll<()>)
        requires
            old(self).wf(),
        ensures
            final(self).wf(),
            old(self).is_sized() ==> final(self).is_sized(),
            r is Ready <==> old(self)@.pop_ready() == Set::<Priority>::empty(),
            final(self)@ == (if r is Ready {
                old(self)@
            } else {
                ResponseState { empty_waiting: true, ..old(self)@ }
            }),
    {
        if self.is_empty() {
            Poll::Ready(())
        } else {
            register_waker(&mut self.empty_trigger, waker);
            Poll::Pending
        }
    }

    /// Returns the priorities of which a transfer can be pushed.
    pub fn push_readiness(&self) -> (r: PrioritySet)
        requires
            self.wf(),
        ensures
            r@ == self@.push_ready(),
    {
        proof {
            assert(self@.transfers.dom() =~= self.transfers@.dom());
        }
        self.transfers.keys().complement()
    }

    /// Lets the task wait until a transfer of one of the priorities can be pushed.
    pub fn poll_push_readiness(&mut self, waker: &Waker, priority_mask: PrioritySet) -> (r: Poll<PrioritySet>)
        requires
            old(self).wf(),
        ensures
            final(self).wf(),
            old(self).is_sized() ==> final(self).is_sized(),
            ({
                let ready = old(self)@.push_ready().intersect(priority_mask@);
                match r {
                    Poll::Ready(set) => {
                        set@ == ready && ready != Set::<Priority>::empty() && final(self)@ == old(self)@
                    },
                    Poll::Pending => {
                        &&& ready == Set::<Priority>::empty()
                        &&& final(self)@ == (ResponseState {
                            push_waiting: Waiting::registered(priority_mask@),
                            ..old(self)@
                        })
                    },
                }
            }),
    {
        let priorities = self.push_readiness().intersect(priority_mask);
        if !priorities.is_empty() {
            Poll::Ready(priorities)
        } else {
            self.non_full_trigger.register(waker, priority_mask);
            Poll::Pending
        }
    }

    /// Returns the buffer for the payload of the next transfer, and the priorities of which it
    /// can be pushed.
    ///
    /// A buffer that is provided for the first time holds what was left in it.
    pub fn get_scratchpad(&mut self) -> (r: Option<(PrioritySet, &mut [u8])>)
        requires
            old(self).wf(),
        ensures
            final(self).wf(),
            match r {
                Some((priorities, buffer)) => {
                    &&& old(self)@.push_ready() != Set::<Priority>::empty()
                    &&& priorities@ == old(self)@.push_ready()
                    &&& old(self)@.scratchpad matches Some(bytes) ==> buffer@ == bytes
                    &&& final(self)@ == (ResponseState { scratchpad: Some(final(buffer)@), ..old(self)@ })
                    &&& old(self).is_sized() ==> buffer@.len() == T::capacity()
                    &&& old(self).is_sized() && final(buffer)@.len() == buffer@.len() ==> final(self).is_sized()
                },
                None => {
                    &&& old(self)@.push_ready() == Set::<Priority>::empty()
                    &&& final(self)@ == old(self)@
                    &&& old(self).is_sized() ==> final(self).is_sized()
                },
            },
    {
        let ghost before = *self;
        let priorities = self.push_readiness();
        if priorities.is_empty() {
            return None;
        }
        if self.scratchpad_buffer_idx.is_none() {
            proof {
                let lists = self.holders();
                let p = choose|p: Priority| priorities@.contains(p);
                assert(priorities@.contains(p)) by {
                    if forall|p: Priority| !priorities@.contains(p) {
                        assert(priorities@ =~= Set::<Priority>::empty());
                    }
                }
                lemma_code_bijective(p, p);
                assert(Priority::of_code(p.code() as int) == p);
                assert(self@.transfers.dom() =~= self.transfers@.dom());
                assert(!self.transfers@.contains_key(p));
                lemma_room(lists, p.code() as int);
            }
            let idx: u8 = self.free_buffer_idx.pop().unwrap();
            self.scratchpad_buffer_idx = Some(idx);
            proof {
                let lists = before.holders();
                let last = lists[9].len() - 1;
                lemma_disjoint_move(lists, 8, 9, last, 8);
                let after = lists.update(9, lists[9].remove(last)).update(8, lists[8].push(lists[9][last]));
                assert(self.holders() =~~= after);
            }
        }
        let idx: u8 = self.scratchpad_buffer_idx.unwrap();
        let ghost middle = *self;
        proof {
            assert(self.holders()[8][0] < 8);
            assert forall|p: Priority| #[trigger] self.transfers@.contains_key(p) implies self.transfers@[p].buffer_idx
                != idx && self.transfers@[p].buffer_idx < 8 by {
                middle.lemma_transfer_index(p);
            }
        }
        let r = self.buffers[idx as usize].as_mut();
        proof {
            middle.lemma_scratchpad_written(idx, final(r)@);
        }
        Some((priorities, r))
    }

    /// Transfers do not change with the provided buffer.
    proof fn lemma_scratchpad_written(self, idx: u8, bytes: Seq<u8>)
        requires
            self.wf(),
            self.scratchpad_buffer_idx == Some(idx),
        ensures
            forall|after: Self|
                after.service == self.service && after.scratchpad_buffer_idx == self.scratchpad_buffer_idx
                    && after.free_buffer_idx == self.free_buffer_idx && after.transfers == self.transfers
                    && after.non_full_trigger == self.non_full_trigger && after.empty_trigger
                    == self.empty_trigger && after.buffers@.len() == self.buffers@.len() && (
                #[trigger] after.buffers@[idx as int])@ == bytes && (forall|i: int|
                    0 <= i < 8 && i != idx ==> after.buffers@[i] == self.buffers@[i]) ==> after.wf()
                    && after@ == (ResponseState { scratchpad: Some(bytes), ..self@ }) && (self.is_sized()
                    && bytes.len() == T::capacity() ==> after.is_sized()),
    {
        assert forall|after: Self|
            after.service == self.service && after.scratchpad_buffer_idx == self.scratchpad_buffer_idx
                && after.free_buffer_idx == self.free_buffer_idx && after.transfers == self.transfers
                && after.non_full_trigger == self.non_full_trigger && after.empty_trigger
                == self.empty_trigger && after.buffers@.len() == self.buffers@.len() && (
            #[trigger] after.buffers@[idx as int])@ == bytes && (forall|i: int|
                0 <= i < 8 && i != idx ==> after.buffers@[i] == self.buffers@[i]) implies after.wf() && after@ == (
        ResponseState { scratchpad: Some(bytes), ..self@ }) && (self.is_sized() && bytes.len() == T::capacity()
            ==> after.is_sized()) by {
            assert forall|p: Priority| #[trigger] self.transfers@.contains_key(p) implies after.buffers@[self.transfers@[p].buffer_idx as int]
                == self.buffers@[self.transfers@[p].buffer_idx as int] by {
                self.lemma_transfer_index(p);
            }
            assert(after.holders() == self.holders());
            assert(after@.transfers =~= self@.transfers);
        }
    }

    /// Takes the first `length` bytes of the provided buffer for transmission.
    pub fn try_push(&mut self, meta: TransferMeta, length: usize, crc: TransferCrc) -> (r: Result<(), BufferError>)
        requires
            old(self).wf(),
            old(self)@.scratchpad matches Some(bytes) ==> length <= bytes.len(),
            length + 2 <= usize::MAX,
        ensures
            final(self).wf(),
            old(self).is_sized() ==> final(self).is_sized(),
            match old(self)@.refusal(meta) {
                Some(error) => r == Err::<(), BufferError>(error) && final(self)@ == old(self)@,
                None => r is Ok && final(self)@ == old(self)@.pushed(meta, length as int, crc@),
            },
    {
        let ghost before = *self;
        proof {
            assert(self@.transfers.dom() =~= self.transfers@.dom());
        }
        let address: NodeId = match meta.address {
            Some(address) => address,
            None => {
                return Err(BufferError::ServiceAddressNotSpecified);
            },
        };
        if !self.push_readiness().contains(meta.priority) {
            return Err(BufferError::PriorityNotReady);
        }
        let buffer_idx: u8 = match self.scratchpad_buffer_idx.take() {
            Some(idx) => idx,
            None => {
                assert(self.holders() =~= before.holders());
                return Err(BufferError::ScratchpadNotInitialized);
            },
        };
        proof {
            assert(before.holders()[8][0] < 8);
        }
        let scatter = Scatter::new(
            meta.transfer_id,
            self.buffers[buffer_idx as usize].as_ref(),
            length,
            crc,
        );
        let entry = TransferEntry {
            address,
            scatter,
            deadline: meta.timestamp,
            buffer_idx,
            loop_back: meta.loop_back,
        };
        let _previous = self.transfers.insert(meta.priority, entry);
        proof {
            let lists = before.holders();
            let c = meta.priority.code() as int;
            lemma_code_bijective(meta.priority, meta.priority);
            assert(Priority::of_code(c) == meta.priority);
            lemma_disjoint_move(lists, 8, 8, 0, c);
            let after = lists.update(8, lists[8].remove(0)).update(c, lists[c].push(lists[8][0]));
            assert forall|d: int| 0 <= d < 10 implies self.holders()[d] =~= after[d] by {
                if d < 8 {
                    lemma_code_bijective(Priority::of_code(d), meta.priority);
                }
            }
            assert(self.holders() =~= after);
            assert(self@.transfers =~= before@.pushed(meta, length as int, crc@).transfers);
        }
        Ok(())
    }
}

impl<T: BufferType> DynamicTxBuffer for ResponseBufferInner<T> {
    type State = ResponseState;

    open spec fn wf(&self) -> bool {
        self.wf()
    }

    open spec fn state(&self) -> ResponseState {
        self@
    }

    open spec fn is_service(state: ResponseState) -> bool {
        true
    }

    open spec fn capacity(state: ResponseState) -> nat {
        T::capacity()
    }

    open spec fn is_sized(&self) -> bool {
        self.is_sized()
    }

    open spec fn pop_ready(state: ResponseState) -> Set<Priority> {
        state.pop_ready()
    }

    open spec fn push_ready(state: ResponseState) -> Set<Priority> {
        state.push_ready()
    }

    open spec fn is_fetch(before: ResponseState, priorities: Set<Priority>, mtu: Mtu, frame: Option<Frame>, after: ResponseState) -> bool {
        match frame {
            Some(frame) => {
                let p = frame.header.priority;
                &&& PrioritySet::is_first(before.pop_ready().intersect(priorities), Some(p))
                &&& before.transfers.contains_key(p)
                &&& before.transfers[p].wf()
                &&& before.transfers[p].is_next_frame(frame, p, DataSpecifier::Response(before.service), mtu)
                &&& after == before.popped(p, mtu)
            },
            None => before.pop_ready().intersect(priorities) == Set::<Priority>::empty() && after == before,
        }
    }

    open spec fn after_wait_empty(state: ResponseState) -> ResponseState {
        ResponseState { empty_waiting: true, ..state }
    }

    open spec fn after_wait_push(state: ResponseState, priorities: Set<Priority>) -> ResponseState {
        ResponseState { push_waiting: Waiting::registered(priorities), ..state }
    }

    open spec fn scratchpad(state: ResponseState) -> Option<Seq<u8>> {
        state.scratchpad
    }

    open spec fn after_write(state: ResponseState, bytes: Seq<u8>) -> ResponseState {
        ResponseState { scratchpad: Some(bytes), ..state }
    }

    open spec fn refusal(state: ResponseState, meta: TransferMeta) -> Option<BufferError> {
        state.refusal(meta)
    }

    open spec fn after_push(state: ResponseState, meta: TransferMeta, length: int, crc: u16) -> ResponseState {
        state.pushed(meta, length, crc)
    }

    fn pop_readiness(&self) -> (r: PrioritySet) {
        self.pop_readiness()
    }

    fn try_pop(&mut self, priority_mask: PrioritySet, mtu: Mtu) -> (r: Option<Frame>) {
        let ghost before = self@;
        let r = self.try_pop(priority_mask, mtu);
        proof {
            if let Some(frame) = r {
                before.transfers[frame.header.priority].lemma_frame_length(mtu);
            }
        }
        r
    }

    fn is_empty(&self) -> (r: bool) {
        self.is_empty()
    }

    fn poll_is_empty(&mut self, waker: &Waker) -> (r: Poll<()>) {
        self.poll_is_empty(waker)
    }

    fn push_readiness(&self) -> (r: PrioritySet) {
        self.push_readiness()
    }

    fn poll_push_readiness(&mut self, waker: &Waker, priority_mask: PrioritySet) -> (r: Poll<PrioritySet>) {
        self.poll_push_readiness(waker, priority_mask)
    }

    fn get_scratchpad(&mut self) -> (r: Option<(PrioritySet, &mut [u8])>) {
        self.get_scratchpad()
    }

    fn try_push(&mut self, meta: TransferMeta, length: usize, crc: TransferCrc) -> (r: Result<(), BufferError>) {
        self.try_push(meta, length, crc)
    }

    proof fn lemma_after_write(state: ResponseState, bytes: Seq<u8>) {
    }

    proof fn lemma_after_wait(state: ResponseState, priorities: Set<Priority>) {
    }

    proof fn lemma_after_push(state: ResponseState, meta: TransferMeta, length: int, crc: u16) {
    }

    proof fn lemma_after_fetch(
        before: ResponseState,
        priorities: Set<Priority>,
        mtu: Mtu,
        frame: Option<Frame>,
        after: ResponseState,
    ) {
    }

    proof fn lemma_taken(state: ResponseState, meta: TransferMeta) {
    }

    proof fn lemma_still_ready(state: ResponseState, bytes: Seq<u8>, priorities: Set<Priority>) {
    }

    proof fn lemma_written(state: ResponseState, bytes: Seq<u8>) {
    }
}

/// Blocking response buffer.
///
/// The buffer holds a single transfer of each priority. It takes the next one only after all
/// frames of the previous one of the same priority have been fetched. There are eight payload
/// buffers.
pub struct Blocking<T: BufferType> {
    buffers: Vec<StaticBuffer>,
    _phantom: PhantomData<T>,
}

impl<T: BufferType> Blocking<T> {
    /// There are eight payload buffers.
    pub closed spec fn wf(&self) -> bool {
        &&& self.buffers@.len() == BUFFER_COUNT
        &&& forall|i: int| 0 <= i < self.buffers@.len() ==> (#[trigger] self.buffers@[i])@.len() == T::capacity()
    }

    /// Allocates the payload buffers.
    pub fn new() -> (r: Self)
        ensures
            r.wf(),
    {
        let mut buffers: Vec<StaticBuffer> = Vec::new();
        let mut i: usize = 0;
        while i < BUFFER_COUNT
            invariant
                i <= BUFFER_COUNT,
                buffers@.len() == i,
                forall|k: int| 0 <= k < i ==> (#[trigger] buffers@[k])@.len() == T::capacity(),
            decreases BUFFER_COUNT - i,
        {
            buffers.push(T::new_buffer());
            i = i + 1;
        }
        Self { buffers, _phantom: PhantomData }
    }
}

impl<T: BufferType> Default for Blocking<T> {
    fn default() -> (r: Self)
        ensures
            r.wf(),
    {
        Self::new()
    }
}

impl<T: BufferType> Buffer<T> for Blocking<T> {
    type Inner = ResponseBufferInner<T>;

    open spec fn wf(&self) -> bool {
        self.wf()
    }

    open spec fn fresh(service: ServiceId) -> ResponseState {
        ResponseState::fresh(service)
    }

    fn init(self, service: ServiceId) -> (r: ResponseBufferInner<T>) {
        ResponseBufferInner::new(service, self.buffers)
    }
}

} // verus!
