//! Buffers of two kinds side by side.

use core::marker::PhantomData;
use core::task::Waker;
use vstd::prelude::*;

use crate::buffer::{rx_msg, rx_req, tx_msg, tx_resp, BufferError, DynamicRxBuffer, DynamicTxBuffer};
use crate::encoding::BufferType;
use crate::endpoint::TransferMeta;
use crate::format::TransferCrc;
use crate::frame::{Frame, Mtu};
use crate::ids::{ServiceId, SubjectId};
use crate::priority::{Priority, PrioritySet};
use crate::task::Poll;
use crate::time::Duration;

verus! {

/// A buffer of one of two kinds, so that endpoints with different buffers can be registered at
/// the same place.
pub enum Either<A, B> {
    /// A buffer of the first kind.
    First(A),
    /// A buffer of the second kind.
    Second(B),
}

impl<A: DynamicRxBuffer, B: DynamicRxBuffer> DynamicRxBuffer for Either<A, B> {
    type State = Either<A::State, B::State>;

    open spec fn wf(&self) -> bool {
        match self {
            Either::First(a) => a.wf(),
            Either::Second(b) => b.wf(),
        }
    }

    open spec fn state(&self) -> Either<A::State, B::State> {
        match self {
            Either::First(a) => Either::First(a.state()),
            Either::Second(b) => Either::Second(b.state()),
        }
    }

    open spec fn after_frame(state: Either<A::State, B::State>, frame: Frame) -> Either<A::State, B::State> {
        match state {
            Either::First(a) => Either::First(A::after_frame(a, frame)),
            Either::Second(b) => Either::Second(B::after_frame(b, frame)),
        }
    }

    open spec fn after_wait(state: Either<A::State, B::State>, priorities: Set<Priority>) -> Either<
        A::State,
        B::State,
    > {
        match state {
            Either::First(a) => Either::First(A::after_wait(a, priorities)),
            Either::Second(b) => Either::Second(B::after_wait(b, priorities)),
        }
    }

    open spec fn ready(state: Either<A::State, B::State>) -> Set<Priority> {
        match state {
            Either::First(a) => A::ready(a),
            Either::Second(b) => B::ready(b),
        }
    }

    open spec fn count(state: Either<A::State, B::State>) -> nat {
        match state {
            Either::First(a) => A::count(a),
            Either::Second(b) => B::count(b),
        }
    }

    open spec fn is_fetch(
        before: Either<A::State, B::State>,
        priorities: Set<Priority>,
        transfer: Option<(TransferMeta, Seq<u8>)>,
        after: Either<A::State, B::State>,
    ) -> bool {
        match (before, after) {
            (Either::First(x), Either::First(y)) => A::is_fetch(x, priorities, transfer, y),
            (Either::Second(x), Either::Second(y)) => B::is_fetch(x, priorities, transfer, y),
            _ => false,
        }
    }

    fn push_frame(&mut self, frame: &Frame, mtu: Mtu) {
        match self {
            Either::First(a) => a.push_frame(frame, mtu),
            Either::Second(b) => b.push_frame(frame, mtu),
        }
    }

    fn pop_readiness(&self) -> (r: PrioritySet) {
        match self {
            Either::First(a) => a.pop_readiness(),
            Either::Second(b) => b.pop_readiness(),
        }
    }

    fn poll_pop_readiness(&mut self, waker: &Waker, priority_mask: PrioritySet) -> (r: Poll<PrioritySet>) {
        match self {
            Either::First(a) => a.poll_pop_readiness(waker, priority_mask),
            Either::Second(b) => b.poll_pop_readiness(waker, priority_mask),
        }
    }

    fn try_pop(&mut self, priority_mask: PrioritySet) -> (r: Option<(TransferMeta, &[u8])>) {
        match self {
            Either::First(a) => a.try_pop(priority_mask),
            Either::Second(b) => b.try_pop(priority_mask),
        }
    }

    proof fn lemma_count(
        before: Either<A::State, B::State>,
        priorities: Set<Priority>,
        transfer: Option<(TransferMeta, Seq<u8>)>,
        after: Either<A::State, B::State>,
    ) {
        match (before, after) {
            (Either::First(x), Either::First(y)) => A::lemma_count(x, priorities, transfer, y),
            (Either::Second(x), Either::Second(y)) => B::lemma_count(x, priorities, transfer, y),
            _ => {},
        }
    }
}

impl<A: DynamicTxBuffer, B: DynamicTxBuffer> DynamicTxBuffer for Either<A, B> {
    type State = Either<A::State, B::State>;

    open spec fn wf(&self) -> bool {
        match self {
            Either::First(a) => a.wf(),
            Either::Second(b) => b.wf(),
        }
    }

    open spec fn state(&self) -> Either<A::State, B::State> {
        match self {
            Either::First(a) => Either::First(a.state()),
            Either::Second(b) => Either::Second(b.state()),
        }
    }

    open spec fn is_service(state: Either<A::State, B::State>) -> bool {
        match state {
            Either::First(a) => A::is_service(a),
            Either::Second(b) => B::is_service(b),
        }
    }

    open spec fn capacity(state: Either<A::State, B::State>) -> nat {
        match state {
            Either::First(a) => A::capacity(a),
            Either::Second(b) => B::capacity(b),
        }
    }

    open spec fn is_sized(&self) -> bool {
        match self {
            Either::First(a) => a.is_sized(),
            Either::Second(b) => b.is_sized(),
        }
    }

    open spec fn pop_ready(state: Either<A::State, B::State>) -> Set<Priority> {
        match state {
            Either::First(a) => A::pop_ready(a),
            Either::Second(b) => B::pop_ready(b),
        }
    }

    open spec fn push_ready(state: Either<A::State, B::State>) -> Set<Priority> {
        match state {
            Either::First(a) => A::push_ready(a),
            Either::Second(b) => B::push_ready(b),
        }
    }

    open spec fn is_fetch(
        before: Either<A::State, B::State>,
        priorities: Set<Priority>,
        mtu: Mtu,
        frame: Option<Frame>,
        after: Either<A::State, B::State>,
    ) -> bool {
        match (before, after) {
            (Either::First(x), Either::First(y)) => A::is_fetch(x, priorities, mtu, frame, y),
            (Either::Second(x), Either::Second(y)) => B::is_fetch(x, priorities, mtu, frame, y),
            _ => false,
        }
    }

    open spec fn after_wait_empty(state: Either<A::State, B::State>) -> Either<A::State, B::State> {
        match state {
            Either::First(a) => Either::First(A::after_wait_empty(a)),
            Either::Second(b) => Either::Second(B::after_wait_empty(b)),
        }
    }

    open spec fn after_wait_push(state: Either<A::State, B::State>, priorities: Set<Priority>) -> Either<
        A::State,
        B::State,
    > {
        match state {
            Either::First(a) => Either::First(A::after_wait_push(a, priorities)),
            Either::Second(b) => Either::Second(B::after_wait_push(b, priorities)),
        }
    }

    open spec fn scratchpad(state: Either<A::State, B::State>) -> Option<Seq<u8>> {
        match state {
            Either::First(a) => A::scratchpad(a),
            Either::Second(b) => B::scratchpad(b),
        }
    }

    open spec fn after_write(state: Either<A::State, B::State>, bytes: Seq<u8>) -> Either<A::State, B::State> {
        match state {
            Either::First(a) => Either::First(A::after_write(a, bytes)),
            Either::Second(b) => Either::Second(B::after_write(b, bytes)),
        }
    }

    open spec fn refusal(state: Either<A::State, B::State>, meta: TransferMeta) -> Option<BufferError> {
        match state {
            Either::First(a) => A::refusal(a, meta),
            Either::Second(b) => B::refusal(b, meta),
        }
    }

    open spec fn after_push(
        state: Either<A::State, B::State>,
        meta: TransferMeta,
        length: int,
        crc: u16,
    ) -> Either<A::State, B::State> {
        match state {
            Either::First(a) => Either::First(A::after_push(a, meta, length, crc)),
            Either::Second(b) => Either::Second(B::after_push(b, meta, length, crc)),
        }
    }

    fn pop_readiness(&self) -> (r: PrioritySet) {
        match self {
            Either::First(a) => a.pop_readiness(),
            Either::Second(b) => b.pop_readiness(),
        }
    }

    fn try_pop(&mut self, priority_mask: PrioritySet, mtu: Mtu) -> (r: Option<Frame>) {
        match self {
            Either::First(a) => a.try_pop(priority_mask, mtu),
            Either::Second(b) => b.try_pop(priority_mask, mtu),
        }
    }

    fn is_empty(&self) -> (r: bool) {
        match self {
            Either::First(a) => a.is_empty(),
            Either::Second(b) => b.is_empty(),
        }
    }

    fn poll_is_empty(&mut self, waker: &Waker) -> (r: Poll<()>) {
        match self {
            Either::First(a) => a.poll_is_empty(waker),
            Either::Second(b) => b.poll_is_empty(waker),
        }
    }

    fn push_readiness(&self) -> (r: PrioritySet) {
        match self {
            Either::First(a) => a.push_readiness(),
            Either::Second(b) => b.push_readiness(),
        }
    }

    fn poll_push_readiness(&mut self, waker: &Waker, priority_mask: PrioritySet) -> (r: Poll<PrioritySet>) {
        match self {
            Either::First(a) => a.poll_push_readiness(waker, priority_mask),
            Either::Second(b) => b.poll_push_readiness(waker, priority_mask),
        }
    }

    fn get_scratchpad(&mut self) -> (r: Option<(PrioritySet, &mut [u8])>) {
        match self {
            Either::First(a) => a.get_scratchpad(),
            Either::Second(b) => b.get_scratchpad(),
        }
    }

    fn try_push(&mut self, meta: TransferMeta, length: usize, crc: TransferCrc) -> (r: Result<(), BufferError>) {
        match self {
            Either::First(a) => a.try_push(meta, length, crc),
            Either::Second(b) => b.try_push(meta, length, crc),
        }
    }

    proof fn lemma_after_write(state: Either<A::State, B::State>, bytes: Seq<u8>) {
        match state {
            Either::First(a) => A::lemma_after_write(a, bytes),
            Either::Second(b) => B::lemma_after_write(b, bytes),
        }
    }

    proof fn lemma_after_wait(state: Either<A::State, B::State>, priorities: Set<Priority>) {
        match state {
            Either::First(a) => A::lemma_after_wait(a, priorities),
            Either::Second(b) => B::lemma_after_wait(b, priorities),
        }
    }

    proof fn lemma_after_push(state: Either<A::State, B::State>, meta: TransferMeta, length: int, crc: u16) {
        match state {
            Either::First(a) => A::lemma_after_push(a, meta, length, crc),
            Either::Second(b) => B::lemma_after_push(b, meta, length, crc),
        }
    }

    proof fn lemma_after_fetch(
        before: Either<A::State, B::State>,
        priorities: Set<Priority>,
        mtu: Mtu,
        frame: Option<Frame>,
        after: Either<A::State, B::State>,
    ) {
        match (before, after) {
            (Either::First(x), Either::First(y)) => A::lemma_after_fetch(x, priorities, mtu, frame, y),
            (Either::Second(x), Either::Second(y)) => B::lemma_after_fetch(x, priorities, mtu, frame, y),
            _ => {},
        }
    }

    proof fn lemma_taken(state: Either<A::State, B::State>, meta: TransferMeta) {
        match state {
            Either::First(a) => A::lemma_taken(a, meta),
            Either::Second(b) => B::lemma_taken(b, meta),
        }
    }

    proof fn lemma_still_ready(state: Either<A::State, B::State>, bytes: Seq<u8>, priorities: Set<Priority>) {
        match state {
            Either::First(a) => A::lemma_still_ready(a, bytes, priorities),
            Either::Second(b) => B::lemma_still_ready(b, bytes, priorities),
        }
    }

    proof fn lemma_written(state: Either<A::State, B::State>, bytes: Seq<u8>) {
        match state {
            Either::First(a) => A::lemma_written(a, bytes),
            Either::Second(b) => B::lemma_written(b, bytes),
        }
    }
}

/// A buffer that becomes one of the first kind.
pub struct AsFirst<Buf, Other> {
    buffer: Buf,
    _phantom: PhantomData<Other>,
}

impl<Buf, Other> AsFirst<Buf, Other> {
    /// The buffer.
    pub closed spec fn buffer(&self) -> Buf {
        self.buffer
    }

    /// Makes a buffer of one of two kinds.
    pub fn new(buffer: Buf) -> (r: Self)
        ensures
            r.buffer() == buffer,
    {
        Self { buffer, _phantom: PhantomData }
    }
}

/// A buffer that becomes one of the second kind.
pub struct AsSecond<Buf, Other> {
    buffer: Buf,
    _phantom: PhantomData<Other>,
}

impl<Buf, Other> AsSecond<Buf, Other> {
    /// The buffer.
    pub closed spec fn buffer(&self) -> Buf {
        self.buffer
    }

    /// Makes a buffer of one of two kinds.
    pub fn new(buffer: Buf) -> (r: Self)
        ensures
            r.buffer() == buffer,
    {
        Self { buffer, _phantom: PhantomData }
    }
}

impl<T, Buf: rx_msg::Buffer<T>, Other: DynamicRxBuffer> rx_msg::Buffer<T> for AsFirst<Buf, Other> {
    type Inner = Either<Buf::Inner, Other>;

    open spec fn wf(&self) -> bool {
        self.buffer().wf()
    }

    open spec fn fresh(subject: SubjectId, timeout: Duration) -> Either<<Buf::Inner as DynamicRxBuffer>::State, Other::State> {
        Either::First(Buf::fresh(subject, timeout))
    }

    fn init(self, subject: SubjectId, timeout: Duration) -> (r: Self::Inner) {
        Either::First(self.buffer.init(subject, timeout))
    }
}

impl<T, Buf: rx_msg::Buffer<T>, Other: DynamicRxBuffer> rx_msg::Buffer<T> for AsSecond<Buf, Other> {
    type Inner = Either<Other, Buf::Inner>;

    open spec fn wf(&self) -> bool {
        self.buffer().wf()
    }

    open spec fn fresh(subject: SubjectId, timeout: Duration) -> Either<Other::State, <Buf::Inner as DynamicRxBuffer>::State> {
        Either::Second(Buf::fresh(subject, timeout))
    }

    fn init(self, subject: SubjectId, timeout: Duration) -> (r: Self::Inner) {
        Either::Second(self.buffer.init(subject, timeout))
    }
}

impl<T, Buf: rx_req::Buffer<T>, Other: DynamicRxBuffer> rx_req::Buffer<T> for AsFirst<Buf, Other> {
    type Inner = Either<Buf::Inner, Other>;

    open spec fn wf(&self) -> bool {
        self.buffer().wf()
    }

    open spec fn fresh(service: ServiceId, timeout: Duration) -> Either<<Buf::Inner as DynamicRxBuffer>::State, Other::State> {
        Either::First(Buf::fresh(service, timeout))
    }

    fn init(self, service: ServiceId, timeout: Duration) -> (r: Self::Inner) {
        Either::First(self.buffer.init(service, timeout))
    }
}

impl<T, Buf: rx_req::Buffer<T>, Other: DynamicRxBuffer> rx_req::Buffer<T> for AsSecond<Buf, Other> {
    type Inner = Either<Other, Buf::Inner>;

    open spec fn wf(&self) -> bool {
        self.buffer().wf()
    }

    open spec fn fresh(service: ServiceId, timeout: Duration) -> Either<Other::State, <Buf::Inner as DynamicRxBuffer>::State> {
        Either::Second(Buf::fresh(service, timeout))
    }

    fn init(self, service: ServiceId, timeout: Duration) -> (r: Self::Inner) {
        Either::Second(self.buffer.init(service, timeout))
    }
}

impl<T: BufferType, Buf: tx_msg::Buffer<T>, Other: DynamicTxBuffer> tx_msg::Buffer<T> for AsFirst<Buf, Other> {
    type Inner = Either<Buf::Inner, Other>;

    open spec fn wf(&self) -> bool {
        self.buffer().wf()
    }

    open spec fn fresh(subject: SubjectId, priority: Priority) -> Either<<Buf::Inner as DynamicTxBuffer>::State, Other::State> {
        Either::First(Buf::fresh(subject, priority))
    }

    fn init(self, subject: SubjectId, priority: Priority) -> (r: Self::Inner) {
        Either::First(self.buffer.init(subject, priority))
    }
}

impl<T: BufferType, Buf: tx_msg::Buffer<T>, Other: DynamicTxBuffer> tx_msg::Buffer<T> for AsSecond<Buf, Other> {
    type Inner = Either<Other, Buf::Inner>;

    open spec fn wf(&self) -> bool {
        self.buffer().wf()
    }

    open spec fn fresh(subject: SubjectId, priority: Priority) -> Either<Other::State, <Buf::Inner as DynamicTxBuffer>::State> {
        Either::Second(Buf::fresh(subject, priority))
    }

    fn init(self, subject: SubjectId, priority: Priority) -> (r: Self::Inner) {
        Either::Second(self.buffer.init(subject, priority))
    }
}

impl<T: BufferType, Buf: tx_resp::Buffer<T>, Other: DynamicTxBuffer> tx_resp::Buffer<T> for AsFirst<Buf, Other> {
    type Inner = Either<Buf::Inner, Other>;

    open spec fn wf(&self) -> bool {
        self.buffer().wf()
    }

    open spec fn fresh(service: ServiceId) -> Either<<Buf::Inner as DynamicTxBuffer>::State, Other::State> {
        Either::First(Buf::fresh(service))
    }

    fn init(self, service: ServiceId) -> (r: Self::Inner) {
        Either::First(self.buffer.init(service))
    }
}

impl<T: BufferType, Buf: tx_resp::Buffer<T>, Other: DynamicTxBuffer> tx_resp::Buffer<T> for AsSecond<Buf, Other> {
    type Inner = Either<Other, Buf::Inner>;

    open spec fn wf(&self) -> bool {
        self.buffer().wf()
    }

    open spec fn fresh(service: ServiceId) -> Either<Other::State, <Buf::Inner as DynamicTxBuffer>::State> {
        Either::Second(Buf::fresh(service))
    }

    fn init(self, service: ServiceId) -> (r: Self::Inner) {
        Either::Second(self.buffer.init(service))
    }
}

/// A receive buffer of two kinds does what the buffer does that it is.
pub proof fn law_rx_buffer_of_either_kind<A: DynamicRxBuffer, B: DynamicRxBuffer>(
    a: A::State,
    b: B::State,
    frame: Frame,
    priorities: Set<Priority>,
    transfer: Option<(TransferMeta, Seq<u8>)>,
    x: A::State,
    y: B::State,
)
    ensures
        Either::<A, B>::after_frame(Either::First(a), frame) == Either::<A::State, B::State>::First(
            A::after_frame(a, frame),
        ),
        Either::<A, B>::after_frame(Either::Second(b), frame) == Either::<A::State, B::State>::Second(
            B::after_frame(b, frame),
        ),
        Either::<A, B>::after_wait(Either::First(a), priorities) == Either::<A::State, B::State>::First(
            A::after_wait(a, priorities),
        ),
        Either::<A, B>::after_wait(Either::Second(b), priorities) == Either::<A::State, B::State>::Second(
            B::after_wait(b, priorities),
        ),
        Either::<A, B>::ready(Either::First(a)) == A::ready(a),
        Either::<A, B>::ready(Either::Second(b)) == B::ready(b),
        Either::<A, B>::is_fetch(Either::First(a), priorities, transfer, Either::First(x)) <==> A::is_fetch(
            a,
            priorities,
            transfer,
            x,
        ),
        Either::<A, B>::is_fetch(Either::Second(b), priorities, transfer, Either::Second(y)) <==> B::is_fetch(
            b,
            priorities,
            transfer,
            y,
        ),
        !Either::<A, B>::is_fetch(Either::First(a), priorities, transfer, Either::Second(y)),
        !Either::<A, B>::is_fetch(Either::Second(b), priorities, transfer, Either::First(x)),
{
}

/// A transmit buffer of two kinds does what the buffer does that it is.
pub proof fn law_tx_buffer_of_either_kind<A: DynamicTxBuffer, B: DynamicTxBuffer>(
    a: A::State,
    b: B::State,
    priorities: Set<Priority>,
    mtu: Mtu,
    frame: Option<Frame>,
    x: A::State,
    y: B::State,
)
    ensures
        Either::<A, B>::pop_ready(Either::First(a)) == A::pop_ready(a),
        Either::<A, B>::pop_ready(Either::Second(b)) == B::pop_ready(b),
        Either::<A, B>::push_ready(Either::First(a)) == A::push_ready(a),
        Either::<A, B>::push_ready(Either::Second(b)) == B::push_ready(b),
        Either::<A, B>::capacity(Either::First(a)) == A::capacity(a),
        Either::<A, B>::capacity(Either::Second(b)) == B::capacity(b),
        Either::<A, B>::is_service(Either::First(a)) == A::is_service(a),
        Either::<A, B>::is_service(Either::Second(b)) == B::is_service(b),
        Either::<A, B>::is_fetch(Either::First(a), priorities, mtu, frame, Either::First(x)) <==> A::is_fetch(
            a,
            priorities,
            mtu,
            frame,
            x,
        ),
        Either::<A, B>::is_fetch(Either::Second(b), priorities, mtu, frame, Either::Second(y)) <==> B::is_fetch(
            b,
            priorities,
            mtu,
            frame,
            y,
        ),
        !Either::<A, B>::is_fetch(Either::First(a), priorities, mtu, frame, Either::Second(y)),
        !Either::<A, B>::is_fetch(Either::Second(b), priorities, mtu, frame, Either::First(x)),
{
}

/// What is pushed into a transmit buffer of two kinds is pushed into the buffer that it is.
pub proof fn law_push_into_either_kind<A: DynamicTxBuffer, B: DynamicTxBuffer>(
    a: A::State,
    b: B::State,
    bytes: Seq<u8>,
    meta: TransferMeta,
    length: int,
    crc: u16,
    priorities: Set<Priority>,
)
    ensures
        Either::<A, B>::after_write(Either::First(a), bytes) == Either::<A::State, B::State>::First(
            A::after_write(a, bytes),
        ),
        Either::<A, B>::after_write(Either::Second(b), bytes) == Either::<A::State, B::State>::Second(
            B::after_write(b, bytes),
        ),
        Either::<A, B>::refusal(Either::First(a), meta) == A::refusal(a, meta),
        Either::<A, B>::refusal(Either::Second(b), meta) == B::refusal(b, meta),
        Either::<A, B>::after_push(Either::First(a), meta, length, crc) == Either::<A::State, B::State>::First(
            A::after_push(a, meta, length, crc),
        ),
        Either::<A, B>::after_push(Either::Second(b), meta, length, crc) == Either::<A::State, B::State>::Second(
            B::after_push(b, meta, length, crc),
        ),
        Either::<A, B>::scratchpad(Either::First(a)) == A::scratchpad(a),
        Either::<A, B>::scratchpad(Either::Second(b)) == B::scratchpad(b),
        Either::<A, B>::after_wait_empty(Either::First(a)) == Either::<A::State, B::State>::First(
            A::after_wait_empty(a),
        ),
        Either::<A, B>::after_wait_empty(Either::Second(b)) == Either::<A::State, B::State>::Second(
            B::after_wait_empty(b),
        ),
        Either::<A, B>::after_wait_push(Either::First(a), priorities) == Either::<A::State, B::State>::First(
            A::after_wait_push(a, priorities),
        ),
        Either::<A, B>::after_wait_push(Either::Second(b), priorities) == Either::<A::State, B::State>::Second(
            B::after_wait_push(b, priorities),
        ),
{
}

} // verus!
