//! Whole transfers on their way through a transmit buffer.

use vstd::prelude::*;

use crate::buffer::delivery::transfer_frames;
use crate::buffer::round_trip::{frames, lemma_progress};
use crate::buffer::tx_msg::blocking::{BlockingState, Inner as BlockingInner};
use crate::buffer::tx_msg::signal::{Inner as SignalInner, SignalState};
use crate::buffer::tx_msg::{Blocking, Signal};
use crate::buffer::tx_resp::blocking::{ResponseBufferInner, ResponseState};
use crate::buffer::tx_resp::Blocking as ResponseBlocking;
use crate::buffer::tx_transfer::TxTransfer;
use crate::buffer::{tx_msg, tx_resp, BufferError, DynamicTxBuffer};
use crate::encoding::BufferType;
use crate::endpoint::TransferMeta;
use crate::format::{crc_bytes, CRC_INIT};
use crate::frame::{DataSpecifier, Frame, Mtu};

use crate::ids::{ServiceId, SubjectId};
use crate::priority::Priority;

verus! {

/// The frame number `k` of a transfer: the data are those of the list of frames, and the rest is what
/// is known of the transfer. A node adds its own address as the source.
pub open spec fn is_frame_of(
    frame: Frame,
    k: int,
    meta: TransferMeta,
    data: Seq<u8>,
    data_spec: DataSpecifier,
    mtu: Mtu,
) -> bool {
    &&& 0 <= k < transfer_frames(meta.transfer_id, data, mtu).len()
    &&& frame.data@ == transfer_frames(meta.transfer_id, data, mtu)[k]
    &&& frame.header.priority == meta.priority
    &&& frame.header.data_spec == data_spec
    &&& frame.header.source is None
    &&& frame.header.destination == meta.address
    &&& frame.timestamp == meta.timestamp
    &&& frame.loop_back == meta.loop_back
}

/// The first `k` frames of a transfer have been sent, and the other ones are left.
spec fn is_left(t: Option<TxTransfer>, k: int, meta: TransferMeta, data: Seq<u8>, mtu: Mtu) -> bool {
    let list = transfer_frames(meta.transfer_id, data, mtu);
    match t {
        Some(t) => {
            &&& 0 <= k < list.len()
            &&& t.wf()
            &&& t.data == data
            &&& frames(t.outgoing, data, mtu) == list.subrange(k, list.len() as int)
            &&& t.destination == meta.address
            &&& t.deadline == meta.timestamp
            &&& t.loop_back == meta.loop_back
        },
        None => k == list.len(),
    }
}

/// A transfer that was just pushed has all its frames left.
proof fn lemma_all_left(meta: TransferMeta, bytes: Seq<u8>, data: Seq<u8>, mtu: Mtu)
    requires
        data.len() <= bytes.len(),
        bytes.take(data.len() as int) == data,
    ensures
        is_left(
            Some(TxTransfer::fresh(meta, bytes, data.len() as int, crc_bytes(CRC_INIT, data))),
            0,
            meta,
            data,
            mtu,
        ),
{
    let list = transfer_frames(meta.transfer_id, data, mtu);
    assert(list.subrange(0, list.len() as int) =~= list);
}

/// The next frame is the next one of the list.
proof fn lemma_one_less(t: TxTransfer, k: int, meta: TransferMeta, data: Seq<u8>, mtu: Mtu)
    requires
        is_left(Some(t), k, meta, data, mtu),
    ensures
        t.outgoing.frame(t.data, mtu.size() as int) == transfer_frames(meta.transfer_id, data, mtu)[k],
        is_left(t.sent(mtu), k + 1, meta, data, mtu),
{
    let list = transfer_frames(meta.transfer_id, data, mtu);
    let size = mtu.size() as int;
    let rest = list.subrange(k, list.len() as int);
    let next = t.outgoing.sent(data, size);
    lemma_progress(t.outgoing, data, mtu);
    assert(rest == seq![t.outgoing.frame(data, size)] + frames(next, data, mtu));
    assert(rest[0] == t.outgoing.frame(data, size));
    assert(rest.drop_first() =~= frames(next, data, mtu));
    assert(rest.drop_first() =~= list.subrange(k + 1, list.len() as int));
    assert(rest.len() == 1 + frames(next, data, mtu).len());
    if next.done() {
        assert(frames(next, data, mtu) =~= Seq::<Seq<u8>>::empty());
    } else {
        assert(frames(next, data, mtu).len() > 0);
    }
}

/// The states follow each other, and a frame is fetched at each step.
pub open spec fn is_fetched_from<B: DynamicTxBuffer>(
    trail: Seq<B::State>,
    list: Seq<Frame>,
    priorities: Set<Priority>,
    mtu: Mtu,
) -> bool {
    &&& trail.len() == list.len() + 1
    &&& forall|i: int|
        0 <= i < list.len() ==> B::is_fetch(trail[i], priorities, mtu, Some(#[trigger] list[i]), trail[i + 1])
}

/// A message that was pushed into an idle buffer is sent as it is: the frames that are fetched are
/// those of its payload in their order, with its priority, subject, deadline and identifier. No
/// further message is taken until the last frame has been fetched, and then the next one is.
pub proof fn law_blocking_sends_message<T: BufferType>(
    state: BlockingState,
    meta: TransferMeta,
    bytes: Seq<u8>,
    data: Seq<u8>,
    mtu: Mtu,
    trail: Seq<BlockingState>,
    list: Seq<Frame>,
)
    requires
        state.pending is None,
        meta.address is None,
        meta.priority == state.priority,
        data.len() <= bytes.len(),
        bytes.take(data.len() as int) == data,
        is_fetched_from::<BlockingInner<T>>(trail, list, Set::full(), mtu),
        trail[0] == BlockingInner::<T>::after_push(
            BlockingInner::<T>::after_write(state, bytes),
            meta,
            data.len() as int,
            crc_bytes(CRC_INIT, data),
        ),
    ensures
        BlockingInner::<T>::refusal(BlockingInner::<T>::after_write(state, bytes), meta) is None,
        list.len() <= transfer_frames(meta.transfer_id, data, mtu).len(),
        forall|i: int|
            0 <= i < list.len() ==> is_frame_of(
                #[trigger] list[i],
                i,
                meta,
                data,
                DataSpecifier::Message(state.subject),
                mtu,
            ),
        trail.last().subject == state.subject,
        trail.last().priority == state.priority,
        list.len() < transfer_frames(meta.transfer_id, data, mtu).len() ==> {
            &&& forall|p: Priority| #[trigger]
                BlockingInner::<T>::pop_ready(trail.last()).contains(p) <==> p == state.priority
            &&& forall|p: Priority| !#[trigger] BlockingInner::<T>::push_ready(trail.last()).contains(p)
        },
        list.len() == transfer_frames(meta.transfer_id, data, mtu).len() ==> {
            &&& forall|p: Priority| !#[trigger] BlockingInner::<T>::pop_ready(trail.last()).contains(p)
            &&& forall|p: Priority| #[trigger]
                BlockingInner::<T>::push_ready(trail.last()).contains(p) <==> p == state.priority
        },
    decreases list.len(),
{
    if list.len() == 0 {
        lemma_all_left(meta, bytes, data, mtu);
    } else {
        let n = list.len() - 1;
        let before = trail.drop_last();
        let shorter = list.drop_last();
        assert forall|i: int| 0 <= i < shorter.len() implies BlockingInner::<T>::is_fetch(
            before[i],
            Set::full(),
            mtu,
            Some(#[trigger] shorter[i]),
            before[i + 1],
        ) by {
            assert(list[i] == shorter[i]);
        }
        law_blocking_sends_message::<T>(state, meta, bytes, data, mtu, before, shorter);
        lemma_blocking_left::<T>(state, meta, bytes, data, mtu, before, shorter);
        let last = list[n];
        assert(BlockingInner::<T>::is_fetch(trail[n], Set::full(), mtu, Some(last), trail[n + 1]));
        lemma_one_less(trail[n].pending->0, n, meta, data, mtu);
        assert forall|i: int| 0 <= i < list.len() implies is_frame_of(
            #[trigger] list[i],
            i,
            meta,
            data,
            DataSpecifier::Message(state.subject),
            mtu,
        ) by {
            if i < n {
                assert(list[i] == shorter[i]);
            }
        }
    }
}

/// As many frames have been sent as were fetched.
proof fn lemma_blocking_left<T: BufferType>(
    state: BlockingState,
    meta: TransferMeta,
    bytes: Seq<u8>,
    data: Seq<u8>,
    mtu: Mtu,
    trail: Seq<BlockingState>,
    list: Seq<Frame>,
)
    requires
        data.len() <= bytes.len(),
        bytes.take(data.len() as int) == data,
        is_fetched_from::<BlockingInner<T>>(trail, list, Set::full(), mtu),
        trail[0] == BlockingInner::<T>::after_push(
            BlockingInner::<T>::after_write(state, bytes),
            meta,
            data.len() as int,
            crc_bytes(CRC_INIT, data),
        ),
    ensures
        is_left(trail.last().pending, list.len() as int, meta, data, mtu),
        trail.last().subject == state.subject,
        trail.last().priority == state.priority,
    decreases list.len(),
{
    if list.len() == 0 {
        lemma_all_left(meta, bytes, data, mtu);
    } else {
        let n = list.len() - 1;
        let before = trail.drop_last();
        let shorter = list.drop_last();
        assert forall|i: int| 0 <= i < shorter.len() implies BlockingInner::<T>::is_fetch(
            before[i],
            Set::full(),
            mtu,
            Some(#[trigger] shorter[i]),
            before[i + 1],
        ) by {
            assert(list[i] == shorter[i]);
        }
        lemma_blocking_left::<T>(state, meta, bytes, data, mtu, before, shorter);
        let last = list[n];
        assert(BlockingInner::<T>::is_fetch(trail[n], Set::full(), mtu, Some(last), trail[n + 1]));
        lemma_one_less(trail[n].pending->0, n, meta, data, mtu);
    }
}

/// A message that was pushed while none is being sent is the one that is sent, whatever unsent
/// message it replaces: the frames that are fetched are those of its payload in their order, with its
/// priority, subject, deadline and identifier. A message can be pushed at any time.
pub proof fn law_signal_sends_latest_message<T: BufferType>(
    state: SignalState,
    meta: TransferMeta,
    bytes: Seq<u8>,
    data: Seq<u8>,
    mtu: Mtu,
    trail: Seq<SignalState>,
    list: Seq<Frame>,
)
    requires
        state.fragmented is None,
        meta.address is None,
        meta.priority == state.priority,
        data.len() <= bytes.len(),
        bytes.take(data.len() as int) == data,
        is_fetched_from::<SignalInner<T>>(trail, list, Set::full(), mtu),
        trail[0] == SignalInner::<T>::after_push(
            SignalInner::<T>::after_write(state, bytes),
            meta,
            data.len() as int,
            crc_bytes(CRC_INIT, data),
        ),
    ensures
        SignalInner::<T>::refusal(SignalInner::<T>::after_write(state, bytes), meta) is None,
        list.len() <= transfer_frames(meta.transfer_id, data, mtu).len(),
        forall|i: int|
            0 <= i < list.len() ==> is_frame_of(
                #[trigger] list[i],
                i,
                meta,
                data,
                DataSpecifier::Message(state.subject),
                mtu,
            ),
        forall|p: Priority| #[trigger]
            SignalInner::<T>::push_ready(trail.last()).contains(p) <==> p == state.priority,
        list.len() < transfer_frames(meta.transfer_id, data, mtu).len() ==> forall|p: Priority| #[trigger]
            SignalInner::<T>::pop_ready(trail.last()).contains(p) <==> p == state.priority,
        list.len() == transfer_frames(meta.transfer_id, data, mtu).len() ==> forall|p: Priority|
            !#[trigger] SignalInner::<T>::pop_ready(trail.last()).contains(p),
    decreases list.len(),
{
    lemma_signal_left::<T>(state, meta, bytes, data, mtu, trail, list);
    if list.len() > 0 {
        let n = list.len() - 1;
        let before = trail.drop_last();
        let shorter = list.drop_last();
        assert forall|i: int| 0 <= i < shorter.len() implies SignalInner::<T>::is_fetch(
            before[i],
            Set::full(),
            mtu,
            Some(#[trigger] shorter[i]),
            before[i + 1],
        ) by {
            assert(list[i] == shorter[i]);
        }
        law_signal_sends_latest_message::<T>(state, meta, bytes, data, mtu, before, shorter);
        lemma_signal_left::<T>(state, meta, bytes, data, mtu, before, shorter);
        let last = list[n];
        assert(SignalInner::<T>::is_fetch(trail[n], Set::full(), mtu, Some(last), trail[n + 1]));
        lemma_one_less(trail[n].promoted().fragmented->0, n, meta, data, mtu);
        assert forall|i: int| 0 <= i < list.len() implies is_frame_of(
            #[trigger] list[i],
            i,
            meta,
            data,
            DataSpecifier::Message(state.subject),
            mtu,
        ) by {
            if i < n {
                assert(list[i] == shorter[i]);
            }
        }
    }
}

/// As many frames have been sent as were fetched.
proof fn lemma_signal_left<T: BufferType>(
    state: SignalState,
    meta: TransferMeta,
    bytes: Seq<u8>,
    data: Seq<u8>,
    mtu: Mtu,
    trail: Seq<SignalState>,
    list: Seq<Frame>,
)
    requires
        state.fragmented is None,
        data.len() <= bytes.len(),
        bytes.take(data.len() as int) == data,
        is_fetched_from::<SignalInner<T>>(trail, list, Set::full(), mtu),
        trail[0] == SignalInner::<T>::after_push(
            SignalInner::<T>::after_write(state, bytes),
            meta,
            data.len() as int,
            crc_bytes(CRC_INIT, data),
        ),
    ensures
        is_left(trail.last().promoted().fragmented, list.len() as int, meta, data, mtu),
        trail.last().promoted().pending is None,
        trail.last().subject == state.subject,
        trail.last().priority == state.priority,
    decreases list.len(),
{
    if list.len() == 0 {
        lemma_all_left(meta, bytes, data, mtu);
    } else {
        let n = list.len() - 1;
        let before = trail.drop_last();
        let shorter = list.drop_last();
        assert forall|i: int| 0 <= i < shorter.len() implies SignalInner::<T>::is_fetch(
            before[i],
            Set::full(),
            mtu,
            Some(#[trigger] shorter[i]),
            before[i + 1],
        ) by {
            assert(list[i] == shorter[i]);
        }
        lemma_signal_left::<T>(state, meta, bytes, data, mtu, before, shorter);
        let last = list[n];
        assert(SignalInner::<T>::is_fetch(trail[n], Set::full(), mtu, Some(last), trail[n + 1]));
        lemma_one_less(trail[n].promoted().fragmented->0, n, meta, data, mtu);
    }
}

/// A message of which a frame has been sent is finished before another one starts, and what was
/// pushed meanwhile waits for it.
pub proof fn law_signal_finishes_started_message<T: BufferType>(
    before: SignalState,
    priorities: Set<Priority>,
    mtu: Mtu,
    frame: Frame,
    after: SignalState,
)
    requires
        before.fragmented is Some,
        SignalInner::<T>::is_fetch(before, priorities, mtu, Some(frame), after),
    ensures
        frame.data@ == (before.fragmented->0).outgoing.frame((before.fragmented->0).data, mtu.size() as int),
        frame.timestamp == (before.fragmented->0).deadline,
        frame.loop_back == (before.fragmented->0).loop_back,
        frame.header.priority == before.priority,
        frame.header.data_spec == DataSpecifier::Message(before.subject),
        after.pending == before.pending,
        after.scratchpad == before.scratchpad,
{
}

/// A response that was pushed is sent as it is: when frames of its priority are fetched, they are
/// those of its payload in their order, with its receiver, service, deadline and identifier. The
/// responses of other priorities are not touched, and the priority takes no further response until
/// the last frame has been fetched.
pub proof fn law_blocking_sends_response<T: BufferType>(
    state: ResponseState,
    meta: TransferMeta,
    bytes: Seq<u8>,
    data: Seq<u8>,
    mtu: Mtu,
    trail: Seq<ResponseState>,
    list: Seq<Frame>,
)
    requires
        !state.transfers.contains_key(meta.priority),
        meta.address is Some,
        data.len() <= bytes.len(),
        bytes.take(data.len() as int) == data,
        is_fetched_from::<ResponseBufferInner<T>>(trail, list, Set::empty().insert(meta.priority), mtu),
        trail[0] == ResponseBufferInner::<T>::after_push(
            ResponseBufferInner::<T>::after_write(state, bytes),
            meta,
            data.len() as int,
            crc_bytes(CRC_INIT, data),
        ),
    ensures
        ResponseBufferInner::<T>::refusal(ResponseBufferInner::<T>::after_write(state, bytes), meta) is None,
        list.len() <= transfer_frames(meta.transfer_id, data, mtu).len(),
        forall|i: int|
            0 <= i < list.len() ==> is_frame_of(
                #[trigger] list[i],
                i,
                meta,
                data,
                DataSpecifier::Response(state.service),
                mtu,
            ),
        forall|p: Priority|
            p != meta.priority ==> (#[trigger] trail.last().transfers.contains_key(p)
                <==> state.transfers.contains_key(p)),
        forall|p: Priority|
            p != meta.priority && state.transfers.contains_key(p) ==> #[trigger] trail.last().transfers[p]
                == state.transfers[p],
        ResponseBufferInner::<T>::pop_ready(trail.last()).contains(meta.priority) <==> list.len() < transfer_frames(
            meta.transfer_id,
            data,
            mtu,
        ).len(),
        ResponseBufferInner::<T>::push_ready(trail.last()).contains(meta.priority) <==> list.len()
            == transfer_frames(meta.transfer_id, data, mtu).len(),
    decreases list.len(),
{
    lemma_response_left::<T>(state, meta, bytes, data, mtu, trail, list);
    if list.len() > 0 {
        let n = list.len() - 1;
        let one = Set::<Priority>::empty().insert(meta.priority);
        let before = trail.drop_last();
        let shorter = list.drop_last();
        assert forall|i: int| 0 <= i < shorter.len() implies ResponseBufferInner::<T>::is_fetch(
            before[i],
            one,
            mtu,
            Some(#[trigger] shorter[i]),
            before[i + 1],
        ) by {
            assert(list[i] == shorter[i]);
        }
        law_blocking_sends_response::<T>(state, meta, bytes, data, mtu, before, shorter);
        lemma_response_left::<T>(state, meta, bytes, data, mtu, before, shorter);
        let last = list[n];
        assert(ResponseBufferInner::<T>::is_fetch(trail[n], one, mtu, Some(last), trail[n + 1]));
        assert(trail[n].pop_ready().intersect(one).contains(last.header.priority));
        lemma_one_less(trail[n].transfers[meta.priority], n, meta, data, mtu);
        assert forall|i: int| 0 <= i < list.len() implies is_frame_of(
            #[trigger] list[i],
            i,
            meta,
            data,
            DataSpecifier::Response(state.service),
            mtu,
        ) by {
            if i < n {
                assert(list[i] == shorter[i]);
            }
        }
    }
}

/// The transfer of a priority, if there is one.
spec fn transfer_of(state: ResponseState, p: Priority) -> Option<TxTransfer> {
    if state.transfers.contains_key(p) {
        Some(state.transfers[p])
    } else {
        None
    }
}

/// As many frames have been sent as were fetched.
proof fn lemma_response_left<T: BufferType>(
    state: ResponseState,
    meta: TransferMeta,
    bytes: Seq<u8>,
    data: Seq<u8>,
    mtu: Mtu,
    trail: Seq<ResponseState>,
    list: Seq<Frame>,
)
    requires
        data.len() <= bytes.len(),
        bytes.take(data.len() as int) == data,
        is_fetched_from::<ResponseBufferInner<T>>(trail, list, Set::empty().insert(meta.priority), mtu),
        trail[0] == ResponseBufferInner::<T>::after_push(
            ResponseBufferInner::<T>::after_write(state, bytes),
            meta,
            data.len() as int,
            crc_bytes(CRC_INIT, data),
        ),
    ensures
        is_left(transfer_of(trail.last(), meta.priority), list.len() as int, meta, data, mtu),
        trail.last().service == state.service,
        forall|p: Priority|
            p != meta.priority ==> (#[trigger] trail.last().transfers.contains_key(p)
                <==> state.transfers.contains_key(p)),
        forall|p: Priority|
            p != meta.priority && state.transfers.contains_key(p) ==> #[trigger] trail.last().transfers[p]
                == state.transfers[p],
    decreases list.len(),
{
    if list.len() == 0 {
        lemma_all_left(meta, bytes, data, mtu);
    } else {
        let n = list.len() - 1;
        let one = Set::<Priority>::empty().insert(meta.priority);
        let before = trail.drop_last();
        let shorter = list.drop_last();
        assert forall|i: int| 0 <= i < shorter.len() implies ResponseBufferInner::<T>::is_fetch(
            before[i],
            one,
            mtu,
            Some(#[trigger] shorter[i]),
            before[i + 1],
        ) by {
            assert(list[i] == shorter[i]);
        }
        lemma_response_left::<T>(state, meta, bytes, data, mtu, before, shorter);
        let last = list[n];
        assert(ResponseBufferInner::<T>::is_fetch(trail[n], one, mtu, Some(last), trail[n + 1]));
        assert(trail[n].pop_ready().intersect(one).contains(last.header.priority));
        lemma_one_less(trail[n].transfers[meta.priority], n, meta, data, mtu);
    }
}

/// The response whose frame is fetched is of the most urgent priority that is asked for and that has
/// one. Nothing is fetched only if there is none.
pub proof fn law_most_urgent_response_first<T: BufferType>(
    before: ResponseState,
    priorities: Set<Priority>,
    mtu: Mtu,
    frame: Option<Frame>,
    after: ResponseState,
)
    requires
        ResponseBufferInner::<T>::is_fetch(before, priorities, mtu, frame, after),
    ensures
        match frame {
            Some(f) => {
                &&& priorities.contains(f.header.priority)
                &&& before.transfers.contains_key(f.header.priority)
                &&& forall|q: Priority|
                    priorities.contains(q) && #[trigger] before.transfers.contains_key(q) ==> f.header.priority.code()
                        <= q.code()
            },
            None => forall|q: Priority|
                priorities.contains(q) ==> !#[trigger] before.transfers.contains_key(q),
        },
{
    let ready = before.pop_ready().intersect(priorities);
    assert forall|q: Priority| priorities.contains(q) && #[trigger] before.transfers.contains_key(q) implies ready.contains(
        q,
    ) by {}
    if let Some(f) = frame {
        assert(ready.contains(f.header.priority));
    }
}

/// When a message is refused, and why: it has a receiver, or another one is being sent, or the
/// priority is another one, or no payload was written.
pub proof fn law_blocking_refuses_message<T: BufferType>(state: BlockingState, meta: TransferMeta)
    ensures
        ({
            let r = BlockingInner::<T>::refusal(state, meta);
            &&& r is None <==> meta.address is None && state.pending is None && meta.priority == state.priority
                && state.scratchpad_provided
            &&& meta.address is Some <==> r == Some(BufferError::MessageAddressSpecified)
            &&& r == Some(BufferError::ScratchpadNotInitialized) ==> !state.scratchpad_provided
            &&& r == Some(BufferError::PriorityNotReady) ==> state.pending is Some || meta.priority != state.priority
            &&& r != Some(BufferError::ServiceAddressNotSpecified)
        }),
{
}

/// When a message is refused, and why: it has a receiver, or the priority is another one, or no
/// payload was written.
pub proof fn law_signal_refuses_message<T: BufferType>(state: SignalState, meta: TransferMeta)
    ensures
        ({
            let r = SignalInner::<T>::refusal(state, meta);
            &&& r is None <==> meta.address is None && meta.priority == state.priority && state.scratchpad is Some
            &&& meta.address is Some <==> r == Some(BufferError::MessageAddressSpecified)
            &&& r == Some(BufferError::ScratchpadNotInitialized) ==> state.scratchpad is None
            &&& r == Some(BufferError::PriorityNotReady) ==> meta.priority != state.priority
            &&& r != Some(BufferError::ServiceAddressNotSpecified)
        }),
{
}

/// When a response is refused, and why: it has no receiver, or one of the priority is being sent, or
/// no payload was written.
pub proof fn law_blocking_refuses_response<T: BufferType>(state: ResponseState, meta: TransferMeta)
    ensures
        ({
            let r = ResponseBufferInner::<T>::refusal(state, meta);
            &&& r is None <==> meta.address is Some && !state.transfers.contains_key(meta.priority)
                && state.scratchpad is Some
            &&& meta.address is None <==> r == Some(BufferError::ServiceAddressNotSpecified)
            &&& r == Some(BufferError::ScratchpadNotInitialized) ==> state.scratchpad is None
            &&& r == Some(BufferError::PriorityNotReady) ==> state.transfers.contains_key(meta.priority)
            &&& r != Some(BufferError::MessageAddressSpecified)
        }),
{
}

/// New transmit buffers are for the given subject or service and priority, are as large as the type
/// needs, and hold nothing.
pub proof fn law_new_buffers_are_empty<T: BufferType>(subject: SubjectId, service: ServiceId, priority: Priority)
    ensures
        ({
            let blocking = <Blocking<T> as tx_msg::Buffer<T>>::fresh(subject, priority);
            let signal = <Signal<T> as tx_msg::Buffer<T>>::fresh(subject, priority);
            let response = <ResponseBlocking<T> as tx_resp::Buffer<T>>::fresh(service);
            &&& blocking.subject == subject
            &&& blocking.priority == priority
            &&& blocking.pending is None
            &&& blocking.buffer.len() == T::capacity()
            &&& !blocking.push_waiting && !blocking.empty_waiting
            &&& signal.subject == subject
            &&& signal.priority == priority
            &&& signal.pending is None
            &&& signal.fragmented is None
            &&& !signal.empty_waiting
            &&& response.service == service
            &&& forall|p: Priority| !#[trigger] response.transfers.contains_key(p)
            &&& !response.push_waiting.armed && !response.empty_waiting
            &&& BlockingInner::<T>::capacity(blocking) == T::capacity()
            &&& SignalInner::<T>::capacity(signal) == T::capacity()
            &&& ResponseBufferInner::<T>::capacity(response) == T::capacity()
            &&& !BlockingInner::<T>::is_service(blocking)
            &&& !SignalInner::<T>::is_service(signal)
            &&& ResponseBufferInner::<T>::is_service(response)
        }),
{
}

/// A task that waits to push a message is woken by the last frame of the message before it and by no
/// other frame, and so is one that waits until everything has been sent.
pub proof fn law_blocking_wakes_at_the_end<T: BufferType>(
    before: BlockingState,
    priorities: Set<Priority>,
    mtu: Mtu,
    frame: Frame,
    after: BlockingState,
)
    requires
        BlockingInner::<T>::is_fetch(before, priorities, mtu, Some(frame), after),
    ensures
        after.pending is None ==> !after.push_waiting && !after.empty_waiting,
        after.pending is Some ==> after.push_waiting == before.push_waiting && after.empty_waiting
            == before.empty_waiting,
        after.buffer == before.buffer,
        after.scratchpad_provided == before.scratchpad_provided,
{
}

/// A task that waits until everything has been sent is woken when nothing is left, and not before.
pub proof fn law_signal_wakes_at_the_end<T: BufferType>(
    before: SignalState,
    priorities: Set<Priority>,
    mtu: Mtu,
    frame: Frame,
    after: SignalState,
)
    requires
        SignalInner::<T>::is_fetch(before, priorities, mtu, Some(frame), after),
    ensures
        after.pending is None && after.fragmented is None ==> !after.empty_waiting,
        after.pending is Some || after.fragmented is Some ==> after.empty_waiting == before.empty_waiting,
{
}

/// A task that waits to push a response of a priority is woken by the last frame of the response of the
/// priority before it. One that waits until everything has been sent is woken when nothing is left.
pub proof fn law_response_wakes_at_the_end<T: BufferType>(
    before: ResponseState,
    priorities: Set<Priority>,
    mtu: Mtu,
    frame: Frame,
    after: ResponseState,
)
    requires
        ResponseBufferInner::<T>::is_fetch(before, priorities, mtu, Some(frame), after),
    ensures
        !after.transfers.contains_key(frame.header.priority) && before.push_waiting.filter.contains(
            frame.header.priority,
        ) ==> !after.push_waiting.armed,
        after.transfers.contains_key(frame.header.priority) ==> after.push_waiting == before.push_waiting
            && after.empty_waiting == before.empty_waiting,
        (forall|p: Priority| !#[trigger] after.transfers.contains_key(p)) ==> !after.empty_waiting,
{
    let p = frame.header.priority;
    let one = Set::<Priority>::empty().insert(p);
    if before.push_waiting.filter.contains(p) {
        assert(one.intersect(before.push_waiting.filter).contains(p));
    }
    if forall|p: Priority| !#[trigger] after.transfers.contains_key(p) {
        assert(!after.transfers.contains_key(p));
        assert(before.transfers.remove(p).dom() =~= Set::<Priority>::empty()) by {
            assert forall|q: Priority| !before.transfers.remove(p).dom().contains(q) by {
                assert(!after.transfers.contains_key(q));
            }
        }
    }
}

/// A task that waits is remembered, and nothing else changes: what is sent and what can be pushed stays
/// the same.
pub proof fn law_waiting_changes_nothing_else<T: BufferType>(
    blocking: BlockingState,
    signal: SignalState,
    response: ResponseState,
    priorities: Set<Priority>,
)
    ensures
        BlockingInner::<T>::after_wait_empty(blocking) == (BlockingState { empty_waiting: true, ..blocking }),
        SignalInner::<T>::after_wait_empty(signal) == (SignalState { empty_waiting: true, ..signal }),
        ResponseBufferInner::<T>::after_wait_empty(response) == (ResponseState { empty_waiting: true, ..response }),
        priorities.contains(blocking.priority) ==> BlockingInner::<T>::after_wait_push(blocking, priorities) == (
        BlockingState { push_waiting: true, ..blocking }),
        !priorities.contains(blocking.priority) ==> BlockingInner::<T>::after_wait_push(blocking, priorities)
            == blocking,
        SignalInner::<T>::after_wait_push(signal, priorities) == signal,
        ResponseBufferInner::<T>::after_wait_push(response, priorities).push_waiting.armed,
        ResponseBufferInner::<T>::after_wait_push(response, priorities).push_waiting.filter == priorities,
        ResponseBufferInner::<T>::after_wait_push(response, priorities).transfers == response.transfers,
        ResponseBufferInner::<T>::after_wait_push(response, priorities).scratchpad == response.scratchpad,
        ResponseBufferInner::<T>::after_wait_push(response, priorities).service == response.service,
{
}

/// While a message is being sent, the one that is pushed waits for it with everything that is known of
/// it, in place of any other that waited. The message that is being sent is not touched.
pub proof fn law_signal_keeps_latest_behind_started<T: BufferType>(
    state: SignalState,
    meta: TransferMeta,
    bytes: Seq<u8>,
    data: Seq<u8>,
)
    requires
        data.len() <= bytes.len(),
        bytes.take(data.len() as int) == data,
    ensures
        ({
            let reserved = SignalInner::<T>::after_write(state, bytes);
            let after = SignalInner::<T>::after_push(
                reserved,
                meta,
                data.len() as int,
                crc_bytes(CRC_INIT, data),
            );
            &&& reserved.scratchpad == Some(bytes)
            &&& reserved.fragmented == state.fragmented
            &&& reserved.pending == state.pending || (state.fragmented is Some && reserved.pending is None)
            &&& after.fragmented == state.fragmented
            &&& after.subject == state.subject
            &&& after.priority == state.priority
            &&& after.empty_waiting == state.empty_waiting
            &&& after.scratchpad is None
            &&& after.pending matches Some(t) && {
                &&& t.data == data
                &&& t.outgoing.id == meta.transfer_id
                &&& t.outgoing.length == data.len()
                &&& t.outgoing.offset == 0
                &&& t.outgoing.toggle
                &&& t.outgoing.crc == crc_bytes(0xffff, data)
                &&& t.destination == meta.address
                &&& t.deadline == meta.timestamp
                &&& t.loop_back == meta.loop_back
            }
        }),
{
}

/// When the last frame of a message has been fetched, the one that waited is the next: its first frame
/// is fetched next.
pub proof fn law_signal_goes_on_with_waiting_message<T: BufferType>(
    before: SignalState,
    priorities: Set<Priority>,
    mtu: Mtu,
    frame: Frame,
    after: SignalState,
)
    requires
        before.fragmented is None,
        before.pending is Some,
        SignalInner::<T>::is_fetch(before, priorities, mtu, Some(frame), after),
    ensures
        frame.data@ == (before.pending->0).outgoing.frame((before.pending->0).data, mtu.size() as int),
        frame.timestamp == (before.pending->0).deadline,
        frame.loop_back == (before.pending->0).loop_back,
        frame.header.destination == (before.pending->0).destination,
        frame.header.priority == before.priority,
        frame.header.data_spec == DataSpecifier::Message(before.subject),
        after.pending is None,
{
}

} // verus!
