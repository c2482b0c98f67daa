//! Receive buffer with a queue for each priority.

use core::marker::PhantomData;
use core::task::Waker;
use vstd::prelude::*;
use vstd::slice::slice_subrange;

use crate::buffer::DynamicRxBuffer;
use crate::buffer::gather::{clip, store, write_at};
use crate::buffer::sessions::{
    contents, is_reordered, lemma_rearranged, unused_indexes, SessionTable, Sessions,
};
use crate::encoding::{BufferType, StaticBuffer};
use crate::endpoint::TransferMeta;
use crate::format::{tail_fields, TailByte, SOT_TOGGLE_BIT};
use crate::frame::{Data, DataSpecifier, Frame, Mtu};
use crate::ids::{NodeId, TransferId};
use crate::priority::{Priority, PrioritySet};
use crate::task::Poll;
use crate::time::{Duration, Instant};
use crate::utils::byte_stack::ByteStack;
use crate::utils::multi_class_queue::{
    is_at, is_disjoint, is_queued, lemma_disjoint_insert, lemma_disjoint_remove, lemma_total_nonnegative, lemma_total_update,
    lemma_total_witness, total, Lists,
};
use crate::utils::priority_queue::{empty_queues, lemma_same_total, queued_priorities, PriorityQueue, Queues};
use crate::utils::priority_trigger::{PriorityTrigger, Waiting};

pub use crate::buffer::sessions::MAX_SESSION_COUNT;

verus! {

/// Limit for the number of queued transfers.
pub const MAX_TRANSFER_COUNT: usize = 127;

/// A received transfer that waits in the queue.
pub struct Received {
    /// The sender, or `None` for an anonymous transfer.
    pub source: Option<NodeId>,
    /// Identifier of the transfer.
    pub transfer_id: TransferId,
    /// Time of the first frame.
    pub timestamp: Instant,
    /// The transfer was sent by this node.
    pub loop_back: bool,
    /// The payload, as far as it fits into a buffer.
    pub bytes: Seq<u8>,
}

impl Received {
    /// What is known of the transfer, given the priority of its queue.
    pub open spec fn meta(self, priority: Priority) -> TransferMeta {
        TransferMeta {
            priority,
            address: self.source,
            transfer_id: self.transfer_id,
            timestamp: self.timestamp,
            loop_back: self.loop_back,
        }
    }
}

/// The largest code below `n` that has a value, or -1.
pub open spec fn last_queued<V>(queues: Queues<V>, n: int) -> int
    decreases n,
{
    if n <= 0 {
        -1
    } else if queues[n - 1].len() > 0 {
        n - 1
    } else {
        last_queued(queues, n - 1)
    }
}

/// The code of the least urgent priority that has a value, or -1.
pub open spec fn least_urgent<V>(queues: Queues<V>) -> int {
    last_queued(queues, 8)
}

/// The largest code with a value has one, and no larger one has.
pub proof fn lemma_last_queued<V>(queues: Queues<V>, n: int)
    ensures
        -1 <= last_queued(queues, n),
        n >= 0 ==> last_queued(queues, n) < n,
        last_queued(queues, n) >= 0 ==> queues[last_queued(queues, n)].len() > 0,
        forall|d: int| last_queued(queues, n) < d < n && d >= 0 ==> (#[trigger] queues[d]).len() == 0,
    decreases n,
{
    if n > 0 && queues[n - 1].len() == 0 {
        lemma_last_queued(queues, n - 1);
    }
}

/// Queues of the same lengths have the same least urgent priority.
proof fn lemma_last_queued_same<A, B>(a: Queues<A>, b: Queues<B>, n: int)
    requires
        n <= a.len(),
        n <= b.len(),
        forall|c: int| 0 <= c < n ==> (#[trigger] a[c]).len() == b[c].len(),
    ensures
        last_queued(a, n) == last_queued(b, n),
    decreases n,
{
    if n > 0 {
        assert(a[n - 1].len() == b[n - 1].len());
        lemma_last_queued_same(a, b, n - 1);
    }
}

/// The queues in which a value of the given priority can be put, if there is room for it.
///
/// When `slots` values are queued, the oldest one of the least urgent priority has to leave,
/// unless the new one is less urgent.
pub open spec fn make_room<V>(queues: Queues<V>, slots: int, priority: Priority) -> Option<Queues<V>> {
    if total(queues) < slots {
        Some(queues)
    } else {
        let c = least_urgent(queues);
        if priority.code() <= c {
            Some(queues.update(c, queues[c].drop_first()))
        } else {
            None
        }
    }
}

/// The queues with a value at the end of the queue of its priority.
pub open spec fn appended<V>(queues: Queues<V>, priority: Priority, value: V) -> Queues<V> {
    queues.update(priority.code() as int, queues[priority.code() as int].push(value))
}

/// The state of a receive buffer.
#[verifier::ext_equal]
pub struct RxState {
    /// Frames of other data are ignored.
    pub data_specifier: DataSpecifier,
    /// Timeout of the sessions.
    pub timeout: Duration,
    /// Size of the payload buffers.
    pub capacity: nat,
    /// Number of transfers that can be queued.
    pub slots: int,
    /// The sessions.
    pub table: SessionTable,
    /// The transfers that wait for each priority, the oldest first.
    pub queues: Queues<Received>,
    /// The task that waits for a transfer.
    pub waiting: Waiting,
}

impl RxState {
    /// Nothing has been received yet.
    pub open spec fn fresh(
        data_specifier: DataSpecifier,
        timeout: Duration,
        capacity: nat,
        sessions: int,
        slots: int,
    ) -> RxState {
        RxState {
            data_specifier,
            timeout,
            capacity,
            slots,
            table: SessionTable::fresh(sessions),
            queues: empty_queues::<Received>(),
            waiting: Waiting::idle(),
        }
    }

    /// A transfer has been received.
    pub open spec fn queued(self, priority: Priority, item: Received) -> RxState {
        match make_room(self.queues, self.slots, priority) {
            Some(queues) => RxState {
                queues: appended(queues, priority, item),
                waiting: self.waiting.woken(Set::empty().insert(priority)),
                ..self
            },
            None => self,
        }
    }

    /// A frame of a known source has been received.
    pub open spec fn received_regular(
        self,
        source: NodeId,
        priority: Priority,
        data: Seq<u8>,
        timestamp: Instant,
        loop_back: bool,
    ) -> RxState {
        let (table, assembled) = self.table.received(
            source,
            self.timeout,
            self.capacity,
            priority,
            data,
            timestamp,
        );
        let next = RxState { table, ..self };
        match assembled {
            None => next,
            Some(a) => next.queued(
                priority,
                Received {
                    source: Some(source),
                    transfer_id: a.transfer.id,
                    timestamp: a.transfer.timestamp,
                    loop_back,
                    bytes: a.bytes,
                },
            ),
        }
    }

    /// An anonymous frame has been received. Only single-frame transfers can be anonymous.
    pub open spec fn received_anonymous(
        self,
        priority: Priority,
        data: Seq<u8>,
        timestamp: Instant,
        loop_back: bool,
    ) -> RxState {
        if data.len() == 0 {
            self
        } else {
            let tail = tail_fields(data.last());
            if tail.sot && tail.eot && tail.toggle == SOT_TOGGLE_BIT {
                self.queued(
                    priority,
                    Received {
                        source: None,
                        transfer_id: tail.transfer_id,
                        timestamp,
                        loop_back,
                        bytes: clip(data.drop_last(), self.capacity as int),
                    },
                )
            } else {
                self
            }
        }
    }

    /// A frame has been received.
    pub open spec fn received(self, frame: Frame) -> RxState {
        let header = frame.header;
        if header.data_spec != self.data_specifier {
            self
        } else {
            match header.source {
                Some(source) => self.received_regular(
                    source,
                    header.priority,
                    frame.data@,
                    frame.timestamp,
                    frame.loop_back,
                ),
                None => self.received_anonymous(
                    header.priority,
                    frame.data@,
                    frame.timestamp,
                    frame.loop_back,
                ),
            }
        }
    }

    /// The oldest transfer of a priority has been fetched.
    pub open spec fn popped(self, priority: Priority) -> RxState {
        let c = priority.code() as int;
        RxState { queues: self.queues.update(c, self.queues[c].drop_first()), ..self }
    }
}

/// A transfer slot is only occupied by one transfer: never more transfers are queued than there
/// are slots.
pub proof fn law_queue_is_bounded(state: RxState, priority: Priority, item: Received)
    requires
        state.queues.len() == 8,
        0 <= total(state.queues) <= state.slots,
        state.slots > 0,
    ensures
        state.queued(priority, item).queues.len() == 8,
        0 <= total(state.queued(priority, item).queues) <= state.slots,
{
    let c = least_urgent(state.queues);
    let p = priority.code() as int;
    lemma_last_queued(state.queues, 8);
    lemma_total_update(state.queues, p, state.queues[p].push(item));
    if let Some(queues) = make_room(state.queues, state.slots, priority) {
        if total(state.queues) >= state.slots {
            lemma_total_update(state.queues, c, state.queues[c].drop_first());
        }
        lemma_total_update(queues, p, queues[p].push(item));
    }
}

/// Whatever frame is received, never more transfers are queued than there are slots.
pub proof fn law_reception_is_bounded(state: RxState, frame: Frame)
    requires
        state.queues.len() == 8,
        0 <= total(state.queues) <= state.slots,
        state.slots > 0,
    ensures
        state.received(frame).queues.len() == 8,
        0 <= total(state.received(frame).queues) <= state.slots,
        state.received(frame).slots == state.slots,
{
    let data = frame.data@;
    let header = frame.header;
    if let Some(source) = header.source {
        let (table, assembled) = state.table.received(
            source,
            state.timeout,
            state.capacity,
            header.priority,
            data,
            frame.timestamp,
        );
        if let Some(a) = assembled {
            law_queue_is_bounded(
                RxState { table, ..state },
                header.priority,
                Received {
                    source: Some(source),
                    transfer_id: a.transfer.id,
                    timestamp: a.transfer.timestamp,
                    loop_back: frame.loop_back,
                    bytes: a.bytes,
                },
            );
        }
    } else if data.len() > 0 {
        law_queue_is_bounded(
            state,
            header.priority,
            Received {
                source: None,
                transfer_id: tail_fields(data.last()).transfer_id,
                timestamp: frame.timestamp,
                loop_back: frame.loop_back,
                bytes: clip(data.drop_last(), state.capacity as int),
            },
        );
    }
}

/// A transfer never displaces a more urgent one. While a slot is free nothing is displaced, and a
/// transfer is only refused if no slot is free and all queued transfers are more urgent.
pub proof fn law_displacement(state: RxState, priority: Priority, item: Received)
    requires
        state.queues.len() == 8,
    ensures
        forall|c: int|
            0 <= c < priority.code() ==> #[trigger] state.queued(priority, item).queues[c] == state.queues[c],
        total(state.queues) < state.slots ==> state.queued(priority, item).queues == appended(
            state.queues,
            priority,
            item,
        ),
        make_room(state.queues, state.slots, priority) is None <==> total(state.queues) >= state.slots && forall|
            c: int,
        | 0 <= c < 8 && (#[trigger] state.queues[c]).len() > 0 ==> c < priority.code(),
        make_room(state.queues, state.slots, priority) is Some ==> state.queued(
            priority,
            item,
        ).queues[priority.code() as int].last() == item,
{
    lemma_last_queued(state.queues, 8);
}

/// A queued transfer with the index of its buffer.
#[derive(Debug, Clone, Copy)]
pub struct TransferEntry {
    source: Option<NodeId>,
    transfer_id: TransferId,
    timestamp: Instant,
    loop_back: bool,
    buffer_length: usize,
    buffer_idx: u8,
}

impl TransferEntry {
    /// The transfer, given the contents of the buffers.
    closed spec fn received(self, bytes: Seq<Seq<u8>>) -> Received {
        Received {
            source: self.source,
            transfer_id: self.transfer_id,
            timestamp: self.timestamp,
            loop_back: self.loop_back,
            bytes: bytes[self.buffer_idx as int].take(self.buffer_length as int),
        }
    }
}

/// The queued transfers and the indexes of the free buffers.
pub struct TransferQueue<const N: usize> {
    queue: PriorityQueue<TransferEntry, N>,
    free_buffers: ByteStack,
}

/// The largest code with a value is the least urgent one.
proof fn lemma_least_urgent<V>(queues: Queues<V>, p: Priority)
    requires
        PrioritySet::is_last(queued_priorities(queues), Some(p)),
    ensures
        least_urgent(queues) == p.code(),
        queues[p.code() as int].len() > 0,
{
    let c = p.code() as int;
    assert(queued_priorities(queues).contains(p));
    assert forall|d: int| c < d < 8 implies (#[trigger] queues[d]).len() == 0 by {
        let q = Priority::of_code(d);
        assert(q.code() == d);
        if queues[d].len() > 0 {
            assert(queued_priorities(queues).contains(q));
        }
    }
    lemma_last_queued(queues, 8);
    let r = least_urgent(queues);
    if r < c {
        assert(queues[c].len() == 0);
    }
    if r > c {
        assert(queues[r].len() > 0);
    }
}

impl<const N: usize> TransferQueue<N> {
    closed spec fn wf(&self) -> bool {
        &&& 1 <= N <= MAX_TRANSFER_COUNT
        &&& self.queue.wf()
        &&& total(self.queue@) + self.free_buffers@.len() <= N
    }

    /// All transfer slots are free, and have the buffers from `buffer_index_base` on.
    fn new(buffer_index_base: u8) -> (r: Result<Self, ()>)
        requires
            1 <= N <= MAX_TRANSFER_COUNT,
        ensures
            r is Ok <==> buffer_index_base + N <= 256,
            r matches Ok(q) ==> {
                &&& q.wf()
                &&& q.queue@ == empty_queues::<TransferEntry>()
                &&& total(q.queue@) == 0
                &&& q.free_buffers@ == Seq::new(N as nat, |i: int| (buffer_index_base + i) as u8)
            },
    {
        if (buffer_index_base as usize) + N > 256 {
            return Err(());
        }
        let mut free_buffers = ByteStack::new();
        let mut i: usize = 0;
        while i < N
            invariant
                i <= N,
                N <= MAX_TRANSFER_COUNT,
                buffer_index_base + N <= 256,
                free_buffers@ == Seq::new(i as nat, |i: int| (buffer_index_base + i) as u8),
            decreases N - i,
        {
            let _pushed = free_buffers.push(buffer_index_base + i as u8);
            i = i + 1;
            assert(free_buffers@ =~= Seq::new(i as nat, |i: int| (buffer_index_base + i) as u8));
        }
        Ok(Self { queue: PriorityQueue::new(), free_buffers })
    }

    /// Takes a free buffer, or that of the oldest transfer of the least urgent priority, unless
    /// the given priority is less urgent.
    fn allocate_buffer(&mut self, priority: Priority) -> (r: Option<u8>)
        requires
            old(self).wf(),
            total(old(self).queue@) + old(self).free_buffers@.len() == N,
        ensures
            final(self).wf(),
            ({
                let queues = old(self).queue@;
                let free = old(self).free_buffers@;
                match make_room(queues, N as int, priority) {
                    Some(after) => {
                        &&& final(self).queue@ == after
                        &&& total(after) + final(self).free_buffers@.len() == N - 1
                        &&& if free.len() > 0 {
                            &&& r == Some(free.last())
                            &&& final(self).free_buffers@ == free.drop_last()
                            &&& after == queues
                        } else {
                            let c = least_urgent(queues);
                            &&& 0 <= c < 8
                            &&& queues[c].len() > 0
                            &&& r == Some(queues[c][0].buffer_idx)
                            &&& after == queues.update(c, queues[c].drop_first())
                            &&& final(self).free_buffers@ == free
                        }
                    },
                    None => {
                        r is None && final(self).queue@ == queues && final(self).free_buffers@ == free
                    },
                }
            }),
    {
        proof {
            self.queue.lemma_wf();
        }
        if let Some(idx) = self.free_buffers.pop() {
            return Some(idx);
        }
        proof {
            let c = lemma_total_witness(self.queue@);
            let q = Priority::of_code(c);
            assert(q.code() == c);
            assert(queued_priorities(self.queue@).contains(q));
        }
        let max_priority = self.queue.max_priority().unwrap();
        proof {
            lemma_least_urgent(self.queue@, max_priority);
        }
        if priority.into_u8() <= max_priority.into_u8() {
            return Some(self.queue.pop(max_priority).unwrap().buffer_idx);
        }
        None
    }

    /// Returns a buffer that is not used any more.
    fn free_buffer(&mut self, idx: u8) -> (r: Result<(), u8>)
        requires
            old(self).wf(),
            total(old(self).queue@) + old(self).free_buffers@.len() < N,
        ensures
            final(self).wf(),
            r is Ok,
            final(self).queue@ == old(self).queue@,
            final(self).free_buffers@ == old(self).free_buffers@.push(idx),
    {
        proof {
            self.queue.lemma_wf();
        }
        self.free_buffers.push(idx)
    }

    /// Queues a transfer.
    fn push(&mut self, priority: Priority, transfer: TransferEntry) -> (r: Result<(), TransferEntry>)
        requires
            old(self).wf(),
            total(old(self).queue@) + old(self).free_buffers@.len() < N,
        ensures
            final(self).wf(),
            r is Ok,
            final(self).queue@ == appended(old(self).queue@, priority, transfer),
            total(final(self).queue@) == total(old(self).queue@) + 1,
            final(self).free_buffers@ == old(self).free_buffers@,
    {
        self.queue.push(priority, transfer)
    }

    /// Returns the priorities that have a transfer.
    fn priorities(&self) -> (r: PrioritySet)
        requires
            self.wf(),
        ensures
            r@ == queued_priorities(self.queue@),
    {
        self.queue.priorities()
    }

    /// Takes out the oldest transfer of the most urgent priority of the mask.
    fn pop(&mut self, priority_mask: PrioritySet) -> (r: Option<(Priority, TransferEntry)>)
        requires
            old(self).wf(),
        ensures
            final(self).wf(),
            final(self).free_buffers@ == old(self).free_buffers@,
            ({
                let ready = queued_priorities(old(self).queue@).intersect(priority_mask@);
                match r {
                    Some((p, entry)) => {
                        let c = p.code() as int;
                        &&& PrioritySet::is_first(ready, Some(p))
                        &&& old(self).queue@[c].len() > 0
                        &&& entry == old(self).queue@[c][0]
                        &&& final(self).queue@ == old(self).queue@.update(c, old(self).queue@[c].drop_first())
                        &&& total(final(self).queue@) == total(old(self).queue@) - 1
                    },
                    None => ready == Set::<Priority>::empty() && final(self).queue@ == old(self).queue@,
                }
            }),
    {
        let ready = self.queue.priorities().intersect(priority_mask);
        let priority = match ready.first() {
            Some(priority) => priority,
            None => {
                return None;
            },
        };
        proof {
            assert(ready@.contains(priority));
        }
        let entry = self.queue.pop(priority).unwrap();
        Some((priority, entry))
    }
}

/// The indexes of the buffers of queued transfers.
spec fn queue_indexes(queue: Seq<TransferEntry>) -> Seq<u8> {
    Seq::new(queue.len(), |i: int| queue[i].buffer_idx)
}

/// Who holds which buffer: the queues, the free buffers, the buffer that is read, the sessions,
/// and those that no session has taken yet.
spec fn holders(
    queues: Queues<TransferEntry>,
    free: Seq<u8>,
    readout: u8,
    sessions: Seq<u8>,
    base: int,
    session_count: int,
) -> Lists {
    Seq::new(
        12,
        |c: int|
            if c < 8 {
                queue_indexes(queues[c])
            } else if c == 8 {
                free
            } else if c == 9 {
                seq![readout]
            } else if c == 10 {
                sessions
            } else {
                unused_indexes(base, session_count)
            },
    )
}

/// A new session takes the next unused buffer, and a session may become the most recent one.
proof fn lemma_sessions_changed(
    queues: Queues<TransferEntry>,
    free: Seq<u8>,
    readout: u8,
    sessions: Seq<u8>,
    base: int,
    sessions2: Seq<u8>,
    base2: int,
    session_count: int,
    count: int,
)
    requires
        is_disjoint(holders(queues, free, readout, sessions, base, session_count), count),
        0 <= base <= base2 <= base + 1,
        base2 <= session_count <= 128,
        is_reordered(
            if base2 > base {
                sessions.insert(0, base as u8)
            } else {
                sessions
            },
            sessions2,
        ),
    ensures
        is_disjoint(holders(queues, free, readout, sessions2, base2, session_count), count),
{
    let lists = holders(queues, free, readout, sessions, base, session_count);
    lemma_rearranged(lists, 10, 11, base, sessions2, base2, session_count, count);
    assert(lists.update(11, unused_indexes(base2, session_count)).update(10, sessions2) =~= holders(
        queues,
        free,
        readout,
        sessions2,
        base2,
        session_count,
    ));
}

/// Receive buffer with a queue for each priority.
///
/// There are `SN` slots for sessions and `TN` slots for transfers. One more buffer holds the
/// transfer that was fetched last.
pub struct RxPriorityFifoInner<T: BufferType, const SN: usize, const TN: usize> {
    data_specifier: DataSpecifier,
    buffers: Vec<StaticBuffer>,
    sessions: Sessions<SN>,
    transfers: TransferQueue<TN>,
    readout_buffer_idx: u8,
    timeout: Duration,
    priority_trigger: PriorityTrigger,
    _phantom: PhantomData<T>,
}

/// The transfers of the queues, given the contents of the buffers.
spec fn received_queues(queues: Queues<TransferEntry>, bytes: Seq<Seq<u8>>) -> Queues<Received> {
    Seq::new(8, |c: int| Seq::new(queues[c].len(), |i: int| queues[c][i].received(bytes)))
}

/// The queues have the same lengths, so the same places are taken.
proof fn lemma_received_queues(queues: Queues<TransferEntry>, bytes: Seq<Seq<u8>>)
    requires
        queues.len() == 8,
    ensures
        total(received_queues(queues, bytes)) == total(queues),
        least_urgent(received_queues(queues, bytes)) == least_urgent(queues),
{
    let r = received_queues(queues, bytes);
    lemma_same_total(r, queues);
    lemma_last_queued_same(r, queues, 8);
}

/// A buffer that nobody holds is exchanged for that of a session, which goes to a queue.
proof fn lemma_exchanged(lists: Lists, count: int, idx: u8, pos: int, c: int)
    requires
        lists.len() == 12,
        is_disjoint(lists, count),
        !is_queued(lists, idx),
        idx < count,
        0 <= pos < lists[10].len(),
        0 <= c < 8,
    ensures
        is_disjoint(
            lists.update(10, lists[10].update(pos, idx)).update(c, lists[c].push(lists[10][pos])),
            count,
        ),
{
    let old_idx = lists[10][pos];
    assert(is_at(lists, 10, pos, old_idx));
    assert(lists[10][pos] < count);
    lemma_disjoint_remove(lists, count, old_idx, 10, pos);
    let a = lists.update(10, lists[10].remove(pos));
    assert(!is_queued(a, idx));
    lemma_disjoint_insert(a, count, idx, 10, pos);
    let b = a.update(10, a[10].insert(pos, idx));
    assert(a[10].insert(pos, idx) =~= lists[10].update(pos, idx));
    assert(!is_queued(b, old_idx));
    let end = b[c].len() as int;
    lemma_disjoint_insert(b, count, old_idx, c, end);
    assert(b[c].insert(end, old_idx) =~= lists[c].push(old_idx));
    assert(b.update(c, b[c].insert(end, old_idx)) =~= lists.update(10, lists[10].update(pos, idx)).update(
        c,
        lists[c].push(old_idx),
    ));
}

/// A buffer that nobody holds goes to a queue.
proof fn lemma_queued_index(lists: Lists, count: int, idx: u8, c: int)
    requires
        lists.len() == 12,
        is_disjoint(lists, count),
        !is_queued(lists, idx),
        idx < count,
        0 <= c < 8,
    ensures
        is_disjoint(lists.update(c, lists[c].push(idx)), count),
{
    let end = lists[c].len() as int;
    lemma_disjoint_insert(lists, count, idx, c, end);
    assert(lists[c].insert(end, idx) =~= lists[c].push(idx));
}

/// A buffer is taken from the free ones, or from the transfer that has to leave.
proof fn lemma_allocated(
    queues: Queues<TransferEntry>,
    free: Seq<u8>,
    readout: u8,
    sessions: Seq<u8>,
    base: int,
    session_count: int,
    count: int,
    queues2: Queues<TransferEntry>,
    free2: Seq<u8>,
    idx: u8,
)
    requires
        queues.len() == 8,
        is_disjoint(holders(queues, free, readout, sessions, base, session_count), count),
        ({
            ||| free.len() > 0 && idx == free.last() && free2 == free.drop_last() && queues2 == queues
            ||| {
                let c = least_urgent(queues);
                &&& 0 <= c < 8
                &&& queues[c].len() > 0
                &&& idx == queues[c][0].buffer_idx
                &&& queues2 == queues.update(c, queues[c].drop_first())
                &&& free2 == free
            }
        }),
    ensures
        is_disjoint(holders(queues2, free2, readout, sessions, base, session_count), count),
        !is_queued(holders(queues2, free2, readout, sessions, base, session_count), idx),
        idx < count,
{
    let lists = holders(queues, free, readout, sessions, base, session_count);
    let after = holders(queues2, free2, readout, sessions, base, session_count);
    if free.len() > 0 && idx == free.last() && free2 == free.drop_last() && queues2 == queues {
        let last = free.len() - 1;
        assert(lists[8][last] == idx);
        assert(is_at(lists, 8, last, idx));
        lemma_disjoint_remove(lists, count, idx, 8, last);
        assert(lists[8].remove(last) =~= free2);
        assert(lists.update(8, lists[8].remove(last)) =~= after);
    } else {
        let c = least_urgent(queues);
        assert(lists[c][0] == idx);
        assert(is_at(lists, c, 0, idx));
        lemma_disjoint_remove(lists, count, idx, c, 0);
        assert(lists[c].remove(0) =~= queue_indexes(queues2[c]));
        assert(lists.update(c, lists[c].remove(0)) =~= after);
    }
}

/// Transfers do not change with a buffer that none of them has.
proof fn lemma_queues_untouched(queues: Queues<TransferEntry>, a: Seq<Seq<u8>>, b: Seq<Seq<u8>>)
    requires
        queues.len() == 8,
        forall|c: int, i: int|
            0 <= c < 8 && 0 <= i < queues[c].len() ==> a[(#[trigger] queues[c][i]).buffer_idx as int]
                == b[queues[c][i].buffer_idx as int],
    ensures
        received_queues(queues, a) == received_queues(queues, b),
{
    assert forall|c: int| 0 <= c < 8 implies #[trigger] received_queues(queues, a)[c] == received_queues(
        queues,
        b,
    )[c] by {
        assert forall|i: int| 0 <= i < queues[c].len() implies #[trigger] received_queues(queues, a)[c][i]
            == received_queues(queues, b)[c][i] by {
            let e = queues[c][i];
            assert(a[e.buffer_idx as int] == b[e.buffer_idx as int]);
        }
        assert(received_queues(queues, a)[c] =~= received_queues(queues, b)[c]);
    }
    assert(received_queues(queues, a) =~= received_queues(queues, b));
}

/// Making room and appending is the same for the entries and for their transfers.
proof fn lemma_queued_commutes(
    queues: Queues<TransferEntry>,
    bytes: Seq<Seq<u8>>,
    slots: int,
    priority: Priority,
    entry: TransferEntry,
)
    requires
        queues.len() == 8,
        slots >= 1,
    ensures
        make_room(received_queues(queues, bytes), slots, priority) is Some <==> make_room(
            queues,
            slots,
            priority,
        ) is Some,
        make_room(queues, slots, priority) matches Some(after) ==> {
            let room = make_room(received_queues(queues, bytes), slots, priority)->0;
            &&& received_queues(after, bytes) == room
            &&& received_queues(appended(after, priority, entry), bytes) == appended(
                room,
                priority,
                entry.received(bytes),
            )
        },
{
    let r = received_queues(queues, bytes);
    lemma_received_queues(queues, bytes);
    lemma_last_queued(queues, 8);
    if let Some(after) = make_room(queues, slots, priority) {
        let c = least_urgent(queues);
        let room = make_room(r, slots, priority)->0;
        assert(received_queues(after, bytes) =~= room) by {
            if total(queues) >= slots {
                assert(0 <= c < 8);
                assert(received_queues(after, bytes)[c] =~= r[c].drop_first());
            }
        }
        let p = priority.code() as int;
        let x = received_queues(appended(after, priority, entry), bytes);
        let y = appended(room, priority, entry.received(bytes));
        assert(x[p] =~= y[p]);
        assert forall|d: int| 0 <= d < 8 && d != p implies x[d] == y[d] by {
            assert(x[d] =~= received_queues(after, bytes)[d]);
        }
        assert(x =~= y);
    }
}

impl<T: BufferType, const SN: usize, const TN: usize> View for RxPriorityFifoInner<T, SN, TN> {
    type V = RxState;

    closed spec fn view(&self) -> RxState {
        RxState {
            data_specifier: self.data_specifier,
            timeout: self.timeout,
            capacity: T::capacity(),
            slots: TN as int,
            table: self.sessions.table(contents(self.buffers@)),
            queues: received_queues(self.transfers.queue@, contents(self.buffers@)),
            waiting: self.priority_trigger@,
        }
    }
}

impl<T: BufferType, const SN: usize, const TN: usize> RxPriorityFifoInner<T, SN, TN> {
    spec fn holders(&self) -> Lists {
        holders(
            self.transfers.queue@,
            self.transfers.free_buffers@,
            self.readout_buffer_idx,
            self.sessions.indexes(),
            self.sessions.base(),
            SN as int,
        )
    }

    /// The parts are well-formed, except for the distribution of the buffers.
    spec fn parts_wf(&self) -> bool {
        &&& SN <= MAX_SESSION_COUNT
        &&& 1 <= TN <= MAX_TRANSFER_COUNT
        &&& self.buffers@.len() == SN + TN + 1
        &&& forall|i: int| 0 <= i < self.buffers@.len() ==> (#[trigger] self.buffers@[i])@.len() == T::capacity()
        &&& self.sessions.wf()
        &&& self.transfers.wf()
        &&& forall|c: int, i: int|
            0 <= c < 8 && 0 <= i < self.transfers.queue@[c].len() ==> (#[trigger] self.transfers.queue@[c][i]).buffer_length
                <= T::capacity()
    }

    /// Each buffer has at most one holder.
    pub closed spec fn wf(&self) -> bool {
        &&& self.parts_wf()
        &&& total(self.transfers.queue@) + self.transfers.free_buffers@.len() == TN
        &&& is_disjoint(self.holders(), SN + TN + 1)
    }

    /// The sessions have buffers of their own.
    proof fn lemma_placed(&self)
        requires
            self.wf(),
        ensures
            self.sessions.is_placed(SN + TN + 1),
    {
        self.sessions.lemma_wf();
        let lists = self.holders();
        let ids = self.sessions.indexes();
        let base = self.sessions.base();
        assert(lists[10] == ids);
        assert forall|i: int, j: int| 0 <= i < j < ids.len() implies ids[i] != ids[j] by {
            assert(lists[10][i] != lists[10][j]);
        }
        assert forall|i: int| 0 <= i < ids.len() implies (#[trigger] ids[i]) < SN + TN + 1 && (ids[i] < base
            || ids[i] >= SN) by {
            assert(lists[10][i] < SN + TN + 1);
            if base <= ids[i] < SN {
                assert(lists[11][ids[i] - base] == lists[10][i]);
            }
        }
    }

    /// Nothing has been received yet.
    pub fn new(data_specifier: DataSpecifier, timeout: Duration, buffers: Vec<StaticBuffer>) -> (r: Self)
        requires
            SN <= MAX_SESSION_COUNT,
            1 <= TN <= MAX_TRANSFER_COUNT,
            buffers@.len() == SN + TN + 1,
            forall|i: int| 0 <= i < buffers@.len() ==> (#[trigger] buffers@[i])@.len() == T::capacity(),
        ensures
            r.wf(),
            r@ == RxState::fresh(data_specifier, timeout, T::capacity(), SN as int, TN as int),
    {
        let r = Self {
            data_specifier,
            buffers,
            sessions: Sessions::new(),
            transfers: TransferQueue::new(SN as u8).ok().unwrap(),
            readout_buffer_idx: (SN + TN) as u8,
            timeout,
            priority_trigger: PriorityTrigger::new(),
            _phantom: PhantomData,
        };
        proof {
            let lists = r.holders();
            assert(r.sessions.indexes() =~= Seq::<u8>::empty());
            assert forall|c: int| 0 <= c < 8 implies (#[trigger] lists[c]).len() == 0 by {
                assert(r.transfers.queue@[c].len() == 0);
            }
            assert(r@.queues =~= empty_queues::<Received>()) by {
                assert forall|c: int| 0 <= c < 8 implies r@.queues[c] == Seq::<Received>::empty() by {
                    assert(r.transfers.queue@[c].len() == 0);
                    assert(r@.queues[c] =~= Seq::<Received>::empty());
                }
            }
        }
        r
    }

    fn push_regular_frame(
        &mut self,
        source: NodeId,
        priority: Priority,
        data: &Data,
        timestamp: Instant,
        loop_back: bool,
        mtu: Mtu,
    )
        requires
            old(self).wf(),
        ensures
            final(self).wf(),
            final(self)@ == old(self)@.received_regular(source, priority, data@, timestamp, loop_back),
    {
        let ghost before = *self;
        let ghost bytes0 = contents(self.buffers@);
        let ghost count = SN + TN + 1;
        proof {
            self.lemma_placed();
            self.transfers.queue.lemma_wf();
            assert(self.buffers@[0]@.len() == T::capacity());
        }
        let transfer = self.sessions.receive(
            &mut self.buffers,
            self.timeout,
            source,
            priority,
            data.as_slice(),
            timestamp,
            mtu,
        );
        let ghost s1 = *self;
        let ghost bytes1 = contents(self.buffers@);
        let ghost queues0 = self.transfers.queue@;
        proof {
            before.sessions.lemma_wf();
            self.sessions.lemma_wf();
            lemma_sessions_changed(
                queues0,
                self.transfers.free_buffers@,
                self.readout_buffer_idx,
                before.sessions.indexes(),
                before.sessions.base(),
                self.sessions.indexes(),
                self.sessions.base(),
                SN as int,
                count,
            );
            self.lemma_queue_keeps(bytes0, bytes1, source);
            assert(self@ == (RxState { table: self@.table, ..before@ }));
        }
        if let Some(transfer) = transfer {
            proof {
                before.lemma_completed(source, priority, data@, timestamp);
            }
            let new_buffer_idx: Option<u8> = self.transfers.allocate_buffer(transfer.priority);
            let ghost room = make_room(queues0, TN as int, priority);
            if let Some(idx) = new_buffer_idx {
                let ghost s2 = *self;
                proof {
                    lemma_allocated(
                        queues0,
                        s1.transfers.free_buffers@,
                        s1.readout_buffer_idx,
                        s1.sessions.indexes(),
                        s1.sessions.base(),
                        SN as int,
                        count,
                        s2.transfers.queue@,
                        s2.transfers.free_buffers@,
                        idx,
                    );
                    s1.lemma_session_index(source);
                }
                let transfer_buffer_idx: u8 = self.sessions.replace_buffer(source, idx);
                let capacity: usize = self.buffers[transfer_buffer_idx as usize].as_ref().len();
                let buffer_length: usize = if (transfer.length as usize) < capacity {
                    transfer.length as usize
                } else {
                    capacity
                };
                let entry = TransferEntry {
                    source: Some(source),
                    transfer_id: transfer.id,
                    timestamp: transfer.timestamp,
                    loop_back,
                    buffer_length,
                    buffer_idx: transfer_buffer_idx,
                };
                let _queued = self.transfers.push(priority, entry);
                self.priority_trigger.wake(PrioritySet::new_eq(priority));
                proof {
                    let pos = s1.sessions.order().index_of(source);
                    let c = priority.code() as int;
                    let lists = s2.holders();
                    lemma_exchanged(lists, count, idx, pos, c);
                    assert(self.holders() =~= lists.update(10, lists[10].update(pos, idx)).update(
                        c,
                        lists[c].push(lists[10][pos]),
                    )) by {
                        assert(queue_indexes(self.transfers.queue@[c]) =~= queue_indexes(
                            s2.transfers.queue@[c],
                        ).push(transfer_buffer_idx));
                    }
                    self.lemma_lengths(s1, s2, priority, entry);
                    lemma_queued_commutes(queues0, bytes1, TN as int, priority, entry);
                    assert(bytes1[transfer_buffer_idx as int].take(buffer_length as int) =~= clip(
                        bytes1[transfer_buffer_idx as int],
                        transfer.length as int,
                    ));
                }
            } else {
                proof {
                    lemma_queued_commutes(
                        queues0,
                        bytes1,
                        TN as int,
                        priority,
                        TransferEntry {
                            source: None,
                            transfer_id: transfer.id,
                            timestamp,
                            loop_back,
                            buffer_length: 0,
                            buffer_idx: 0,
                        },
                    );
                    assert(self.holders() == s1.holders());
                }
            }
        }
    }

    /// The queued transfers do not change with the buffer of a session.
    proof fn lemma_queue_keeps(&self, a: Seq<Seq<u8>>, b: Seq<Seq<u8>>, source: NodeId)
        requires
            self.sessions.wf(),
            self.transfers.queue@.len() == 8,
            is_disjoint(self.holders(), SN + TN + 1),
            forall|i: int|
                0 <= i < SN + TN + 1 && !(self.sessions.has(source) && i == self.sessions.index(source))
                    ==> #[trigger] a[i] == b[i],
        ensures
            received_queues(self.transfers.queue@, a) == received_queues(self.transfers.queue@, b),
    {
        let queues = self.transfers.queue@;
        let lists = self.holders();
        assert forall|c: int, i: int| 0 <= c < 8 && 0 <= i < queues[c].len() implies a[(
        #[trigger] queues[c][i]).buffer_idx as int] == b[queues[c][i].buffer_idx as int] by {
            assert(lists[c][i] == queues[c][i].buffer_idx);
            assert(lists[c][i] < SN + TN + 1);
            if self.sessions.has(source) {
                self.lemma_session_index(source);
                let pos = self.sessions.order().index_of(source);
                assert(lists[10][pos] == self.sessions.index(source));
                assert(lists[c][i] != lists[10][pos]);
            }
        }
        lemma_queues_untouched(queues, a, b);
    }

    /// The buffer of a session is in the list of the sessions.
    proof fn lemma_session_index(&self, source: NodeId)
        requires
            self.sessions.wf(),
            self.sessions.has(source),
            is_disjoint(self.holders(), SN + TN + 1),
        ensures
            ({
                let pos = self.sessions.order().index_of(source);
                &&& 0 <= pos < self.sessions.indexes().len()
                &&& self.sessions.indexes()[pos] == self.sessions.index(source)
                &&& self.sessions.index(source) < SN + TN + 1
            }),
    {
        self.sessions.lemma_wf();
        let pos = self.sessions.order().index_of(source);
        assert(self.holders()[10][pos] < SN + TN + 1);
    }

    /// A transfer that is completed has the priority of its last frame, and its session starts
    /// anew.
    proof fn lemma_completed(&self, source: NodeId, priority: Priority, data: Seq<u8>, timestamp: Instant)
        requires
            self.wf(),
            data.len() <= u32::MAX,
        ensures
            ({
                let (table, assembled) = self@.table.received(
                    source,
                    self@.timeout,
                    self@.capacity,
                    priority,
                    data,
                    timestamp,
                );
                assembled matches Some(a) ==> a.transfer.priority == priority
                    && table.sessions[source].session.length == 0
            }),
    {
    }

    /// The lengths of the queued transfers stay within the buffers.
    proof fn lemma_lengths(&self, s1: Self, s2: Self, priority: Priority, entry: TransferEntry)
        requires
            s1.parts_wf(),
            s1.transfers.queue@.len() == 8,
            entry.buffer_length <= T::capacity(),
            ({
                ||| s2.transfers.queue@ == s1.transfers.queue@
                ||| {
                    let c = least_urgent(s1.transfers.queue@);
                    &&& 0 <= c < 8
                    &&& s1.transfers.queue@[c].len() > 0
                    &&& s2.transfers.queue@ == s1.transfers.queue@.update(
                        c,
                        s1.transfers.queue@[c].drop_first(),
                    )
                }
            }),
            self.transfers.queue@ == appended(s2.transfers.queue@, priority, entry),
        ensures
            forall|c: int, i: int|
                0 <= c < 8 && 0 <= i < self.transfers.queue@[c].len() ==> (
                #[trigger] self.transfers.queue@[c][i]).buffer_length <= T::capacity(),
    {
        let q1 = s1.transfers.queue@;
        let q2 = s2.transfers.queue@;
        let q3 = self.transfers.queue@;
        assert forall|c: int, i: int| 0 <= c < 8 && 0 <= i < q2[c].len() implies (
        #[trigger] q2[c][i]).buffer_length <= T::capacity() by {
            if q2 == q1 || c != least_urgent(q1) {
                assert(q2[c][i] == q1[c][i]);
            } else {
                assert(q2[c][i] == q1[c][i + 1]);
            }
        }
        assert forall|c: int, i: int| 0 <= c < 8 && 0 <= i < q3[c].len() implies (
        #[trigger] q3[c][i]).buffer_length <= T::capacity() by {
            if i < q2[c].len() {
                assert(q3[c][i] == q2[c][i]);
            }
        }
    }

    fn push_anonymous_frame(
        &mut self,
        priority: Priority,
        data: &Data,
        timestamp: Instant,
        loop_back: bool,
    )
        requires
            old(self).wf(),
        ensures
            final(self).wf(),
            final(self)@ == old(self)@.received_anonymous(priority, data@, timestamp, loop_back),
    {
        let ghost s1 = *self;
        let ghost bytes1 = contents(self.buffers@);
        let ghost queues0 = self.transfers.queue@;
        let ghost count = SN + TN + 1;
        let frame = data.as_slice();
        let n: usize = frame.len();
        if n == 0 {
            return;
        }
        let tail = TailByte::from_u8(frame[n - 1]);
        let payload = slice_subrange(frame, 0, n - 1);
        assert(payload@ =~= data@.drop_last());
        let valid_frame: bool = tail.sot() && tail.eot() && tail.toggle() == SOT_TOGGLE_BIT;
        if !valid_frame {
            return;
        }
        proof {
            self.transfers.queue.lemma_wf();
        }
        let allocated: Option<u8> = self.transfers.allocate_buffer(priority);
        if let Some(buffer_idx) = allocated {
            let ghost s2 = *self;
            proof {
                lemma_allocated(
                    queues0,
                    s1.transfers.free_buffers@,
                    s1.readout_buffer_idx,
                    s1.sessions.indexes(),
                    s1.sessions.base(),
                    SN as int,
                    count,
                    s2.transfers.queue@,
                    s2.transfers.free_buffers@,
                    buffer_idx,
                );
            }
            // A longer message of a compatible type may exceed the buffer.
            write_at(self.buffers[buffer_idx as usize].as_mut(), 0, payload);
            let capacity: usize = self.buffers[buffer_idx as usize].as_ref().len();
            let length: usize = if payload.len() < capacity { payload.len() } else { capacity };
            let entry = TransferEntry {
                source: None,
                transfer_id: tail.transfer_id(),
                timestamp,
                buffer_length: length,
                buffer_idx,
                loop_back,
            };
            let ghost bytes2 = contents(self.buffers@);
            let _queued = self.transfers.push(priority, entry);
            self.priority_trigger.wake(PrioritySet::new_eq(priority));
            proof {
                let c = priority.code() as int;
                let lists = s2.holders();
                lemma_queued_index(lists, count, buffer_idx, c);
                assert(self.holders() =~= lists.update(c, lists[c].push(buffer_idx))) by {
                    assert(queue_indexes(self.transfers.queue@[c]) =~= queue_indexes(
                        s2.transfers.queue@[c],
                    ).push(buffer_idx));
                }
                self.lemma_lengths(s1, s2, priority, entry);
                lemma_queued_commutes(queues0, bytes1, TN as int, priority, entry);
                assert(bytes2 =~= bytes1.update(buffer_idx as int, store(bytes1[buffer_idx as int], 0, payload@)));
                s2.lemma_others_untouched(bytes1, bytes2, buffer_idx);
                assert(self.sessions.table(bytes2) == self.sessions.table(bytes1));
                assert(bytes2[buffer_idx as int].take(length as int) =~= clip(payload@, T::capacity() as int));
                lemma_appended_bytes(s2.transfers.queue@, bytes1, bytes2, priority, entry);
                assert(self@.queues == s1@.received_anonymous(priority, data@, timestamp, loop_back).queues);
                assert(self@.table == s1@.table);
            }
        } else {
            proof {
                lemma_queued_commutes(
                    queues0,
                    bytes1,
                    TN as int,
                    priority,
                    TransferEntry {
                        source: None,
                        transfer_id: TransferId::of(0),
                        timestamp,
                        loop_back,
                        buffer_length: 0,
                        buffer_idx: 0,
                    },
                );
                assert(self.holders() == s1.holders());
            }
        }
    }

    /// Neither sessions nor transfers change with a buffer that nobody holds.
    proof fn lemma_others_untouched(&self, a: Seq<Seq<u8>>, b: Seq<Seq<u8>>, idx: u8)
        requires
            self.sessions.wf(),
            self.transfers.queue@.len() == 8,
            is_disjoint(self.holders(), SN + TN + 1),
            !is_queued(self.holders(), idx),
            forall|i: int| 0 <= i < SN + TN + 1 && i != idx ==> #[trigger] a[i] == b[i],
        ensures
            self.sessions.table(a) == self.sessions.table(b),
            received_queues(self.transfers.queue@, a) == received_queues(self.transfers.queue@, b),
    {
        let queues = self.transfers.queue@;
        let lists = self.holders();
        assert forall|c: int, i: int| 0 <= c < 8 && 0 <= i < queues[c].len() implies a[(
        #[trigger] queues[c][i]).buffer_idx as int] == b[queues[c][i].buffer_idx as int] by {
            assert(lists[c][i] == queues[c][i].buffer_idx);
            assert(lists[c][i] < SN + TN + 1);
            if queues[c][i].buffer_idx == idx {
                assert(is_at(lists, c, i, idx));
            }
        }
        lemma_queues_untouched(queues, a, b);
        assert forall|k: NodeId| #[trigger] self.sessions.has(k) implies a[self.sessions.index(k) as int]
            == b[self.sessions.index(k) as int] by {
            self.lemma_session_index(k);
            let pos = self.sessions.order().index_of(k);
            if self.sessions.index(k) == idx {
                assert(is_at(lists, 10, pos, idx));
            }
        }
        self.sessions.lemma_table_depends(a, b);
    }

    /// Receives a frame.
    pub fn push_frame(&mut self, frame: &Frame, mtu: Mtu)
        requires
            old(self).wf(),
        ensures
            final(self).wf(),
            final(self)@ == old(self)@.received(*frame),
    {
        if frame.header.data_spec != self.data_specifier {
            return;
        }
        match frame.header.source {
            Some(node) => self.push_regular_frame(
                node,
                frame.header.priority,
                &frame.data,
                frame.timestamp,
                frame.loop_back,
                mtu,
            ),
            None => self.push_anonymous_frame(
                frame.header.priority,
                &frame.data,
                frame.timestamp,
                frame.loop_back,
            ),
        }
    }

    /// Returns the priorities that have a transfer.
    pub fn pop_readiness(&self) -> (r: PrioritySet)
        requires
            self.wf(),
        ensures
            r@ == queued_priorities(self@.queues),
    {
        proof {
            self.transfers.queue.lemma_wf();
            assert(queued_priorities(self.transfers.queue@) =~= queued_priorities(self@.queues)) by {
                assert forall|p: Priority| self.transfers.queue@[p.code() as int].len()
                    == self@.queues[p.code() as int].len() by {}
            }
        }
        self.transfers.priorities()
    }

    /// Returns the priorities of the mask that have a transfer, or lets the task wait for one.
    pub fn poll_pop_readiness(&mut self, waker: &Waker, priority_mask: PrioritySet) -> (r: Poll<PrioritySet>)
        requires
            old(self).wf(),
        ensures
            final(self).wf(),
            ({
                let ready = queued_priorities(old(self)@.queues).intersect(priority_mask@);
                match r {
                    Poll::Ready(set) => {
                        set@ == ready && ready != Set::<Priority>::empty() && final(self)@ == old(self)@
                    },
                    Poll::Pending => {
                        &&& ready == Set::<Priority>::empty()
                        &&& final(self)@ == (RxState {
                            waiting: Waiting::registered(priority_mask@),
                            ..old(self)@
                        })
                    },
                }
            }),
    {
        let priorities = self.pop_readiness().intersect(priority_mask);
        if !priorities.is_empty() {
            Poll::Ready(priorities)
        } else {
            self.priority_trigger.register(waker, priority_mask);
            Poll::Pending
        }
    }

    /// Fetches the oldest transfer of the most urgent priority of the mask.
    ///
    /// The payload stays available until the next transfer is fetched.
    pub fn try_pop(&mut self, priority_mask: PrioritySet) -> (r: Option<(TransferMeta, &[u8])>)
        requires
            old(self).wf(),
        ensures
            final(self).wf(),
            ({
                let ready = queued_priorities(old(self)@.queues).intersect(priority_mask@);
                match r {
                    Some((meta, bytes)) => {
                        let item = old(self)@.queues[meta.priority.code() as int][0];
                        &&& PrioritySet::is_first(ready, Some(meta.priority))
                        &&& old(self)@.queues[meta.priority.code() as int].len() > 0
                        &&& meta == item.meta(meta.priority)
                        &&& bytes@ == item.bytes
                        &&& final(self)@ == old(self)@.popped(meta.priority)
                    },
                    None => ready == Set::<Priority>::empty() && final(self)@ == old(self)@,
                }
            }),
    {
        let ghost before = *self;
        let ghost bytes = contents(self.buffers@);
        let ghost queues0 = self.transfers.queue@;
        let ghost count = SN + TN + 1;
        proof {
            self.transfers.queue.lemma_wf();
            assert(queued_priorities(queues0) =~= queued_priorities(self@.queues)) by {
                assert forall|p: Priority| queues0[p.code() as int].len() == self@.queues[p.code() as int].len() by {}
            }
        }
        let (priority, transfer) = match self.transfers.pop(priority_mask) {
            Some((priority, transfer)) => (priority, transfer),
            None => {
                assert(self.holders() == before.holders());
                return None;
            },
        };
        let prev_buffer: u8 = self.readout_buffer_idx;
        self.readout_buffer_idx = transfer.buffer_idx;
        let _freed = self.transfers.free_buffer(prev_buffer);
        proof {
            let c = priority.code() as int;
            let lists = before.holders();
            lemma_read(lists, count, c);
            assert(self.holders() =~= lists.update(c, lists[c].remove(0)).update(9, seq![lists[c][0]]).update(
                8,
                lists[8].push(lists[9][0]),
            )) by {
                assert(queue_indexes(self.transfers.queue@[c]) =~= lists[c].remove(0));
            }
            assert(lists[c][0] < count);
            assert forall|d: int, i: int| 0 <= d < 8 && 0 <= i < self.transfers.queue@[d].len() implies (
            #[trigger] self.transfers.queue@[d][i]).buffer_length <= T::capacity() by {
                let j = if d == c { i + 1 } else { i };
                assert(self.transfers.queue@[d][i] == queues0[d][j]);
            }
            assert(queues0[c][0].buffer_length <= T::capacity());
            assert(received_queues(self.transfers.queue@, bytes)[c] =~= before@.queues[c].drop_first());
            assert(self@.queues =~= before@.popped(priority).queues);
            assert(before@.queues[c][0] == transfer.received(bytes));
            assert(bytes[transfer.buffer_idx as int] == self.buffers@[transfer.buffer_idx as int]@);
        }
        let meta = TransferMeta {
            priority,
            address: transfer.source,
            transfer_id: transfer.transfer_id,
            timestamp: transfer.timestamp,
            loop_back: transfer.loop_back,
        };
        let buffer = self.buffers[self.readout_buffer_idx as usize].as_ref();
        let valid_buffer = slice_subrange(buffer, 0, transfer.buffer_length);
        Some((meta, valid_buffer))
    }
}

impl<T: BufferType, const SN: usize, const TN: usize> DynamicRxBuffer for RxPriorityFifoInner<T, SN, TN> {
    type State = RxState;

    open spec fn wf(&self) -> bool {
        self.wf()
    }

    open spec fn state(&self) -> RxState {
        self@
    }

    open spec fn after_frame(state: RxState, frame: Frame) -> RxState {
        state.received(frame)
    }

    open spec fn after_wait(state: RxState, priorities: Set<Priority>) -> RxState {
        RxState { waiting: Waiting::registered(priorities), ..state }
    }

    open spec fn ready(state: RxState) -> Set<Priority> {
        queued_priorities(state.queues)
    }

    open spec fn count(state: RxState) -> nat {
        total(state.queues) as nat
    }

    open spec fn is_fetch(
        before: RxState,
        priorities: Set<Priority>,
        transfer: Option<(TransferMeta, Seq<u8>)>,
        after: RxState,
    ) -> bool {
        let ready = queued_priorities(before.queues).intersect(priorities);
        match transfer {
            Some((meta, bytes)) => {
                let queue = before.queues[meta.priority.code() as int];
                &&& before.queues.len() == 8
                &&& PrioritySet::is_first(ready, Some(meta.priority))
                &&& queue.len() > 0
                &&& meta == queue[0].meta(meta.priority)
                &&& bytes == queue[0].bytes
                &&& after == before.popped(meta.priority)
            },
            None => ready == Set::<Priority>::empty() && after == before,
        }
    }

    proof fn lemma_count(
        before: RxState,
        priorities: Set<Priority>,
        transfer: Option<(TransferMeta, Seq<u8>)>,
        after: RxState,
    ) {
        if let Some((meta, bytes)) = transfer {
            let c = meta.priority.code() as int;
            lemma_total_update(before.queues, c, before.queues[c].drop_first());
            lemma_total_nonnegative(after.queues);
        }
    }

    fn push_frame(&mut self, frame: &Frame, mtu: Mtu) {
        self.push_frame(frame, mtu)
    }

    fn pop_readiness(&self) -> (r: PrioritySet) {
        self.pop_readiness()
    }

    fn poll_pop_readiness(&mut self, waker: &Waker, priority_mask: PrioritySet) -> (r: Poll<PrioritySet>) {
        self.poll_pop_readiness(waker, priority_mask)
    }

    fn try_pop(&mut self, priority_mask: PrioritySet) -> (r: Option<(TransferMeta, &[u8])>) {
        proof {
            self.transfers.queue.lemma_wf();
        }
        self.try_pop(priority_mask)
    }
}

/// The buffer of the first transfer of a queue becomes the one that is read, and that which was
/// read before becomes free.
proof fn lemma_read(lists: Lists, count: int, c: int)
    requires
        lists.len() == 12,
        is_disjoint(lists, count),
        0 <= c < 8,
        lists[c].len() > 0,
        lists[9].len() == 1,
    ensures
        is_disjoint(
            lists.update(c, lists[c].remove(0)).update(9, seq![lists[c][0]]).update(
                8,
                lists[8].push(lists[9][0]),
            ),
            count,
        ),
{
    let x = lists[c][0];
    let y = lists[9][0];
    assert(is_at(lists, c, 0, x));
    assert(lists[c][0] < count);
    assert(lists[9][0] < count);
    lemma_disjoint_remove(lists, count, x, c, 0);
    let a = lists.update(c, lists[c].remove(0));
    assert(is_at(a, 9, 0, y));
    lemma_disjoint_remove(a, count, y, 9, 0);
    let b = a.update(9, a[9].remove(0));
    assert(!is_queued(b, x));
    lemma_disjoint_insert(b, count, x, 9, 0);
    let d = b.update(9, b[9].insert(0, x));
    assert(b[9].insert(0, x) =~= seq![x]);
    assert(!is_queued(d, y));
    let end = d[8].len() as int;
    lemma_disjoint_insert(d, count, y, 8, end);
    assert(d[8].insert(end, y) =~= lists[8].push(y));
    assert(d.update(8, d[8].insert(end, y)) =~= lists.update(c, lists[c].remove(0)).update(9, seq![x]).update(
        8,
        lists[8].push(y),
    ));
}

/// A transfer is appended whose bytes have just been written.
proof fn lemma_appended_bytes(
    queues: Queues<TransferEntry>,
    a: Seq<Seq<u8>>,
    b: Seq<Seq<u8>>,
    priority: Priority,
    entry: TransferEntry,
)
    requires
        queues.len() == 8,
        received_queues(queues, a) == received_queues(queues, b),
    ensures
        received_queues(appended(queues, priority, entry), b) == appended(
            received_queues(queues, a),
            priority,
            entry.received(b),
        ),
{
    let x = received_queues(appended(queues, priority, entry), b);
    let y = appended(received_queues(queues, b), priority, entry.received(b));
    let p = priority.code() as int;
    assert(x[p] =~= y[p]);
    assert forall|d: int| 0 <= d < 8 && d != p implies x[d] == y[d] by {
        assert(x[d] =~= y[d]);
    }
    assert(x =~= y);
}

} // verus!
