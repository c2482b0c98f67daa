//! The sessions of a receive buffer.

use vstd::prelude::*;

use crate::buffer::gather::{
    clip, extend, lemma_push_ignores_rest, Gather, Session, Transfer,
};
use crate::encoding::StaticBuffer;
use crate::format::{tail_fields, TailByte};
use crate::frame::Mtu;
use crate::ids::NodeId;
use crate::priority::Priority;
use crate::time::{Duration, Instant};
use crate::utils::index_queue::IndexQueue;
use crate::utils::multi_class_queue::{is_at, is_disjoint, lemma_disjoint_insert, lemma_disjoint_remove, Lists};

verus! {

/// Limit for the number of sessions.
pub const MAX_SESSION_COUNT: usize = 128;

const MAX_NODE: usize = 127;

/// A session and the bytes that it has received of its current transfer, as far as they fit into
/// the buffer.
pub struct Reassembly {
    /// The state of the session.
    pub session: Session,
    /// The received bytes.
    pub bytes: Seq<u8>,
}

impl Reassembly {
    /// Nothing has been received.
    pub open spec fn fresh() -> Reassembly {
        Reassembly { session: Session::fresh(), bytes: Seq::empty() }
    }
}

/// The last start of a transfer lies more than `timeout` back, or there was none.
pub open spec fn is_expired(session: Session, timeout: Duration, now: Instant) -> bool {
    match session.start {
        None => true,
        Some(start) => start.plus(timeout).ticks < now.ticks,
    }
}

/// The sessions of a buffer by their source.
#[verifier::ext_equal]
pub struct SessionTable {
    /// The session of each source.
    pub sessions: Map<NodeId, Reassembly>,
    /// The sources in the order of their last start of a transfer, the least recent first.
    pub order: Seq<NodeId>,
    /// The number of sessions that can be added.
    pub free: int,
}

/// A transfer and its payload, as far as it fits into the buffer.
pub struct Assembled {
    /// The transfer.
    pub transfer: Transfer,
    /// The payload.
    pub bytes: Seq<u8>,
}

/// The sequence with one occurrence of an item moved to the end.
pub open spec fn moved_back<T>(items: Seq<T>, item: T) -> Seq<T> {
    items.remove(items.index_of(item)).push(item)
}

impl SessionTable {
    /// No session exists yet.
    pub open spec fn fresh(free: int) -> SessionTable {
        SessionTable { sessions: Map::empty(), order: Seq::empty(), free }
    }

    /// A session of an unknown source starts, if there is room for it.
    ///
    /// When all slots are taken, the least recent session is given up if it has expired.
    pub open spec fn started(self, source: NodeId, timeout: Duration, now: Instant) -> SessionTable {
        if self.free > 0 {
            SessionTable {
                sessions: self.sessions.insert(source, Reassembly::fresh()),
                order: self.order.insert(0, source),
                free: self.free - 1,
            }
        } else if self.order.len() > 0 && is_expired(self.sessions[self.order[0]].session, timeout, now) {
            SessionTable {
                sessions: self.sessions.remove(self.order[0]).insert(source, Reassembly::fresh()),
                order: self.order.drop_first().insert(0, source),
                free: self.free,
            }
        } else {
            self
        }
    }

    /// The table in which a frame is received: a first frame may start a session.
    pub open spec fn prepared(self, source: NodeId, timeout: Duration, data: Seq<u8>, now: Instant) -> SessionTable {
        if !self.sessions.contains_key(source) && data.len() > 0 && tail_fields(data.last()).sot {
            self.started(source, timeout, now)
        } else {
            self
        }
    }

    /// The table after a frame, and the transfer that it completes. The buffer of a session has
    /// `capacity` bytes.
    pub open spec fn received(
        self,
        source: NodeId,
        timeout: Duration,
        capacity: nat,
        priority: Priority,
        data: Seq<u8>,
        now: Instant,
    ) -> (SessionTable, Option<Assembled>) {
        let table = self.prepared(source, timeout, data, now);
        if !table.sessions.contains_key(source) {
            (table, None)
        } else {
            let before = table.sessions[source];
            let step = before.session.push(
                timeout,
                extend(before.bytes, capacity),
                priority,
                data,
                now,
            );
            let after = Reassembly {
                session: step.session,
                bytes: clip(step.buffer, step.session.length),
            };
            (
                SessionTable {
                    sessions: table.sessions.insert(source, after),
                    order: if step.session.start == Some(now) {
                        moved_back(table.order, source)
                    } else {
                        table.order
                    },
                    free: table.free,
                },
                match step.transfer {
                    Some(transfer) => Some(
                        Assembled { transfer, bytes: clip(step.buffer, transfer.length as int) },
                    ),
                    None => None,
                },
            )
        }
    }
}

/// The state machine of a session and the index of its buffer.
#[derive(Debug)]
pub struct SessionEntry {
    gather: Gather,
    buffer_idx: u8,
}

/// The sessions of a buffer that has `SN` slots for them.
///
/// The bytes of a session are in a buffer of the owner. New sessions take the buffers with the
/// indexes from zero on.
pub struct Sessions<const SN: usize> {
    sessions: IndexQueue<NodeId, SessionEntry, MAX_NODE, SN>,
    session_buffer_base: u8,
}

/// The contents of buffers.
pub open spec fn contents(buffers: Seq<StaticBuffer>) -> Seq<Seq<u8>> {
    Seq::new(buffers.len(), |i: int| buffers[i]@)
}

impl<const SN: usize> Sessions<SN> {
    /// The state of a session.
    spec fn state(&self, source: NodeId) -> Session {
        (self.sessions@.values[source]->0).gather@
    }

    /// The index of the buffer of a session.
    pub closed spec fn index(&self, source: NodeId) -> u8 {
        (self.sessions@.values[source]->0).buffer_idx
    }

    /// The sources of the sessions, the least recent first.
    pub closed spec fn order(&self) -> Seq<NodeId> {
        self.sessions@.order
    }

    /// The indexes of the buffers in the order of the sessions.
    pub open spec fn indexes(&self) -> Seq<u8> {
        Seq::new(self.order().len(), |i: int| self.index(self.order()[i]))
    }

    /// The number of buffers that have been taken for sessions.
    pub closed spec fn base(&self) -> int {
        self.session_buffer_base as int
    }

    /// A session of the source exists.
    pub open spec fn has(&self, source: NodeId) -> bool {
        self.order().contains(source)
    }

    /// All sessions are queued, and as many buffers have been taken.
    pub closed spec fn wf(&self) -> bool {
        &&& SN <= MAX_SESSION_COUNT
        &&& self.sessions.wf()
        &&& self.session_buffer_base <= SN
        &&& self.sessions@.order.len() == self.session_buffer_base
        &&& self.sessions@.values.dom().len() == self.session_buffer_base
        &&& forall|k: NodeId|
            #[trigger] self.sessions@.values.contains_key(k) ==> self.sessions@.values[k] is Some && (
            self.sessions@.values[k]->0).gather.wf() && self.sessions@.order.contains(k)
    }

    /// The table, given the contents of the buffers.
    pub closed spec fn table(&self, bytes: Seq<Seq<u8>>) -> SessionTable {
        SessionTable {
            sessions: Map::new(
                |k: NodeId| self.sessions@.values.contains_key(k),
                |k: NodeId|
                    Reassembly {
                        session: self.state(k),
                        bytes: clip(bytes[self.index(k) as int], self.state(k).length),
                    },
            ),
            order: self.sessions@.order,
            free: SN - self.base(),
        }
    }

    /// Sessions are where the table says, once each.
    pub proof fn lemma_wf(&self)
        requires
            self.wf(),
        ensures
            SN <= MAX_SESSION_COUNT,
            self.base() == self.order().len(),
            0 <= self.base() <= SN,
            self.order().no_duplicates(),
            forall|bytes: Seq<Seq<u8>>, k: NodeId|
                (#[trigger] self.table(bytes).sessions.contains_key(k)) == self.has(k),
            forall|bytes: Seq<Seq<u8>>| (#[trigger] self.table(bytes)).order == self.order(),
            forall|k: NodeId| #[trigger] self.has(k) ==> 0 <= self.order().index_of(k) < self.order().len()
                && self.order()[self.order().index_of(k)] == k,
    {
        self.sessions.lemma_wf();
        assert forall|bytes: Seq<Seq<u8>>, k: NodeId|
            (#[trigger] self.table(bytes).sessions.contains_key(k)) == self.has(k) by {
            if self.has(k) {
                let i = self.order().index_of(k);
                assert(self.sessions@.values.contains_key(self.sessions@.order[i]));
            }
        }
    }

    /// The table depends only on the contents of the buffers of the sessions.
    pub proof fn lemma_table_depends(&self, a: Seq<Seq<u8>>, b: Seq<Seq<u8>>)
        requires
            self.wf(),
            forall|k: NodeId| #[trigger] self.has(k) ==> a[self.index(k) as int] == b[self.index(k) as int],
        ensures
            self.table(a) == self.table(b),
    {
        self.lemma_wf();
        assert forall|k: NodeId| self.sessions@.values.contains_key(k) implies
            #[trigger] self.table(a).sessions[k] == self.table(b).sessions[k] by {
            assert(self.table(a).sessions.contains_key(k));
            assert(self.has(k));
        }
        assert(self.table(a).sessions =~= self.table(b).sessions);
    }

    /// No session exists yet.
    pub fn new() -> (r: Self)
        requires
            SN <= MAX_SESSION_COUNT,
        ensures
            r.wf(),
            r.base() == 0,
            r.order() == Seq::<NodeId>::empty(),
            forall|bytes: Seq<Seq<u8>>| #[trigger] r.table(bytes) == SessionTable::fresh(SN as int),
    {
        let r = Sessions { sessions: IndexQueue::new(), session_buffer_base: 0 };
        proof {
            assert(r.sessions@.values.dom() =~= Set::<NodeId>::empty());
            assert forall|bytes: Seq<Seq<u8>>| #[trigger] r.table(bytes) == SessionTable::fresh(SN as int) by {
                assert(r.table(bytes).sessions =~= Map::<NodeId, Reassembly>::empty());
            }
        }
        r
    }

    fn allocate_session_buffer(&mut self) -> (r: Option<u8>)
        requires
            old(self).session_buffer_base <= SN,
            SN <= MAX_SESSION_COUNT,
        ensures
            final(self).sessions == old(self).sessions,
            r == (if old(self).session_buffer_base < SN { Some(old(self).session_buffer_base) } else { None }),
            final(self).session_buffer_base == old(self).session_buffer_base + (if r is Some { 1int } else { 0 }),
    {
        if (self.session_buffer_base as usize) < SN {
            let buffer: u8 = self.session_buffer_base;
            self.session_buffer_base = self.session_buffer_base + 1;
            Some(buffer)
        } else {
            None
        }
    }

    /// Starts a session of an unknown source, if there is room for it.
    pub fn try_start_new_session(&mut self, timeout: Duration, source: NodeId, timestamp: Instant)
        requires
            old(self).wf(),
            !old(self).has(source),
        ensures
            final(self).wf(),
            forall|bytes: Seq<Seq<u8>>|
                #[trigger] final(self).table(bytes) == old(self).table(bytes).started(source, timeout, timestamp),
            final(self).base() == old(self).base() + (if old(self).base() < SN { 1int } else { 0 }),
            final(self).indexes() == (if old(self).base() < SN {
                old(self).indexes().insert(0, old(self).base() as u8)
            } else {
                old(self).indexes()
            }),
    {
        let ghost before = *self;
        proof {
            self.lemma_wf();
            self.sessions.lemma_wf();
            assert(!self.table(Seq::empty()).sessions.contains_key(source));
        }
        let mut buffer_idx: Option<u8> = self.allocate_session_buffer();
        if buffer_idx.is_none() {
            let oldest: Option<NodeId> = self.sessions.front();
            if let Some(oldest_source) = oldest {
                proof {
                    assert(self.sessions@.values.contains_key(self.sessions@.order[0]));
                }
                let last: Option<Instant> = self.sessions.get(oldest_source).unwrap().gather.last_transfer_timestamp();
                let expired: bool = match last {
                    None => true,
                    Some(ts) => ts.saturating_add(timeout).ticks < timestamp.ticks,
                };
                if expired {
                    let session = self.sessions.remove(oldest_source).unwrap();
                    buffer_idx = Some(session.buffer_idx);
                    proof {
                        let order = before.sessions@.order;
                        assert(order.contains(oldest_source));
                        assert(order.index_of(oldest_source) == 0);
                        assert(self.sessions@.order =~= order.drop_first());
                    }
                }
            }
        }
        let ghost middle = *self;
        if let Some(idx) = buffer_idx {
            let session = SessionEntry { gather: Gather::default(), buffer_idx: idx };
            let _number: u8 = source.into_u8();
            proof {
                assert(!self.sessions@.values.contains_key(source));
                assert(self.sessions@.values.dom().len() < SN);
            }
            let _inserted = self.sessions.insert(source, session);
            let _queued = self.sessions.enqueue_front(source);
            proof {
                assert(!middle.sessions@.order.contains(source));
                let order = middle.sessions@.order;
                assert(self.sessions@.order == order.insert(0, source));
                assert forall|k: NodeId| #[trigger] self.sessions@.values.contains_key(k) implies self.sessions@.values[k] is Some
                    && (self.sessions@.values[k]->0).gather.wf() && self.sessions@.order.contains(k) by {
                    if k == source {
                        assert(self.sessions@.order[0] == k);
                    } else {
                        assert(before.sessions@.values.contains_key(k));
                        assert(before.sessions@.order.contains(k));
                        let i = before.sessions@.order.index_of(k);
                        let j = if before.base() < SN { i + 1 } else { i };
                        assert(self.sessions@.order[j] == k);
                    }
                }
                self.sessions.lemma_wf();
                assert(self.indexes() =~= (if before.base() < SN {
                    before.indexes().insert(0, before.base() as u8)
                } else {
                    before.indexes()
                })) by {
                    assert forall|i: int| 0 < i < self.order().len() implies self.order()[i] != source by {
                        assert(self.order()[0] == source);
                    }
                }
                assert forall|bytes: Seq<Seq<u8>>|
                    #[trigger] self.table(bytes) == before.table(bytes).started(source, timeout, timestamp) by {
                    let expected = before.table(bytes).started(source, timeout, timestamp);
                    assert(clip(bytes[self.index(source) as int], 0) =~= Seq::<u8>::empty());
                    assert(self.table(bytes).sessions =~= expected.sessions);
                    assert(self.table(bytes).order =~= expected.order);
                }
            }
        }
    }

    /// Buffers of different sessions are different, and there is one for a further session.
    pub open spec fn is_placed(&self, count: int) -> bool {
        &&& self.indexes().no_duplicates()
        &&& forall|i: int|
            0 <= i < self.indexes().len() ==> (#[trigger] self.indexes()[i]) < count && (self.indexes()[i]
                < self.base() || self.indexes()[i] >= SN)
        &&& SN <= count
    }

    /// Different sessions have different buffers.
    pub proof fn lemma_placed(&self, count: int, a: NodeId, b: NodeId)
        requires
            self.wf(),
            self.is_placed(count),
            self.has(a),
            self.has(b),
        ensures
            self.index(a) == self.index(b) <==> a == b,
            self.index(a) < count,
            self.indexes().contains(self.index(a)),
    {
        self.lemma_wf();
        let i = self.order().index_of(a);
        let j = self.order().index_of(b);
        assert(self.indexes()[i] == self.index(a));
        assert(self.indexes()[j] == self.index(b));
    }

    /// Receives a frame of a source, and returns the transfer that it completes.
    ///
    /// The payload is in the buffer of the session afterwards.
    pub fn receive(
        &mut self,
        buffers: &mut Vec<StaticBuffer>,
        timeout: Duration,
        source: NodeId,
        priority: Priority,
        data: &[u8],
        timestamp: Instant,
        mtu: Mtu,
    ) -> (r: Option<Transfer>)
        requires
            old(self).wf(),
            old(self).is_placed(old(buffers)@.len() as int),
            old(buffers)@.len() > 0,
            forall|i: int| 0 <= i < old(buffers)@.len() ==> (#[trigger] old(buffers)@[i])@.len() == old(buffers)@[0]@.len(),
            data@.len() <= u32::MAX,
        ensures
            final(self).wf(),
            final(buffers)@.len() == old(buffers)@.len(),
            forall|i: int|
                0 <= i < old(buffers)@.len() ==> (#[trigger] final(buffers)@[i])@.len() == old(buffers)@[0]@.len(),
            forall|i: int|
                0 <= i < old(buffers)@.len() && !(final(self).has(source) && i == final(self).index(source))
                    ==> #[trigger] final(buffers)@[i] == old(buffers)@[i],
            ({
                let before = old(self).table(contents(old(buffers)@));
                let (after, assembled) = before.received(
                    source,
                    timeout,
                    old(buffers)@[0]@.len(),
                    priority,
                    data@,
                    timestamp,
                );
                &&& final(self).table(contents(final(buffers)@)) == after
                &&& r is Some <==> assembled is Some
                &&& r matches Some(transfer) ==> {
                    &&& final(self).has(source)
                    &&& transfer == (assembled->0).transfer
                    &&& clip(final(buffers)@[final(self).index(source) as int]@, transfer.length as int)
                        == (assembled->0).bytes
                }
            }),
            old(self).base() <= final(self).base() <= old(self).base() + 1,
            is_reordered(
                if final(self).base() > old(self).base() {
                    old(self).indexes().insert(0, old(self).base() as u8)
                } else {
                    old(self).indexes()
                },
                final(self).indexes(),
            ),
            final(self).base() > old(self).base() ==> old(self).base() < SN,
    {
        let ghost before = *self;
        let ghost buffers0 = buffers@;
        let ghost cap = buffers@[0]@.len();
        let ghost bytes0 = contents(buffers@);
        proof {
            self.lemma_wf();
        }
        let n: usize = data.len();
        let sot: bool = n > 0 && TailByte::from_u8(data[n - 1]).sot();
        let known: bool = self.sessions.contains(source);
        proof {
            assert(self.table(bytes0).sessions.contains_key(source) == known);
            assert(before.table(bytes0).sessions.contains_key(source) == before.sessions@.values.contains_key(source));
        }
        if !known && sot {
            self.try_start_new_session(timeout, source, timestamp);
        }
        let ghost middle = *self;
        proof {
            self.lemma_wf();
            assert(self.table(bytes0) == before.table(bytes0).prepared(source, timeout, data@, timestamp));
            assert(self.is_placed(buffers@.len() as int)) by {
                before.lemma_start_placed(*self, buffers@.len() as int);
            }
            assert(self.table(bytes0).sessions.contains_key(source) == self.sessions@.values.contains_key(source));
        }
        let (transfer, touched): (Option<Transfer>, bool) = match self.sessions.get_mut(source) {
            None => {
                proof {
                    // A session that was started would be there.
                    assert(!self.table(bytes0).sessions.contains_key(source));
                    assert(self.base() == before.base());
                    assert(self.indexes() == before.indexes());
                }
                return None;
            },
            Some(entry) => {
                let idx: usize = entry.buffer_idx as usize;
                proof {
                    middle.lemma_placed(buffers0.len() as int, source, source);
                }
                let transfer = entry.gather.push_frame(
                    timeout,
                    buffers[idx].as_mut(),
                    priority,
                    data,
                    timestamp,
                    mtu,
                );
                let touched: bool = match entry.gather.last_transfer_timestamp() {
                    Some(ts) => ts.ticks == timestamp.ticks,
                    None => false,
                };
                (transfer, touched)
            },
        };
        let ghost pushed = *self;
        if touched {
            let _queued = self.sessions.enqueue_back(source);
        }
        proof {
            let idx = middle.index(source) as int;
            let bytes1 = contents(buffers@);
            let entry0 = middle.sessions@.values[source]->0;
            let entry1 = pushed.sessions@.values[source]->0;
            let step = entry0.gather@.push(timeout, bytes0[idx], priority, data@, timestamp);
            assert(bytes1 =~= bytes0.update(idx, step.buffer));
            middle.lemma_received(pushed, *self, source, touched);
            let before_bytes = middle.table(bytes0).sessions[source].bytes;
            entry0.gather.lemma_wf();
            lemma_clip_extend(bytes0[idx], entry0.gather@.length);
            lemma_push_ignores_rest(
                entry0.gather@,
                timeout,
                bytes0[idx],
                extend(before_bytes, cap),
                priority,
                data@,
                timestamp,
            );
            let (after, assembled) = before.table(bytes0).received(source, timeout, cap, priority, data@, timestamp);
            assert(self.table(bytes1).sessions =~= after.sessions) by {
                assert forall|k: NodeId| k != source && middle.sessions@.values.contains_key(k) implies
                    #[trigger] self.table(bytes1).sessions[k] == middle.table(bytes0).sessions[k] by {
                    assert(middle.table(bytes0).sessions.contains_key(k));
                    middle.lemma_placed(buffers0.len() as int, k, source);
                }
            }
            assert(self.table(bytes1).order =~= after.order);
        }
        transfer
    }

    /// The state of one session was replaced, and it may have become the most recent one.
    proof fn lemma_received(&self, pushed: Self, after: Self, source: NodeId, touched: bool)
        requires
            self.wf(),
            self.has(source),
            pushed.sessions.wf(),
            pushed.session_buffer_base == self.session_buffer_base,
            pushed.sessions@.order == self.sessions@.order,
            pushed.sessions@.values[source] is Some,
            (pushed.sessions@.values[source]->0).gather.wf(),
            (pushed.sessions@.values[source]->0).buffer_idx == self.index(source),
            pushed.sessions@.values == self.sessions@.values.insert(source, pushed.sessions@.values[source]),
            after.sessions.wf(),
            after.session_buffer_base == self.session_buffer_base,
            after.sessions@.values == pushed.sessions@.values,
            after.sessions@.order == (if touched {
                moved_back(self.sessions@.order, source)
            } else {
                self.sessions@.order
            }),
        ensures
            after.wf(),
            after.base() == self.base(),
            forall|k: NodeId| #[trigger] after.has(k) == self.has(k),
            forall|k: NodeId| self.has(k) ==> #[trigger] after.index(k) == self.index(k),
            is_reordered(self.indexes(), after.indexes()),
    {
        self.lemma_wf();
        let order = self.sessions@.order;
        let i = order.index_of(source);
        assert(self.table(Seq::empty()).sessions.contains_key(source));
        assert(after.sessions@.values.dom() =~= self.sessions@.values.dom());
        assert forall|k: NodeId| after.sessions@.order.contains(k) == order.contains(k) by {
            if touched {
                if order.contains(k) {
                    let j = order.index_of(k);
                    if k == source {
                        assert(after.sessions@.order.last() == k);
                    } else if j < i {
                        assert(after.sessions@.order[j] == k);
                    } else {
                        assert(after.sessions@.order[j - 1] == k);
                    }
                }
                if after.sessions@.order.contains(k) {
                    let j = after.sessions@.order.index_of(k);
                    if j < i {
                        assert(order[j] == k);
                    } else if j < order.len() - 1 {
                        assert(order[j + 1] == k);
                    } else {
                        assert(order[i] == k);
                    }
                }
            }
        }
        assert forall|k: NodeId| #[trigger] after.sessions@.values.contains_key(k) implies after.sessions@.values[k] is Some
            && (after.sessions@.values[k]->0).gather.wf() && after.sessions@.order.contains(k) by {
            assert(self.sessions@.values.contains_key(k));
        }
        assert forall|k: NodeId| self.has(k) implies #[trigger] after.index(k) == self.index(k) by {
            assert(self.table(Seq::empty()).sessions.contains_key(k));
        }
        if touched {
            assert(after.indexes() =~= self.indexes().remove(i).push(self.indexes()[i])) by {
                assert forall|j: int| 0 <= j < after.order().len() implies self.has(#[trigger] after.order()[j]) by {
                    assert(after.order().contains(after.order()[j]));
                    assert(after.sessions@.order.contains(after.order()[j]));
                }
            }
        } else {
            assert(after.indexes() =~= self.indexes()) by {
                assert forall|j: int| 0 <= j < after.order().len() implies self.has(#[trigger] after.order()[j]) by {
                    assert(order.contains(order[j]));
                }
            }
        }
    }

    /// Gives another buffer to a session, and returns the one it had.
    pub fn replace_buffer(&mut self, source: NodeId, idx: u8) -> (r: u8)
        requires
            old(self).wf(),
            old(self).has(source),
        ensures
            final(self).wf(),
            r == old(self).index(source),
            final(self).base() == old(self).base(),
            final(self).order() == old(self).order(),
            final(self).index(source) == idx,
            final(self).indexes() == old(self).indexes().update(
                old(self).order().index_of(source),
                idx,
            ),
            forall|bytes: Seq<Seq<u8>>|
                old(self).table(bytes).sessions[source].session.length == 0
                    ==> #[trigger] final(self).table(bytes) == old(self).table(bytes),
    {
        let ghost before = *self;
        proof {
            self.lemma_wf();
            assert(self.table(Seq::empty()).sessions.contains_key(source));
        }
        let entry = self.sessions.get_mut(source).unwrap();
        let previous: u8 = entry.buffer_idx;
        entry.buffer_idx = idx;
        proof {
            let i = before.order().index_of(source);
            assert forall|k: NodeId| #[trigger] self.sessions@.values.contains_key(k) implies self.sessions@.values[k] is Some
                && (self.sessions@.values[k]->0).gather.wf() && self.sessions@.order.contains(k) by {
                assert(before.sessions@.values.contains_key(k));
            }
            assert(self.sessions@.values.dom() =~= before.sessions@.values.dom());
            self.lemma_wf();
            assert(self.indexes() =~= before.indexes().update(i, idx)) by {
                assert forall|j: int| 0 <= j < self.order().len() && j != i implies #[trigger] self.index(self.order()[j])
                    == before.index(before.order()[j]) by {
                    assert(before.order()[j] != before.order()[i]);
                }
            }
            assert forall|bytes: Seq<Seq<u8>>|
                before.table(bytes).sessions[source].session.length == 0 implies #[trigger] self.table(bytes)
                == before.table(bytes) by {
                assert(before.table(bytes).sessions.contains_key(source));
                assert(clip(bytes[idx as int], 0) =~= clip(bytes[previous as int], 0));
                assert(self.table(bytes).sessions =~= before.table(bytes).sessions);
            }
        }
        previous
    }

    /// A new session takes the next buffer.
    proof fn lemma_start_placed(&self, after: Self, count: int)
        requires
            self.wf(),
            after.wf(),
            self.is_placed(count),
            after == *self || {
                &&& after.base() == self.base() + (if self.base() < SN { 1int } else { 0 })
                &&& after.indexes() == (if self.base() < SN {
                    self.indexes().insert(0, self.base() as u8)
                } else {
                    self.indexes()
                })
            },
        ensures
            after.is_placed(count),
    {
        self.lemma_wf();
    }
}

/// The first bytes of a buffer are kept when it is filled up again.
proof fn lemma_clip_extend(buffer: Seq<u8>, n: int)
    requires
        0 <= n,
    ensures
        clip(extend(clip(buffer, n), buffer.len()), n) == clip(buffer, n),
        extend(clip(buffer, n), buffer.len()).len() == buffer.len(),
{
    assert(clip(extend(clip(buffer, n), buffer.len()), n) =~= clip(buffer, n));
}

/// Nothing changed, or one item was moved to the end.
pub open spec fn is_reordered<T>(before: Seq<T>, after: Seq<T>) -> bool {
    after == before || exists|i: int|
        0 <= i < before.len() && after == (#[trigger] before.remove(i)).push(before[i])
}

/// The indexes of the buffers that no session has taken yet.
pub open spec fn unused_indexes(base: int, session_count: int) -> Seq<u8> {
    Seq::new((session_count - base) as nat, |i: int| (base + i) as u8)
}

/// No buffer gets a second holder when a new session takes the next unused buffer or a session
/// becomes the most recent one.
///
/// The lists say who holds which buffer: list `a` the sessions, list `b` those that no session
/// has taken yet.
pub proof fn lemma_rearranged(
    lists: Lists,
    a: int,
    b: int,
    base: int,
    sessions2: Seq<u8>,
    base2: int,
    session_count: int,
    count: int,
)
    requires
        is_disjoint(lists, count),
        0 <= a < lists.len(),
        0 <= b < lists.len(),
        a != b,
        lists[b] == unused_indexes(base, session_count),
        0 <= base <= base2 <= base + 1,
        base2 <= session_count <= 128,
        is_reordered(
            if base2 > base {
                lists[a].insert(0, base as u8)
            } else {
                lists[a]
            },
            sessions2,
        ),
    ensures
        is_disjoint(
            lists.update(b, unused_indexes(base2, session_count)).update(a, sessions2),
            count,
        ),
{
    let middle = if base2 > base {
        lists[a].insert(0, base as u8)
    } else {
        lists[a]
    };
    let lists1 = lists.update(b, unused_indexes(base2, session_count)).update(a, middle);
    if base2 > base {
        let x = base as u8;
        assert(lists[b][0] == x);
        assert(is_at(lists, b, 0, x));
        assert(lists[b][0] < count);
        lemma_disjoint_remove(lists, count, x, b, 0);
        let removed = lists.update(b, lists[b].remove(0));
        lemma_disjoint_insert(removed, count, x, a, 0);
        assert(lists[b].remove(0) =~= lists1[b]);
        assert(removed.update(a, removed[a].insert(0, x)) =~= lists1);
    } else {
        assert(lists1 =~= lists);
    }
    assert(is_disjoint(lists1, count));
    let after = lists.update(b, unused_indexes(base2, session_count)).update(a, sessions2);
    if sessions2 != middle {
        let i = choose|i: int|
            0 <= i < middle.len() && sessions2 == (#[trigger] middle.remove(i)).push(middle[i]);
        let x = middle[i];
        assert(is_at(lists1, a, i, x));
        assert(lists1[a][i] < count);
        lemma_disjoint_remove(lists1, count, x, a, i);
        let removed = lists1.update(a, lists1[a].remove(i));
        let end = removed[a].len() as int;
        lemma_disjoint_insert(removed, count, x, a, end);
        assert(removed[a].insert(end, x) =~= sessions2);
        assert(removed.update(a, removed[a].insert(end, x)) =~= after);
    } else {
        assert(after =~= lists1);
    }
}

} // verus!
