//! Who has a session.

use vstd::prelude::*;

use crate::buffer::gather::{extend, law_session_wf, Session};
use crate::buffer::sessions::{Reassembly, SessionTable};
use crate::ids::NodeId;
use crate::priority::Priority;
use crate::time::{Duration, Instant};

verus! {

impl SessionTable {
    /// Each source with a session is in the order, once.
    pub open spec fn wf(self) -> bool {
        &&& self.order.no_duplicates()
        &&& forall|k: NodeId| #[trigger] self.sessions.contains_key(k) <==> self.order.contains(k)
        &&& forall|k: NodeId| #[trigger] self.sessions.contains_key(k) ==> self.sessions[k].session.wf()
        &&& 0 <= self.free
    }

    /// When the last transfer of a source started.
    pub open spec fn start(self, source: NodeId) -> Option<Instant> {
        self.sessions[source].session.start
    }

    /// The order is that of the starts: a source without a start is before all others.
    pub open spec fn is_chronological(self) -> bool {
        forall|i: int, j: int|
            #![trigger self.order[i], self.order[j]]
            0 <= i < j < self.order.len() ==> match (self.start(self.order[i]), self.start(self.order[j])) {
                (Some(a), Some(b)) => a.ticks <= b.ticks,
                (Some(_), None) => false,
                (None, _) => true,
            }
    }
}

/// A frame of a source that has a session is given to that session. No session is added or given up,
/// and no other session changes.
pub proof fn law_known_source_keeps_its_session(
    table: SessionTable,
    source: NodeId,
    timeout: Duration,
    capacity: nat,
    priority: Priority,
    data: Seq<u8>,
    now: Instant,
)
    requires
        table.sessions.contains_key(source),
    ensures
        ({
            let after = table.received(source, timeout, capacity, priority, data, now).0;
            &&& after.free == table.free
            &&& forall|k: NodeId| #[trigger] after.sessions.contains_key(k) <==> table.sessions.contains_key(k)
            &&& forall|k: NodeId|
                table.sessions.contains_key(k) && k != source ==> #[trigger] after.sessions[k] == table.sessions[k]
        }),
{
}

/// What comes out of a frame is what the session of its source makes of the received bytes, and the
/// session remembers as much of them as its buffer holds.
pub proof fn law_session_does_the_reassembly(
    table: SessionTable,
    source: NodeId,
    timeout: Duration,
    capacity: nat,
    priority: Priority,
    data: Seq<u8>,
    now: Instant,
    buffer: Seq<u8>,
)
    requires
        table.sessions.contains_key(source),
        buffer.len() == capacity,
        forall|i: int|
            0 <= i < capacity ==> #[trigger] buffer[i] == (if i < table.sessions[source].bytes.len() {
                table.sessions[source].bytes[i]
            } else {
                0
            }),
    ensures
        ({
            let (after, assembled) = table.received(source, timeout, capacity, priority, data, now);
            let step = table.sessions[source].session.push(timeout, buffer, priority, data, now);
            let kept = after.sessions[source];
            &&& kept.session == step.session
            &&& step.buffer.len() == capacity && 0 <= step.session.length ==> {
                &&& kept.bytes.len() == (if step.session.length < capacity {
                    step.session.length
                } else {
                    capacity as int
                })
                &&& forall|i: int| 0 <= i < kept.bytes.len() ==> #[trigger] kept.bytes[i] == step.buffer[i]
            }
            &&& assembled is Some <==> step.transfer is Some
            &&& assembled matches Some(a) ==> {
                &&& Some(a.transfer) == step.transfer
                &&& step.buffer.len() == capacity ==> {
                    &&& a.bytes.len() == (if a.transfer.length < capacity {
                        a.transfer.length as int
                    } else {
                        capacity as int
                    })
                    &&& forall|i: int| 0 <= i < a.bytes.len() ==> #[trigger] a.bytes[i] == step.buffer[i]
                }
            }
        }),
{
    assert(extend(table.sessions[source].bytes, capacity) =~= buffer);
}

/// A frame of an unknown source that does not start a transfer changes nothing, and nothing comes out.
pub proof fn law_unknown_source_needs_a_start(
    table: SessionTable,
    source: NodeId,
    timeout: Duration,
    capacity: nat,
    priority: Priority,
    data: Seq<u8>,
    now: Instant,
)
    requires
        !table.sessions.contains_key(source),
        data.len() == 0 || data.last() < 128,
    ensures
        table.received(source, timeout, capacity, priority, data, now).0 == table,
        table.received(source, timeout, capacity, priority, data, now).1 is None,
{
}

/// While there is a free slot, the first frame of an unknown source takes one, and nobody loses a
/// session. The new session starts with nothing.
pub proof fn law_free_slot_is_taken(
    table: SessionTable,
    source: NodeId,
    timeout: Duration,
    capacity: nat,
    priority: Priority,
    data: Seq<u8>,
    now: Instant,
    empty: Session,
)
    requires
        empty.phase is Idle,
        empty.start is None,
        empty.id is None,
        empty.length == 0,
        empty.crc == 0xffff,
        !table.sessions.contains_key(source),
        table.free > 0,
        data.len() > 0,
        data.last() >= 128,
    ensures
        ({
            let (after, assembled) = table.received(source, timeout, capacity, priority, data, now);
            let zeros = Seq::new(capacity, |i: int| 0u8);
            let step = empty.push(timeout, zeros, priority, data, now);
            &&& after.free == table.free - 1
            &&& after.sessions.contains_key(source)
            &&& after.sessions[source].session == step.session
            &&& assembled is Some <==> step.transfer is Some
            &&& assembled matches Some(a) ==> {
                &&& Some(a.transfer) == step.transfer
                &&& step.buffer.len() == capacity ==> {
                    &&& a.bytes.len() == (if a.transfer.length < capacity {
                        a.transfer.length as int
                    } else {
                        capacity as int
                    })
                    &&& forall|i: int| 0 <= i < a.bytes.len() ==> #[trigger] a.bytes[i] == step.buffer[i]
                }
            }
            &&& forall|k: NodeId|
                k != source ==> (#[trigger] after.sessions.contains_key(k) <==> table.sessions.contains_key(k))
            &&& forall|k: NodeId|
                table.sessions.contains_key(k) && k != source ==> #[trigger] after.sessions[k] == table.sessions[k]
        }),
{
    assert(extend(Seq::empty(), capacity) =~= Seq::new(capacity, |i: int| 0u8));
    assert(empty == Session::fresh());
}

/// When no slot is free, the first frame of an unknown source takes the slot of the least recent
/// session if that one started its last transfer more than the timeout ago, or never. Only that
/// session is lost.
pub proof fn law_expired_slot_is_reused(
    table: SessionTable,
    source: NodeId,
    timeout: Duration,
    capacity: nat,
    priority: Priority,
    data: Seq<u8>,
    now: Instant,
    empty: Session,
)
    requires
        empty.phase is Idle,
        empty.start is None,
        empty.id is None,
        empty.length == 0,
        empty.crc == 0xffff,
        table.wf(),
        !table.sessions.contains_key(source),
        table.free == 0,
        table.order.len() > 0,
        table.start(table.order[0]) matches Some(start) ==> start.ticks + timeout.ticks < now.ticks,
        data.len() > 0,
        data.last() >= 128,
    ensures
        ({
            let (after, assembled) = table.received(source, timeout, capacity, priority, data, now);
            let zeros = Seq::new(capacity, |i: int| 0u8);
            let step = empty.push(timeout, zeros, priority, data, now);
            &&& after.free == 0
            &&& after.sessions.contains_key(source)
            &&& after.sessions[source].session == step.session
            &&& assembled is Some <==> step.transfer is Some
            &&& assembled matches Some(a) ==> {
                &&& Some(a.transfer) == step.transfer
                &&& step.buffer.len() == capacity ==> {
                    &&& a.bytes.len() == (if a.transfer.length < capacity {
                        a.transfer.length as int
                    } else {
                        capacity as int
                    })
                    &&& forall|i: int| 0 <= i < a.bytes.len() ==> #[trigger] a.bytes[i] == step.buffer[i]
                }
            }
            &&& !after.sessions.contains_key(table.order[0])
            &&& forall|k: NodeId|
                k != source && k != table.order[0] ==> (#[trigger] after.sessions.contains_key(k)
                    <==> table.sessions.contains_key(k))
            &&& forall|k: NodeId|
                table.sessions.contains_key(k) && k != table.order[0] ==> #[trigger] after.sessions[k]
                    == table.sessions[k]
        }),
{
    assert(table.order.contains(table.order[0]));
    assert(table.sessions.contains_key(table.order[0]));
    assert(extend(Seq::empty(), capacity) =~= Seq::new(capacity, |i: int| 0u8));
    assert(empty == Session::fresh());
}

/// A session that started a transfer not more than the timeout ago is never given up, whatever is
/// received: it stays, and only a frame of its own source changes it.
pub proof fn law_live_session_is_kept(
    table: SessionTable,
    source: NodeId,
    timeout: Duration,
    capacity: nat,
    priority: Priority,
    data: Seq<u8>,
    now: Instant,
    k: NodeId,
)
    requires
        table.wf(),
        table.sessions.contains_key(k),
        table.start(k) matches Some(start) && now.ticks <= start.ticks + timeout.ticks,
    ensures
        ({
            let after = table.received(source, timeout, capacity, priority, data, now).0;
            &&& after.sessions.contains_key(k)
            &&& k != source ==> after.sessions[k] == table.sessions[k]
        }),
{
}

/// When no slot is free and no session has expired, a frame of an unknown source changes nothing, and
/// nothing comes out.
pub proof fn law_no_slot_for_unknown_source(
    table: SessionTable,
    source: NodeId,
    timeout: Duration,
    capacity: nat,
    priority: Priority,
    data: Seq<u8>,
    now: Instant,
)
    requires
        table.wf(),
        !table.sessions.contains_key(source),
        table.free == 0,
        forall|k: NodeId| #[trigger]
            table.sessions.contains_key(k) ==> (table.start(k) matches Some(start) && now.ticks <= start.ticks
                + timeout.ticks),
    ensures
        table.received(source, timeout, capacity, priority, data, now).0 == table,
        table.received(source, timeout, capacity, priority, data, now).1 is None,
{
    if table.order.len() > 0 {
        assert(table.order.contains(table.order[0]));
        assert(table.sessions.contains_key(table.order[0]));
    }
}

/// The session that is given up is the one whose last transfer started first: frames that come in the
/// order of their times keep the sessions in the order of their starts. As many sessions exist and can
/// be added as there are slots.
pub proof fn law_sessions_are_chronological(
    table: SessionTable,
    source: NodeId,
    timeout: Duration,
    capacity: nat,
    priority: Priority,
    data: Seq<u8>,
    now: Instant,
)
    requires
        table.wf(),
        table.is_chronological(),
        forall|k: NodeId| #[trigger]
            table.sessions.contains_key(k) ==> (table.start(k) matches Some(start) ==> start.ticks <= now.ticks),
    ensures
        ({
            let after = table.received(source, timeout, capacity, priority, data, now).0;
            &&& after.wf()
            &&& after.is_chronological()
            &&& after.free + after.order.len() == table.free + table.order.len()
            &&& forall|k: NodeId| #[trigger]
                after.sessions.contains_key(k) ==> (after.start(k) matches Some(start) ==> start.ticks <= now.ticks)
        }),
{
    let middle = table.prepared(source, timeout, data, now);
    let after = table.received(source, timeout, capacity, priority, data, now).0;
    lemma_started(table, source, timeout, data, now);
    if middle.sessions.contains_key(source) {
        let before = middle.sessions[source];
        let buffer = extend(before.bytes, capacity);
        law_session_wf(before.session, timeout, buffer, priority, data, now);
        lemma_touched(middle, source, after, now);
    }
}

/// A new session is before all others.
proof fn lemma_started(table: SessionTable, source: NodeId, timeout: Duration, data: Seq<u8>, now: Instant)
    requires
        table.wf(),
        table.is_chronological(),
        forall|k: NodeId| #[trigger]
            table.sessions.contains_key(k) ==> (table.start(k) matches Some(start) ==> start.ticks <= now.ticks),
    ensures
        ({
            let after = table.prepared(source, timeout, data, now);
            &&& after.wf()
            &&& after.is_chronological()
            &&& after.free + after.order.len() == table.free + table.order.len()
            &&& forall|k: NodeId| #[trigger]
                after.sessions.contains_key(k) ==> (after.start(k) matches Some(start) ==> start.ticks <= now.ticks)
        }),
{
    let after = table.prepared(source, timeout, data, now);
    if after != table {
        let rest = if table.free > 0 {
            table.order
        } else {
            table.order.drop_first()
        };
        assert(after.order == rest.insert(0, source));
        assert forall|i: int| 0 <= i < table.order.len() implies table.sessions.contains_key(
            #[trigger] table.order[i],
        ) by {
            assert(table.order.contains(table.order[i]));
        }
        let shift = if table.free > 0 {
            1int
        } else {
            0
        };
        assert forall|i: int| 0 < i < after.order.len() implies #[trigger] after.order[i] == table.order[i - shift] by {}
        assert forall|k: NodeId| #[trigger] after.sessions.contains_key(k) <==> after.order.contains(k) by {
            if after.sessions.contains_key(k) {
                if k == source {
                    assert(after.order[0] == k);
                } else {
                    let i = table.order.index_of(k);
                    assert(table.order.contains(k));
                    assert(after.order[i + shift] == k);
                }
            }
            if after.order.contains(k) {
                let i = after.order.index_of(k);
                if i > 0 {
                    assert(after.order[i] == table.order[i - shift]);
                    assert(table.free == 0 ==> table.order[i] != table.order[0]);
                }
            }
        }
        assert(after.order.no_duplicates()) by {
            assert forall|i: int, j: int| 0 <= i < after.order.len() && 0 <= j < after.order.len() && i != j implies after.order[i]
                != after.order[j] by {
                if i > 0 {
                    assert(after.order[i] == table.order[i - shift]);
                }
                if j > 0 {
                    assert(after.order[j] == table.order[j - shift]);
                }
            }
        }
        assert forall|i: int, j: int|
            #![trigger after.order[i], after.order[j]]
            0 <= i < j < after.order.len() implies match (after.start(after.order[i]), after.start(after.order[j])) {
            (Some(a), Some(b)) => a.ticks <= b.ticks,
            (Some(_), None) => false,
            (None, _) => true,
        } by {
            assert(after.order[j] == table.order[j - shift]);
            if i > 0 {
                assert(after.order[i] == table.order[i - shift]);
            } else {
                assert(after.sessions[source] == Reassembly::fresh());
            }
        }
    }
}

/// A session that starts a transfer becomes the most recent one.
#[verifier::rlimit(40)]
proof fn lemma_touched(table: SessionTable, source: NodeId, after: SessionTable, now: Instant)
    requires
        table.wf(),
        table.is_chronological(),
        table.sessions.contains_key(source),
        forall|k: NodeId| #[trigger]
            table.sessions.contains_key(k) ==> (table.start(k) matches Some(start) ==> start.ticks <= now.ticks),
        after.free == table.free,
        after.sessions == table.sessions.insert(source, after.sessions[source]),
        after.sessions[source].session.wf(),
        after.start(source) == table.start(source) || after.start(source) == Some(now),
        after.order == (if after.start(source) == Some(now) {
            table.order.remove(table.order.index_of(source)).push(source)
        } else {
            table.order
        }),
    ensures
        after.wf(),
        after.is_chronological(),
        after.order.len() == table.order.len(),
        forall|k: NodeId| #[trigger]
            after.sessions.contains_key(k) ==> (after.start(k) matches Some(start) ==> start.ticks <= now.ticks),
{
    let n = table.order.len() - 1;
    assert(table.order.contains(source));
    let p = table.order.index_of(source);
    assert forall|i: int| 0 <= i < table.order.len() implies table.sessions.contains_key(#[trigger] table.order[i]) by {
        assert(table.order.contains(table.order[i]));
    }
    if after.start(source) == Some(now) {
        assert(after.order[n] == source);
        assert forall|k: NodeId| #[trigger] after.sessions.contains_key(k) <==> after.order.contains(k) by {
            if after.sessions.contains_key(k) {
                assert(table.order.contains(k));
                let i = table.order.index_of(k);
                if k == source {
                    assert(after.order[n] == k);
                } else if i < p {
                    assert(after.order[i] == k);
                } else {
                    assert(after.order[i - 1] == k);
                }
            }
            if after.order.contains(k) {
                let i = after.order.index_of(k);
                if i < n {
                    assert(after.order[i] == table.order[if i < p {
                        i
                    } else {
                        i + 1
                    }]);
                }
            }
        }
        assert(after.order.no_duplicates()) by {
            assert forall|i: int, j: int| 0 <= i < j < after.order.len() implies after.order[i] != after.order[j] by {
                let x = if i < p {
                    i
                } else {
                    i + 1
                };
                let y = if j == n {
                    p
                } else if j < p {
                    j
                } else {
                    j + 1
                };
                assert(after.order[i] == table.order[x]);
                assert(after.order[j] == table.order[y]);
            }
        }
        assert forall|i: int, j: int|
            #![trigger after.order[i], after.order[j]]
            0 <= i < j < after.order.len() implies match (after.start(after.order[i]), after.start(after.order[j])) {
            (Some(a), Some(b)) => a.ticks <= b.ticks,
            (Some(_), None) => false,
            (None, _) => true,
        } by {
            let x = if i < p {
                i
            } else {
                i + 1
            };
            assert(after.order[i] == table.order[x]);
            assert(table.order[x] != table.order[p]);
            if j < n {
                let y = if j < p {
                    j
                } else {
                    j + 1
                };
                assert(after.order[j] == table.order[y]);
                assert(table.order[y] != table.order[p]);
            }
        }
    }
}

} // verus!
