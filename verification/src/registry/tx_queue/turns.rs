//! Whose turn it is to send, and what that changes.

use vstd::prelude::*;

use crate::buffer::DynamicTxBuffer;
use crate::encoding::{padded, Serialize};
use crate::endpoint::{pushed, written, Transfer};
use crate::format::{crc_bytes, CRC_INIT};
use crate::frame::{Frame, Mtu};
use crate::priority::{lemma_code_bijective, Priority, PrioritySet};
use crate::registry::tx_queue::state::{
    changed, due_lane, is_in_place, is_popped, lane_of, lane_priority, lemma_changed_endpoints, lemma_due_lane,
    lemma_lane, lemma_placed, registered, TxQueueState, TxSlot,
};

verus! {

/// An endpoint waits for the turn of the most urgent priority that it has a frame of, with those that
/// have started a transfer of it before those that have not: the smaller the number of its lane, the
/// earlier its turn. An endpoint without frames does not wait.
pub proof fn law_turn_of_endpoint<B: DynamicTxBuffer>(slot: TxSlot<B::State>, p: Priority)
    requires
        B::pop_ready(slot.state).contains(p),
        forall|q: Priority| #[trigger] B::pop_ready(slot.state).contains(q) ==> p.code() <= q.code(),
    ensures
        due_lane::<B>(slot) == Some(
            2 * p.code() + if slot.started.contains(p) {
                0int
            } else {
                1int
            },
        ),
{
    PrioritySet::lemma_first(B::pop_ready(slot.state), Some(p));
}

/// A transfer that is pushed goes into the buffer of its endpoint with its payload, its length and the
/// checksum of the payload. No other endpoint is touched.
pub proof fn law_push_changes_one_endpoint<B: DynamicTxBuffer, T: Serialize>(
    queue: TxQueueState<B::State>,
    id: u64,
    transfer: Transfer<T>,
    bytes: Seq<u8>,
)
    requires
        queue.wf(),
        is_in_place::<B>(queue),
        queue.endpoints.contains_key(id),
        bytes.len() == T::capacity(),
        forall|i: int|
            0 <= i < bytes.len() ==> #[trigger] bytes[i] == (if i < transfer.payload.encoded().len() {
                transfer.payload.encoded()[i]
            } else {
                0
            }),
    ensures
        ({
            let after = pushed::<B, T>(queue, id, transfer);
            let encoded = transfer.payload.encoded();
            &&& after.wf()
            &&& is_in_place::<B>(after)
            &&& after.endpoints.dom() == queue.endpoints.dom()
            &&& after.next_id == queue.next_id
            &&& after.endpoints[id].started == queue.endpoints[id].started
            &&& after.endpoints[id].state == B::after_push(
                B::after_write(queue.endpoints[id].state, bytes),
                transfer.meta,
                encoded.len() as int,
                crc_bytes(0xffff, encoded),
            )
            &&& forall|x: u64|
                queue.endpoints.contains_key(x) && x != id ==> #[trigger] after.endpoints[x] == queue.endpoints[x]
        }),
{
    let slot = queue.endpoints[id];
    let state = written::<B, T>(slot.state, transfer.payload);
    let encoded = transfer.payload.encoded();
    let next = queue.with_slot(id, slot.started, state);
    assert(padded(encoded, T::capacity()) =~= bytes);
    queue.lemma_with_slot(id, slot.started, state);
    B::lemma_still_ready(slot.state, bytes, Set::empty());
    assert forall|x: u64| #[trigger] next.endpoints.contains_key(x) implies next.endpoints[x].lane == due_lane::<B>(
        next.endpoints[x],
    ) by {
        assert(queue.endpoints.contains_key(x));
    }
    let buffer = B::after_push(state, transfer.meta, encoded.len() as int, crc_bytes(CRC_INIT, encoded));
    lemma_changed_endpoints::<B>(next, id, buffer);
    assert(next.endpoints.dom() =~= queue.endpoints.dom());
    let last = next.with_slot(id, next.endpoints[id].started, buffer);
    next.lemma_with_slot(id, next.endpoints[id].started, buffer);
    assert forall|x: u64| #[trigger] last.endpoints.contains_key(x) && x != id implies last.endpoints[x].lane
        == due_lane::<B>(last.endpoints[x]) by {
        assert(next.endpoints.contains_key(x));
    }
    lemma_placed::<B>(last, id);
}

/// An endpoint that gets something to send waits behind all others of the same turn. Those keep their
/// places, and an endpoint whose turn stays the same keeps its place too.
pub proof fn law_newcomer_waits_behind<B: DynamicTxBuffer>(state: TxQueueState<B::State>, id: u64, buffer: B::State)
    requires
        state.wf(),
        state.endpoints.contains_key(id),
    ensures
        ({
            let slot = TxSlot { state: buffer, ..state.endpoints[id] };
            let after = changed::<B>(state, id, buffer);
            &&& state.endpoints[id].lane == due_lane::<B>(slot) ==> after.lanes == state.lanes && after.waiting
                == state.waiting
            &&& state.endpoints[id].lane is None ==> (due_lane::<B>(slot) matches Some(l) ==> {
                &&& after.lanes[l].len() == state.lanes[l].len() + 1
                &&& after.lanes[l].last() == id
                &&& forall|i: int| 0 <= i < state.lanes[l].len() ==> #[trigger] after.lanes[l][i] == state.lanes[l][i]
                &&& forall|k: int| 0 <= k < 16 && k != l ==> #[trigger] after.lanes[k] == state.lanes[k]
                &&& state.waiting.filter.contains(lane_priority(l)) ==> !after.waiting.armed
            })
        }),
{
    let slot = TxSlot { state: buffer, ..state.endpoints[id] };
    let next = state.with_slot(id, state.endpoints[id].started, buffer);
    assert(next.endpoints[id] == slot);
    lemma_due_lane::<B>(slot);
    if let Some(l) = due_lane::<B>(slot) {
        let one = Set::<Priority>::empty().insert(lane_priority(l));
        if state.waiting.filter.contains(lane_priority(l)) {
            assert(one.intersect(state.waiting.filter).contains(lane_priority(l)));
        }
    }
}

/// The frame that is fetched comes from the first endpoint of the first turn that is asked for, and is
/// of the priority of that turn. No other endpoint is touched. A transfer counts as started from its
/// first frame to its last one. Nothing is fetched only if no endpoint waits for a turn that is asked
/// for, and then nothing changes.
pub proof fn law_first_in_line_sends<B: DynamicTxBuffer>(
    state: TxQueueState<B::State>,
    priorities: Set<Priority>,
    mtu: Mtu,
    frame: Option<Frame>,
    after: TxQueueState<B::State>,
    l: int,
)
    requires
        state.wf(),
        is_in_place::<B>(state),
        is_popped::<B>(state, priorities, mtu, frame, after),
        0 <= l < 16,
        forall|k: int|
            0 <= k < l ==> (#[trigger] state.lanes[k]).len() == 0 || !priorities.contains(Priority::of_code(k / 2)),
        l < 15 ==> state.lanes[l].len() > 0 && priorities.contains(Priority::of_code(l / 2)),
    ensures
        if state.lanes[l].len() > 0 && priorities.contains(Priority::of_code(l / 2)) {
            let id = state.lanes[l][0];
            let p = Priority::of_code(l / 2);
            &&& frame matches Some(f) && {
                &&& f.header.priority == p
                &&& f.data@.len() > 0
                &&& B::is_fetch(
                    state.endpoints[id].state,
                    Set::empty().insert(p),
                    mtu,
                    frame,
                    after.endpoints[id].state,
                )
                &&& forall|q: Priority| #[trigger]
                    after.endpoints[id].started.contains(q) <==> (if q == p {
                        f.data@.last() & 0x40u8 == 0
                    } else {
                        state.endpoints[id].started.contains(q)
                    })
            }
            &&& after.endpoints.dom() == state.endpoints.dom()
            &&& after.next_id == state.next_id
            &&& forall|x: u64|
                state.endpoints.contains_key(x) && x != id ==> #[trigger] after.endpoints[x] == state.endpoints[x]
        } else {
            &&& frame is None
            &&& after == state
        },
{
    state.lemma_first_from(priorities, 0);
    if state.lanes[l].len() > 0 && priorities.contains(Priority::of_code(l / 2)) {
        assert(state.is_open(priorities, l));
        assert forall|k: int| 0 <= k < l implies !#[trigger] state.is_open(priorities, k) by {
            assert(state.lanes[k].len() == 0 || !priorities.contains(Priority::of_code(k / 2)));
        }
        state.lemma_served(priorities, l);
        let id = state.lanes[l][0];
        let p = Priority::of_code(l / 2);
        assert(state.lanes[l].contains(id));
        assert(state.is_in(id, l));
        let f = frame->0;
        let buffer = after.endpoints[id].state;
        let old_started = state.endpoints[id].started;
        let tail = f.data@.last();
        assert((tail % 128 >= 64) <==> (tail & 0x40u8 != 0)) by (bit_vector);
        let started = if tail & 0x40u8 != 0 {
            old_started.remove(p)
        } else {
            old_started.insert(p)
        };
        let next = state.with_slot(id, started, buffer);
        state.lemma_with_slot(id, started, buffer);
        next.lemma_moved(id, None);
        let out = if tail & 0x40u8 != 0 {
            next.moved(id, None)
        } else {
            next
        };
        assert forall|x: u64| #[trigger] out.endpoints.contains_key(x) && x != id implies out.endpoints[x].lane
            == due_lane::<B>(out.endpoints[x]) by {
            assert(state.endpoints.contains_key(x));
        }
        lemma_placed::<B>(out, id);
        assert(after.endpoints.dom() =~= state.endpoints.dom());
    } else {
        assert forall|k: int| 0 <= k < 16 implies !#[trigger] state.is_open(priorities, k) by {
            if k < l {
                assert(state.lanes[k].len() == 0 || !priorities.contains(Priority::of_code(k / 2)));
            }
        }
    }
}

/// A new endpoint gets the next number and the given buffer, and has started nothing. No other endpoint
/// is touched.
pub proof fn law_registration_adds_one_endpoint<B: DynamicTxBuffer>(state: TxQueueState<B::State>, buffer: B::State)
    requires
        state.wf(),
        is_in_place::<B>(state),
        state.next_id < u64::MAX,
    ensures
        ({
            let after = registered::<B>(state, buffer);
            &&& !state.endpoints.contains_key(state.next_id)
            &&& after.endpoints.dom() == state.endpoints.dom().insert(state.next_id)
            &&& after.endpoints[state.next_id].state == buffer
            &&& after.endpoints[state.next_id].started == Set::<Priority>::empty()
            &&& after.next_id == state.next_id + 1
            &&& forall|x: u64|
                state.endpoints.contains_key(x) ==> #[trigger] after.endpoints[x] == state.endpoints[x]
        }),
{
    let added = state.added(buffer);
    state.lemma_added(buffer);
    assert forall|x: u64| #[trigger] added.endpoints.contains_key(x) && x != state.next_id implies added.endpoints[x].lane
        == due_lane::<B>(added.endpoints[x]) by {
        assert(state.endpoints.contains_key(x));
    }
    lemma_placed::<B>(added, state.next_id);
    let after = registered::<B>(state, buffer);
    assert(after.endpoints.dom() =~= state.endpoints.dom().insert(state.next_id));
    lemma_due_lane::<B>(added.endpoints[state.next_id]);
    added.lemma_moved(state.next_id, due_lane::<B>(added.endpoints[state.next_id]));
    assert(!state.endpoints.contains_key(state.next_id));
}

/// An endpoint that is unregistered is gone and waits for no turn. No other endpoint is touched, and
/// the others keep their order.
pub proof fn law_unregistration_removes_one_endpoint<S>(state: TxQueueState<S>, id: u64, l: int, x: u64)
    requires
        state.wf(),
        state.endpoints.contains_key(id),
        0 <= l < 16,
    ensures
        ({
            let after = state.unregistered(id);
            &&& after.endpoints == state.endpoints.remove(id)
            &&& after.next_id == state.next_id
            &&& after.lanes[l].contains(x) <==> state.lanes[l].contains(x) && x != id
            &&& state.endpoints[id].lane != Some(l) ==> after.lanes[l] == state.lanes[l]
        }),
{
    let after = state.unregistered(id);
    state.lemma_unregistered(id);
    assert(after.lanes[l].contains(x) <==> after.is_in(x, l));
    assert(state.lanes[l].contains(x) <==> state.is_in(x, l));
}

/// The priority of the next frame is the most urgent one that is asked for among the turns that the
/// endpoints wait for. There is none only if no endpoint waits for such a turn.
pub proof fn law_next_priority<B: DynamicTxBuffer>(
    state: TxQueueState<B::State>,
    priorities: Set<Priority>,
    id: u64,
    p: Priority,
)
    requires
        state.wf(),
        is_in_place::<B>(state),
        state.endpoints.contains_key(id),
        B::pop_ready(state.endpoints[id].state).contains(p),
        forall|q: Priority| #[trigger] B::pop_ready(state.endpoints[id].state).contains(q) ==> p.code() <= q.code(),
        priorities.contains(p),
    ensures
        state.served_priority(priorities) matches Some(first) && {
            &&& priorities.contains(first)
            &&& first.code() <= p.code()
            &&& exists|x: u64|
                {
                    &&& #[trigger] state.endpoints.contains_key(x)
                    &&& B::pop_ready(state.endpoints[x].state).contains(first)
                }
        },
{
    let l = lane_of(p, state.endpoints[id].started.contains(p));
    law_turn_of_endpoint::<B>(state.endpoints[id], p);
    lemma_lane(p, state.endpoints[id].started.contains(p));
    assert(state.is_in(id, l));
    assert(state.lanes[l].contains(id));
    assert(state.is_open(priorities, l));
    state.lemma_first_from(priorities, 0);
    let k = state.served(priorities)->0;
    assert(k <= l) by {
        if l < k {
            assert(!state.is_open(priorities, l));
        }
    }
    let x = state.lanes[k][0];
    assert(state.lanes[k].contains(x));
    assert(state.is_in(x, k));
    lemma_due_lane::<B>(state.endpoints[x]);
    lemma_code_bijective(lane_priority(k), p);
    assert(k / 2 <= l / 2);
}

} // verus!
