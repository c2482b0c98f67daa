//! What the endpoints that transmit are, and in which order they are served.

use vstd::prelude::*;

use crate::buffer::DynamicTxBuffer;
use crate::format::tail_fields;
use crate::frame::{Frame, Mtu};
use crate::priority::{lemma_code_bijective, Priority, PrioritySet};
use crate::registry::id_queue::{lemma_push_id, lemma_without_id, without_id};
use crate::utils::priority_trigger::Waiting;

verus! {

/// The number of lanes: two for each priority.
pub const LANE_COUNT: u8 = 16;

/// The priority of the endpoints in a lane.
pub open spec fn lane_priority(lane: int) -> Priority {
    Priority::of_code(lane / 2)
}

/// The lane of the endpoints whose most urgent frame has the priority. Endpoints that have started
/// a transfer of the priority come before those that have not.
pub open spec fn lane_of(priority: Priority, is_started: bool) -> int {
    2 * priority.code() + if is_started {
        0int
    } else {
        1int
    }
}

/// A lane stands for a priority.
pub proof fn lemma_lane(priority: Priority, is_started: bool)
    ensures
        0 <= lane_of(priority, is_started) < LANE_COUNT,
        lane_priority(lane_of(priority, is_started)) == priority,
{
    lemma_code_bijective(priority, priority);
}

/// An endpoint that transmits.
#[verifier::ext_equal]
pub struct TxSlot<S> {
    /// The lane in which the endpoint waits.
    pub lane: Option<int>,
    /// The priorities of which a transfer has been started and not been finished.
    pub started: Set<Priority>,
    /// What the buffer holds.
    pub state: S,
}

/// The lane in which an endpoint belongs: that of the most urgent frame that it has.
pub open spec fn due_lane<B: DynamicTxBuffer>(slot: TxSlot<B::State>) -> Option<int> {
    match PrioritySet::first_of(B::pop_ready(slot.state)) {
        Some(p) => Some(lane_of(p, slot.started.contains(p))),
        None => None,
    }
}

/// The endpoints that transmit.
#[verifier::ext_equal]
pub struct TxQueueState<S> {
    /// The endpoints by their identities.
    pub endpoints: Map<u64, TxSlot<S>>,
    /// The endpoints in each lane, the first one is served next.
    pub lanes: Seq<Seq<u64>>,
    /// The task that waits for a frame.
    pub waiting: Waiting,
    /// The identity of the next endpoint.
    pub next_id: u64,
}

impl<S> TxQueueState<S> {
    /// No endpoints.
    pub open spec fn fresh() -> TxQueueState<S> {
        TxQueueState {
            endpoints: Map::empty(),
            lanes: Seq::new(16, |l: int| Seq::<u64>::empty()),
            waiting: Waiting::idle(),
            next_id: 0,
        }
    }

    /// The endpoint waits in the lane.
    pub open spec fn is_in(self, id: u64, lane: int) -> bool {
        self.endpoints.contains_key(id) && self.endpoints[id].lane == Some(lane)
    }

    /// Each endpoint is once in its lane and in no other one. While a task waits for a frame, the
    /// lanes of the priorities that it waits for are empty.
    pub open spec fn wf(self) -> bool {
        &&& self.lanes.len() == LANE_COUNT
        &&& forall|l: int| 0 <= l < LANE_COUNT ==> (#[trigger] self.lanes[l]).no_duplicates()
        &&& forall|l: int, id: u64|
            0 <= l < LANE_COUNT ==> (#[trigger] self.lanes[l].contains(id) <==> self.is_in(id, l))
        &&& forall|id: u64| #[trigger] self.endpoints.contains_key(id) ==> id < self.next_id
        &&& forall|id: u64| #[trigger]
            self.endpoints.contains_key(id) ==> (self.endpoints[id].lane matches Some(l) ==> 0 <= l < LANE_COUNT)
        &&& self.waiting.armed ==> forall|l: int|
            0 <= l < LANE_COUNT && self.waiting.filter.contains(lane_priority(l)) ==> (#[trigger] self.lanes[l]).len()
                == 0
    }

    /// The lanes without an endpoint.
    pub open spec fn lanes_without(self, id: u64) -> Seq<Seq<u64>> {
        match self.endpoints[id].lane {
            Some(l) => self.lanes.update(l, without_id(self.lanes[l], id)),
            None => self.lanes,
        }
    }

    /// An endpoint has moved to the end of another lane, or out of all lanes.
    pub open spec fn moved(self, id: u64, to: Option<int>) -> TxQueueState<S> {
        let slot = self.endpoints[id];
        let lanes = self.lanes_without(id);
        if slot.lane == to {
            self
        } else {
            TxQueueState {
                endpoints: self.endpoints.insert(id, TxSlot { lane: to, ..slot }),
                lanes: match to {
                    Some(l) => lanes.update(l, lanes[l].push(id)),
                    None => lanes,
                },
                waiting: match to {
                    Some(l) => self.waiting.woken(Set::empty().insert(lane_priority(l))),
                    None => self.waiting,
                },
                ..self
            }
        }
    }

    /// What is known of an endpoint has changed, but not its lane.
    pub open spec fn with_slot(self, id: u64, started: Set<Priority>, state: S) -> TxQueueState<S> {
        TxQueueState {
            endpoints: self.endpoints.insert(id, TxSlot { started, state, ..self.endpoints[id] }),
            ..self
        }
    }

    /// Taking an endpoint out of its lane keeps the others there.
    proof fn lemma_lanes_without(self, id: u64)
        requires
            self.wf(),
            self.endpoints.contains_key(id),
        ensures
            self.lanes_without(id).len() == LANE_COUNT,
            forall|l: int| 0 <= l < LANE_COUNT ==> (#[trigger] self.lanes_without(id)[l]).no_duplicates(),
            forall|l: int, x: u64|
                0 <= l < LANE_COUNT ==> (#[trigger] self.lanes_without(id)[l].contains(x) <==> self.is_in(x, l) && x
                    != id),
            forall|l: int|
                0 <= l < LANE_COUNT && self.lanes[l].len() == 0 ==> (#[trigger] self.lanes_without(id)[l]).len() == 0,
    {
        if let Some(from) = self.endpoints[id].lane {
            lemma_without_id(self.lanes[from], id);
            assert forall|l: int, x: u64| 0 <= l < LANE_COUNT implies (#[trigger] self.lanes_without(id)[l].contains(x)
                <==> self.is_in(x, l) && x != id) by {
                assert(self.lanes[l].contains(x) <==> self.is_in(x, l));
                if l == from {
                    assert(self.lanes_without(id)[l] == without_id(self.lanes[from], id));
                } else {
                    assert(self.lanes_without(id)[l] == self.lanes[l]);
                }
            }
            assert forall|l: int| 0 <= l < LANE_COUNT implies (#[trigger] self.lanes_without(id)[l]).no_duplicates()
                && (self.lanes[l].len() == 0 ==> self.lanes_without(id)[l].len() == 0) by {
                assert(self.lanes[l].no_duplicates());
                if l == from {
                    assert(self.lanes_without(id)[l] == without_id(self.lanes[from], id));
                }
            }
        } else {
            assert forall|l: int, x: u64| 0 <= l < LANE_COUNT implies (#[trigger] self.lanes_without(id)[l].contains(x)
                <==> self.is_in(x, l) && x != id) by {
                assert(self.lanes[l].contains(x) <==> self.is_in(x, l));
            }
        }
    }

    /// Moving an endpoint keeps the state valid.
    pub proof fn lemma_moved(self, id: u64, to: Option<int>)
        requires
            self.wf(),
            self.endpoints.contains_key(id),
            to matches Some(l) ==> 0 <= l < LANE_COUNT,
        ensures
            self.moved(id, to).wf(),
            self.moved(id, to).endpoints == self.endpoints.insert(id, TxSlot { lane: to, ..self.endpoints[id] }),
            self.moved(id, to).next_id == self.next_id,
    {
        let after = self.moved(id, to);
        let lanes = self.lanes_without(id);
        self.lemma_lanes_without(id);
        if self.endpoints[id].lane == to {
            assert(self.endpoints.insert(id, TxSlot { lane: to, ..self.endpoints[id] }) =~= self.endpoints);
        } else {
            if let Some(target) = to {
                lemma_push_id(lanes[target], id);
                assert(!lanes[target].contains(id));
            }
            assert forall|l: int, x: u64| 0 <= l < LANE_COUNT implies (#[trigger] after.lanes[l].contains(x)
                <==> after.is_in(x, l)) by {
                assert(lanes[l].contains(x) <==> self.is_in(x, l) && x != id);
                if to == Some(l) {
                    assert(after.lanes[l] == lanes[l].push(id));
                } else {
                    assert(after.lanes[l] == lanes[l]);
                }
            }
            assert forall|l: int| 0 <= l < LANE_COUNT implies (#[trigger] after.lanes[l]).no_duplicates() by {
                assert(lanes[l].no_duplicates());
            }
            if after.waiting.armed {
                assert(self.waiting.armed);
                assert forall|l: int| 0 <= l < LANE_COUNT && after.waiting.filter.contains(lane_priority(l)) implies (
                #[trigger] after.lanes[l]).len() == 0 by {
                    assert(self.lanes[l].len() == 0);
                    assert(lanes[l].len() == 0);
                    if to == Some(l) {
                        let one = Set::<Priority>::empty().insert(lane_priority(l));
                        assert(one.intersect(self.waiting.filter).contains(lane_priority(l)));
                    }
                }
            }
        }
    }

    /// A change of the buffer keeps the state valid.
    pub proof fn lemma_with_slot(self, id: u64, started: Set<Priority>, state: S)
        requires
            self.wf(),
            self.endpoints.contains_key(id),
        ensures
            self.with_slot(id, started, state).wf(),
    {
        let after = self.with_slot(id, started, state);
        assert forall|l: int, x: u64| 0 <= l < LANE_COUNT implies (#[trigger] after.lanes[l].contains(x)
            <==> after.is_in(x, l)) by {
            assert(self.lanes[l].contains(x) <==> self.is_in(x, l));
        }
    }

    /// A new endpoint that waits in no lane.
    pub open spec fn added(self, state: S) -> TxQueueState<S> {
        TxQueueState {
            endpoints: self.endpoints.insert(
                self.next_id,
                TxSlot { lane: None, started: Set::empty(), state },
            ),
            next_id: (self.next_id + 1) as u64,
            ..self
        }
    }

    /// Adding an endpoint keeps the state valid.
    pub proof fn lemma_added(self, state: S)
        requires
            self.wf(),
            self.next_id < u64::MAX,
        ensures
            self.added(state).wf(),
    {
        let after = self.added(state);
        assert forall|l: int, x: u64| 0 <= l < LANE_COUNT implies (#[trigger] after.lanes[l].contains(x)
            <==> after.is_in(x, l)) by {
            assert(self.lanes[l].contains(x) <==> self.is_in(x, l));
        }
    }

    /// An endpoint has been unregistered.
    pub open spec fn unregistered(self, id: u64) -> TxQueueState<S> {
        let out = self.moved(id, None);
        TxQueueState { endpoints: out.endpoints.remove(id), ..out }
    }

    /// Removing an endpoint keeps the state valid.
    pub proof fn lemma_unregistered(self, id: u64)
        requires
            self.wf(),
            self.endpoints.contains_key(id),
        ensures
            self.unregistered(id).wf(),
            self.unregistered(id).endpoints == self.endpoints.remove(id),
    {
        let out = self.moved(id, None);
        let after = self.unregistered(id);
        self.lemma_moved(id, None);
        assert forall|l: int, x: u64| 0 <= l < LANE_COUNT implies (#[trigger] after.lanes[l].contains(x)
            <==> after.is_in(x, l)) by {
            assert(out.lanes[l].contains(x) <==> out.is_in(x, l));
        }
        assert(after.endpoints =~= self.endpoints.remove(id));
    }

    /// The lane has an endpoint, and its priority is asked for.
    pub open spec fn is_open(self, priorities: Set<Priority>, lane: int) -> bool {
        priorities.contains(lane_priority(lane)) && self.lanes[lane].len() > 0
    }

    /// The first lane from the given one on that has an endpoint and is asked for.
    pub open spec fn first_from(self, priorities: Set<Priority>, lane: int) -> Option<int>
        decreases LANE_COUNT - lane,
    {
        if lane >= LANE_COUNT {
            None
        } else if self.is_open(priorities, lane) {
            Some(lane)
        } else {
            self.first_from(priorities, lane + 1)
        }
    }

    /// The lane that is served.
    pub open spec fn served(self, priorities: Set<Priority>) -> Option<int> {
        self.first_from(priorities, 0)
    }

    /// The priority of the next frame.
    pub open spec fn served_priority(self, priorities: Set<Priority>) -> Option<Priority> {
        match self.served(priorities) {
            Some(l) => Some(lane_priority(l)),
            None => None,
        }
    }

    /// What the first lane is.
    pub proof fn lemma_first_from(self, priorities: Set<Priority>, lane: int)
        requires
            0 <= lane <= LANE_COUNT,
        ensures
            match self.first_from(priorities, lane) {
                Some(l) => {
                    &&& lane <= l < LANE_COUNT
                    &&& self.is_open(priorities, l)
                    &&& forall|k: int| lane <= k < l ==> !#[trigger] self.is_open(priorities, k)
                },
                None => forall|k: int| lane <= k < LANE_COUNT ==> !#[trigger] self.is_open(priorities, k),
            },
        decreases LANE_COUNT - lane,
    {
        if lane < LANE_COUNT && !self.is_open(priorities, lane) {
            self.lemma_first_from(priorities, lane + 1);
        }
    }

    /// A lane with no open lane before it is served.
    pub proof fn lemma_served(self, priorities: Set<Priority>, lane: int)
        requires
            0 <= lane < LANE_COUNT,
            self.is_open(priorities, lane),
            forall|k: int| 0 <= k < lane ==> !#[trigger] self.is_open(priorities, k),
        ensures
            self.served(priorities) == Some(lane),
    {
        self.lemma_first_from(priorities, 0);
        if let Some(l) = self.served(priorities) {
            if l < lane {
                assert(!self.is_open(priorities, l));
            } else if lane < l {
                assert(!self.is_open(priorities, lane));
            }
        } else {
            assert(!self.is_open(priorities, lane));
        }
    }
}

/// Every endpoint waits in the lane in which it belongs.
pub open spec fn is_in_place<B: DynamicTxBuffer>(state: TxQueueState<B::State>) -> bool {
    forall|id: u64| #[trigger]
        state.endpoints.contains_key(id) ==> state.endpoints[id].lane == due_lane::<B>(state.endpoints[id])
}

/// An endpoint has moved where it belongs.
pub open spec fn placed<B: DynamicTxBuffer>(state: TxQueueState<B::State>, id: u64) -> TxQueueState<B::State> {
    state.moved(id, due_lane::<B>(state.endpoints[id]))
}

/// Where an endpoint belongs.
pub proof fn lemma_due_lane<B: DynamicTxBuffer>(slot: TxSlot<B::State>)
    ensures
        due_lane::<B>(slot) matches Some(l) ==> 0 <= l < LANE_COUNT && B::pop_ready(slot.state).contains(
            lane_priority(l),
        ) && forall|q: Priority| #[trigger]
            B::pop_ready(slot.state).contains(q) ==> lane_priority(l).code() <= q.code(),
        due_lane::<B>(slot) is None <==> B::pop_ready(slot.state) == Set::<Priority>::empty(),
{
    let set = B::pop_ready(slot.state);
    lemma_first_exists(set);
    if let Some(p) = PrioritySet::first_of(set) {
        lemma_lane(p, slot.started.contains(p));
    }
}

/// Every set of priorities has a most urgent member, unless it is empty.
pub proof fn lemma_first_exists(s: Set<Priority>)
    ensures
        PrioritySet::is_first(s, PrioritySet::first_of(s)),
{
    lemma_first_exists_from(s, 0);
}

proof fn lemma_first_exists_from(s: Set<Priority>, code: int)
    requires
        0 <= code <= 8,
        forall|q: Priority| #[trigger] s.contains(q) ==> code <= q.code(),
    ensures
        PrioritySet::is_first(s, PrioritySet::first_of(s)),
    decreases 8 - code,
{
    if code == 8 {
        assert(s =~= Set::<Priority>::empty()) by {
            assert forall|q: Priority| !s.contains(q) by {}
        }
        PrioritySet::lemma_first(s, None);
        assert(PrioritySet::is_first(s, None));
    } else {
        let p = Priority::of_code(code);
        lemma_code_bijective(p, p);
        if s.contains(p) {
            assert(PrioritySet::is_first(s, Some(p)));
            PrioritySet::lemma_first(s, Some(p));
        } else {
            assert forall|q: Priority| #[trigger] s.contains(q) implies code + 1 <= q.code() by {
                lemma_code_bijective(p, q);
            }
            lemma_first_exists_from(s, code + 1);
        }
    }
}

/// Placing the only endpoint that may be out of place puts all endpoints in place.
pub proof fn lemma_placed<B: DynamicTxBuffer>(state: TxQueueState<B::State>, id: u64)
    requires
        state.wf(),
        state.endpoints.contains_key(id),
        forall|x: u64| #[trigger]
            state.endpoints.contains_key(x) && x != id ==> state.endpoints[x].lane == due_lane::<B>(
                state.endpoints[x],
            ),
    ensures
        placed::<B>(state, id).wf(),
        is_in_place::<B>(placed::<B>(state, id)),
        placed::<B>(state, id).endpoints == state.endpoints.insert(
            id,
            TxSlot { lane: due_lane::<B>(state.endpoints[id]), ..state.endpoints[id] },
        ),
{
    let to = due_lane::<B>(state.endpoints[id]);
    lemma_due_lane::<B>(state.endpoints[id]);
    state.lemma_moved(id, to);
    let after = placed::<B>(state, id);
    assert forall|x: u64| #[trigger] after.endpoints.contains_key(x) implies after.endpoints[x].lane == due_lane::<B>(
        after.endpoints[x],
    ) by {
        if x != id {
            assert(state.endpoints.contains_key(x));
        }
    }
}

/// An endpoint has been registered.
pub open spec fn registered<B: DynamicTxBuffer>(
    state: TxQueueState<B::State>,
    buffer: B::State,
) -> TxQueueState<B::State> {
    placed::<B>(state.added(buffer), state.next_id)
}

/// The buffer of an endpoint has changed, and the endpoint has moved where it belongs.
pub open spec fn changed<B: DynamicTxBuffer>(
    state: TxQueueState<B::State>,
    id: u64,
    buffer: B::State,
) -> TxQueueState<B::State> {
    placed::<B>(state.with_slot(id, state.endpoints[id].started, buffer), id)
}

/// A frame of an endpoint has been fetched. An endpoint that has finished a transfer goes to the
/// end of its lane.
pub open spec fn fetched<B: DynamicTxBuffer>(
    state: TxQueueState<B::State>,
    id: u64,
    frame: Frame,
    buffer: B::State,
) -> TxQueueState<B::State> {
    let p = frame.header.priority;
    let started = state.endpoints[id].started;
    let next = if tail_fields(frame.data@.last()).eot {
        state.with_slot(id, started.remove(p), buffer).moved(id, None)
    } else {
        state.with_slot(id, started.insert(p), buffer)
    };
    placed::<B>(next, id)
}

/// A frame may be fetched like this: the first endpoint of the first lane that is asked for gives
/// the next frame of the priority of the lane.
pub open spec fn is_popped<B: DynamicTxBuffer>(
    state: TxQueueState<B::State>,
    priorities: Set<Priority>,
    mtu: Mtu,
    frame: Option<Frame>,
    after: TxQueueState<B::State>,
) -> bool {
    match state.served(priorities) {
        Some(l) => {
            let id = state.lanes[l][0];
            let buffer = after.endpoints[id].state;
            match frame {
                Some(f) => {
                    &&& f.header.priority == lane_priority(l)
                    &&& 1 <= f.data@.len() <= mtu.size()
                    &&& B::is_fetch(
                        state.endpoints[id].state,
                        Set::empty().insert(lane_priority(l)),
                        mtu,
                        frame,
                        buffer,
                    )
                    &&& after == fetched::<B>(state, id, f, buffer)
                },
                None => false,
            }
        },
        None => frame is None && after == state,
    }
}

/// The only endpoint whose buffer changed may be out of place.
proof fn lemma_others_in_place<B: DynamicTxBuffer>(
    state: TxQueueState<B::State>,
    id: u64,
    started: Set<Priority>,
    buffer: B::State,
)
    requires
        state.wf(),
        is_in_place::<B>(state),
        state.endpoints.contains_key(id),
    ensures
        ({
            let next = state.with_slot(id, started, buffer);
            &&& next.wf()
            &&& forall|x: u64| #[trigger]
                next.endpoints.contains_key(x) && x != id ==> next.endpoints[x].lane == due_lane::<B>(
                    next.endpoints[x],
                )
            &&& next.moved(id, None).wf()
            &&& next.moved(id, None).endpoints.contains_key(id)
            &&& forall|x: u64| #[trigger]
                next.moved(id, None).endpoints.contains_key(x) && x != id ==> next.moved(id, None).endpoints[x].lane
                    == due_lane::<B>(next.moved(id, None).endpoints[x])
            &&& next.moved(id, None).endpoints[id].state == buffer
            &&& next.moved(id, None).endpoints.dom() == state.endpoints.dom()
        }),
{
    let next = state.with_slot(id, started, buffer);
    state.lemma_with_slot(id, started, buffer);
    assert forall|x: u64| #[trigger] next.endpoints.contains_key(x) && x != id implies next.endpoints[x].lane
        == due_lane::<B>(next.endpoints[x]) by {
        assert(state.endpoints.contains_key(x));
    }
    next.lemma_moved(id, None);
    let out = next.moved(id, None);
    assert forall|x: u64| #[trigger] out.endpoints.contains_key(x) && x != id implies out.endpoints[x].lane
        == due_lane::<B>(out.endpoints[x]) by {
        assert(next.endpoints.contains_key(x));
    }
    assert(out.endpoints.dom() =~= state.endpoints.dom());
}

/// The same endpoints are registered, and their buffers are of the same kinds.
pub open spec fn is_same_kind<B: DynamicTxBuffer>(
    before: TxQueueState<B::State>,
    after: TxQueueState<B::State>,
) -> bool {
    &&& after.endpoints.dom() == before.endpoints.dom()
    &&& forall|x: u64| #[trigger]
        before.endpoints.contains_key(x) ==> B::capacity(after.endpoints[x].state) == B::capacity(
            before.endpoints[x].state,
        ) && B::is_service(after.endpoints[x].state) == B::is_service(before.endpoints[x].state)
}

/// What the buffer of an endpoint holds does not matter for its kind, and neither do the lanes.
pub proof fn lemma_same_kind<B: DynamicTxBuffer>(state: TxQueueState<B::State>, id: u64, buffer: B::State)
    requires
        state.wf(),
        is_in_place::<B>(state),
        state.endpoints.contains_key(id),
        B::capacity(buffer) == B::capacity(state.endpoints[id].state),
        B::is_service(buffer) == B::is_service(state.endpoints[id].state),
    ensures
        is_same_kind::<B>(state, state.with_slot(id, state.endpoints[id].started, buffer)),
        is_same_kind::<B>(state, changed::<B>(state, id, buffer)),
{
    let next = state.with_slot(id, state.endpoints[id].started, buffer);
    assert(next.endpoints.dom() =~= state.endpoints.dom());
    lemma_changed_endpoints::<B>(state, id, buffer);
}

/// The endpoints after the buffer of one of them changed: the same ones, all in place.
pub proof fn lemma_changed_endpoints<B: DynamicTxBuffer>(state: TxQueueState<B::State>, id: u64, buffer: B::State)
    requires
        state.wf(),
        is_in_place::<B>(state),
        state.endpoints.contains_key(id),
    ensures
        changed::<B>(state, id, buffer).endpoints.dom() == state.endpoints.dom(),
        changed::<B>(state, id, buffer).endpoints[id].state == buffer,
        changed::<B>(state, id, buffer).endpoints[id].started == state.endpoints[id].started,
        forall|x: u64| #[trigger]
            state.endpoints.contains_key(x) && x != id ==> changed::<B>(state, id, buffer).endpoints[x]
                == state.endpoints[x],
        changed::<B>(state, id, buffer).next_id == state.next_id,
{
    let started = state.endpoints[id].started;
    lemma_others_in_place::<B>(state, id, started, buffer);
    lemma_placed::<B>(state.with_slot(id, started, buffer), id);
    assert(changed::<B>(state, id, buffer).endpoints.dom() =~= state.endpoints.dom());
}

/// The endpoints after a frame was fetched: the same ones.
pub proof fn lemma_popped_endpoints<B: DynamicTxBuffer>(
    state: TxQueueState<B::State>,
    priorities: Set<Priority>,
    mtu: Mtu,
    frame: Option<Frame>,
    after: TxQueueState<B::State>,
)
    requires
        state.wf(),
        is_in_place::<B>(state),
        is_popped::<B>(state, priorities, mtu, frame, after),
    ensures
        after.endpoints.dom() == state.endpoints.dom(),
        forall|x: u64| #[trigger]
            state.endpoints.contains_key(x) ==> B::capacity(after.endpoints[x].state) == B::capacity(
                state.endpoints[x].state,
            ) && B::is_service(after.endpoints[x].state) == B::is_service(state.endpoints[x].state),
        forall|x: u64| #[trigger]
            state.endpoints.contains_key(x) ==> B::push_ready(state.endpoints[x].state).subset_of(
                B::push_ready(after.endpoints[x].state),
            ),
        forall|x: u64| #[trigger]
            state.endpoints.contains_key(x) ==> after.endpoints[x].state == state.endpoints[x].state || (state.served(
                priorities,
            ) matches Some(l) && state.lanes[l][0] == x),
        after.next_id == state.next_id,
{
    state.lemma_first_from(priorities, 0);
    if let Some(l) = state.served(priorities) {
        let id = state.lanes[l][0];
        let f = frame->0;
        let p = f.header.priority;
        assert(state.lanes[l].contains(id));
        assert(state.is_in(id, l));
        let buffer = after.endpoints[id].state;
        let eot = tail_fields(f.data@.last()).eot;
        let started = if eot {
            state.endpoints[id].started.remove(p)
        } else {
            state.endpoints[id].started.insert(p)
        };
        lemma_others_in_place::<B>(state, id, started, buffer);
        let next = state.with_slot(id, started, buffer);
        next.lemma_moved(id, None);
        if eot {
            lemma_placed::<B>(next.moved(id, None), id);
        } else {
            lemma_placed::<B>(next, id);
        }
        assert(after.endpoints.dom() =~= state.endpoints.dom());
        B::lemma_after_fetch(
            state.endpoints[id].state,
            Set::empty().insert(lane_priority(l)),
            mtu,
            frame,
            buffer,
        );
        assert forall|x: u64| #[trigger] state.endpoints.contains_key(x) implies B::capacity(after.endpoints[x].state)
            == B::capacity(state.endpoints[x].state) && B::is_service(after.endpoints[x].state) == B::is_service(
            state.endpoints[x].state,
        ) && B::push_ready(state.endpoints[x].state).subset_of(B::push_ready(after.endpoints[x].state)) by {
            assert(next.endpoints.contains_key(x));
        }
    }
}

/// The frame that is fetched is of the most urgent priority that is asked for: no endpoint whose
/// turn is a more urgent one is passed over.
pub proof fn law_most_urgent_first<B: DynamicTxBuffer>(
    state: TxQueueState<B::State>,
    priorities: Set<Priority>,
    mtu: Mtu,
    frame: Option<Frame>,
    after: TxQueueState<B::State>,
    id: u64,
    p: Priority,
)
    requires
        state.wf(),
        is_in_place::<B>(state),
        is_popped::<B>(state, priorities, mtu, frame, after),
        state.endpoints.contains_key(id),
        PrioritySet::is_first(B::pop_ready(state.endpoints[id].state), Some(p)),
        priorities.contains(p),
    ensures
        frame matches Some(f) && f.header.priority.code() <= p.code(),
{
    PrioritySet::lemma_first(B::pop_ready(state.endpoints[id].state), Some(p));
    let l = lane_of(p, state.endpoints[id].started.contains(p));
    lemma_lane(p, state.endpoints[id].started.contains(p));
    assert(state.is_in(id, l));
    assert(state.lanes[l].contains(id));
    assert(state.is_open(priorities, l));
    state.lemma_first_from(priorities, 0);
    if let Some(k) = state.served(priorities) {
        if l < k {
            assert(!state.is_open(priorities, l));
        }
        lemma_code_bijective(lane_priority(k), p);
        lemma_code_bijective(lane_priority(l), p);
        assert(k / 2 <= l / 2);
    }
}

/// A transfer that has been started goes on before another one of the same priority is started.
pub proof fn law_started_first<B: DynamicTxBuffer>(
    state: TxQueueState<B::State>,
    priorities: Set<Priority>,
    mtu: Mtu,
    frame: Option<Frame>,
    after: TxQueueState<B::State>,
    id: u64,
)
    requires
        state.wf(),
        is_in_place::<B>(state),
        is_popped::<B>(state, priorities, mtu, frame, after),
        frame is Some,
        state.endpoints.contains_key(id),
        PrioritySet::is_first(B::pop_ready(state.endpoints[id].state), Some((frame->0).header.priority)),
        state.endpoints[id].started.contains((frame->0).header.priority),
    ensures
        state.served(priorities) matches Some(l) && state.endpoints[state.lanes[l][0]].started.contains(
            (frame->0).header.priority,
        ),
{
    let p = (frame->0).header.priority;
    PrioritySet::lemma_first(B::pop_ready(state.endpoints[id].state), Some(p));
    let l = lane_of(p, true);
    lemma_lane(p, true);
    assert(state.is_in(id, l));
    assert(state.lanes[l].contains(id));
    state.lemma_first_from(priorities, 0);
    let k = state.served(priorities)->0;
    assert(state.is_open(priorities, k));
    lemma_code_bijective(lane_priority(k), p);
    assert(state.is_open(priorities, l));
    if l < k {
        assert(!state.is_open(priorities, l));
    }
    assert(k / 2 == l / 2);
    assert(k == l);
    let first = state.lanes[k][0];
    assert(state.lanes[k].contains(first));
    assert(state.is_in(first, k));
    lemma_due_lane::<B>(state.endpoints[first]);
    let q = PrioritySet::first_of(B::pop_ready(state.endpoints[first].state))->0;
    lemma_lane(q, state.endpoints[first].started.contains(q));
    lemma_code_bijective(p, q);
}

/// Endpoints of the same priority take turns: whoever finished a transfer is behind the others.
pub proof fn law_endpoints_take_turns<B: DynamicTxBuffer>(
    state: TxQueueState<B::State>,
    priorities: Set<Priority>,
    mtu: Mtu,
    frame: Option<Frame>,
    after: TxQueueState<B::State>,
    l: int,
)
    requires
        state.wf(),
        is_popped::<B>(state, priorities, mtu, frame, after),
        state.served(priorities) == Some(l),
        tail_fields((frame->0).data@.last()).eot,
        due_lane::<B>(after.endpoints[state.lanes[l][0]]) == Some(l),
    ensures
        after.lanes[l] == state.lanes[l].drop_first().push(state.lanes[l][0]),
{
    state.lemma_first_from(priorities, 0);
    let id = state.lanes[l][0];
    let p = lane_priority(l);
    let f = frame->0;
    assert(state.lanes[l].contains(id));
    assert(state.is_in(id, l));
    let buffer = after.endpoints[id].state;
    let started = state.endpoints[id].started.remove(p);
    let changed = state.with_slot(id, started, buffer);
    state.lemma_with_slot(id, started, buffer);
    let out = changed.moved(id, None);
    changed.lemma_moved(id, None);
    lemma_due_lane::<B>(out.endpoints[id]);
    out.lemma_moved(id, due_lane::<B>(out.endpoints[id]));
    assert(after.endpoints[id].started == started);
    assert(due_lane::<B>(out.endpoints[id]) == due_lane::<B>(after.endpoints[id]));
    let lane = state.lanes[l];
    assert(lane.index_of(id) == 0) by {
        let k = lane.index_of(id);
        assert(lane[k] == lane[0]);
    }
    assert(without_id(lane, id) =~= lane.drop_first());
    assert(out.lanes[l] == lane.drop_first());
}

} // verus!
