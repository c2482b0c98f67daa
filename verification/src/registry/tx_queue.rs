//! Endpoints that transmit, in the order in which they are served.

use core::task::Waker;
use vstd::prelude::*;

use crate::buffer::{BufferError, DynamicTxBuffer};
use crate::endpoint::TransferMeta;
use crate::format::{is_eot_frame, TransferCrc};
use crate::frame::{Frame, Mtu};
use crate::priority::{lemma_code_bijective, Priority, PrioritySet};
use crate::registry::id_queue::{remove_id, without_id};
use crate::registry::tx_queue::state::{
    changed, due_lane, is_in_place, is_popped, lane_of, lane_priority, lemma_due_lane, lemma_lane,
    lemma_placed, placed, registered, TxQueueState, TxSlot, LANE_COUNT,
};
use crate::task::Poll;
use crate::utils::id_map::IdMap;
use crate::utils::priority_map::PriorityArray;
use crate::utils::priority_trigger::{PriorityTrigger, Waiting};

pub mod state;
pub mod turns;

verus! {

/// Whether the endpoints of a queue have started a transfer.
#[derive(Debug, Clone, Copy, PartialEq, Eq, Structural)]
pub enum QueueType {
    /// A transfer has been started and not been finished.
    Started,
    /// The last transfer has been finished.
    Finished,
}

/// A queue of endpoints.
#[derive(Debug, Clone, Copy, PartialEq, Eq, Structural)]
pub struct QueueId {
    /// The priority of the next frame of the endpoints.
    pub priority: Priority,
    /// Whether the endpoints have started a transfer of the priority.
    pub queue_type: QueueType,
}

impl QueueId {
    /// The number of the lane.
    pub open spec fn lane(self) -> int {
        lane_of(self.priority, self.queue_type is Started)
    }

    /// The lane determines the queue.
    pub proof fn lemma_lane_unique(self, other: QueueId)
        ensures
            self.lane() == other.lane() <==> self == other,
            0 <= self.lane() < LANE_COUNT,
            lane_priority(self.lane()) == self.priority,
    {
        lemma_lane(self.priority, self.queue_type is Started);
        lemma_code_bijective(self.priority, other.priority);
    }
}

/// The lane of an endpoint that may wait in no queue.
pub open spec fn mark_lane(mark: Option<QueueId>) -> Option<int> {
    match mark {
        Some(id) => Some(id.lane()),
        None => None,
    }
}

/// A queue of endpoints for each lane.
pub struct Queues {
    started: PriorityArray<Vec<u64>>,
    started_priorities: PrioritySet,
    finished: PriorityArray<Vec<u64>>,
    finished_priorities: PrioritySet,
}

impl View for Queues {
    type V = Seq<Seq<u64>>;

    closed spec fn view(&self) -> Seq<Seq<u64>> {
        Seq::new(
            16,
            |l: int|
                if l % 2 == 0 {
                    self.started@[l / 2]@
                } else {
                    self.finished@[l / 2]@
                },
        )
    }
}

impl Queues {
    /// The sets tell which queues have an endpoint.
    pub closed spec fn wf(&self) -> bool {
        &&& self.started.wf()
        &&& self.finished.wf()
        &&& forall|p: Priority| #[trigger] self.started_priorities@.contains(p) <==> self.started.at(p)@.len() > 0
        &&& forall|p: Priority| #[trigger] self.finished_priorities@.contains(p) <==> self.finished.at(p)@.len() > 0
    }

    /// All queues are empty.
    fn new() -> (r: Self)
        ensures
            r.wf(),
            r@ == Seq::new(16, |l: int| Seq::<u64>::empty()),
    {
        let empty = |p: Priority| -> (v: Vec<u64>)
            ensures
                v@ == Seq::<u64>::empty(),
            { Vec::new() };
        let r = Queues {
            started: PriorityArray::from_fn(empty),
            started_priorities: PrioritySet::none(),
            finished: PriorityArray::from_fn(empty),
            finished_priorities: PrioritySet::none(),
        };
        proof {
            assert forall|p: Priority| (#[trigger] r.started.at(p))@ == Seq::<u64>::empty() by {}
            assert forall|p: Priority| (#[trigger] r.finished.at(p))@ == Seq::<u64>::empty() by {}
            assert forall|l: int| 0 <= l < 16 implies #[trigger] r@[l] == Seq::<u64>::empty() by {
                let p = Priority::of_code(l / 2);
                lemma_code_bijective(p, p);
                assert(r.started.at(p)@ == Seq::<u64>::empty());
                assert(r.finished.at(p)@ == Seq::<u64>::empty());
            }
            assert(r@ =~= Seq::new(16, |l: int| Seq::<u64>::empty()));
        }
        r
    }

    /// The queue of a lane.
    proof fn lemma_lane_view(&self, id: QueueId)
        requires
            self.wf(),
        ensures
            0 <= id.lane() < 16,
            self@.len() == 16,
            self@[id.lane()] == (match id.queue_type {
                QueueType::Started => self.started.at(id.priority)@,
                QueueType::Finished => self.finished.at(id.priority)@,
            }),
    {
        id.lemma_lane_unique(id);
        let c = id.priority.code() as int;
        assert((2 * c) / 2 == c && (2 * c + 1) / 2 == c);
    }

    /// Returns the priorities of which endpoints have started a transfer.
    fn started_priorities(&self) -> (r: PrioritySet)
        requires
            self.wf(),
        ensures
            forall|p: Priority| #[trigger] r@.contains(p) <==> self@[lane_of(p, true)].len() > 0,
    {
        proof {
            assert forall|p: Priority| #[trigger] self.started_priorities@.contains(p) <==> self@[lane_of(p, true)].len()
                > 0 by {
                self.lemma_lane_view(QueueId { priority: p, queue_type: QueueType::Started });
            }
        }
        self.started_priorities
    }

    /// Returns the priorities of which endpoints could start a transfer.
    fn finished_priorities(&self) -> (r: PrioritySet)
        requires
            self.wf(),
        ensures
            forall|p: Priority| #[trigger] r@.contains(p) <==> self@[lane_of(p, false)].len() > 0,
    {
        proof {
            assert forall|p: Priority| #[trigger] self.finished_priorities@.contains(p) <==> self@[lane_of(
                p,
                false,
            )].len() > 0 by {
                self.lemma_lane_view(QueueId { priority: p, queue_type: QueueType::Finished });
            }
        }
        self.finished_priorities
    }

    /// Returns the first endpoint of a queue.
    fn get_front(&self, id: QueueId) -> (r: Option<u64>)
        requires
            self.wf(),
        ensures
            r == (if self@[id.lane()].len() > 0 {
                Some(self@[id.lane()][0])
            } else {
                None
            }),
    {
        proof {
            self.lemma_lane_view(id);
        }
        let queue: &Vec<u64> = match id.queue_type {
            QueueType::Started => self.started.get(id.priority),
            QueueType::Finished => self.finished.get(id.priority),
        };
        if queue.len() > 0 {
            Some(queue[0])
        } else {
            None
        }
    }

    /// One queue changed.
    proof fn lemma_changed(&self, after: Self, id: QueueId)
        requires
            self.wf(),
            after.started.wf(),
            after.finished.wf(),
            match id.queue_type {
                QueueType::Started => {
                    &&& after.finished == self.finished
                    &&& after.started@ == self.started@.update(
                        id.priority.code() as int,
                        after.started.at(id.priority),
                    )
                },
                QueueType::Finished => {
                    &&& after.started == self.started
                    &&& after.finished@ == self.finished@.update(
                        id.priority.code() as int,
                        after.finished.at(id.priority),
                    )
                },
            },
        ensures
            after@ == self@.update(
                id.lane(),
                match id.queue_type {
                    QueueType::Started => after.started.at(id.priority)@,
                    QueueType::Finished => after.finished.at(id.priority)@,
                },
            ),
            forall|p: Priority|
                p != id.priority ==> (#[trigger] after.started.at(p)) == self.started.at(p) && after.finished.at(p)
                    == self.finished.at(p),
            forall|p: Priority|
                p != id.priority ==> (#[trigger] after.finished.at(p)) == self.finished.at(p),
    {
        self.lemma_lane_view(id);
        let queue = match id.queue_type {
            QueueType::Started => after.started.at(id.priority)@,
            QueueType::Finished => after.finished.at(id.priority)@,
        };
        let c = id.priority.code() as int;
        assert forall|l: int| 0 <= l < 16 implies #[trigger] after@[l] == self@.update(id.lane(), queue)[l] by {
            if l == id.lane() {
                assert((2 * c) / 2 == c && (2 * c + 1) / 2 == c);
            } else if l / 2 == c {
                assert(l % 2 != id.lane() % 2);
            }
        }
        assert(after@ =~= self@.update(id.lane(), queue));
        assert forall|p: Priority| p != id.priority implies (#[trigger] after.started.at(p)) == self.started.at(p)
            && after.finished.at(p) == self.finished.at(p) by {
            lemma_code_bijective(p, id.priority);
        }
        assert forall|p: Priority| p != id.priority implies (#[trigger] after.finished.at(p)) == self.finished.at(p) by {
            lemma_code_bijective(p, id.priority);
        }
    }

    /// Adds an endpoint at the end of a queue.
    fn push_back(&mut self, id: QueueId, endpoint: u64)
        requires
            old(self).wf(),
        ensures
            final(self).wf(),
            final(self)@ == old(self)@.update(id.lane(), old(self)@[id.lane()].push(endpoint)),
    {
        let ghost before = *self;
        proof {
            self.lemma_lane_view(id);
        }
        match id.queue_type {
            QueueType::Started => {
                self.started.get_mut(id.priority).push(endpoint);
                self.started_priorities.insert(id.priority);
            },
            QueueType::Finished => {
                self.finished.get_mut(id.priority).push(endpoint);
                self.finished_priorities.insert(id.priority);
            },
        }
        proof {
            before.lemma_changed(*self, id);
            assert forall|p: Priority| #[trigger] self.started_priorities@.contains(p) <==> self.started.at(p)@.len()
                > 0 by {
                assert(before.started_priorities@.contains(p) <==> before.started.at(p)@.len() > 0);
                assert(p != id.priority ==> self.started.at(p) == before.started.at(p));
            }
            assert forall|p: Priority| #[trigger] self.finished_priorities@.contains(p) <==> self.finished.at(p)@.len()
                > 0 by {
                assert(before.finished_priorities@.contains(p) <==> before.finished.at(p)@.len() > 0);
                assert(p != id.priority ==> self.finished.at(p) == before.finished.at(p));
            }
        }
    }

    /// Takes an endpoint out of a queue.
    fn remove(&mut self, id: QueueId, endpoint: u64)
        requires
            old(self).wf(),
            old(self)@[id.lane()].no_duplicates(),
        ensures
            final(self).wf(),
            final(self)@ == old(self)@.update(id.lane(), without_id(old(self)@[id.lane()], endpoint)),
    {
        let ghost before = *self;
        proof {
            self.lemma_lane_view(id);
        }
        match id.queue_type {
            QueueType::Started => {
                let queue: &mut Vec<u64> = self.started.get_mut(id.priority);
                remove_id(queue, endpoint);
                if self.started.get(id.priority).len() == 0 {
                    self.started_priorities.remove(id.priority);
                }
            },
            QueueType::Finished => {
                let queue: &mut Vec<u64> = self.finished.get_mut(id.priority);
                remove_id(queue, endpoint);
                if self.finished.get(id.priority).len() == 0 {
                    self.finished_priorities.remove(id.priority);
                }
            },
        }
        proof {
            before.lemma_changed(*self, id);
            assert forall|p: Priority| #[trigger] self.started_priorities@.contains(p) <==> self.started.at(p)@.len()
                > 0 by {
                assert(before.started_priorities@.contains(p) <==> before.started.at(p)@.len() > 0);
                assert(p != id.priority ==> self.started.at(p) == before.started.at(p));
            }
            assert forall|p: Priority| #[trigger] self.finished_priorities@.contains(p) <==> self.finished.at(p)@.len()
                > 0 by {
                assert(before.finished_priorities@.contains(p) <==> before.finished.at(p)@.len() > 0);
                assert(p != id.priority ==> self.finished.at(p) == before.finished.at(p));
            }
        }
    }
}

/// An endpoint and its buffer.
pub struct Entry<B> {
    queue_mark: Option<QueueId>,
    started: PrioritySet,
    buffer: B,
}

impl<B: DynamicTxBuffer> Entry<B> {
    /// What is known of the endpoint.
    closed spec fn slot(self) -> TxSlot<B::State> {
        TxSlot { lane: mark_lane(self.queue_mark), started: self.started@, state: self.buffer.state() }
    }
}

/// Endpoints that transmit, in the order in which they are served.
pub struct TxQueue<B> {
    entries: IdMap<Entry<B>>,
    queues: Queues,
    non_empty_trigger: PriorityTrigger,
    next_id: u64,
}

impl<B: DynamicTxBuffer> TxQueue<B> {
    spec fn endpoints(&self) -> Map<u64, TxSlot<B::State>> {
        self.entries@.map_values(|e: Entry<B>| e.slot())
    }

    /// What the endpoints are, and in which order they are served.
    pub closed spec fn state(&self) -> TxQueueState<B::State> {
        TxQueueState {
            endpoints: self.endpoints(),
            lanes: self.queues@,
            waiting: self.non_empty_trigger@,
            next_id: self.next_id,
        }
    }

    /// The parts are valid, and the buffers are large enough for every payload.
    spec fn parts_wf(&self) -> bool {
        &&& self.entries.wf()
        &&& self.queues.wf()
        &&& forall|id: u64| #[trigger]
            self.entries@.contains_key(id) ==> self.entries@[id].buffer.wf() && self.entries@[id].buffer.is_sized()
    }

    /// The state is valid, and every endpoint waits in the queue in which it belongs.
    pub closed spec fn wf(&self) -> bool {
        &&& self.parts_wf()
        &&& self.state().wf()
        &&& is_in_place::<B>(self.state())
    }

    /// A valid state is valid.
    pub proof fn lemma_wf(&self)
        requires
            self.wf(),
        ensures
            self.state().wf(),
            is_in_place::<B>(self.state()),
    {
    }

    /// No endpoints.
    pub fn new() -> (r: Self)
        ensures
            r.wf(),
            r.state() == TxQueueState::<B::State>::fresh(),
    {
        let r = TxQueue {
            entries: IdMap::new(),
            queues: Queues::new(),
            non_empty_trigger: PriorityTrigger::new(),
            next_id: 0,
        };
        proof {
            assert(r.endpoints() =~= Map::<u64, TxSlot<B::State>>::empty());
            assert(r.state() =~= TxQueueState::<B::State>::fresh());
            assert forall|l: int, id: u64| 0 <= l < LANE_COUNT implies (#[trigger] r.state().lanes[l].contains(id)
                <==> r.state().is_in(id, l)) by {
                assert(r.state().lanes[l] == Seq::<u64>::empty());
            }
        }
        r
    }

    /// The endpoints after one of them changed.
    proof fn lemma_entry_changed(&self, after: Self, id: u64, entry: Entry<B>)
        requires
            after.entries@ == self.entries@.insert(id, entry),
        ensures
            after.endpoints() == self.endpoints().insert(id, entry.slot()),
    {
        assert(after.endpoints() =~= self.endpoints().insert(id, entry.slot()));
    }

    /// Takes an endpoint out of its queue.
    fn dequeue(&mut self, id: u64)
        requires
            old(self).parts_wf(),
            old(self).state().wf(),
            old(self).state().endpoints.contains_key(id),
        ensures
            final(self).parts_wf(),
            final(self).state() == old(self).state().moved(id, None),
            final(self).entries@.contains_key(id),
            final(self).entries@[id].buffer == old(self).entries@[id].buffer,
            final(self).entries@[id].started == old(self).entries@[id].started,
            final(self).entries@[id].queue_mark is None,
    {
        let ghost before = *self;
        let mark: Option<QueueId> = self.entries.get(id).queue_mark;
        if let Some(queue) = mark {
            proof {
                queue.lemma_lane_unique(queue);
                assert(self.state().endpoints[id].lane == Some(queue.lane()));
                assert(self.state().lanes[queue.lane()].no_duplicates());
            }
            self.queues.remove(queue, id);
            self.entries.get_mut(id).queue_mark = None;
            proof {
                before.lemma_entry_changed(*self, id, Entry { queue_mark: None, ..before.entries@[id] });
                assert(self.state() =~= before.state().moved(id, None));
            }
        }
    }

    /// Moves an endpoint to the end of a queue.
    fn move_back(&mut self, queue: QueueId, id: u64)
        requires
            old(self).parts_wf(),
            old(self).state().wf(),
            old(self).state().endpoints.contains_key(id),
            old(self).state().endpoints[id].lane != Some(queue.lane()),
        ensures
            final(self).parts_wf(),
            final(self).entries@.contains_key(id),
            final(self).entries@[id].buffer == old(self).entries@[id].buffer,
            final(self).entries@[id].started == old(self).entries@[id].started,
            final(self).state() == (TxQueueState {
                waiting: old(self).state().waiting,
                ..old(self).state().moved(id, Some(queue.lane()))
            }),
    {
        let ghost before = *self;
        self.dequeue(id);
        let ghost middle = *self;
        proof {
            queue.lemma_lane_unique(queue);
            before.state().lemma_moved(id, None);
        }
        self.entries.get_mut(id).queue_mark = Some(queue);
        self.queues.push_back(queue, id);
        proof {
            middle.lemma_entry_changed(*self, id, Entry { queue_mark: Some(queue), ..middle.entries@[id] });
            assert(self.state().endpoints =~= before.state().moved(id, Some(queue.lane())).endpoints);
            assert(middle.state().lanes == before.state().lanes_without(id));
        }
    }

    /// Moves an endpoint to the end of the queue in which it belongs, unless it waits there
    /// already.
    fn reg_update_queue_position(&mut self, id: u64)
        requires
            old(self).parts_wf(),
            old(self).state().wf(),
            old(self).state().endpoints.contains_key(id),
        ensures
            final(self).parts_wf(),
            final(self).entries@.contains_key(id),
            final(self).entries@[id].buffer == old(self).entries@[id].buffer,
            final(self).entries@[id].started == old(self).entries@[id].started,
            final(self).state() == placed::<B>(old(self).state(), id),
    {
        let ghost before = self.state();
        let started: PrioritySet = self.entries.get(id).started;
        let prev_queue_id: Option<QueueId> = self.entries.get(id).queue_mark;
        let new_readiness: PrioritySet = self.entries.get(id).buffer.pop_readiness();
        let first = new_readiness.first();
        proof {
            PrioritySet::lemma_first(new_readiness@, first);
            lemma_due_lane::<B>(before.endpoints[id]);
        }
        if let Some(priority) = first {
            let queue_type = if started.contains(priority) {
                QueueType::Started
            } else {
                QueueType::Finished
            };
            let queue = QueueId { priority, queue_type };
            proof {
                assert(due_lane::<B>(before.endpoints[id]) == Some(queue.lane()));
                queue.lemma_lane_unique(queue);
                if let Some(prev) = prev_queue_id {
                    prev.lemma_lane_unique(queue);
                }
            }
            if prev_queue_id != Some(queue) {
                self.move_back(queue, id);
                self.non_empty_trigger.wake(PrioritySet::new_eq(priority));
            }
        } else {
            self.dequeue(id);
        }
    }

    /// Tells whether a further endpoint can be told apart from all others.
    pub fn can_register(&self) -> (r: bool)
        ensures
            r == (self.state().next_id < u64::MAX),
    {
        self.next_id < u64::MAX
    }

    /// Registers an endpoint, and returns its identity.
    pub fn reg_register(&mut self, buffer: B) -> (r: u64)
        requires
            old(self).wf(),
            old(self).state().next_id < u64::MAX,
            buffer.wf(),
            buffer.is_sized(),
        ensures
            final(self).wf(),
            r == old(self).state().next_id,
            final(self).state() == registered::<B>(old(self).state(), buffer.state()),
            final(self).state().endpoints.contains_key(r),
            final(self).state().next_id == r + 1,
    {
        let ghost before = *self;
        let id: u64 = self.next_id;
        let entry = Entry { queue_mark: None, started: PrioritySet::none(), buffer };
        let ghost added = entry;
        proof {
            assert(!before.state().endpoints.contains_key(id));
            before.state().lemma_added(buffer.state());
        }
        self.entries.insert(id, entry);
        self.next_id = id + 1;
        proof {
            before.lemma_entry_changed(*self, id, added);
            assert(self.state() =~= before.state().added(added.buffer.state()));
            lemma_placed::<B>(self.state(), id);
        }
        self.reg_update_queue_position(id);
        id
    }

    /// Unregisters an endpoint.
    pub fn reg_unregister(&mut self, id: u64)
        requires
            old(self).wf(),
            old(self).state().endpoints.contains_key(id),
        ensures
            final(self).wf(),
            final(self).state() == old(self).state().unregistered(id),
    {
        let ghost before = *self;
        proof {
            before.state().lemma_unregistered(id);
            before.state().lemma_moved(id, None);
        }
        self.dequeue(id);
        let ghost middle = *self;
        self.entries.remove(id);
        proof {
            assert(self.endpoints() =~= middle.endpoints().remove(id));
            assert(self.state() =~= before.state().unregistered(id));
        }
    }

    /// Returns the buffer of an endpoint.
    fn buffer(&self, id: u64) -> (r: &B)
        requires
            self.parts_wf(),
            self.state().endpoints.contains_key(id),
        ensures
            r.wf(),
            r.is_sized(),
            r.state() == self.state().endpoints[id].state,
    {
        &self.entries.get(id).buffer
    }

    /// The buffer of an endpoint was replaced.
    proof fn lemma_buffer_changed(self, id: u64, buffer: B)
        requires
            self.wf(),
            self.entries@.contains_key(id),
        ensures
            forall|after: Self|
                #[trigger] after.entries@ == self.entries@.insert(id, Entry { buffer, ..self.entries@[id] })
                    && after.entries.wf() && after.queues == self.queues && after.non_empty_trigger
                    == self.non_empty_trigger && after.next_id == self.next_id ==> {
                    &&& after.state() == self.state().with_slot(
                        id,
                        self.state().endpoints[id].started,
                        buffer.state(),
                    )
                    &&& after.state().wf()
                    &&& buffer.wf() && buffer.is_sized() ==> after.parts_wf()
                },
            B::pop_ready(buffer.state()) == B::pop_ready(self.entries@[id].buffer.state()) ==> is_in_place::<B>(
                self.state().with_slot(id, self.state().endpoints[id].started, buffer.state()),
            ),
    {
        let started = self.state().endpoints[id].started;
        let next = self.state().with_slot(id, started, buffer.state());
        self.state().lemma_with_slot(id, started, buffer.state());
        assert forall|after: Self|
            #[trigger] after.entries@ == self.entries@.insert(id, Entry { buffer, ..self.entries@[id] })
                && after.entries.wf() && after.queues == self.queues && after.non_empty_trigger
                == self.non_empty_trigger && after.next_id == self.next_id implies {
            &&& after.state() == next
            &&& after.state().wf()
            &&& buffer.wf() && buffer.is_sized() ==> after.parts_wf()
        } by {
            self.lemma_entry_changed(after, id, Entry { buffer, ..self.entries@[id] });
            assert(after.state() =~= next);
        }
        if B::pop_ready(buffer.state()) == B::pop_ready(self.entries@[id].buffer.state()) {
            assert forall|x: u64| #[trigger] next.endpoints.contains_key(x) implies next.endpoints[x].lane
                == due_lane::<B>(next.endpoints[x]) by {
                assert(self.state().endpoints.contains_key(x));
            }
        }
    }

    /// Returns the buffer of an endpoint for modification.
    fn buffer_mut(&mut self, id: u64) -> (r: &mut B)
        requires
            old(self).wf(),
            old(self).state().endpoints.contains_key(id),
        ensures
            r.wf(),
            r.is_sized(),
            r.state() == old(self).state().endpoints[id].state,
            final(r).wf() && final(r).is_sized() ==> final(self).parts_wf(),
            final(self).state().wf(),
            final(self).state() == old(self).state().with_slot(
                id,
                old(self).state().endpoints[id].started,
                final(r).state(),
            ),
            B::pop_ready(final(r).state()) == B::pop_ready(r.state()) ==> is_in_place::<B>(final(self).state()),
    {
        let ghost before = *self;
        let r = &mut self.entries.get_mut(id).buffer;
        proof {
            before.lemma_buffer_changed(id, *final(r));
        }
        r
    }

    /// Tells whether everything of an endpoint has been fetched.
    pub fn is_empty(&self, id: u64) -> (r: bool)
        requires
            self.wf(),
            self.state().endpoints.contains_key(id),
        ensures
            r == (B::pop_ready(self.state().endpoints[id].state) == Set::<Priority>::empty()),
    {
        self.buffer(id).is_empty()
    }

    /// Lets the task wait until everything of an endpoint has been fetched.
    pub fn poll_is_empty(&mut self, id: u64, waker: &Waker) -> (r: Poll<()>)
        requires
            old(self).wf(),
            old(self).state().endpoints.contains_key(id),
        ensures
            final(self).wf(),
            ({
                let slot = old(self).state().endpoints[id];
                &&& r is Ready <==> B::pop_ready(slot.state) == Set::<Priority>::empty()
                &&& final(self).state() == (if r is Ready {
                    old(self).state()
                } else {
                    old(self).state().with_slot(id, slot.started, B::after_wait_empty(slot.state))
                })
            }),
    {
        let ghost before = self.state();
        proof {
            B::lemma_still_ready(before.endpoints[id].state, Seq::empty(), Set::empty());
        }
        let r = self.buffer_mut(id).poll_is_empty(waker);
        proof {
            let slot = before.endpoints[id];
            assert(before.with_slot(id, slot.started, slot.state) =~= before);
        }
        r
    }

    /// Returns the priorities of which a transfer can be pushed.
    pub fn push_readiness(&self, id: u64) -> (r: PrioritySet)
        requires
            self.wf(),
            self.state().endpoints.contains_key(id),
        ensures
            r@ == B::push_ready(self.state().endpoints[id].state),
    {
        self.buffer(id).push_readiness()
    }

    /// Lets the task wait until a transfer of one of the priorities can be pushed.
    pub fn poll_push_readiness(&mut self, id: u64, waker: &Waker, priority_mask: PrioritySet) -> (r: Poll<PrioritySet>)
        requires
            old(self).wf(),
            old(self).state().endpoints.contains_key(id),
        ensures
            final(self).wf(),
            ({
                let slot = old(self).state().endpoints[id];
                let ready = B::push_ready(slot.state).intersect(priority_mask@);
                match r {
                    Poll::Ready(set) => {
                        &&& set@ == ready
                        &&& ready != Set::<Priority>::empty()
                        &&& final(self).state() == old(self).state()
                    },
                    Poll::Pending => {
                        &&& ready == Set::<Priority>::empty()
                        &&& final(self).state() == old(self).state().with_slot(
                            id,
                            slot.started,
                            B::after_wait_push(slot.state, priority_mask@),
                        )
                    },
                }
            }),
    {
        let ghost before = self.state();
        proof {
            B::lemma_still_ready(before.endpoints[id].state, Seq::empty(), priority_mask@);
        }
        let r = self.buffer_mut(id).poll_push_readiness(waker, priority_mask);
        proof {
            let slot = before.endpoints[id];
            assert(before.with_slot(id, slot.started, slot.state) =~= before);
        }
        r
    }

    /// Returns the buffer for the payload of the next transfer, and the priorities of which it
    /// can be pushed.
    pub fn get_scratchpad(&mut self, id: u64) -> (r: Option<(PrioritySet, &mut [u8])>)
        requires
            old(self).wf(),
            old(self).state().endpoints.contains_key(id),
        ensures
            ({
                let slot = old(self).state().endpoints[id];
                match r {
                    Some((priorities, buffer)) => {
                        &&& B::push_ready(slot.state) != Set::<Priority>::empty()
                        &&& priorities@ == B::push_ready(slot.state)
                        &&& buffer@.len() == B::capacity(slot.state)
                        &&& final(self).state() == old(self).state().with_slot(
                            id,
                            slot.started,
                            B::after_write(slot.state, final(buffer)@),
                        )
                        &&& final(buffer)@.len() == buffer@.len() ==> final(self).wf()
                    },
                    None => {
                        &&& B::push_ready(slot.state) == Set::<Priority>::empty()
                        &&& final(self).state() == old(self).state()
                        &&& final(self).wf()
                    },
                }
            }),
    {
        let ghost before = self.state();
        let ghost slot = before.endpoints[id];
        proof {
            assert(before.with_slot(id, slot.started, slot.state) =~= before);
            assert forall|bytes: Seq<u8>| B::pop_ready(#[trigger] B::after_write(slot.state, bytes)) == B::pop_ready(
                slot.state,
            ) by {
                B::lemma_still_ready(slot.state, bytes, Set::empty());
            }
        }
        self.buffer_mut(id).get_scratchpad()
    }

    /// Takes the first `length` bytes of the provided buffer for transmission.
    pub fn try_push(&mut self, id: u64, meta: TransferMeta, length: usize, crc: TransferCrc) -> (r: Result<
        (),
        BufferError,
    >)
        requires
            old(self).wf(),
            old(self).state().endpoints.contains_key(id),
            B::scratchpad(old(self).state().endpoints[id].state) matches Some(bytes) ==> length <= bytes.len(),
            length + 2 <= usize::MAX,
        ensures
            final(self).wf(),
            match B::refusal(old(self).state().endpoints[id].state, meta) {
                Some(error) => r == Err::<(), BufferError>(error) && final(self).state() == old(self).state(),
                None => r is Ok && final(self).state() == changed::<B>(
                    old(self).state(),
                    id,
                    B::after_push(old(self).state().endpoints[id].state, meta, length as int, crc@),
                ),
            },
    {
        let ghost before = self.state();
        let ghost slot = before.endpoints[id];
        let r = self.buffer_mut(id).try_push(meta, length, crc);
        proof {
            assert(before.with_slot(id, slot.started, slot.state) =~= before);
        }
        if r.is_ok() {
            proof {
                lemma_placed::<B>(self.state(), id);
            }
            self.reg_update_queue_position(id);
        }
        r
    }

    /// Returns the queue that is served.
    fn first_queue_id(started: PrioritySet, finished: PrioritySet) -> (r: Option<QueueId>)
        ensures
            match r {
                Some(id) => {
                    &&& PrioritySet::is_first(started@.union(finished@), Some(id.priority))
                    &&& id.queue_type is Started <==> started@.contains(id.priority)
                },
                None => started@.union(finished@) == Set::<Priority>::empty(),
            },
    {
        match started.unite(finished).first() {
            Some(priority) => {
                let queue_type = if started.contains(priority) {
                    QueueType::Started
                } else {
                    QueueType::Finished
                };
                Some(QueueId { priority, queue_type })
            },
            None => None,
        }
    }

    /// Returns the queue that is served when the priorities are asked for.
    fn served_queue(&self, priority_mask: PrioritySet) -> (r: Option<QueueId>)
        requires
            self.wf(),
        ensures
            self.state().served(priority_mask@) == mark_lane(r),
    {
        let started = self.queues.started_priorities().intersect(priority_mask);
        let finished = self.queues.finished_priorities().intersect(priority_mask);
        let r = Self::first_queue_id(started, finished);
        proof {
            let state = self.state();
            assert forall|l: int| 0 <= l < LANE_COUNT && #[trigger] state.is_open(priority_mask@, l) implies started@.union(
                finished@,
            ).contains(lane_priority(l)) && (l % 2 == 0 ==> started@.contains(lane_priority(l))) by {
                let p = lane_priority(l);
                lemma_code_bijective(p, p);
                assert(l == lane_of(p, l % 2 == 0));
                assert(self.queues@[lane_of(p, l % 2 == 0)].len() > 0);
            }
            if let Some(id) = r {
                let l = id.lane();
                id.lemma_lane_unique(id);
                assert(started@.union(finished@).contains(id.priority));
                assert(state.is_open(priority_mask@, l));
                assert forall|k: int| 0 <= k < l implies !#[trigger] state.is_open(priority_mask@, k) by {
                    if state.is_open(priority_mask@, k) {
                        let p = lane_priority(k);
                        lemma_code_bijective(p, id.priority);
                        assert(id.priority.code() <= p.code());
                        assert(p.code() == k / 2);
                        assert(k / 2 == l / 2);
                        assert(k % 2 == 0);
                    }
                }
                state.lemma_served(priority_mask@, l);
            } else {
                state.lemma_first_from(priority_mask@, 0);
            }
        }
        r
    }

    /// Returns the priority of the next frame when the priorities of the mask are asked for.
    pub fn next_priority(&self, priority_mask: PrioritySet) -> (r: Option<Priority>)
        requires
            self.wf(),
        ensures
            r == self.state().served_priority(priority_mask@),
    {
        match self.served_queue(priority_mask) {
            Some(queue) => {
                proof {
                    queue.lemma_lane_unique(queue);
                }
                Some(queue.priority)
            },
            None => None,
        }
    }

    /// Fetches the next frame of the most urgent priority of the mask.
    pub fn hub_try_pop(&mut self, priority_mask: PrioritySet, mtu: Mtu) -> (r: Option<Frame>)
        requires
            old(self).wf(),
        ensures
            final(self).wf(),
            is_popped::<B>(old(self).state(), priority_mask@, mtu, r, final(self).state()),
    {
        let ghost before = *self;
        let queue = match self.served_queue(priority_mask) {
            Some(queue) => queue,
            None => {
                return None;
            },
        };
        let ghost l = queue.lane();
        proof {
            queue.lemma_lane_unique(queue);
            self.state().lemma_first_from(priority_mask@, 0);
        }
        let id: u64 = match self.queues.get_front(queue) {
            Some(id) => id,
            None => {
                return None;
            },
        };
        let priority = queue.priority;
        proof {
            let state = before.state();
            assert(state.lanes[l].contains(id));
            assert(state.is_in(id, l));
            lemma_due_lane::<B>(state.endpoints[id]);
            assert(B::pop_ready(state.endpoints[id].state).intersect(Set::empty().insert(priority)).contains(priority));
        }
        let res = self.buffer_mut(id).try_pop(PrioritySet::new_eq(priority), mtu);
        let ghost middle = *self;
        let ghost buffer = self.state().endpoints[id].state;
        proof {
            before.state().lemma_with_slot(id, before.state().endpoints[id].started, buffer);
        }
        if let Some(frame) = &res {
            let eot: bool = match is_eot_frame(frame) {
                Some(eot) => eot,
                None => false,
            };
            let mut started: PrioritySet = self.entries.get(id).started;
            if eot {
                started.remove(priority);
            } else {
                started.insert(priority);
            }
            self.entries.get_mut(id).started = started;
            proof {
                middle.lemma_entry_changed(*self, id, Entry { started, ..middle.entries@[id] });
                assert(self.state() =~= before.state().with_slot(id, started@, buffer));
                before.state().lemma_with_slot(id, started@, buffer);
            }
            if eot {
                proof {
                    self.state().lemma_moved(id, None);
                }
                self.dequeue(id);
            }
            proof {
                lemma_placed::<B>(self.state(), id);
            }
        }
        self.reg_update_queue_position(id);
        res
    }

    /// Fetches the next frame of the most urgent priority of the mask, or lets the task wait for
    /// one.
    pub fn hub_poll_pop(&mut self, waker: &Waker, priority_mask: PrioritySet, mtu: Mtu) -> (r: Poll<Frame>)
        requires
            old(self).wf(),
        ensures
            final(self).wf(),
            r is Ready <==> old(self).state().served(priority_mask@) is Some,
            match r {
                Poll::Ready(frame) => is_popped::<B>(
                    old(self).state(),
                    priority_mask@,
                    mtu,
                    Some(frame),
                    final(self).state(),
                ),
                Poll::Pending => final(self).state() == (TxQueueState {
                    waiting: Waiting::registered(priority_mask@),
                    ..old(self).state()
                }),
            },
    {
        match self.hub_try_pop(priority_mask, mtu) {
            Some(frame) => Poll::Ready(frame),
            None => {
                let ghost before = self.state();
                self.non_empty_trigger.register(waker, priority_mask);
                proof {
                    let after = self.state();
                    before.lemma_first_from(priority_mask@, 0);
                    assert forall|l: int|
                        0 <= l < LANE_COUNT && after.waiting.filter.contains(lane_priority(l)) implies (
                    #[trigger] after.lanes[l]).len() == 0 by {
                        assert(!before.is_open(priority_mask@, l));
                    }
                    assert forall|l: int, x: u64| 0 <= l < LANE_COUNT implies (#[trigger] after.lanes[l].contains(x)
                        <==> after.is_in(x, l)) by {
                        assert(before.lanes[l].contains(x) <==> before.is_in(x, l));
                    }
                }
                Poll::Pending
            },
        }
    }
}

} // verus!
