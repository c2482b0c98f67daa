//! What a driver and the stack tell each other.

use core::task::Waker;
use vstd::prelude::*;

use crate::frame::{Frame, Mtu};
use crate::ids::{NodeId, SubjectId};
use crate::priority::PrioritySet;
use crate::task::Poll;

verus! {

/// A change of the frames that a driver has to receive.
///
/// A range may cover all identifiers: a driver should process it in time proportional to the
/// entries that are removed or left, not to the size of the range.
#[derive(Debug, Clone, Copy, PartialEq, Eq)]
pub enum FilterUpdate {
    /// Messages of the subject are received from now on.
    AddSubject(SubjectId),
    /// Messages of the subjects from the first to the second are not received any more.
    RemoveSubjectRange([SubjectId; 2]),
    /// Service transfers to the node are received from now on.
    AddDestination(NodeId),
    /// Service transfers to the nodes from the first to the second are not received any more.
    RemoveDestinationRange([NodeId; 2]),
}

/// What a driver receives.
#[verifier::ext_equal]
pub struct Filter {
    /// The numbers of the subjects.
    pub subjects: Set<int>,
    /// The numbers of the destinations.
    pub destinations: Set<int>,
}

impl Filter {
    /// Nothing is received.
    pub open spec fn nothing() -> Filter {
        Filter { subjects: Set::empty(), destinations: Set::empty() }
    }

    /// What is received after an update.
    pub open spec fn updated(self, update: FilterUpdate) -> Filter {
        match update {
            FilterUpdate::AddSubject(id) => Filter {
                subjects: self.subjects.insert(id.value() as int),
                ..self
            },
            FilterUpdate::RemoveSubjectRange(range) => Filter {
                subjects: self.subjects.filter(|s: int| s < range@[0].value() || range@[1].value() < s),
                ..self
            },
            FilterUpdate::AddDestination(id) => Filter {
                destinations: self.destinations.insert(id.value() as int),
                ..self
            },
            FilterUpdate::RemoveDestinationRange(range) => Filter {
                destinations: self.destinations.filter(
                    |n: int| n < range@[0].value() || range@[1].value() < n,
                ),
                ..self
            },
        }
    }
}

/// A source of updates of the receive filter.
pub trait DynamicRxFilter: Sized {
    /// The state is valid.
    spec fn wf(&self) -> bool;

    /// An update was asked for with this outcome.
    spec fn is_filter_polled(&self, r: Poll<FilterUpdate>, after: &Self) -> bool;

    /// Returns the next update, or lets the task wait for one.
    fn poll_pop_filter(&mut self, waker: &Waker) -> (r: Poll<FilterUpdate>)
        requires
            old(self).wf(),
        ensures
            final(self).wf(),
            old(self).is_filter_polled(r, final(self)),
    ;
}

/// A sink of received frames.
///
/// A message has no destination, a service frame has one. The timestamp of a frame is the time at
/// which it appeared on the bus. The transmission unit does not change.
pub trait DynamicRx: Sized {
    /// The state is valid.
    spec fn wf(&self) -> bool;

    /// A frame was handed over with this outcome.
    spec fn is_pushed(&self, frame: Frame, after: &Self) -> bool;

    /// Hands a received frame over, or lets the task wait for a short time.
    fn poll_push(&mut self, frame: &Frame, mtu: Mtu) -> (r: Poll<()>)
        requires
            old(self).wf(),
        ensures
            final(self).wf(),
            r is Ready ==> old(self).is_pushed(*frame, final(self)),
    ;
}

/// A source of frames to be sent.
///
/// A message has no destination, a service frame has one. The timestamp of a frame is its
/// deadline: a frame that was not sent until then should be dropped. The transmission unit does
/// not change.
pub trait DynamicTx: Sized {
    /// The state is valid.
    spec fn wf(&self) -> bool;

    /// A frame was asked for with this outcome.
    spec fn is_tx_polled(&self, priority_mask: PrioritySet, mtu: Mtu, r: Poll<Frame>, after: &Self) -> bool;

    /// Returns the frame of the most urgent priority of the mask, or lets the task wait for one.
    fn poll_pop(&mut self, waker: &Waker, priority_mask: PrioritySet, mtu: Mtu) -> (r: Poll<Frame>)
        requires
            old(self).wf(),
        ensures
            final(self).wf(),
            old(self).is_tx_polled(priority_mask, mtu, r, final(self)),
    ;
}

/// What a driver needs of a node.
pub trait DynamicLink: DynamicRxFilter + DynamicRx + DynamicTx {

}

/// What is received after an update: a subject or a destination that is added, and nothing of a range
/// that is removed. The rest stays as it was.
pub proof fn law_filter_update(filter: Filter, update: FilterUpdate, s: int)
    ensures
        match update {
            FilterUpdate::AddSubject(id) => {
                &&& filter.updated(update).subjects.contains(s) <==> filter.subjects.contains(s) || s == id.value()
                &&& filter.updated(update).destinations == filter.destinations
            },
            FilterUpdate::RemoveSubjectRange(range) => {
                &&& filter.updated(update).subjects.contains(s) <==> filter.subjects.contains(s) && !(
                range@[0].value() <= s <= range@[1].value())
                &&& filter.updated(update).destinations == filter.destinations
            },
            FilterUpdate::AddDestination(id) => {
                &&& filter.updated(update).destinations.contains(s) <==> filter.destinations.contains(s) || s
                    == id.value()
                &&& filter.updated(update).subjects == filter.subjects
            },
            FilterUpdate::RemoveDestinationRange(range) => {
                &&& filter.updated(update).destinations.contains(s) <==> filter.destinations.contains(s) && !(
                range@[0].value() <= s <= range@[1].value())
                &&& filter.updated(update).subjects == filter.subjects
            },
        },
{
}

} // verus!
