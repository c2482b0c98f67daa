//! A waker that waits for some priorities.

use core::task::Waker;
use embassy_sync::waitqueue::WakerRegistration;
use vstd::prelude::*;

use crate::priority::{Priority, PrioritySet};
use crate::task::{is_waiting, new_registration, register_waker, wake_registered};

verus! {

/// Whether a task waits, and for which priorities.
pub struct Waiting {
    /// A task waits.
    pub armed: bool,
    /// The priorities that the last task waited for.
    pub filter: Set<Priority>,
}

impl Waiting {
    /// No task waits.
    pub open spec fn idle() -> Waiting {
        Waiting { armed: false, filter: Set::empty() }
    }

    /// A task starts to wait for one of the priorities.
    pub open spec fn registered(filter: Set<Priority>) -> Waiting {
        Waiting { armed: true, filter }
    }

    /// Something happened to the given priorities.
    pub open spec fn woken(self, priorities: Set<Priority>) -> Waiting {
        if priorities.intersect(self.filter) == Set::<Priority>::empty() {
            self
        } else {
            Waiting { armed: false, ..self }
        }
    }
}

/// Wakes a task when something happens to one of the priorities that it waits for.
pub struct PriorityTrigger {
    waker: WakerRegistration,
    filter: PrioritySet,
}

impl View for PriorityTrigger {
    type V = Waiting;

    closed spec fn view(&self) -> Waiting {
        Waiting { armed: is_waiting(self.waker), filter: self.filter@ }
    }
}

impl PriorityTrigger {
    /// No task waits.
    pub fn new() -> (r: Self)
        ensures
            r@ == Waiting::idle(),
    {
        Self { waker: new_registration(), filter: PrioritySet::none() }
    }

    /// A task waits for one of the priorities.
    pub fn register(&mut self, w: &Waker, filter: PrioritySet)
        ensures
            final(self)@ == Waiting::registered(filter@),
    {
        register_waker(&mut self.waker, w);
        self.filter = filter;
    }

    /// Wakes the task if it waits for one of the priorities.
    pub fn wake(&mut self, priorities: PrioritySet)
        ensures
            final(self)@ == old(self)@.woken(priorities@),
    {
        if !priorities.intersect(self.filter).is_empty() {
            wake_registered(&mut self.waker);
        }
    }
}

impl Default for PriorityTrigger {
    fn default() -> (r: Self)
        ensures
            r@ == Waiting::idle(),
    {
        PriorityTrigger::new()
    }
}

/// A task that waits for a priority is woken when something happens to it, and is not woken by
/// anything else.
pub proof fn law_trigger(filter: Set<Priority>, priorities: Set<Priority>, p: Priority)
    ensures
        filter.contains(p) && priorities.contains(p) ==> !Waiting::registered(filter).woken(
            priorities,
        ).armed,
        filter.disjoint(priorities) ==> Waiting::registered(filter).woken(priorities).armed,
{
    if filter.contains(p) && priorities.contains(p) {
        assert(priorities.intersect(filter).contains(p));
    }
    if filter.disjoint(priorities) {
        assert(priorities.intersect(filter) =~= Set::<Priority>::empty());
    }
}

/// A task that waits is woken by exactly the priorities that it waits for, and stays woken. Until then
/// nothing that happens to other priorities changes what it waits for.
pub proof fn law_waiting_ends(waiting: Waiting, priorities: Set<Priority>, p: Priority)
    requires
        priorities.contains(p),
    ensures
        waiting.filter.contains(p) ==> !waiting.woken(priorities).armed,
        (forall|q: Priority| #[trigger] priorities.contains(q) ==> !waiting.filter.contains(q)) ==> waiting.woken(
            priorities,
        ) == waiting,
        waiting.woken(priorities).filter == waiting.filter,
        !waiting.armed ==> !waiting.woken(priorities).armed,
        Waiting::registered(priorities).armed,
        Waiting::registered(priorities).filter == priorities,
        !Waiting::idle().armed,
{
    let both = priorities.intersect(waiting.filter);
    if waiting.filter.contains(p) {
        assert(both.contains(p));
    }
    if forall|q: Priority| #[trigger] priorities.contains(q) ==> !waiting.filter.contains(q) {
        assert(both =~= Set::<Priority>::empty());
    }
}

} // verus!
