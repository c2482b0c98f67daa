//! Endpoints that receive messages of other nodes.

use core::task::Waker;
use embassy_sync::waitqueue::WakerRegistration;
use vstd::prelude::*;

use crate::buffer::DynamicRxBuffer;
use crate::frame::{Frame, Mtu};
use crate::ids::SubjectId;
use crate::link::FilterUpdate;
use crate::registry::entry_tree::{
    has_id, has_subject, lemma_position, lemma_upper_bound, position, Entry, EntryTree, Slot, Slots,
};
use crate::registry::id_queue::{contains_id, remove_id};
use crate::registry::rx_msg::regular_state::{Popped, RegularState, MAX_SUBJECT};
use crate::registry::RegistrationError;
use crate::task::{is_waiting, new_registration, register_waker, wake_registered, Poll};

verus! {

/// Returns the previous subject.
fn prev_subject(val: SubjectId) -> (r: Option<SubjectId>)
    ensures
        r == (if val.value() == 0 {
            None
        } else {
            Some(SubjectId::of((val.value() - 1) as u16))
        }),
{
    let code: u16 = val.into_u16();
    if code == 0 {
        None
    } else {
        SubjectId::new(code - 1)
    }
}

/// Returns the next subject.
fn next_subject(val: SubjectId) -> (r: Option<SubjectId>)
    ensures
        r == (if val.value() >= MAX_SUBJECT {
            None
        } else {
            Some(SubjectId::of((val.value() + 1) as u16))
        }),
{
    let code: u16 = val.into_u16();
    SubjectId::new(code + 1)
}

/// Endpoints that receive messages of other nodes, and the updates that the driver has to get.
pub struct RegularInner<B> {
    inactive_entry_tree: EntryTree<B>,
    active_entry_tree: EntryTree<B>,
    next_push: Option<u64>,
    clean_up_queue: Vec<u64>,
    clean_up_last: bool,
    activation_queue: Vec<u64>,
    subject_slot_count: usize,
    free_slot_count: usize,
    filter_update_waker: WakerRegistration,
}

/// The frame has been handed to the endpoint at a position.
pub open spec fn handed_at<B: DynamicRxBuffer>(slots: Slots<B::State>, i: int, frame: Frame) -> Slots<B::State> {
    slots.update(i, Slot { state: B::after_frame(slots[i].state, frame), ..slots[i] })
}

impl<B: DynamicRxBuffer> RegularInner<B> {
    /// What the endpoints are, and what the driver knows of them.
    pub closed spec fn state(&self) -> RegularState<B::State> {
        RegularState {
            active: self.active_entry_tree@,
            inactive: self.inactive_entry_tree@,
            next_push: self.next_push,
            clean_up: self.clean_up_queue@,
            clean_up_last: self.clean_up_last,
            activation: self.activation_queue@,
            slots: self.subject_slot_count as int,
            free: self.free_slot_count as int,
            waiting: is_waiting(self.filter_update_waker),
        }
    }

    /// The state is valid. Identities are below `limit`.
    pub closed spec fn wf(&self, limit: u64) -> bool {
        &&& self.active_entry_tree.wf()
        &&& self.inactive_entry_tree.wf()
        &&& self.state().wf(limit)
    }

    /// A valid state is valid.
    pub proof fn lemma_wf(&self, limit: u64)
        requires
            self.wf(limit),
        ensures
            self.state().wf(limit),
    {
    }

    /// No endpoints.
    pub(crate) fn new(subject_slot_count: usize) -> (r: Self)
        ensures
            r.wf(0),
            r.state() == RegularState::<B::State>::fresh(subject_slot_count as int),
    {
        let r = RegularInner {
            inactive_entry_tree: EntryTree::new(),
            active_entry_tree: EntryTree::new(),
            next_push: None,
            clean_up_queue: Vec::new(),
            clean_up_last: false,
            activation_queue: Vec::new(),
            subject_slot_count,
            free_slot_count: subject_slot_count,
            filter_update_waker: new_registration(),
        };
        proof {
            assert(r.state() =~= RegularState::<B::State>::fresh(subject_slot_count as int));
            assert(r.state().subjects() =~= Set::<int>::empty());
            assert forall|k: int| !#[trigger] r.state().is_marked(k) by {}
        }
        r
    }

    /// Registers an endpoint. A new subject needs a free slot, and the driver has to be told.
    pub(crate) fn reg_register(&mut self, id: u64, subject: SubjectId, buffer: B) -> (r: Result<(), RegistrationError>)
        requires
            old(self).wf(id),
            id < u64::MAX,
            buffer.wf(),
        ensures
            match old(self).state().registered(id, subject, buffer.state()) {
                Some(after) => r is Ok && final(self).wf((id + 1) as u64) && final(self).state() == after,
                None => r == Err::<(), RegistrationError>(RegistrationError::NoSubjectSlotLeft) && final(self).wf(id)
                    && final(self).state() == old(self).state(),
            },
    {
        let ghost before = self.state();
        let ghost number = subject.value() as int;
        let code: u16 = subject.into_u16();
        proof {
            before.lemma_registered_wf(id, subject, buffer.state());
            lemma_upper_bound(before.inactive, number);
            lemma_upper_bound(before.active, number);
        }
        let entry = Entry::new(id, subject, false, buffer);
        if self.inactive_entry_tree.find_subject(subject).is_some() {
            self.inactive_entry_tree.insert(entry);
            self.activation_queue.push(id);
            return Ok(());
        }
        if self.active_entry_tree.find_subject(subject).is_some() {
            self.active_entry_tree.insert(entry);
            return Ok(());
        }
        if self.free_slot_count == 0 {
            return Err(RegistrationError::NoSubjectSlotLeft);
        }
        self.free_slot_count = self.free_slot_count - 1;
        self.inactive_entry_tree.insert(entry);
        self.activation_queue.push(id);
        wake_registered(&mut self.filter_update_waker);
        Ok(())
    }

    /// Unregisters an endpoint. The last endpoint of a subject gives the slot back, and the
    /// driver has to be told.
    pub(crate) fn reg_unregister(&mut self, id: u64, Ghost(limit): Ghost<u64>)
        requires
            old(self).wf(limit),
            has_id(old(self).state().active, id) || has_id(old(self).state().inactive, id),
        ensures
            final(self).wf(limit),
            final(self).state() == old(self).state().unregistered(id),
    {
        let ghost before = self.state();
        proof {
            before.lemma_unregistered_wf(limit, id);
            before.lemma_taken_out(limit, id);
        }
        let subject: SubjectId;
        match self.active_entry_tree.find(id) {
            Some(i) => {
                proof {
                    lemma_position(before.active, i as int);
                }
                subject = self.active_entry_tree.subject_at(i);
                if self.active_entry_tree.is_head_at(i) {
                    self.reg_unregister_active_head(i, Ghost(limit));
                } else {
                    self.reg_unregister_active_tail(i, Ghost(limit));
                }
            },
            None => {
                match self.inactive_entry_tree.find(id) {
                    Some(i) => {
                        proof {
                            lemma_position(before.inactive, i as int);
                        }
                        subject = self.inactive_entry_tree.subject_at(i);
                        self.reg_unregister_inactive(i, Ghost(limit));
                    },
                    None => {
                        return;
                    },
                }
            },
        }
        assert(self.state() == before.taken_out(id));
        if self.active_entry_tree.find_subject(subject).is_none() && self.inactive_entry_tree.find_subject(
            subject,
        ).is_none() {
            self.free_slot_count = self.free_slot_count + 1;
        }
    }

    /// Takes out the first endpoint of an active subject.
    fn reg_unregister_active_head(&mut self, i: usize, Ghost(limit): Ghost<u64>)
        requires
            old(self).active_entry_tree.wf(),
            old(self).inactive_entry_tree.wf(),
            old(self).state().is_consistent(limit),
            i < old(self).state().active.len(),
            old(self).state().active[i as int].head,
        ensures
            final(self).active_entry_tree.wf(),
            final(self).inactive_entry_tree.wf(),
            final(self).state() == old(self).state().unregistered_head(i as int),
    {
        let ghost before = self.state();
        let id: u64 = self.active_entry_tree.id_at(i);
        self.active_entry_tree.remove(i);
        let clean_up_mark: bool = remove_id(&mut self.clean_up_queue, id);
        self.skip_push(i, id);
        if i < self.active_entry_tree.len() {
            let next_id: u64 = self.active_entry_tree.id_at(i);
            let next_was_head: bool = self.active_entry_tree.replace_head_at(i);
            if (clean_up_mark || next_was_head) && !contains_id(&self.clean_up_queue, next_id) {
                self.clean_up_queue.push(next_id);
                wake_registered(&mut self.filter_update_waker);
            }
        } else {
            self.clean_up_last = true;
            wake_registered(&mut self.filter_update_waker);
        }
        assert(self.state() =~= before.unregistered_head(i as int));
    }

    /// Lets the current frame go on behind an endpoint that was taken out.
    fn skip_push(&mut self, i: usize, id: u64)
        ensures
            final(self).active_entry_tree == old(self).active_entry_tree,
            final(self).inactive_entry_tree == old(self).inactive_entry_tree,
            final(self).state() == (RegularState {
                next_push: if old(self).state().next_push != Some(id) {
                    old(self).state().next_push
                } else if i < old(self).state().active.len() && !old(self).state().active[i as int].head {
                    Some(old(self).state().active[i as int].id)
                } else {
                    None
                },
                ..old(self).state()
            }),
    {
        if let Some(next) = self.next_push {
            if next == id {
                self.next_push = None;
                if i < self.active_entry_tree.len() {
                    if !self.active_entry_tree.is_head_at(i) {
                        self.next_push = Some(self.active_entry_tree.id_at(i));
                    }
                }
            }
        }
    }

    /// Takes out another endpoint of an active subject.
    fn reg_unregister_active_tail(&mut self, i: usize, Ghost(limit): Ghost<u64>)
        requires
            old(self).active_entry_tree.wf(),
            old(self).inactive_entry_tree.wf(),
            old(self).state().is_consistent(limit),
            i < old(self).state().active.len(),
        ensures
            final(self).active_entry_tree.wf(),
            final(self).inactive_entry_tree.wf(),
            final(self).state() == old(self).state().unregistered_tail(i as int),
    {
        let ghost before = self.state();
        let id: u64 = self.active_entry_tree.id_at(i);
        self.active_entry_tree.remove(i);
        self.skip_push(i, id);
        assert(self.state() =~= before.unregistered_tail(i as int));
    }

    /// Takes out an inactive endpoint.
    fn reg_unregister_inactive(&mut self, i: usize, Ghost(limit): Ghost<u64>)
        requires
            old(self).active_entry_tree.wf(),
            old(self).inactive_entry_tree.wf(),
            old(self).state().is_consistent(limit),
            i < old(self).state().inactive.len(),
        ensures
            final(self).active_entry_tree.wf(),
            final(self).inactive_entry_tree.wf(),
            final(self).state() == old(self).state().unregistered_inactive(old(self).state().inactive[i as int].id),
    {
        let ghost before = self.state();
        let id: u64 = self.inactive_entry_tree.id_at(i);
        proof {
            lemma_position(before.inactive, i as int);
        }
        self.inactive_entry_tree.remove(i);
        remove_id(&mut self.activation_queue, id);
        assert(self.state() =~= before.unregistered_inactive(id));
    }

    /// Returns the buffer of an endpoint.
    pub(crate) fn buffer(&self, id: u64, Ghost(limit): Ghost<u64>) -> (r: &B)
        requires
            self.wf(limit),
            has_id(self.state().active, id) || has_id(self.state().inactive, id),
        ensures
            r.wf(),
            r.state() == self.state().slot(id).state,
    {
        match self.active_entry_tree.find(id) {
            Some(i) => {
                proof {
                    lemma_position(self.state().active, i as int);
                }
                self.active_entry_tree.buffer_at(i)
            },
            None => {
                let i: usize = match self.inactive_entry_tree.find(id) {
                    Some(i) => i,
                    None => 0,
                };
                proof {
                    lemma_position(self.state().inactive, i as int);
                }
                self.inactive_entry_tree.buffer_at(i)
            },
        }
    }

    /// Returns the buffer of an endpoint for modification.
    pub(crate) fn buffer_mut(&mut self, id: u64, Ghost(limit): Ghost<u64>) -> (r: &mut B)
        requires
            old(self).wf(limit),
            has_id(old(self).state().active, id) || has_id(old(self).state().inactive, id),
        ensures
            r.wf(),
            r.state() == old(self).state().slot(id).state,
            final(r).wf() ==> final(self).wf(limit),
            final(self).state() == old(self).state().with_state(id, final(r).state()),
            final(self).state().slot(id).state == final(r).state(),
    {
        let ghost before = self.state();
        match self.active_entry_tree.find(id) {
            Some(i) => {
                proof {
                    lemma_position(before.active, i as int);
                }
                let r = self.active_entry_tree.buffer_mut_at(i);
                proof {
                    before.lemma_with_state(limit, id, final(r).state(), final(r).state());
                }
                r
            },
            None => {
                let i: usize = match self.inactive_entry_tree.find(id) {
                    Some(i) => i,
                    None => 0,
                };
                proof {
                    lemma_position(before.inactive, i as int);
                }
                let r = self.inactive_entry_tree.buffer_mut_at(i);
                proof {
                    before.lemma_with_state(limit, id, final(r).state(), final(r).state());
                }
                r
            },
        }
    }

    /// Further identities are allowed.
    pub proof fn lemma_larger_limit(&self, limit: u64, larger: u64)
        requires
            self.wf(limit),
            limit <= larger,
        ensures
            self.wf(larger),
    {
        self.state().lemma_larger_limit(limit, larger);
    }

    /// Starts to hand out a frame, and tells whether there is an endpoint for it.
    pub(crate) fn hub_push_start(&mut self, subject: SubjectId, Ghost(limit): Ghost<u64>) -> (r: bool)
        requires
            old(self).wf(limit),
        ensures
            final(self).wf(limit),
            r == has_subject(old(self).state().active, subject.value() as int),
            final(self).state() == (RegularState { next_push: final(self).state().next_push, ..old(self).state() }),
            match final(self).state().next_push {
                Some(id) => {
                    let i = position(final(self).state().active, id);
                    &&& r
                    &&& 0 <= i < final(self).state().active.len()
                    &&& final(self).state().active[i].number() == subject.value()
                    &&& forall|k: int|
                        0 <= k < i ==> (#[trigger] final(self).state().active[k]).number() != subject.value()
                },
                None => !r,
            },
    {
        let ghost before = self.state();
        self.next_push = None;
        match self.active_entry_tree.find_subject(subject) {
            Some(i) => {
                self.next_push = Some(self.active_entry_tree.id_at(i));
                proof {
                    lemma_position(before.active, i as int);
                    before.lemma_states_changed(limit, self.state());
                }
                true
            },
            None => {
                proof {
                    before.lemma_states_changed(limit, self.state());
                }
                false
            },
        }
    }

    /// Hands the frame to the next endpoint, and tells whether there is a further one.
    pub(crate) fn hub_push_next(&mut self, frame: &Frame, mtu: Mtu, Ghost(limit): Ghost<u64>) -> (r: bool)
        requires
            old(self).wf(limit),
        ensures
            final(self).wf(limit),
            match old(self).state().next_push {
                Some(id) => {
                    let active = old(self).state().active;
                    let i = position(active, id);
                    &&& r == (i + 1 < active.len() && !active[i + 1].head)
                    &&& final(self).state() == (RegularState {
                        active: handed_at::<B>(active, i, *frame),
                        next_push: if r {
                            Some(active[i + 1].id)
                        } else {
                            None
                        },
                        ..old(self).state()
                    })
                },
                None => !r && final(self).state() == old(self).state(),
            },
    {
        let ghost before = self.state();
        match self.next_push {
            Some(id) => match self.active_entry_tree.find(id) {
                Some(i) => {
                    proof {
                        lemma_position(before.active, i as int);
                    }
                    self.active_entry_tree.push_frame_at(i, frame, mtu);
                    self.next_push = None;
                    if i < self.active_entry_tree.len() - 1 {
                        if !self.active_entry_tree.is_head_at(i + 1) {
                            self.next_push = Some(self.active_entry_tree.id_at(i + 1));
                            proof {
                                lemma_position(before.active, i + 1);
                            }
                        }
                    }
                    proof {
                        before.lemma_states_changed(limit, self.state());
                    }
                    self.next_push.is_some()
                },
                None => false,
            },
            None => false,
        }
    }

    /// Returns the next update for the driver, or lets its task wait.
    pub(crate) fn hub_poll_pop_filter_update(&mut self, waker: &Waker, Ghost(limit): Ghost<u64>) -> (r: Poll<Popped>)
        requires
            old(self).wf(limit),
        ensures
            final(self).wf(limit),
            r is Ready <==> old(self).state().has_update(),
            match r {
                Poll::Ready(popped) => old(self).state().is_popped(popped, final(self).state()),
                Poll::Pending => final(self).state() == (RegularState { waiting: true, ..old(self).state() }),
            },
    {
        let ghost before = self.state();
        if let Some(popped) = self.hub_pop_clean_up_queue(Ghost(limit)) {
            proof {
                before.lemma_popped_wf(limit, popped, self.state());
            }
            return Poll::Ready(popped);
        }
        if let Some(popped) = self.hub_pop_clean_up_last(Ghost(limit)) {
            proof {
                before.lemma_popped_wf(limit, popped, self.state());
            }
            return Poll::Ready(popped);
        }
        if let Some(popped) = self.hub_pop_registration_queue(Ghost(limit)) {
            proof {
                before.lemma_popped_wf(limit, popped, self.state());
            }
            return Poll::Ready(popped);
        }
        register_waker(&mut self.filter_update_waker, waker);
        proof {
            let after = self.state();
            assert(after.subjects() =~= before.subjects());
            assert forall|k: int| !#[trigger] after.is_marked(k) by {}
        }
        Poll::Pending
    }

    /// Returns the first subject behind the endpoint before a position.
    fn first_clean_up(&self, i: usize) -> (r: SubjectId)
        requires
            i <= self.state().active.len(),
            i > 0 ==> self.state().active[i - 1].number() < MAX_SUBJECT,
        ensures
            r.value() == (if i == 0 {
                0
            } else {
                self.state().active[i - 1].number() + 1
            }),
    {
        broadcast use SubjectId::lemma_of;

        if i > 0 {
            match next_subject(self.active_entry_tree.subject_at(i - 1)) {
                Some(subject) => subject,
                None => SubjectId::max(),
            }
        } else {
            SubjectId::from_u16_truncating(0)
        }
    }

    /// Tells the driver to remove the subjects before an active one.
    fn hub_pop_clean_up_queue(&mut self, Ghost(limit): Ghost<u64>) -> (r: Option<Popped>)
        requires
            old(self).wf(limit),
        ensures
            final(self).active_entry_tree.wf(),
            final(self).inactive_entry_tree.wf(),
            match r {
                Some(popped) => {
                    &&& old(self).state().clean_up.len() > 0
                    &&& old(self).state().is_popped(popped, final(self).state())
                },
                None => old(self).state().clean_up.len() == 0 && *final(self) == *old(self),
            },
    {
        broadcast use SubjectId::lemma_of;

        let ghost before = self.state();
        if self.clean_up_queue.len() == 0 {
            return None;
        }
        let id: u64 = self.clean_up_queue.remove(0);
        proof {
            assert(before.clean_up[0] == id);
            assert(has_id(before.active, before.clean_up[0]));
            assert(self.clean_up_queue@ =~= before.clean_up.drop_first());
        }
        match self.active_entry_tree.find(id) {
            Some(i) => {
                proof {
                    lemma_position(before.active, i as int);
                    assert(before.clean_up.contains(id));
                    assert(before.is_marked(i as int));
                    assert(before.active[i as int].number() <= MAX_SUBJECT);
                }
                let subject = self.active_entry_tree.subject_at(i);
                let last_clean_up = match prev_subject(subject) {
                    Some(last) => last,
                    None => SubjectId::from_u16_truncating(0),
                };
                let first_clean_up = self.first_clean_up(i);
                Some(Popped::Update(FilterUpdate::RemoveSubjectRange([first_clean_up, last_clean_up])))
            },
            None => None,
        }
    }

    /// Tells the driver to remove the subjects behind the last active one.
    fn hub_pop_clean_up_last(&mut self, Ghost(limit): Ghost<u64>) -> (r: Option<Popped>)
        requires
            old(self).wf(limit),
            old(self).state().clean_up.len() == 0,
        ensures
            final(self).active_entry_tree.wf(),
            final(self).inactive_entry_tree.wf(),
            match r {
                Some(popped) => {
                    &&& old(self).state().clean_up_last
                    &&& old(self).state().is_popped(popped, final(self).state())
                },
                None => !old(self).state().clean_up_last && *final(self) == *old(self),
            },
    {
        broadcast use SubjectId::lemma_of;

        if !self.clean_up_last {
            return None;
        }
        self.clean_up_last = false;
        let first_clean_up = self.first_clean_up(self.active_entry_tree.len());
        Some(Popped::Update(FilterUpdate::RemoveSubjectRange([first_clean_up, SubjectId::max()])))
    }

    /// Makes the endpoint that waits longest active, and tells the driver if its subject is new.
    fn hub_pop_registration_queue(&mut self, Ghost(limit): Ghost<u64>) -> (r: Option<Popped>)
        requires
            old(self).wf(limit),
            old(self).state().clean_up.len() == 0,
            !old(self).state().clean_up_last,
        ensures
            final(self).active_entry_tree.wf(),
            final(self).inactive_entry_tree.wf(),
            match r {
                Some(popped) => {
                    &&& old(self).state().activation.len() > 0
                    &&& old(self).state().is_popped(popped, final(self).state())
                },
                None => old(self).state().activation.len() == 0 && *final(self) == *old(self),
            },
    {
        let ghost before = self.state();
        if self.activation_queue.len() == 0 {
            return None;
        }
        let id: u64 = self.activation_queue.remove(0);
        proof {
            assert(before.activation[0] == id);
            assert(has_id(before.inactive, before.activation[0]));
            assert(self.activation_queue@ =~= before.activation.drop_first());
        }
        match self.inactive_entry_tree.find(id) {
            Some(i) => {
                proof {
                    lemma_position(before.inactive, i as int);
                }
                let mut entry = self.inactive_entry_tree.remove(i);
                let subject = entry.subject();
                let active_subject: bool = self.active_entry_tree.find_subject(subject).is_some();
                entry.set_head(!active_subject);
                self.active_entry_tree.insert(entry);
                assert(self.state() =~= before.activated());
                if !active_subject {
                    Some(Popped::Update(FilterUpdate::AddSubject(subject)))
                } else {
                    Some(Popped::CallAgain)
                }
            },
            None => None,
        }
    }
}

} // verus!
