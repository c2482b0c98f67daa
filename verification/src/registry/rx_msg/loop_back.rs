//! Endpoints that receive the messages of their own node.

use vstd::prelude::*;

use crate::buffer::DynamicRxBuffer;
use crate::frame::{Frame, Mtu};
use crate::ids::SubjectId;
use crate::registry::entry_tree::{
    has_id, has_ids_below, has_subject, has_unique_ids, is_same_but_state, is_sorted, lemma_position,
    lemma_sorted_changes, lemma_upper_bound, position, upper_bound, Entry, EntryTree, Slot, Slots,
};
use crate::registry::rx_msg::regular::handed_at;
use crate::registry::id_queue::place_before;
use crate::registry::rx_msg::regular_state::{lemma_slots_inserted, lemma_slots_removed};

verus! {

/// The endpoints that receive messages of their own node.
#[verifier::ext_equal]
pub struct LoopBackState<S> {
    /// The endpoints.
    pub entries: Slots<S>,
    /// The endpoint that gets the current frame next.
    pub next_push: Option<u64>,
}

impl<S> LoopBackState<S> {
    /// No endpoints.
    pub open spec fn fresh() -> LoopBackState<S> {
        LoopBackState { entries: Seq::empty(), next_push: None }
    }

    /// The state is valid. Identities are below `limit`.
    pub open spec fn wf(self, limit: u64) -> bool {
        &&& is_sorted(self.entries)
        &&& has_unique_ids(self.entries)
        &&& has_ids_below(self.entries, limit)
        &&& self.next_push matches Some(id) ==> has_id(self.entries, id)
    }

    /// An endpoint has been registered.
    pub open spec fn registered(self, id: u64, subject: SubjectId, state: S) -> LoopBackState<S> {
        let slot = Slot { id, subject, head: false, state };
        LoopBackState { entries: self.entries.insert(upper_bound(self.entries, slot.number()), slot), ..self }
    }

    /// The endpoint behind a position gets the same frames.
    pub open spec fn is_followed(self, i: int) -> bool {
        i + 1 < self.entries.len() && self.entries[i + 1].number() == self.entries[i].number()
    }

    /// An endpoint has been unregistered. The current frame goes on behind it.
    pub open spec fn unregistered(self, id: u64) -> LoopBackState<S> {
        let i = position(self.entries, id);
        LoopBackState {
            entries: self.entries.remove(i),
            next_push: if self.next_push != Some(id) {
                self.next_push
            } else if self.is_followed(i) {
                Some(self.entries[i + 1].id)
            } else {
                None
            },
        }
    }

    /// The endpoint with an identity.
    pub open spec fn slot(self, id: u64) -> Slot<S> {
        self.entries[position(self.entries, id)]
    }

    /// What the buffer of an endpoint holds has changed.
    pub open spec fn with_state(self, id: u64, state: S) -> LoopBackState<S> {
        let i = position(self.entries, id);
        LoopBackState { entries: self.entries.update(i, Slot { state, ..self.entries[i] }), ..self }
    }

    /// Registration keeps the state valid.
    pub proof fn lemma_registered(self, limit: u64, subject: SubjectId, state: S)
        requires
            self.wf(limit),
            limit < u64::MAX,
        ensures
            self.registered(limit, subject, state).wf((limit + 1) as u64),
    {
        let slot = Slot { id: limit, subject, head: false, state };
        let b = upper_bound(self.entries, slot.number());
        lemma_upper_bound(self.entries, slot.number());
        lemma_sorted_changes(self.entries, slot, 0);
        lemma_slots_inserted(self.entries, b, slot);
        let after = self.registered(limit, subject, state);
        assert forall|i: int| 0 <= i < after.entries.len() implies (#[trigger] after.entries[i]).id < limit + 1 by {
            if i < b {
                assert(after.entries[i] == self.entries[i]);
            } else if i > b {
                assert(after.entries[i] == self.entries[i - 1]);
            }
        }
    }

    /// Unregistration keeps the state valid.
    pub proof fn lemma_unregistered(self, limit: u64, id: u64)
        requires
            self.wf(limit),
            has_id(self.entries, id),
        ensures
            self.unregistered(id).wf(limit),
    {
        let i = position(self.entries, id);
        assert(0 <= i < self.entries.len() && self.entries[i].id == id);
        let rest = self.entries.remove(i);
        lemma_slots_removed(self.entries, i);
        lemma_sorted_changes(self.entries, self.entries[i], i);
        assert forall|k: int| 0 <= k < rest.len() implies (#[trigger] rest[k]).id < limit by {
            assert(rest[k] == self.entries[place_before(i, k)]);
        }
        if self.is_followed(i) {
            assert(rest[i] == self.entries[i + 1]);
            assert(has_id(rest, rest[i].id));
        }
    }

    /// What the buffer of an endpoint holds does not matter for the rest, and only what it holds in
    /// the end counts.
    pub proof fn lemma_with_state(self, limit: u64, id: u64, state: S, next: S)
        requires
            self.wf(limit),
            has_id(self.entries, id),
        ensures
            self.with_state(id, state).wf(limit),
            self.with_state(id, state).slot(id).state == state,
            self.with_state(id, self.slot(id).state) == self,
            self.with_state(id, state).with_state(id, next) == self.with_state(id, next),
    {
        let i = position(self.entries, id);
        assert(0 <= i < self.entries.len() && self.entries[i].id == id);
        let after = self.with_state(id, state);
        self.lemma_states_changed(limit, after);
        assert(after.entries[i].id == id);
        lemma_position(after.entries, i);
        assert(self.with_state(id, self.slot(id).state).entries =~= self.entries);
        assert(after.with_state(id, next).entries =~= self.with_state(id, next).entries);
    }

    /// What the buffers hold does not matter for the rest.
    pub proof fn lemma_states_changed(self, limit: u64, after: LoopBackState<S>)
        requires
            self.wf(limit),
            is_same_but_state(self.entries, after.entries),
            after.next_push matches Some(id) ==> has_id(self.entries, id),
        ensures
            after.wf(limit),
    {
        assert forall|x: u64| has_id(self.entries, x) implies #[trigger] has_id(after.entries, x) by {
            let k = choose|k: int| 0 <= k < self.entries.len() && (#[trigger] self.entries[k]).id == x;
            assert(after.entries[k].id == x);
        }
        assert forall|x: int, y: int| 0 <= x <= y < after.entries.len() implies (#[trigger] after.entries[x]).number()
            <= (#[trigger] after.entries[y]).number() by {
            assert(self.entries[x].number() <= self.entries[y].number());
        }
        assert forall|x: int, y: int|
            0 <= x < after.entries.len() && 0 <= y < after.entries.len() && (#[trigger] after.entries[x]).id == (
            #[trigger] after.entries[y]).id implies x == y by {
            assert(self.entries[x].id == self.entries[y].id);
        }
    }
}

/// Endpoints that receive the messages of their own node.
pub struct LoopBackInner<B> {
    entry_tree: EntryTree<B>,
    next_push: Option<u64>,
}

impl<B: DynamicRxBuffer> LoopBackInner<B> {
    /// What the endpoints are.
    pub closed spec fn state(&self) -> LoopBackState<B::State> {
        LoopBackState { entries: self.entry_tree@, next_push: self.next_push }
    }

    /// The state is valid. Identities are below `limit`.
    pub closed spec fn wf(&self, limit: u64) -> bool {
        &&& self.entry_tree.wf()
        &&& self.state().wf(limit)
    }

    /// A valid state is valid.
    pub proof fn lemma_wf(&self, limit: u64)
        requires
            self.wf(limit),
        ensures
            self.state().wf(limit),
    {
    }

    /// No endpoints.
    pub(crate) fn new() -> (r: Self)
        ensures
            r.wf(0),
            r.state() == LoopBackState::<B::State>::fresh(),
    {
        let r = LoopBackInner { entry_tree: EntryTree::new(), next_push: None };
        assert(r.state() =~= LoopBackState::<B::State>::fresh());
        r
    }

    /// Registers an endpoint.
    pub(crate) fn reg_register(&mut self, id: u64, subject: SubjectId, buffer: B)
        requires
            old(self).wf(id),
            id < u64::MAX,
            buffer.wf(),
        ensures
            final(self).wf((id + 1) as u64),
            final(self).state() == old(self).state().registered(id, subject, buffer.state()),
    {
        let ghost before = self.state();
        proof {
            before.lemma_registered(id, subject, buffer.state());
        }
        self.entry_tree.insert(Entry::new(id, subject, false, buffer));
    }

    /// Unregisters an endpoint.
    pub(crate) fn reg_unregister(&mut self, id: u64, Ghost(limit): Ghost<u64>)
        requires
            old(self).wf(limit),
            has_id(old(self).state().entries, id),
        ensures
            final(self).wf(limit),
            final(self).state() == old(self).state().unregistered(id),
    {
        let ghost before = self.state();
        proof {
            before.lemma_unregistered(limit, id);
        }
        if let Some(i) = self.entry_tree.find(id) {
            proof {
                lemma_position(before.entries, i as int);
            }
            let subject: u16 = self.entry_tree.subject_at(i).into_u16();
            self.entry_tree.remove(i);
            if let Some(next) = self.next_push {
                if next == id {
                    self.next_push = None;
                    if i < self.entry_tree.len() {
                        if self.entry_tree.subject_at(i).into_u16() == subject {
                            self.next_push = Some(self.entry_tree.id_at(i));
                        }
                    }
                }
            }
            assert(self.state() =~= before.unregistered(id));
        }
    }

    /// Returns the buffer of an endpoint.
    pub(crate) fn buffer(&self, id: u64, Ghost(limit): Ghost<u64>) -> (r: &B)
        requires
            self.wf(limit),
            has_id(self.state().entries, id),
        ensures
            r.wf(),
            r.state() == self.state().slot(id).state,
    {
        let i: usize = match self.entry_tree.find(id) {
            Some(i) => i,
            None => 0,
        };
        proof {
            lemma_position(self.state().entries, i as int);
        }
        self.entry_tree.buffer_at(i)
    }

    /// Returns the buffer of an endpoint for modification.
    pub(crate) fn buffer_mut(&mut self, id: u64, Ghost(limit): Ghost<u64>) -> (r: &mut B)
        requires
            old(self).wf(limit),
            has_id(old(self).state().entries, id),
        ensures
            r.wf(),
            r.state() == old(self).state().slot(id).state,
            final(r).wf() ==> final(self).wf(limit),
            final(self).state() == old(self).state().with_state(id, final(r).state()),
            final(self).state().slot(id).state == final(r).state(),
    {
        let ghost before = self.state();
        let i: usize = match self.entry_tree.find(id) {
            Some(i) => i,
            None => 0,
        };
        proof {
            lemma_position(before.entries, i as int);
        }
        let r = self.entry_tree.buffer_mut_at(i);
        proof {
            before.lemma_with_state(limit, id, final(r).state(), final(r).state());
        }
        r
    }

    /// Further identities are allowed.
    pub proof fn lemma_larger_limit(&self, limit: u64, larger: u64)
        requires
            self.wf(limit),
            limit <= larger,
        ensures
            self.wf(larger),
    {
    }

    /// Starts to hand out a frame, and tells whether there is an endpoint for it.
    pub(crate) fn hub_push_start(&mut self, subject: SubjectId, Ghost(limit): Ghost<u64>) -> (r: bool)
        requires
            old(self).wf(limit),
        ensures
            final(self).wf(limit),
            r == has_subject(old(self).state().entries, subject.value() as int),
            final(self).state().entries == old(self).state().entries,
            match final(self).state().next_push {
                Some(id) => {
                    let i = position(final(self).state().entries, id);
                    &&& r
                    &&& 0 <= i < final(self).state().entries.len()
                    &&& final(self).state().entries[i].number() == subject.value()
                    &&& forall|k: int|
                        0 <= k < i ==> (#[trigger] final(self).state().entries[k]).number() != subject.value()
                },
                None => !r,
            },
    {
        let ghost before = self.state();
        self.next_push = None;
        match self.entry_tree.find_subject(subject) {
            Some(i) => {
                self.next_push = Some(self.entry_tree.id_at(i));
                proof {
                    lemma_position(before.entries, i as int);
                }
                true
            },
            None => false,
        }
    }

    /// Hands the frame to the next endpoint, and tells whether there is a further one.
    pub(crate) fn hub_push_next(&mut self, frame: &Frame, mtu: Mtu, Ghost(limit): Ghost<u64>) -> (r: bool)
        requires
            old(self).wf(limit),
        ensures
            final(self).wf(limit),
            match old(self).state().next_push {
                Some(id) => {
                    let entries = old(self).state().entries;
                    let i = position(entries, id);
                    &&& r == old(self).state().is_followed(i)
                    &&& final(self).state() == (LoopBackState {
                        entries: handed_at::<B>(entries, i, *frame),
                        next_push: if r {
                            Some(entries[i + 1].id)
                        } else {
                            None
                        },
                    })
                },
                None => !r && final(self).state() == old(self).state(),
            },
    {
        let ghost before = self.state();
        match self.next_push {
            Some(id) => match self.entry_tree.find(id) {
                Some(i) => {
                    proof {
                        lemma_position(before.entries, i as int);
                    }
                    let subject: u16 = self.entry_tree.subject_at(i).into_u16();
                    self.entry_tree.push_frame_at(i, frame, mtu);
                    self.next_push = None;
                    if i < self.entry_tree.len() - 1 {
                        if self.entry_tree.subject_at(i + 1).into_u16() == subject {
                            self.next_push = Some(self.entry_tree.id_at(i + 1));
                            proof {
                                lemma_position(before.entries, i + 1);
                            }
                        }
                    }
                    proof {
                        before.lemma_states_changed(limit, self.state());
                    }
                    self.next_push.is_some()
                },
                None => false,
            },
            None => false,
        }
    }
}

} // verus!
