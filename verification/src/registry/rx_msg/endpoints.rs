//! Which endpoints are registered.

use vstd::prelude::*;

use crate::buffer::DynamicRxBuffer;
use crate::frame::Frame;
use crate::ids::SubjectId;
use crate::registry::entry_tree::{
    has_id, has_subject, is_same_but_state, lemma_position, lemma_upper_bound, position, upper_bound, Slot, Slots,
};
use crate::registry::rx_msg::regular_state::{lemma_slots_inserted, lemma_slots_removed, Popped, RegularState};
use crate::registry::rx_msg::{after_message, RegistryState, Token};

verus! {

impl<S> RegularState<S> {
    /// An endpoint with this identity is registered.
    pub open spec fn has_endpoint(self, id: u64) -> bool {
        has_id(self.active, id) || has_id(self.inactive, id)
    }

    /// No endpoint has an identity from the limit on.
    proof fn lemma_new_id(self, limit: u64)
        requires
            self.is_consistent(limit),
        ensures
            !self.has_endpoint(limit),
    {
    }

    /// A new endpoint is registered besides the other ones.
    proof fn lemma_registered_endpoints(self, limit: u64, subject: SubjectId, state: S)
        requires
            self.is_consistent(limit),
        ensures
            self.registered(limit, subject, state) matches Some(after) ==> {
                &&& forall|x: u64| #[trigger] after.has_endpoint(x) <==> self.has_endpoint(x) || x == limit
                &&& after.slot(limit).state == state
            },
    {
        if let Some(after) = self.registered(limit, subject, state) {
            let number = subject.value() as int;
            let slot = Slot { id: limit, subject, head: false, state };
            self.lemma_new_id(limit);
            lemma_upper_bound(self.active, number);
            lemma_upper_bound(self.inactive, number);
            if has_subject(self.active, number) && !has_subject(self.inactive, number) {
                let b = upper_bound(self.active, number);
                lemma_slots_inserted(self.active, b, slot);
                assert(after.active[b] == slot);
                lemma_position(after.active, b);
            } else {
                let b = upper_bound(self.inactive, number);
                lemma_slots_inserted(self.inactive, b, slot);
                assert(after.inactive[b] == slot);
                lemma_position(after.inactive, b);
            }
        }
    }

    /// Only the endpoint that leaves is not registered any more.
    proof fn lemma_unregistered_endpoints(self, limit: u64, id: u64)
        requires
            self.is_consistent(limit),
            self.has_endpoint(id),
        ensures
            forall|x: u64| #[trigger]
                self.unregistered(id).has_endpoint(x) <==> self.has_endpoint(x) && x != id,
    {
        let after = self.taken_out(id);
        if has_id(self.active, id) {
            let i = position(self.active, id);
            assert(0 <= i < self.active.len() && self.active[i].id == id);
            self.lemma_active_without(limit, i);
            assert(after.active == self.active_without(i));
            assert(!has_id(self.inactive, id)) by {
                if has_id(self.inactive, id) {
                    let j = position(self.inactive, id);
                    assert(self.active[i].id != self.inactive[j].id);
                }
            }
        } else {
            let i = position(self.inactive, id);
            assert(0 <= i < self.inactive.len() && self.inactive[i].id == id);
            lemma_slots_removed(self.inactive, i);
        }
        assert forall|x: u64| #[trigger] self.unregistered(id).has_endpoint(x) <==> self.has_endpoint(x) && x != id by {
            assert(self.unregistered(id).has_endpoint(x) == after.has_endpoint(x));
        }
    }

    /// An endpoint that becomes active stays registered, and so do the other ones.
    proof fn lemma_activated_endpoints(self, limit: u64)
        requires
            self.is_consistent(limit),
            self.activation.len() > 0,
        ensures
            forall|x: u64| #[trigger] self.activated().has_endpoint(x) <==> self.has_endpoint(x),
    {
        let id = self.activation[0];
        assert(has_id(self.inactive, id));
        let i = position(self.inactive, id);
        assert(0 <= i < self.inactive.len() && self.inactive[i].id == id);
        let slot = self.first_inactive();
        let entry = Slot { head: !has_subject(self.active, slot.number()), ..slot };
        lemma_upper_bound(self.active, slot.number());
        lemma_slots_removed(self.inactive, i);
        assert(!has_id(self.active, id)) by {
            if has_id(self.active, id) {
                let k = position(self.active, id);
                assert(self.active[k].id != self.inactive[i].id);
            }
        }
        lemma_slots_inserted(self.active, upper_bound(self.active, slot.number()), entry);
    }

    /// Endpoints of which the driver need not know stay registered when they become active.
    proof fn lemma_settled_endpoints(self, limit: u64)
        requires
            self.wf(limit),
        ensures
            self.settled().wf(limit),
            forall|x: u64| #[trigger] self.settled().has_endpoint(x) <==> self.has_endpoint(x),
        decreases self.activation.len(),
    {
        if self.is_silent() {
            self.lemma_popped_wf(limit, Popped::CallAgain, self.activated());
            self.lemma_activated_endpoints(limit);
            self.activated().lemma_settled_endpoints(limit);
            assert forall|x: u64| #[trigger] self.settled().has_endpoint(x) <==> self.has_endpoint(x) by {
                assert(self.activated().has_endpoint(x) <==> self.has_endpoint(x));
                assert(self.activated().settled().has_endpoint(x) <==> self.activated().has_endpoint(x));
            }
        }
    }

    /// What the driver is told has no influence on the endpoints.
    proof fn lemma_popped_endpoints(self, limit: u64, popped: Popped, after: RegularState<S>)
        requires
            self.wf(limit),
            self.is_popped(popped, after),
        ensures
            forall|x: u64| #[trigger] after.has_endpoint(x) <==> self.has_endpoint(x),
    {
        if self.clean_up.len() == 0 && !self.clean_up_last {
            self.lemma_activated_endpoints(limit);
        }
    }
}

/// What the buffers hold has no influence on the identities.
pub proof fn lemma_same_ids<S>(a: Slots<S>, b: Slots<S>)
    requires
        is_same_but_state(a, b),
    ensures
        forall|x: u64| #[trigger] has_id(a, x) <==> has_id(b, x),
{
    assert forall|x: u64| #[trigger] has_id(a, x) <==> has_id(b, x) by {
        if has_id(a, x) {
            let i = position(a, x);
            assert(b[i].id == x);
        }
        if has_id(b, x) {
            let i = position(b, x);
            assert(a[i].id == x);
        }
    }
}

impl<S> RegistryState<S> {
    /// The identities of the registered endpoints, and whether each receives messages of its own
    /// node.
    pub open spec fn endpoints(self) -> Set<(u64, bool)> {
        Set::new(
            |e: (u64, bool)|
                if e.1 {
                    has_id(self.loop_back.entries, e.0)
                } else {
                    self.regular.has_endpoint(e.0)
                },
        )
    }

    /// The parts of the state are valid.
    pub open spec fn wf(self) -> bool {
        &&& self.regular.wf(self.next_id)
        &&& self.loop_back.wf(self.next_id)
    }
}

/// Registration adds one endpoint and keeps all others. Its buffer is the given one.
pub proof fn law_registration_adds<S>(state: RegistryState<S>, subject: SubjectId, loop_back: bool, buffer: S)
    requires
        state.wf(),
    ensures
        state.registered(subject, loop_back, buffer) matches Some(after) ==> {
            &&& after.endpoints() == state.endpoints().insert((state.next_id, loop_back))
            &&& forall|token: Token|
                token.id() == state.next_id && token.loop_back() == loop_back ==> after.has(token) && (
                #[trigger] after.slot(token)).state == buffer
        },
{
    if let Some(after) = state.registered(subject, loop_back, buffer) {
        if loop_back {
            let slots = state.loop_back.entries;
            let slot = Slot { id: state.next_id, subject, head: false, state: buffer };
            let b = upper_bound(slots, slot.number());
            lemma_upper_bound(slots, slot.number());
            lemma_slots_inserted(slots, b, slot);
            assert(after.loop_back.entries[b] == slot);
            lemma_position(after.loop_back.entries, b);
        } else {
            state.regular.lemma_registered_endpoints(state.next_id, subject, buffer);
            assert(after.regular.has_endpoint(state.next_id));
        }
        assert(after.endpoints() =~= state.endpoints().insert((state.next_id, loop_back)));
    }
}

/// Unregistration removes one endpoint and keeps all others.
pub proof fn law_unregistration_removes<S>(state: RegistryState<S>, token: Token)
    requires
        state.wf(),
        state.has(token),
    ensures
        state.unregistered(token).endpoints() == state.endpoints().remove((token.id(), token.loop_back())),
{
    let after = state.unregistered(token);
    if token.loop_back() {
        let i = position(state.loop_back.entries, token.id());
        assert(0 <= i < state.loop_back.entries.len() && state.loop_back.entries[i].id == token.id());
        lemma_slots_removed(state.loop_back.entries, i);
    } else {
        state.regular.lemma_unregistered_endpoints(state.next_id, token.id());
    }
    assert(after.endpoints() =~= state.endpoints().remove((token.id(), token.loop_back())));
}

/// Fetching a transfer and waiting for one keeps all endpoints.
pub proof fn law_fetching_keeps_endpoints<S>(state: RegistryState<S>, token: Token, buffer: S)
    requires
        state.has(token),
    ensures
        state.with_state(token, buffer).endpoints() == state.endpoints(),
{
    let after = state.with_state(token, buffer);
    let id = token.id();
    if token.loop_back() {
        let i = position(state.loop_back.entries, id);
        assert(0 <= i < state.loop_back.entries.len() && state.loop_back.entries[i].id == id);
        lemma_same_ids(state.loop_back.entries, after.loop_back.entries);
    } else if has_id(state.regular.active, id) {
        let i = position(state.regular.active, id);
        assert(0 <= i < state.regular.active.len() && state.regular.active[i].id == id);
        lemma_same_ids(state.regular.active, after.regular.active);
    } else {
        let i = position(state.regular.inactive, id);
        assert(0 <= i < state.regular.inactive.len() && state.regular.inactive[i].id == id);
        lemma_same_ids(state.regular.inactive, after.regular.inactive);
    }
    assert(after.endpoints() =~= state.endpoints());
}

/// Receiving a message keeps all endpoints.
pub proof fn law_receiving_keeps_endpoints<B: DynamicRxBuffer>(state: RegistryState<B::State>, frame: Frame)
    ensures
        after_message::<B>(state, frame).endpoints() == state.endpoints(),
{
    let after = after_message::<B>(state, frame);
    lemma_same_ids(state.loop_back.entries, after.loop_back.entries);
    lemma_same_ids(state.regular.active, after.regular.active);
    assert(after.endpoints() =~= state.endpoints());
}

/// Telling the driver what to receive keeps all endpoints.
pub proof fn law_updates_keep_endpoints<S>(state: RegistryState<S>, popped: Popped, after: RegularState<S>)
    requires
        state.wf(),
    ensures
        (RegistryState { regular: state.regular.settled(), ..state }).endpoints() == state.endpoints(),
        state.regular.settled().is_popped(popped, after) ==> (RegistryState { regular: after, ..state }).endpoints()
            == state.endpoints(),
{
    let settled = state.regular.settled();
    state.regular.lemma_settled_endpoints(state.next_id);
    assert((RegistryState { regular: settled, ..state }).endpoints() =~= state.endpoints());
    if settled.is_popped(popped, after) {
        settled.lemma_popped_endpoints(state.next_id, popped, after);
        assert((RegistryState { regular: after, ..state }).endpoints() =~= state.endpoints());
    }
}

} // verus!
