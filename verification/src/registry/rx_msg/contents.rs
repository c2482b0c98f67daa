//! What the endpoints hold, whatever happens to other ones.

use vstd::prelude::*;

use crate::buffer::DynamicRxBuffer;
use crate::frame::{DataSpecifier, Frame};
use crate::ids::SubjectId;
use crate::registry::entry_tree::{
    has_id, has_subject, has_unique_ids, lemma_upper_bound, position, upper_bound, Slot, Slots,
};
use crate::registry::rx_msg::regular_state::{Popped, RegularState};
use crate::registry::rx_msg::{after_message, RegistryState, Token};

verus! {

/// An endpoint with this identity, subject and buffer is among the slots.
pub open spec fn is_among<S>(slots: Slots<S>, id: u64, subject: SubjectId, buffer: S) -> bool {
    exists|i: int|
        0 <= i < slots.len() && (#[trigger] slots[i]).id == id && slots[i].subject == subject && slots[i].state
            == buffer
}

impl<S> RegistryState<S> {
    /// An endpoint with this identity, subject and buffer is registered.
    pub open spec fn holds(self, id: u64, loop_back: bool, subject: SubjectId, buffer: S) -> bool {
        if loop_back {
            is_among(self.loop_back.entries, id, subject, buffer)
        } else {
            is_among(self.regular.active, id, subject, buffer) || is_among(self.regular.inactive, id, subject, buffer)
        }
    }
}

/// A message is given to each active endpoint of its subject, and to no other one: a message of the
/// node itself to the endpoints for those, every other message to the other endpoints. Nothing but
/// their buffers changes.
pub proof fn law_message_reaches_subscribers<B: DynamicRxBuffer>(
    state: RegistryState<B::State>,
    frame: Frame,
    subject: SubjectId,
)
    requires
        frame.header.data_spec == DataSpecifier::Message(subject),
    ensures
        ({
            let after = after_message::<B>(state, frame);
            let (a, b) = (state.regular.active, after.regular.active);
            let (c, d) = (state.loop_back.entries, after.loop_back.entries);
            &&& b.len() == a.len()
            &&& forall|i: int|
                0 <= i < a.len() ==> {
                    &&& (#[trigger] b[i]).id == a[i].id
                    &&& b[i].subject == a[i].subject
                    &&& b[i].head == a[i].head
                    &&& b[i].state == (if !frame.loop_back && a[i].subject.value() == subject.value() {
                        B::after_frame(a[i].state, frame)
                    } else {
                        a[i].state
                    })
                }
            &&& d.len() == c.len()
            &&& forall|i: int|
                0 <= i < c.len() ==> {
                    &&& (#[trigger] d[i]).id == c[i].id
                    &&& d[i].subject == c[i].subject
                    &&& d[i].state == (if frame.loop_back && c[i].subject.value() == subject.value() {
                        B::after_frame(c[i].state, frame)
                    } else {
                        c[i].state
                    })
                }
            &&& after.regular.inactive == state.regular.inactive
            &&& after.regular.clean_up == state.regular.clean_up
            &&& after.regular.clean_up_last == state.regular.clean_up_last
            &&& after.regular.activation == state.regular.activation
            &&& after.regular.slots == state.regular.slots
            &&& after.regular.free == state.regular.free
            &&& after.regular.waiting == state.regular.waiting
            &&& after.next_id == state.next_id
        }),
{
}

/// Frames that carry no message change nothing.
pub proof fn law_only_messages_are_delivered<B: DynamicRxBuffer>(state: RegistryState<B::State>, frame: Frame)
    requires
        !(frame.header.data_spec is Message),
    ensures
        after_message::<B>(state, frame) == state,
{
}

/// What is among slots into which one was inserted.
proof fn lemma_among_inserted<S>(slots: Slots<S>, b: int, slot: Slot<S>, id: u64, subject: SubjectId, buffer: S)
    requires
        0 <= b <= slots.len(),
    ensures
        is_among(slots.insert(b, slot), id, subject, buffer) <==> is_among(slots, id, subject, buffer) || (slot.id == id
            && slot.subject == subject && slot.state == buffer),
{
    let after = slots.insert(b, slot);
    if is_among(slots, id, subject, buffer) {
        let i = choose|i: int|
            0 <= i < slots.len() && (#[trigger] slots[i]).id == id && slots[i].subject == subject && slots[i].state
                == buffer;
        let k = if i < b {
            i
        } else {
            i + 1
        };
        assert(after[k] == slots[i]);
    }
    if is_among(after, id, subject, buffer) {
        let i = choose|i: int|
            0 <= i < after.len() && (#[trigger] after[i]).id == id && after[i].subject == subject && after[i].state
                == buffer;
        if i < b {
            assert(after[i] == slots[i]);
        } else if i > b {
            assert(after[i] == slots[i - 1]);
        }
    }
    assert(after[b] == slot);
}

/// What is among slots of which one was removed.
proof fn lemma_among_removed<S>(slots: Slots<S>, b: int, id: u64, subject: SubjectId, buffer: S)
    requires
        0 <= b < slots.len(),
    ensures
        is_among(slots, id, subject, buffer) <==> is_among(slots.remove(b), id, subject, buffer) || (slots[b].id == id
            && slots[b].subject == subject && slots[b].state == buffer),
{
    assert(slots.remove(b).insert(b, slots[b]) =~= slots);
    lemma_among_inserted(slots.remove(b), b, slots[b], id, subject, buffer);
}

/// The marks of the slots have no influence.
proof fn lemma_among_same<S>(a: Slots<S>, b: Slots<S>, id: u64, subject: SubjectId, buffer: S)
    requires
        a.len() == b.len(),
        forall|i: int|
            0 <= i < a.len() ==> (#[trigger] a[i]).id == b[i].id && a[i].subject == b[i].subject && a[i].state
                == b[i].state,
    ensures
        is_among(a, id, subject, buffer) <==> is_among(b, id, subject, buffer),
{
    if is_among(a, id, subject, buffer) {
        let i = choose|i: int|
            0 <= i < a.len() && (#[trigger] a[i]).id == id && a[i].subject == subject && a[i].state == buffer;
        assert(b[i].id == id);
    }
    if is_among(b, id, subject, buffer) {
        let i = choose|i: int|
            0 <= i < b.len() && (#[trigger] b[i]).id == id && b[i].subject == subject && b[i].state == buffer;
        assert(a[i].id == b[i].id);
    }
}

/// Registration adds one endpoint with the given subject and buffer. All others keep their subjects
/// and what they hold.
pub proof fn law_registration_keeps_contents<S>(
    state: RegistryState<S>,
    subject: SubjectId,
    loop_back: bool,
    buffer: S,
    id: u64,
    other_loop_back: bool,
    other_subject: SubjectId,
    other_buffer: S,
)
    requires
        state.wf(),
        state.registered(subject, loop_back, buffer) is Some,
    ensures
        ({
            let after = state.registered(subject, loop_back, buffer)->0;
            after.holds(id, other_loop_back, other_subject, other_buffer) <==> state.holds(
                id,
                other_loop_back,
                other_subject,
                other_buffer,
            ) || (id == state.next_id && other_loop_back == loop_back && other_subject == subject && other_buffer
                == buffer)
        }),
{
    let slot = Slot { id: state.next_id, subject, head: false, state: buffer };
    let number = subject.value() as int;
    lemma_upper_bound(state.loop_back.entries, number);
    lemma_upper_bound(state.regular.active, number);
    lemma_upper_bound(state.regular.inactive, number);
    lemma_among_inserted(
        state.loop_back.entries,
        upper_bound(state.loop_back.entries, number),
        slot,
        id,
        other_subject,
        other_buffer,
    );
    lemma_among_inserted(
        state.regular.active,
        upper_bound(state.regular.active, number),
        slot,
        id,
        other_subject,
        other_buffer,
    );
    lemma_among_inserted(
        state.regular.inactive,
        upper_bound(state.regular.inactive, number),
        slot,
        id,
        other_subject,
        other_buffer,
    );
}

/// Unregistration removes one endpoint. All others keep their subjects and what they hold.
pub proof fn law_unregistration_keeps_contents<S>(
    state: RegistryState<S>,
    token: Token,
    id: u64,
    loop_back: bool,
    subject: SubjectId,
    buffer: S,
)
    requires
        state.wf(),
        state.has(token),
    ensures
        state.unregistered(token).holds(id, loop_back, subject, buffer) <==> state.holds(
            id,
            loop_back,
            subject,
            buffer,
        ) && !(id == token.id() && loop_back == token.loop_back()),
{
    let after = state.unregistered(token);
    let gone = token.id();
    if token.loop_back() {
        let slots = state.loop_back.entries;
        let i = position(slots, gone);
        assert(0 <= i < slots.len() && slots[i].id == gone);
        lemma_among_removed(slots, i, id, subject, buffer);
        lemma_gone(slots, i, subject, buffer);
    } else {
        let active = state.regular.active;
        let inactive = state.regular.inactive;
        if has_id(active, gone) {
            let i = position(active, gone);
            assert(0 <= i < active.len() && active[i].id == gone);
            lemma_among_removed(active, i, id, subject, buffer);
            lemma_gone(active, i, subject, buffer);
            lemma_among_same(active.remove(i), after.regular.active, id, subject, buffer);
            assert(!is_among(inactive, gone, subject, buffer)) by {
                if is_among(inactive, gone, subject, buffer) {
                    let j = choose|j: int|
                        0 <= j < inactive.len() && (#[trigger] inactive[j]).id == gone && inactive[j].subject == subject
                            && inactive[j].state == buffer;
                    assert(active[i].id != inactive[j].id);
                }
            }
        } else {
            let i = position(inactive, gone);
            assert(0 <= i < inactive.len() && inactive[i].id == gone);
            lemma_among_removed(inactive, i, id, subject, buffer);
            lemma_gone(inactive, i, subject, buffer);
        }
    }
}

/// A slot that was removed is not there any more.
proof fn lemma_gone<S>(slots: Slots<S>, i: int, subject: SubjectId, buffer: S)
    requires
        0 <= i < slots.len(),
        has_unique_ids(slots),
    ensures
        !is_among(slots.remove(i), slots[i].id, subject, buffer),
{
    let rest = slots.remove(i);
    let id = slots[i].id;
    if is_among(rest, id, subject, buffer) {
        let k = choose|k: int|
            0 <= k < rest.len() && (#[trigger] rest[k]).id == id && rest[k].subject == subject && rest[k].state
                == buffer;
        let j = if k < i {
            k
        } else {
            k + 1
        };
        assert(slots[j] == rest[k]);
    }
}

/// Telling the driver what to receive changes no subject and no buffer.
pub proof fn law_updates_keep_contents<S>(
    state: RegistryState<S>,
    popped: Popped,
    after: RegularState<S>,
    id: u64,
    loop_back: bool,
    subject: SubjectId,
    buffer: S,
)
    requires
        state.wf(),
        state.regular.is_popped(popped, after),
    ensures
        (RegistryState { regular: after, ..state }).holds(id, loop_back, subject, buffer) <==> state.holds(
            id,
            loop_back,
            subject,
            buffer,
        ),
{
    let regular = state.regular;
    if regular.clean_up.len() == 0 && !regular.clean_up_last {
        lemma_activated(regular, state.next_id, id, subject, buffer);
    }
}

/// An endpoint that becomes active stays what it is.
proof fn lemma_activated<S>(regular: RegularState<S>, limit: u64, id: u64, subject: SubjectId, buffer: S)
    requires
        regular.wf(limit),
        regular.activation.len() > 0,
    ensures
        ({
            let after = regular.activated();
            is_among(after.active, id, subject, buffer) || is_among(after.inactive, id, subject, buffer) <==> is_among(
                regular.active,
                id,
                subject,
                buffer,
            ) || is_among(regular.inactive, id, subject, buffer)
        }),
{
    let slot = regular.first_inactive();
    let moved = regular.activation[0];
    let i = position(regular.inactive, moved);
    assert(has_id(regular.inactive, regular.activation[0]));
    assert(0 <= i < regular.inactive.len() && regular.inactive[i].id == moved);
    let head = regular.activated().active[upper_bound(regular.active, slot.number())].head;
    lemma_upper_bound(regular.active, slot.number());
    lemma_among_removed(regular.inactive, i, id, subject, buffer);
    lemma_among_inserted(
        regular.active,
        upper_bound(regular.active, slot.number()),
        Slot { head, ..slot },
        id,
        subject,
        buffer,
    );
}

/// A change of one buffer changes no other endpoint.
pub proof fn law_use_keeps_other_contents<S>(
    state: RegistryState<S>,
    token: Token,
    changed: S,
    id: u64,
    loop_back: bool,
    subject: SubjectId,
    buffer: S,
)
    requires
        state.wf(),
        state.has(token),
        !(id == token.id() && loop_back == token.loop_back()),
    ensures
        state.with_state(token, changed).holds(id, loop_back, subject, buffer) <==> state.holds(
            id,
            loop_back,
            subject,
            buffer,
        ),
        state.with_state(token, changed).slot(token).state == changed,
        state.with_state(token, changed).slot(token).subject == state.slot(token).subject,
{
    let own = token.id();
    let after = state.with_state(token, changed);
    if token.loop_back() {
        let slots = state.loop_back.entries;
        let i = position(slots, own);
        assert(0 <= i < slots.len() && slots[i].id == own);
        lemma_one_changed(slots, after.loop_back.entries, i, id, subject, buffer);
    } else if has_id(state.regular.active, own) {
        let slots = state.regular.active;
        let i = position(slots, own);
        assert(0 <= i < slots.len() && slots[i].id == own);
        lemma_one_changed(slots, after.regular.active, i, id, subject, buffer);
    } else {
        let slots = state.regular.inactive;
        let i = position(slots, own);
        assert(0 <= i < slots.len() && slots[i].id == own);
        lemma_one_changed(slots, after.regular.inactive, i, id, subject, buffer);
        assert(!has_id(after.regular.active, own));
    }
}

/// The buffer of one slot was changed.
proof fn lemma_one_changed<S>(a: Slots<S>, b: Slots<S>, k: int, id: u64, subject: SubjectId, buffer: S)
    requires
        0 <= k < a.len(),
        has_unique_ids(a),
        b == a.update(k, Slot { state: b[k].state, ..a[k] }),
    ensures
        id != a[k].id ==> (is_among(a, id, subject, buffer) <==> is_among(b, id, subject, buffer)),
        position(b, a[k].id) == k,
        has_id(b, a[k].id),
{
    assert(b[k].id == a[k].id);
    let p = position(b, a[k].id);
    assert(0 <= p < b.len() && b[p].id == a[k].id);
    assert(a[p].id == b[p].id);
    if id != a[k].id {
        if is_among(a, id, subject, buffer) {
            let i = choose|i: int|
                0 <= i < a.len() && (#[trigger] a[i]).id == id && a[i].subject == subject && a[i].state == buffer;
            assert(b[i] == a[i]);
        }
        if is_among(b, id, subject, buffer) {
            let i = choose|i: int|
                0 <= i < b.len() && (#[trigger] b[i]).id == id && b[i].subject == subject && b[i].state == buffer;
            assert(b[i] == a[i]);
        }
    }
}

/// A further endpoint of a subject that the driver receives gets messages at once.
pub proof fn law_further_endpoint_is_active<S>(state: RegistryState<S>, subject: SubjectId, buffer: S, i: int)
    requires
        state.wf(),
        0 <= i < state.regular.active.len(),
        state.regular.active[i].subject.value() == subject.value(),
        forall|k: int|
            0 <= k < state.regular.inactive.len() ==> (#[trigger] state.regular.inactive[k]).subject.value()
                != subject.value(),
    ensures
        state.registered(subject, false, buffer) matches Some(after) && {
            &&& is_among(after.regular.active, state.next_id, subject, buffer)
            &&& after.regular.inactive == state.regular.inactive
            &&& after.regular.free == state.regular.free
        },
{
    let number = subject.value() as int;
    assert(state.regular.active[i].number() == number);
    assert(has_subject(state.regular.active, number));
    assert(!has_subject(state.regular.inactive, number)) by {
        if has_subject(state.regular.inactive, number) {
            let k = choose|k: int|
                0 <= k < state.regular.inactive.len() && (#[trigger] state.regular.inactive[k]).number() == number;
            assert(state.regular.inactive[k].subject.value() != subject.value());
        }
    }
    let slot = Slot { id: state.next_id, subject, head: false, state: buffer };
    lemma_upper_bound(state.regular.active, number);
    lemma_among_inserted(
        state.regular.active,
        upper_bound(state.regular.active, number),
        slot,
        state.next_id,
        subject,
        buffer,
    );
}

} // verus!
