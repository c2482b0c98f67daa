//! Handing out a message step by step.

use vstd::prelude::*;

use crate::buffer::DynamicRxBuffer;
use crate::frame::{DataSpecifier, Frame};
use crate::ids::SubjectId;
use crate::registry::entry_tree::{has_id, has_subject, has_unique_ids, is_same_but_state, is_sorted, position, Slots};
use crate::registry::rx_msg::endpoints::lemma_same_ids;
use crate::registry::rx_msg::loop_back::LoopBackState;
use crate::registry::rx_msg::regular::handed_at;
use crate::registry::rx_msg::regular_state::{is_first, RegularState};
use crate::registry::rx_msg::{after_message, delivered, delivered_before, RegistryState, Token};

verus! {

/// The first endpoint of a subject is at this position.
pub open spec fn is_first_of<S>(slots: Slots<S>, number: int, i: int) -> bool {
    &&& 0 <= i < slots.len()
    &&& slots[i].number() == number
    &&& forall|k: int| 0 <= k < i ==> (#[trigger] slots[k]).number() != number
}

/// The endpoint that gets a message of the subject first.
pub open spec fn first_of<S>(slots: Slots<S>, number: int) -> Option<u64> {
    if has_subject(slots, number) {
        Some(slots[choose|i: int| is_first_of(slots, number, i)].id)
    } else {
        None
    }
}

/// An endpoint waits for the message that is handed out.
pub open spec fn has_next<S>(state: RegistryState<S>, loop_back: bool) -> bool {
    if loop_back {
        state.loop_back.next_push is Some
    } else {
        state.regular.next_push is Some
    }
}

/// The endpoints when it is clear which one gets a message first.
pub open spec fn after_start<S>(state: RegistryState<S>, frame: Frame) -> RegistryState<S> {
    match frame.header.data_spec {
        DataSpecifier::Message(subject) => if !frame.loop_back {
            let next_push = first_of(state.regular.active, subject.value() as int);
            RegistryState { regular: RegularState { next_push, ..state.regular }, ..state }
        } else {
            let next_push = first_of(state.loop_back.entries, subject.value() as int);
            RegistryState { loop_back: LoopBackState { next_push, ..state.loop_back }, ..state }
        },
        _ => state,
    }
}

/// The endpoints when one more of them got a message.
pub open spec fn after_step<B: DynamicRxBuffer>(
    state: RegistryState<B::State>,
    frame: Frame,
) -> RegistryState<B::State> {
    if !frame.loop_back {
        match state.regular.next_push {
            Some(id) => {
                let slots = state.regular.active;
                let i = position(slots, id);
                RegistryState {
                    regular: RegularState {
                        active: handed_at::<B>(slots, i, frame),
                        next_push: if i + 1 < slots.len() && !slots[i + 1].head {
                            Some(slots[i + 1].id)
                        } else {
                            None
                        },
                        ..state.regular
                    },
                    ..state
                }
            },
            None => state,
        }
    } else {
        match state.loop_back.next_push {
            Some(id) => {
                let slots = state.loop_back.entries;
                let i = position(slots, id);
                RegistryState {
                    loop_back: LoopBackState {
                        entries: handed_at::<B>(slots, i, frame),
                        next_push: if state.loop_back.is_followed(i) {
                            Some(slots[i + 1].id)
                        } else {
                            None
                        },
                    },
                    ..state
                }
            },
            None => state,
        }
    }
}

/// The endpoints among which those of a message are.
pub open spec fn addressees<S>(state: RegistryState<S>, frame: Frame) -> Slots<S> {
    if frame.loop_back {
        state.loop_back.entries
    } else {
        state.regular.active
    }
}

/// The position of the endpoint that gets a message first, behind all endpoints if there is none.
pub open spec fn start_position<S>(state: RegistryState<S>, frame: Frame) -> int {
    let slots = addressees(state, frame);
    match frame.header.data_spec {
        DataSpecifier::Message(subject) if has_subject(slots, subject.value() as int) => choose|i: int|
            is_first_of(slots, subject.value() as int, i),
        _ => slots.len() as int,
    }
}

/// The endpoints of the subject before the position `i` got the message. The one at that position is
/// the next, if there is a next one.
pub open spec fn is_handed_out<B: DynamicRxBuffer>(
    before: RegistryState<B::State>,
    frame: Frame,
    after: RegistryState<B::State>,
    i: int,
    more: bool,
) -> bool {
    let slots = addressees(before, frame);
    &&& 0 <= i <= slots.len()
    &&& match frame.header.data_spec {
        DataSpecifier::Message(subject) => {
            let number = subject.value() as int;
            let reached = delivered_before::<B>(slots, number, frame, i);
            let next_push = if more {
                Some(slots[i].id)
            } else {
                None
            };
            &&& more ==> i < slots.len() && slots[i].number() == number
            &&& !more && i < slots.len() ==> slots[i].number() > number
            &&& after == (if !frame.loop_back {
                RegistryState { regular: RegularState { active: reached, next_push, ..before.regular }, ..before }
            } else {
                RegistryState { loop_back: LoopBackState { entries: reached, next_push }, ..before }
            })
        },
        _ => !more && after == before,
    }
}

/// One more endpoint got the frame.
proof fn lemma_delivered_next<B: DynamicRxBuffer>(slots: Slots<B::State>, number: int, frame: Frame, i: int)
    requires
        0 <= i < slots.len(),
        slots[i].number() == number,
    ensures
        handed_at::<B>(delivered_before::<B>(slots, number, frame, i), i, frame) == delivered_before::<B>(
            slots,
            number,
            frame,
            i + 1,
        ),
        is_same_but_state(delivered_before::<B>(slots, number, frame, i), slots),
{
    assert(handed_at::<B>(delivered_before::<B>(slots, number, frame, i), i, frame) =~= delivered_before::<B>(
        slots,
        number,
        frame,
        i + 1,
    ));
}

/// All endpoints of the subject got the frame when the next endpoint is of another one.
proof fn lemma_delivered_all<B: DynamicRxBuffer>(slots: Slots<B::State>, number: int, frame: Frame, i: int)
    requires
        is_sorted(slots),
        0 <= i <= slots.len(),
        i < slots.len() ==> slots[i].number() > number,
    ensures
        delivered_before::<B>(slots, number, frame, i) == delivered::<B>(slots, number, frame),
{
    assert forall|k: int| i <= k < slots.len() implies (#[trigger] slots[k]).number() != number by {
        assert(slots[i].number() <= slots[k].number());
    }
    assert(delivered_before::<B>(slots, number, frame, i) =~= delivered::<B>(slots, number, frame));
}

/// No endpoint is of the subject up to the first one.
proof fn lemma_delivered_none<B: DynamicRxBuffer>(slots: Slots<B::State>, number: int, frame: Frame, i: int)
    requires
        0 <= i <= slots.len(),
        forall|k: int| 0 <= k < i ==> (#[trigger] slots[k]).number() != number,
    ensures
        delivered_before::<B>(slots, number, frame, i) == slots,
{
    assert(delivered_before::<B>(slots, number, frame, i) =~= slots);
}

/// Endpoints at the same positions have the same identities.
proof fn lemma_same_positions<S>(a: Slots<S>, b: Slots<S>, i: int)
    requires
        is_same_but_state(a, b),
        has_unique_ids(b),
        0 <= i < b.len(),
    ensures
        position(a, b[i].id) == i,
{
    assert(a[i].id == b[i].id);
    let k = position(a, b[i].id);
    assert(0 <= k < a.len() && a[k].id == b[i].id);
    assert(b[k].id == b[i].id);
}

/// A subject with an endpoint has a first one.
proof fn lemma_first_of<S>(slots: Slots<S>, number: int, i: int)
    requires
        0 <= i < slots.len(),
        slots[i].number() == number,
    ensures
        exists|k: int| is_first_of(slots, number, k),
    decreases i,
{
    if exists|k: int| 0 <= k < i && (#[trigger] slots[k]).number() == number {
        let k = choose|k: int| 0 <= k < i && (#[trigger] slots[k]).number() == number;
        lemma_first_of(slots, number, k);
    } else {
        assert(is_first_of(slots, number, i));
    }
}

/// At first no endpoint has got the message.
pub proof fn lemma_started<B: DynamicRxBuffer>(before: RegistryState<B::State>, frame: Frame)
    requires
        before.wf(),
    ensures
        is_handed_out::<B>(
            before,
            frame,
            after_start(before, frame),
            start_position(before, frame),
            frame.header.data_spec is Message && has_next(after_start(before, frame), frame.loop_back),
        ),
{
    let slots = addressees(before, frame);
    let i = start_position(before, frame);
    if let DataSpecifier::Message(subject) = frame.header.data_spec {
        let number = subject.value() as int;
        if has_subject(slots, number) {
            let k = choose|k: int| 0 <= k < slots.len() && (#[trigger] slots[k]).number() == number;
            lemma_first_of(slots, number, k);
        }
        lemma_delivered_none::<B>(slots, number, frame, i);
    }
}

/// A step hands the message to one more endpoint.
pub proof fn lemma_stepped<B: DynamicRxBuffer>(
    before: RegistryState<B::State>,
    frame: Frame,
    state: RegistryState<B::State>,
    i: int,
)
    requires
        before.wf(),
        is_handed_out::<B>(before, frame, state, i, true),
    ensures
        is_handed_out::<B>(
            before,
            frame,
            after_step::<B>(state, frame),
            i + 1,
            has_next(after_step::<B>(state, frame), frame.loop_back),
        ),
{
    let slots = addressees(before, frame);
    let number = slots[i].number() as int;
    let current = delivered_before::<B>(slots, number, frame, i);
    lemma_delivered_next::<B>(slots, number, frame, i);
    lemma_same_positions(current, slots, i);
    assert(current[i].subject == slots[i].subject);
    if i + 1 < slots.len() {
        assert(current[i + 1].subject == slots[i + 1].subject);
        assert(slots[i].number() <= slots[i + 1].number());
        if !frame.loop_back {
            assert(slots[i + 1].head <==> is_first(slots, i + 1));
        }
    }
}

/// All endpoints of the subject got the message when there is no next one.
pub proof fn lemma_finished<B: DynamicRxBuffer>(
    before: RegistryState<B::State>,
    frame: Frame,
    state: RegistryState<B::State>,
    i: int,
)
    requires
        before.wf(),
        is_handed_out::<B>(before, frame, state, i, false),
    ensures
        state == after_message::<B>(before, frame),
{
    let slots = addressees(before, frame);
    if let DataSpecifier::Message(subject) = frame.header.data_spec {
        lemma_delivered_all::<B>(slots, subject.value() as int, frame, i);
        assert(state =~= after_message::<B>(before, frame));
    }
}

/// Handing out a message keeps all endpoints at each step.
pub proof fn law_steps_keep_endpoints<B: DynamicRxBuffer>(state: RegistryState<B::State>, frame: Frame)
    requires
        state.wf(),
    ensures
        after_start(state, frame).endpoints() == state.endpoints(),
        after_step::<B>(state, frame).endpoints() == state.endpoints(),
{
    assert(after_start(state, frame).endpoints() =~= state.endpoints());
    let after = after_step::<B>(state, frame);
    lemma_same_ids(state.loop_back.entries, after.loop_back.entries);
    lemma_same_ids(state.regular.active, after.regular.active);
    assert(after.endpoints() =~= state.endpoints());
}

/// The steps of a trail follow each other until no endpoint waits.
pub open spec fn is_trail<B: DynamicRxBuffer>(
    before: RegistryState<B::State>,
    frame: Frame,
    trail: Seq<RegistryState<B::State>>,
) -> bool {
    &&& trail.len() > 0
    &&& trail[0] == after_start(before, frame)
    &&& forall|k: int|
        0 < k < trail.len() ==> has_next(trail[k - 1], frame.loop_back) && #[trigger] trail[k] == after_step::<B>(
            trail[k - 1],
            frame,
        )
    &&& !has_next(trail.last(), frame.loop_back)
}

/// A message that is handed out step by step reaches every endpoint of its subject once, and no other
/// endpoint. `trail` holds the endpoints after each step.
pub proof fn law_steps_reach_all<B: DynamicRxBuffer>(
    before: RegistryState<B::State>,
    frame: Frame,
    trail: Seq<RegistryState<B::State>>,
)
    requires
        before.wf(),
        frame.header.data_spec is Message,
        is_trail::<B>(before, frame, trail),
    ensures
        trail.last() == after_message::<B>(before, frame),
{
    let start = start_position(before, frame);
    let last = trail.len() - 1;
    lemma_started::<B>(before, frame);
    lemma_trail::<B>(before, frame, trail, last);
    lemma_finished::<B>(before, frame, trail[last], start + last);
}

/// After each step of a trail one more endpoint got the message.
proof fn lemma_trail<B: DynamicRxBuffer>(
    before: RegistryState<B::State>,
    frame: Frame,
    trail: Seq<RegistryState<B::State>>,
    k: int,
)
    requires
        before.wf(),
        frame.header.data_spec is Message,
        is_trail::<B>(before, frame, trail),
        0 <= k < trail.len(),
    ensures
        is_handed_out::<B>(
            before,
            frame,
            trail[k],
            start_position(before, frame) + k,
            has_next(trail[k], frame.loop_back),
        ),
    decreases k,
{
    if k == 0 {
        lemma_started::<B>(before, frame);
    } else {
        lemma_trail::<B>(before, frame, trail, k - 1);
        assert(trail[k] == after_step::<B>(trail[k - 1], frame));
        lemma_stepped::<B>(before, frame, trail[k - 1], start_position(before, frame) + k - 1);
    }
}

/// The first step picks the first active endpoint of the subject, and there is none exactly if the
/// subject has no active endpoint. Nothing else changes.
pub proof fn law_delivery_starts_at_the_first<S>(state: RegistryState<S>, frame: Frame, subject: SubjectId, i: int)
    requires
        frame.header.data_spec == DataSpecifier::Message(subject),
        !frame.loop_back,
    ensures
        ({
            let slots = state.regular.active;
            let after = after_start(state, frame);
            &&& after.regular.active == slots
            &&& after.regular.inactive == state.regular.inactive
            &&& after.loop_back == state.loop_back
            &&& (0 <= i < slots.len() && slots[i].subject.value() == subject.value() && forall|k: int|
                0 <= k < i ==> (#[trigger] slots[k]).subject.value() != subject.value())
                ==> after.regular.next_push == Some(slots[i].id)
            &&& (forall|k: int| 0 <= k < slots.len() ==> (#[trigger] slots[k]).subject.value() != subject.value())
                ==> after.regular.next_push is None
        }),
{
    let slots = state.regular.active;
    let number = subject.value() as int;
    if 0 <= i < slots.len() && slots[i].subject.value() == subject.value() && (forall|k: int|
        0 <= k < i ==> (#[trigger] slots[k]).subject.value() != subject.value()) {
        assert(slots[i].number() == number);
        assert forall|k: int| 0 <= k < i implies (#[trigger] slots[k]).number() != number by {
            assert(slots[k].subject.value() != subject.value());
        }
        assert(is_first_of(slots, number, i));
        let j = choose|j: int| is_first_of(slots, number, j);
        assert(is_first_of(slots, number, j));
        if j < i {
            assert(slots[j].number() != number);
        }
        if i < j {
            assert(slots[i].number() != number);
        }
        assert(has_subject(slots, number));
    }
    if forall|k: int| 0 <= k < slots.len() ==> (#[trigger] slots[k]).subject.value() != subject.value() {
        assert forall|k: int| 0 <= k < slots.len() implies (#[trigger] slots[k]).number() != number by {
            assert(slots[k].subject.value() != subject.value());
        }
        assert(!has_subject(slots, number));
    }
}

/// A step gives a message to exactly one endpoint, and goes on to the next one of the same subject, if
/// there is one.
pub proof fn law_step_reaches_one<B: DynamicRxBuffer>(state: RegistryState<B::State>, frame: Frame, i: int)
    requires
        state.wf(),
        !frame.loop_back,
        0 <= i < state.regular.active.len(),
        state.regular.next_push == Some(state.regular.active[i].id),
    ensures
        ({
            let slots = state.regular.active;
            let after = after_step::<B>(state, frame);
            &&& after.regular.active.len() == slots.len()
            &&& after.regular.active[i].state == B::after_frame(slots[i].state, frame)
            &&& after.regular.active[i].id == slots[i].id
            &&& after.regular.active[i].subject == slots[i].subject
            &&& forall|k: int| 0 <= k < slots.len() && k != i ==> #[trigger] after.regular.active[k] == slots[k]
            &&& after.regular.inactive == state.regular.inactive
            &&& after.loop_back == state.loop_back
            &&& after.regular.next_push == (if i + 1 < slots.len() && slots[i + 1].subject.value()
                == slots[i].subject.value() {
                Some(slots[i + 1].id)
            } else {
                None
            })
        }),
{
    let slots = state.regular.active;
    lemma_same_positions(slots, slots, i);
    if i + 1 < slots.len() {
        assert(slots[i + 1].head <==> is_first(slots, i + 1));
        assert(slots[i].number() <= slots[i + 1].number());
    }
}

/// A message that is being handed out goes on when an endpoint leaves: if that one was the next, the
/// following one of the subject is the next then, and otherwise nothing changes about it.
pub proof fn law_delivery_goes_on<S>(state: RegistryState<S>, token: Token, i: int)
    requires
        state.wf(),
        !token.loop_back(),
        0 <= i < state.regular.active.len(),
        state.regular.active[i].id == token.id(),
    ensures
        ({
            let slots = state.regular.active;
            state.unregistered(token).regular.next_push == (if state.regular.next_push != Some(token.id()) {
                state.regular.next_push
            } else if i + 1 < slots.len() && slots[i + 1].subject.value() == slots[i].subject.value() {
                Some(slots[i + 1].id)
            } else {
                None
            })
        }),
{
    let slots = state.regular.active;
    lemma_same_positions(slots, slots, i);
    assert(has_id(slots, token.id()));
    let rest = slots.remove(i);
    if i + 1 < slots.len() {
        assert(slots[i + 1].head <==> is_first(slots, i + 1));
        assert(slots[i].number() <= slots[i + 1].number());
        assert(rest[i] == slots[i + 1]);
    }
}

/// The same holds for a message that is handed back to its node.
pub proof fn law_looped_delivery_goes_on<S>(state: RegistryState<S>, token: Token, i: int)
    requires
        state.wf(),
        token.loop_back(),
        0 <= i < state.loop_back.entries.len(),
        state.loop_back.entries[i].id == token.id(),
    ensures
        ({
            let slots = state.loop_back.entries;
            state.unregistered(token).loop_back.next_push == (if state.loop_back.next_push != Some(token.id()) {
                state.loop_back.next_push
            } else if i + 1 < slots.len() && slots[i + 1].subject.value() == slots[i].subject.value() {
                Some(slots[i + 1].id)
            } else {
                None
            })
        }),
{
    let slots = state.loop_back.entries;
    lemma_same_positions(slots, slots, i);
    assert(has_id(slots, token.id()));
}

} // verus!
