//! What a driver receives when it follows the updates.

use vstd::prelude::*;
use vstd::set_lib::{lemma_len_subset, lemma_set_subset_finite};

use crate::ids::SubjectId;
use crate::link::{Filter, FilterUpdate};
use crate::registry::entry_tree::{has_id, has_subject, lemma_upper_bound, position, upper_bound, Slot};
use crate::registry::id_queue::{lemma_without_id, place_before, without_id};
use crate::registry::rx_msg::regular_state::{
    is_first, lemma_same_subjects, lemma_subject_inserted, lemma_subject_removed, Popped, RegularState, MAX_SUBJECT,
};

verus! {

/// A driver that receives nothing is up to date with no endpoints.
pub proof fn law_filter_starts_empty<S>(slots: int)
    ensures
        RegularState::<S>::fresh(slots).is_tracked_by(Filter::nothing().subjects),
{
}

/// Registration fails exactly if the subject has no endpoint yet and the slots are taken by as many
/// other subjects. A further endpoint of a subject takes no slot, and a new subject takes one.
pub proof fn law_registration_takes_slots<S>(state: RegularState<S>, limit: u64, subject: SubjectId, buffer: S)
    requires
        state.wf(limit),
        limit < u64::MAX,
        subject.value() <= MAX_SUBJECT,
    ensures
        ({
            let number = subject.value() as int;
            &&& state.registered(limit, subject, buffer) is None <==> !state.subjects().contains(number)
                && state.subjects().len() == state.slots
            &&& state.registered(limit, subject, buffer) matches Some(after) ==> {
                &&& after.wf((limit + 1) as u64)
                &&& after.slots == state.slots
                &&& after.subjects() == state.subjects().insert(number)
                &&& after.free == (if state.subjects().contains(number) {
                    state.free
                } else {
                    state.free - 1
                })
            }
        }),
{
    state.lemma_registered_wf(limit, subject, buffer);
    assert(state.subjects().contains(subject.value() as int) == state.is_subject(subject.value() as int));
}

/// Endpoints may be registered at any time: the driver stays up to date but for the updates that
/// it will get.
pub proof fn law_registration_is_tracked<S>(
    state: RegularState<S>,
    limit: u64,
    subject: SubjectId,
    buffer: S,
    received: Set<int>,
)
    requires
        state.wf(limit),
        state.is_tracked_by(received),
    ensures
        state.registered(limit, subject, buffer) matches Some(after) ==> after.is_tracked_by(received),
{
    if let Some(after) = state.registered(limit, subject, buffer) {
        let number = subject.value() as int;
        if has_subject(state.active, number) && !has_subject(state.inactive, number) {
            let slot = Slot { id: limit, subject, head: false, state: buffer };
            let b = upper_bound(state.active, number);
            lemma_upper_bound(state.active, number);
            lemma_subject_inserted(state.active, b, slot);
            assert forall|n: int| #[trigger] received.contains(n) implies 0 <= n <= MAX_SUBJECT && (has_subject(
                after.active,
                n,
            ) || after.is_to_be_removed(n)) by {
                if !has_subject(state.active, n) {
                    if exists|i: int| #[trigger] state.is_in_gap(i, n) {
                        let i = choose|i: int| #[trigger] state.is_in_gap(i, n);
                        if i < b {
                            assert(after.active[i] == state.active[i]);
                            if i > 0 {
                                assert(after.active[i - 1] == state.active[i - 1]);
                            }
                            assert(after.is_in_gap(i, n));
                        } else {
                            assert(after.active[i + 1] == state.active[i]);
                            if i > b {
                                assert(after.active[i] == state.active[i - 1]);
                            } else {
                                assert(after.active[i] == slot);
                                assert(state.active[b - 1].number() == number);
                            }
                            assert(after.is_in_gap(i + 1, n));
                        }
                    } else if b == state.active.len() {
                        assert(after.active.last() == slot);
                        assert(state.active[b - 1].number() == number);
                    } else {
                        assert(after.active.last() == state.active.last());
                    }
                }
            }
        } else {
            assert forall|n: int| state.is_to_be_removed(n) implies after.is_to_be_removed(n) by {
                if exists|i: int| #[trigger] state.is_in_gap(i, n) {
                    let i = choose|i: int| #[trigger] state.is_in_gap(i, n);
                    assert(after.is_in_gap(i, n));
                }
            }
        }
    }
}

/// What was to be removed before an endpoint left is to be removed afterwards, and so is its
/// subject if it was the last endpoint of it.
proof fn lemma_still_to_be_removed<S>(state: RegularState<S>, limit: u64, i: int, n: int)
    requires
        state.is_consistent(limit),
        0 <= i < state.active.len(),
        0 <= n <= MAX_SUBJECT,
        state.is_to_be_removed(n) || n == state.active[i].number(),
    ensures
        ({
            let after = state.unregistered_active(i);
            after.is_to_be_removed(n) || has_subject(after.active, n)
        }),
{
    let after = state.unregistered_active(i);
    let id = state.active[i].id;
    let rest = state.active.remove(i);
    let less = without_id(state.clean_up, id);
    state.lemma_active_without(limit, i);
    assert(after.active == state.active_without(i));
    lemma_without_id(state.clean_up, id);
    if i < rest.len() {
        assert(rest[i] == state.active[i + 1]);
        assert(after.active[i].id == state.active[i + 1].id);
        assert(after.active[i].subject == state.active[i + 1].subject);
    }
    if i > 0 && i - 1 < after.active.len() {
        assert(after.active[i - 1].subject == state.active[i - 1].subject);
        assert(state.active[i - 1].number() <= state.active[i].number());
    }
    if n == state.active[i].number() {
        if !state.active[i].head {
            // The previous endpoint is of the same subject.
            assert(state.active[i].head <==> is_first(state.active, i));
            assert(after.active[i - 1].number() == n);
        } else if i < rest.len() {
            assert(state.active[i].number() <= state.active[i + 1].number());
            if state.active[i + 1].number() == n {
                assert(after.active[i].number() == n);
            } else {
                assert(state.active[i + 1].head <==> is_first(
                    state.active,
                    i + 1,
                ));
                lemma_marked_next(state, limit, i);
                assert(state.active[i].head <==> is_first(state.active, i));
                assert(after.is_in_gap(i, n));
            }
        } else {
            assert(state.active[i].head <==> is_first(state.active, i));
        }
    } else if exists|k: int| #[trigger] state.is_in_gap(k, n) {
        let k = choose|k: int| #[trigger] state.is_in_gap(k, n);
        lemma_gap_stays(state, limit, i, k, n);
    } else {
        // The subject lies behind the last endpoint.
        assert(after.clean_up_last);
        if after.active.len() > 0 {
            let last = after.active.len() - 1;
            assert(after.active[last].subject == state.active[place_before(i, last)].subject);
            assert(state.active[place_before(i, last)].number() <= state.active[state.active.len() - 1].number());
        }
    }
}

/// The endpoint behind a first one that left is marked, if a gap came up before it.
proof fn lemma_marked_next<S>(state: RegularState<S>, limit: u64, i: int)
    requires
        state.is_consistent(limit),
        0 <= i < state.active.len() - 1,
        state.active[i].head,
        state.is_marked(i) || state.active[i + 1].head,
    ensures
        state.unregistered_active(i).is_marked(i),
{
    let after = state.unregistered_active(i);
    let id = state.active[i].id;
    let rest = state.active.remove(i);
    let less = without_id(state.clean_up, id);
    state.lemma_active_without(limit, i);
    assert(after.active == state.active_without(i));
    assert(rest[i] == state.active[i + 1]);
    assert(after.active[i].id == rest[i].id);
    if !less.contains(rest[i].id) {
        assert(after.clean_up[less.len() as int] == rest[i].id);
    }
}

/// A gap before an active endpoint stays or becomes part of the next one.
proof fn lemma_gap_stays<S>(state: RegularState<S>, limit: u64, i: int, k: int, n: int)
    requires
        state.is_consistent(limit),
        0 <= i < state.active.len(),
        state.is_in_gap(k, n),
    ensures
        state.unregistered_active(i).is_to_be_removed(n),
{
    let after = state.unregistered_active(i);
    let id = state.active[i].id;
    let rest = state.active.remove(i);
    let less = without_id(state.clean_up, id);
    state.lemma_active_without(limit, i);
    assert(after.active == state.active_without(i));
    lemma_without_id(state.clean_up, id);
    if k < i {
        assert(place_before(i, k) == k);
        assert(after.active[k].id == state.active[k].id && after.active[k].subject == state.active[k].subject);
        if k > 0 {
            assert(after.active[k - 1].subject == state.active[place_before(i, k - 1)].subject);
        }
        lemma_mark_kept(state, limit, i, state.active[k].id);
        assert(after.is_in_gap(k, n));
    } else if k > i {
        assert(after.active[k - 1].id == state.active[place_before(i, k - 1)].id);
        assert(after.active[k - 1].subject == state.active[k].subject);
        if k - 1 > 0 {
            assert(after.active[k - 2].subject == state.active[place_before(i, k - 2)].subject);
            if k - 1 == i {
                assert(state.active[i - 1].number() <= state.active[i].number());
            }
        }
        lemma_mark_kept(state, limit, i, state.active[k].id);
        assert(after.is_in_gap(k - 1, n));
    } else {
        // The endpoint that left was marked, so it was the first one of its subject.
        assert(state.is_marked(i));
        if i < rest.len() {
            lemma_marked_next(state, limit, i);
            assert(after.active[i].subject == state.active[place_before(i, i)].subject);
            assert(state.active[i].number() <= state.active[i + 1].number());
            if i > 0 {
                assert(after.active[i - 1].subject == state.active[place_before(i, i - 1)].subject);
            }
            assert(after.is_in_gap(i, n));
        } else if after.active.len() > 0 {
            assert(after.active[i - 1].subject == state.active[place_before(i, i - 1)].subject);
        }
    }
}

/// The marks of other endpoints are kept.
proof fn lemma_mark_kept<S>(state: RegularState<S>, limit: u64, i: int, other: u64)
    requires
        state.is_consistent(limit),
        0 <= i < state.active.len(),
        state.clean_up.contains(other),
        other != state.active[i].id,
    ensures
        state.unregistered_active(i).clean_up.contains(other),
{
    let after = state.unregistered_active(i);
    let id = state.active[i].id;
    let less = without_id(state.clean_up, id);
    lemma_without_id(state.clean_up, id);
    assert(less.contains(other));
    if state.active[i].head {
        let j = less.index_of(other);
        assert(after.clean_up[j] == other);
    }
}

/// Endpoints may be unregistered at any time: the driver stays up to date but for the updates that
/// it will get.
pub proof fn law_unregistration_is_tracked<S>(state: RegularState<S>, limit: u64, id: u64, received: Set<int>)
    requires
        state.wf(limit),
        has_id(state.active, id) || has_id(state.inactive, id),
        state.is_tracked_by(received),
    ensures
        state.unregistered(id).is_tracked_by(received),
{
    let taken = state.taken_out(id);
    let after = state.unregistered(id);
    if has_id(state.active, id) {
        let i = position(state.active, id);
        assert(0 <= i < state.active.len() && state.active[i].id == id);
        lemma_subject_removed(state.active, i);
        state.lemma_active_without(limit, i);
        assert(taken.active == state.active_without(i));
        assert forall|n: int| has_subject(taken.active, n) <==> has_subject(state.active.remove(i), n) by {
            lemma_same_subjects(taken.active, state.active.remove(i), n);
        }
        assert forall|n: int| #[trigger] received.contains(n) implies has_subject(after.active, n)
            || after.is_to_be_removed(n) by {
            if state.is_to_be_removed(n) || n == state.active[i].number() {
                lemma_still_to_be_removed(state, limit, i, n);
                if taken.is_to_be_removed(n) {
                    lemma_same_gaps(taken, after, n);
                }
            }
        }
    } else {
        assert forall|n: int| #[trigger] received.contains(n) implies has_subject(after.active, n)
            || after.is_to_be_removed(n) by {
            if state.is_to_be_removed(n) {
                lemma_same_gaps(state, after, n);
            }
        }
    }
}

/// What is to be removed depends on the active endpoints and the marks.
proof fn lemma_same_gaps<S>(a: RegularState<S>, b: RegularState<S>, n: int)
    requires
        a.active == b.active,
        a.clean_up == b.clean_up,
        a.clean_up_last == b.clean_up_last,
        a.is_to_be_removed(n),
    ensures
        b.is_to_be_removed(n),
{
    if exists|i: int| #[trigger] a.is_in_gap(i, n) {
        let i = choose|i: int| #[trigger] a.is_in_gap(i, n);
        assert(b.is_in_gap(i, n));
    }
}

/// A driver that follows an update stays up to date.
pub proof fn law_update_is_tracked<S>(
    state: RegularState<S>,
    limit: u64,
    update: FilterUpdate,
    after: RegularState<S>,
    filter: Filter,
)
    requires
        state.wf(limit),
        state.is_tracked_by(filter.subjects),
        state.is_popped(Popped::Update(update), after),
    ensures
        after.is_tracked_by(filter.updated(update).subjects),
        filter.updated(update).destinations == filter.destinations,
{
    let received = filter.subjects;
    let next = filter.updated(update).subjects;
    if state.clean_up.len() > 0 {
        lemma_gap_removed(state, limit, update, after, filter);
    } else if state.clean_up_last {
        lemma_last_gap_removed(state, limit, update, after, filter);
    } else {
        state.lemma_activated(limit);
        lemma_no_gaps(state);
        assert forall|n: int| #[trigger] next.contains(n) implies 0 <= n <= MAX_SUBJECT && has_subject(after.active, n) by {
            if received.contains(n) {
                assert(!state.is_to_be_removed(n));
            }
        }
    }
}

/// Without marks nothing is to be removed.
proof fn lemma_no_gaps<S>(state: RegularState<S>)
    requires
        state.clean_up.len() == 0,
        !state.clean_up_last,
    ensures
        forall|n: int| !#[trigger] state.is_to_be_removed(n),
{
    assert forall|n: int| !#[trigger] state.is_to_be_removed(n) by {
        assert forall|i: int| !#[trigger] state.is_in_gap(i, n) by {
            assert(!state.clean_up.contains(state.active[i].id));
        }
    }
}

/// The driver removed a gap before an active endpoint.
proof fn lemma_gap_removed<S>(
    state: RegularState<S>,
    limit: u64,
    update: FilterUpdate,
    after: RegularState<S>,
    filter: Filter,
)
    requires
        state.wf(limit),
        state.is_tracked_by(filter.subjects),
        state.is_popped(Popped::Update(update), after),
        state.clean_up.len() > 0,
    ensures
        after.is_tracked_by(filter.updated(update).subjects),
{
    let received = filter.subjects;
    let next = filter.updated(update).subjects;
    let id = state.clean_up[0];
    assert(has_id(state.active, id));
    let i = position(state.active, id);
    assert(0 <= i < state.active.len() && state.active[i].id == id);
    assert(state.clean_up.contains(id));
    assert(state.is_marked(i));
    assert forall|n: int| has_subject(after.active, n) implies #[trigger] next.contains(n) by {
        let k = choose|k: int| 0 <= k < state.active.len() && (#[trigger] state.active[k]).number() == n;
        assert(received.contains(n));
        if k < i {
            assert(state.active[k].number() <= state.active[i - 1].number());
        } else {
            assert(state.active[i].number() <= state.active[k].number());
        }
    }
    assert forall|n: int| #[trigger] next.contains(n) implies 0 <= n <= MAX_SUBJECT && (has_subject(after.active, n)
        || after.is_to_be_removed(n)) by {
        assert(received.contains(n));
        if !has_subject(state.active, n) && exists|k: int| #[trigger] state.is_in_gap(k, n) {
            let k = choose|k: int| #[trigger] state.is_in_gap(k, n);
            assert(k != i);
            assert(state.active[k].id != id);
            let j = state.clean_up.index_of(state.active[k].id);
            assert(state.clean_up.drop_first()[j - 1] == state.active[k].id);
            assert(after.is_in_gap(k, n));
        }
    }
}

/// The driver removed the gap behind the last active endpoint.
proof fn lemma_last_gap_removed<S>(
    state: RegularState<S>,
    limit: u64,
    update: FilterUpdate,
    after: RegularState<S>,
    filter: Filter,
)
    requires
        state.wf(limit),
        state.is_tracked_by(filter.subjects),
        state.is_popped(Popped::Update(update), after),
        state.clean_up.len() == 0,
        state.clean_up_last,
    ensures
        after.is_tracked_by(filter.updated(update).subjects),
{
    let received = filter.subjects;
    let next = filter.updated(update).subjects;
    assert forall|n: int| has_subject(after.active, n) implies #[trigger] next.contains(n) by {
        let k = choose|k: int| 0 <= k < state.active.len() && (#[trigger] state.active[k]).number() == n;
        assert(received.contains(n));
        assert(state.active[k].number() <= state.active[state.active.len() - 1].number());
    }
    assert forall|n: int| #[trigger] next.contains(n) implies 0 <= n <= MAX_SUBJECT && (has_subject(after.active, n)
        || after.is_to_be_removed(n)) by {
        assert(received.contains(n));
        if !has_subject(state.active, n) {
            assert(!exists|k: int| #[trigger] state.is_in_gap(k, n)) by {
                assert forall|k: int| !#[trigger] state.is_in_gap(k, n) by {
                    assert(!state.clean_up.contains(state.active[k].id));
                }
            }
        }
    }
}

/// An endpoint that becomes active without an update is of a subject that the driver receives.
pub proof fn law_activation_is_tracked<S>(
    state: RegularState<S>,
    limit: u64,
    after: RegularState<S>,
    received: Set<int>,
)
    requires
        state.wf(limit),
        state.is_tracked_by(received),
        state.is_popped(Popped::CallAgain, after),
    ensures
        after.is_tracked_by(received),
{
    state.lemma_activated(limit);
    lemma_no_gaps(state);
    assert forall|n: int| #[trigger] received.contains(n) implies 0 <= n <= MAX_SUBJECT && has_subject(after.active, n) by {
        assert(!state.is_to_be_removed(n));
    }
}

/// All endpoints that become active without an update are of subjects that the driver receives.
pub proof fn law_settling_is_tracked<S>(state: RegularState<S>, limit: u64, received: Set<int>)
    requires
        state.wf(limit),
        state.is_tracked_by(received),
    ensures
        state.settled().wf(limit),
        state.settled().subjects() == state.subjects(),
        state.settled().is_tracked_by(received),
    decreases state.activation.len(),
{
    if state.is_silent() {
        state.lemma_popped_wf(limit, Popped::CallAgain, state.activated());
        law_activation_is_tracked(state, limit, state.activated(), received);
        law_settling_is_tracked(state.activated(), limit, received);
    }
}

/// When no updates are left, the driver receives exactly the subjects that have endpoints, and
/// each endpoint gets the messages of its subject.
pub proof fn law_driver_is_up_to_date<S>(state: RegularState<S>, limit: u64, received: Set<int>)
    requires
        state.wf(limit),
        state.is_tracked_by(received),
        !state.has_update(),
    ensures
        received == state.subjects(),
        state.inactive.len() == 0,
{
    lemma_no_gaps(state);
    assert(state.inactive.len() == 0) by {
        if state.inactive.len() > 0 {
            assert(state.activation.contains(state.inactive[0].id));
        }
    }
    assert forall|n: int| received.contains(n) <==> state.subjects().contains(n) by {
        if received.contains(n) {
            assert(!state.is_to_be_removed(n));
        }
    }
    assert(received =~= state.subjects());
}

/// A driver that follows the updates never receives more subjects than there are slots.
pub proof fn law_slots_are_sufficient<S>(
    state: RegularState<S>,
    limit: u64,
    update: FilterUpdate,
    after: RegularState<S>,
    filter: Filter,
)
    requires
        state.wf(limit),
        state.is_tracked_by(filter.subjects),
        state.is_popped(Popped::Update(update), after),
        filter.subjects.finite(),
        filter.subjects.len() <= state.slots,
    ensures
        filter.updated(update).subjects.finite(),
        filter.updated(update).subjects.len() <= state.slots,
{
    let next = filter.updated(update).subjects;
    if state.has_update() && (state.clean_up.len() > 0 || state.clean_up_last) {
        assert(next.subset_of(filter.subjects));
        lemma_set_subset_finite(filter.subjects, next);
        lemma_len_subset(next, filter.subjects);
    } else {
        state.lemma_activated(limit);
        lemma_no_gaps(state);
        state.lemma_popped_wf(limit, Popped::Update(update), after);
        assert forall|n: int| next.contains(n) implies after.subjects().contains(n) by {
            if filter.subjects.contains(n) {
                assert(!state.is_to_be_removed(n));
            }
        }
        assert(next.subset_of(after.subjects()));
        lemma_set_subset_finite(after.subjects(), next);
        lemma_len_subset(next, after.subjects());
    }
}

} // verus!
