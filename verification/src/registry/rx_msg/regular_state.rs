//! What the endpoints for messages of other nodes are, and what the driver knows of them.

use vstd::prelude::*;

use crate::ids::SubjectId;
use crate::link::FilterUpdate;
use crate::registry::entry_tree::{
    has_id, has_ids_below, has_subject, has_unique_ids, is_same_but_state, is_sorted, lemma_position, lemma_sorted_changes, lemma_upper_bound, position,
    upper_bound, Slot, Slots,
};
use crate::registry::id_queue::{lemma_push_id, lemma_without_id, place_before, without_id};

verus! {

/// The largest number of a subject.
pub const MAX_SUBJECT: u16 = 0x1fff;

/// The endpoints that receive messages of other nodes.
#[verifier::ext_equal]
pub struct RegularState<S> {
    /// The endpoints whose subject the driver receives.
    pub active: Slots<S>,
    /// The endpoints whose subject the driver has not been told yet.
    pub inactive: Slots<S>,
    /// The endpoint that gets the current frame next.
    pub next_push: Option<u64>,
    /// First endpoints of subjects: the subjects between the previous active one and theirs are
    /// to be removed.
    pub clean_up: Seq<u64>,
    /// The subjects behind the last active one are to be removed.
    pub clean_up_last: bool,
    /// The inactive endpoints in the order of their registration.
    pub activation: Seq<u64>,
    /// The number of different subjects that can be registered at a time.
    pub slots: int,
    /// The number of subjects that can be added.
    pub free: int,
    /// The driver waits for an update.
    pub waiting: bool,
}

/// The subject of an endpoint is larger than that of the previous one.
pub open spec fn is_first<S>(slots: Slots<S>, i: int) -> bool {
    i == 0 || slots[i - 1].number() < slots[i].number()
}

/// An endpoint is the first one of its subject exactly if it is marked so.
pub open spec fn has_right_heads<S>(slots: Slots<S>) -> bool {
    forall|i: int| 0 <= i < slots.len() ==> (slots[i].head <==> #[trigger] is_first(slots, i))
}

/// At least one subject lies between that of an endpoint and that of the previous one.
pub open spec fn has_gap<S>(slots: Slots<S>, i: int) -> bool {
    if i == 0 {
        slots[i].number() >= 1
    } else {
        slots[i - 1].number() + 2 <= slots[i].number()
    }
}

/// The outcome of asking for an update.
pub enum Popped {
    /// The driver has to change its filter.
    Update(FilterUpdate),
    /// An endpoint became active, and the driver need not know.
    CallAgain,
}

impl<S> RegularState<S> {
    /// No endpoints.
    pub open spec fn fresh(slots: int) -> RegularState<S> {
        RegularState {
            active: Seq::empty(),
            inactive: Seq::empty(),
            next_push: None,
            clean_up: Seq::empty(),
            clean_up_last: false,
            activation: Seq::empty(),
            slots,
            free: slots,
            waiting: false,
        }
    }

    /// The endpoints of a subject are registered.
    pub open spec fn is_subject(self, number: int) -> bool {
        has_subject(self.active, number) || has_subject(self.inactive, number)
    }

    /// The subjects that have endpoints.
    pub open spec fn subjects(self) -> Set<int> {
        Set::new(|number: int| self.is_subject(number))
    }

    /// The state is valid. Each subject that has endpoints takes a slot. The driver waits only
    /// while there is nothing that it should know.
    pub open spec fn wf(self, limit: u64) -> bool {
        &&& self.is_consistent(limit)
        &&& self.subjects().finite()
        &&& self.free + self.subjects().len() == self.slots
        &&& self.free >= 0
        &&& self.waiting ==> !self.has_update()
    }

    /// The subjects before an active endpoint are to be removed.
    pub open spec fn is_marked(self, i: int) -> bool {
        0 <= i < self.active.len() && self.clean_up.contains(self.active[i].id)
    }

    /// The parts agree with each other. Identities are below `limit`.
    pub open spec fn is_consistent(self, limit: u64) -> bool {
        &&& is_sorted(self.active)
        &&& is_sorted(self.inactive)
        &&& has_right_heads(self.active)
        &&& forall|i: int| 0 <= i < self.inactive.len() ==> !(#[trigger] self.inactive[i]).head
        &&& forall|i: int| 0 <= i < self.active.len() ==> (#[trigger] self.active[i]).number() <= MAX_SUBJECT
        &&& forall|i: int| 0 <= i < self.inactive.len() ==> (#[trigger] self.inactive[i]).number() <= MAX_SUBJECT
        &&& has_unique_ids(self.active)
        &&& has_unique_ids(self.inactive)
        &&& has_ids_below(self.active, limit)
        &&& has_ids_below(self.inactive, limit)
        &&& forall|i: int, j: int|
            0 <= i < self.active.len() && 0 <= j < self.inactive.len() ==> (#[trigger] self.active[i]).id != (
            #[trigger] self.inactive[j]).id
        &&& self.clean_up.no_duplicates()
        &&& forall|k: int| 0 <= k < self.clean_up.len() ==> has_id(self.active, #[trigger] self.clean_up[k])
        &&& forall|i: int| #[trigger] self.is_marked(i) ==> self.active[i].head && has_gap(self.active, i)
        &&& self.clean_up_last ==> self.active.len() == 0 || self.active.last().number() < MAX_SUBJECT
        &&& self.activation.no_duplicates()
        &&& forall|k: int| 0 <= k < self.activation.len() ==> has_id(self.inactive, #[trigger] self.activation[k])
        &&& forall|i: int| 0 <= i < self.inactive.len() ==> self.activation.contains((#[trigger] self.inactive[i]).id)
        &&& self.next_push matches Some(id) ==> has_id(self.active, id)
    }

    /// An endpoint has been registered, unless a new subject needs a slot and none is left.
    pub open spec fn registered(self, id: u64, subject: SubjectId, state: S) -> Option<RegularState<S>> {
        let number = subject.value() as int;
        let slot = Slot { id, subject, head: false, state };
        let inactive = self.inactive.insert(upper_bound(self.inactive, number), slot);
        if has_subject(self.inactive, number) {
            Some(RegularState { inactive, activation: self.activation.push(id), ..self })
        } else if has_subject(self.active, number) {
            let active = self.active.insert(upper_bound(self.active, number), slot);
            Some(RegularState { active, ..self })
        } else if self.free == 0 {
            None
        } else {
            Some(
                RegularState {
                    inactive,
                    activation: self.activation.push(id),
                    free: self.free - 1,
                    waiting: false,
                    ..self
                },
            )
        }
    }

    /// Where the current frame goes on when an active endpoint leaves.
    pub open spec fn next_push_without(self, i: int) -> Option<u64> {
        let rest = self.active.remove(i);
        if self.next_push != Some(self.active[i].id) {
            self.next_push
        } else if i < rest.len() && !rest[i].head {
            Some(rest[i].id)
        } else {
            None
        }
    }

    /// The first endpoint of an active subject has been unregistered.
    ///
    /// The next endpoint becomes the first one of its subject. If it was that before, the subject
    /// of the endpoint that left is to be removed from the filter.
    pub open spec fn unregistered_head(self, i: int) -> RegularState<S> {
        let id = self.active[i].id;
        let rest = self.active.remove(i);
        let marked = self.clean_up.contains(id);
        let clean_up = without_id(self.clean_up, id);
        let next = RegularState { next_push: self.next_push_without(i), ..self };
        if i < rest.len() {
            let active = rest.update(i, Slot { head: true, ..rest[i] });
            if (marked || rest[i].head) && !clean_up.contains(rest[i].id) {
                RegularState {
                    active,
                    clean_up: clean_up.push(rest[i].id),
                    waiting: false,
                    ..next
                }
            } else {
                RegularState { active, clean_up, ..next }
            }
        } else {
            RegularState {
                active: rest,
                clean_up,
                clean_up_last: true,
                waiting: false,
                ..next
            }
        }
    }

    /// Another endpoint of an active subject has been unregistered.
    pub open spec fn unregistered_tail(self, i: int) -> RegularState<S> {
        RegularState { active: self.active.remove(i), next_push: self.next_push_without(i), ..self }
    }

    /// An endpoint of an active subject has been unregistered.
    pub open spec fn unregistered_active(self, i: int) -> RegularState<S> {
        if self.active[i].head {
            self.unregistered_head(i)
        } else {
            self.unregistered_tail(i)
        }
    }

    /// An inactive endpoint has been unregistered.
    pub open spec fn unregistered_inactive(self, id: u64) -> RegularState<S> {
        RegularState {
            inactive: self.inactive.remove(position(self.inactive, id)),
            activation: without_id(self.activation, id),
            ..self
        }
    }

    /// The endpoint with an identity.
    pub open spec fn slot(self, id: u64) -> Slot<S> {
        if has_id(self.active, id) {
            self.active[position(self.active, id)]
        } else {
            self.inactive[position(self.inactive, id)]
        }
    }

    /// An endpoint has been taken out.
    pub open spec fn taken_out(self, id: u64) -> RegularState<S> {
        if has_id(self.active, id) {
            self.unregistered_active(position(self.active, id))
        } else {
            self.unregistered_inactive(id)
        }
    }

    /// An endpoint has been unregistered. The last endpoint of a subject gives the slot back.
    pub open spec fn unregistered(self, id: u64) -> RegularState<S> {
        let after = self.taken_out(id);
        if after.is_subject(self.slot(id).number()) {
            after
        } else {
            RegularState { free: self.free + 1, ..after }
        }
    }

    /// The subjects behind the endpoint before position `i`, up to the given one.
    pub open spec fn is_range(self, update: FilterUpdate, i: int, last: int) -> bool {
        &&& update is RemoveSubjectRange
        &&& update->RemoveSubjectRange_0@[0].value() == (if i == 0 {
            0
        } else {
            self.active[i - 1].number() + 1
        })
        &&& update->RemoveSubjectRange_0@[1].value() == last
    }

    /// What comes next for the driver, and the state after it was told.
    pub open spec fn is_popped(self, popped: Popped, after: RegularState<S>) -> bool {
        if self.clean_up.len() > 0 {
            let i = position(self.active, self.clean_up[0]);
            &&& popped is Update
            &&& self.is_range(popped->Update_0, i, self.active[i].number() - 1)
            &&& after == (RegularState { clean_up: self.clean_up.drop_first(), ..self })
        } else if self.clean_up_last {
            &&& popped is Update
            &&& self.is_range(popped->Update_0, self.active.len() as int, MAX_SUBJECT as int)
            &&& after == (RegularState { clean_up_last: false, ..self })
        } else {
            &&& self.activation.len() > 0
            &&& after == self.activated()
            &&& match popped {
                Popped::Update(update) => {
                    &&& !has_subject(self.active, self.first_inactive().number())
                    &&& update == FilterUpdate::AddSubject(self.first_inactive().subject)
                },
                Popped::CallAgain => has_subject(self.active, self.first_inactive().number()),
            }
        }
    }

    /// The endpoint that becomes active next.
    pub open spec fn first_inactive(self) -> Slot<S> {
        self.inactive[position(self.inactive, self.activation[0])]
    }

    /// The next endpoint has become active.
    pub open spec fn activated(self) -> RegularState<S> {
        let slot = self.first_inactive();
        let head = !has_subject(self.active, slot.number());
        RegularState {
            inactive: self.inactive.remove(position(self.inactive, self.activation[0])),
            activation: self.activation.drop_first(),
            active: self.active.insert(
                upper_bound(self.active, slot.number()),
                Slot { head, ..slot },
            ),
            ..self
        }
    }

    /// The next thing to do is to make an endpoint active of which the driver need not know.
    pub open spec fn is_silent(self) -> bool {
        &&& self.clean_up.len() == 0
        &&& !self.clean_up_last
        &&& self.activation.len() > 0
        &&& has_subject(self.active, self.first_inactive().number())
    }

    /// The endpoints have become active of which the driver need not know.
    pub open spec fn settled(self) -> RegularState<S>
        decreases self.activation.len(),
    {
        if self.is_silent() {
            self.activated().settled()
        } else {
            self
        }
    }

    /// What the buffer of an endpoint holds has changed.
    pub open spec fn with_state(self, id: u64, state: S) -> RegularState<S> {
        if has_id(self.active, id) {
            let i = position(self.active, id);
            RegularState { active: self.active.update(i, Slot { state, ..self.active[i] }), ..self }
        } else {
            let i = position(self.inactive, id);
            RegularState { inactive: self.inactive.update(i, Slot { state, ..self.inactive[i] }), ..self }
        }
    }

    /// There is something that the driver should know.
    pub open spec fn has_update(self) -> bool {
        self.clean_up.len() > 0 || self.clean_up_last || self.activation.len() > 0
    }
}

/// The endpoints after one was taken out.
pub proof fn lemma_slots_removed<S>(slots: Slots<S>, i: int)
    requires
        has_unique_ids(slots),
        0 <= i < slots.len(),
    ensures
        has_unique_ids(slots.remove(i)),
        forall|x: u64| #[trigger] has_id(slots.remove(i), x) <==> has_id(slots, x) && x != slots[i].id,
        forall|k: int|
            0 <= k < slots.remove(i).len() ==> #[trigger] slots.remove(i)[k] == slots[place_before(i, k)],
{
    let rest = slots.remove(i);
    assert forall|x: u64| #[trigger] has_id(rest, x) <==> has_id(slots, x) && x != slots[i].id by {
        if has_id(rest, x) {
            let k = choose|k: int| 0 <= k < rest.len() && (#[trigger] rest[k]).id == x;
            let k0 = if k >= i { k + 1 } else { k };
            assert(slots[k0].id == x);
        }
        if has_id(slots, x) && x != slots[i].id {
            let k0 = choose|k: int| 0 <= k < slots.len() && (#[trigger] slots[k]).id == x;
            let k = if k0 > i { k0 - 1 } else { k0 };
            assert(rest[k].id == x);
        }
    }
    assert forall|x: int, y: int|
        0 <= x < rest.len() && 0 <= y < rest.len() && (#[trigger] rest[x]).id == (#[trigger] rest[y]).id implies x == y by {
        let x0 = if x >= i { x + 1 } else { x };
        let y0 = if y >= i { y + 1 } else { y };
        assert(slots[x0].id == slots[y0].id);
    }
}

/// The endpoints after a new one was inserted.
pub proof fn lemma_slots_inserted<S>(slots: Slots<S>, i: int, slot: Slot<S>)
    requires
        has_unique_ids(slots),
        0 <= i <= slots.len(),
        !has_id(slots, slot.id),
    ensures
        has_unique_ids(slots.insert(i, slot)),
        forall|x: u64| #[trigger] has_id(slots.insert(i, slot), x) <==> has_id(slots, x) || x == slot.id,
        forall|k: int|
            0 <= k < slots.insert(i, slot).len() ==> #[trigger] slots.insert(i, slot)[k] == (if k < i {
                slots[k]
            } else if k == i {
                slot
            } else {
                slots[k - 1]
            }),
{
    let more = slots.insert(i, slot);
    assert forall|x: u64| #[trigger] has_id(more, x) <==> has_id(slots, x) || x == slot.id by {
        if has_id(more, x) {
            let k = choose|k: int| 0 <= k < more.len() && (#[trigger] more[k]).id == x;
            if k != i {
                let k0 = if k > i { k - 1 } else { k };
                assert(slots[k0].id == x);
            }
        }
        if has_id(slots, x) {
            let k0 = choose|k: int| 0 <= k < slots.len() && (#[trigger] slots[k]).id == x;
            let k = if k0 >= i { k0 + 1 } else { k0 };
            assert(more[k].id == x);
        }
        if x == slot.id {
            assert(more[i].id == x);
        }
    }
    assert forall|x: int, y: int|
        0 <= x < more.len() && 0 <= y < more.len() && (#[trigger] more[x]).id == (#[trigger] more[y]).id implies x == y by {
        let x0 = if x > i { x - 1 } else { x };
        let y0 = if y > i { y - 1 } else { y };
        if x != i && y != i {
            assert(slots[x0].id == slots[y0].id);
        } else if x == i && y != i {
            assert(slots[y0].id == slot.id);
        } else if y == i && x != i {
            assert(slots[x0].id == slot.id);
        }
    }
}

/// The marks of the first endpoints after a new endpoint was inserted behind those of its subject.
proof fn lemma_heads_inserted<S>(slots: Slots<S>, slot: Slot<S>)
    requires
        is_sorted(slots),
        has_right_heads(slots),
        slot.head == !has_subject(slots, slot.number()),
    ensures
        has_right_heads(slots.insert(upper_bound(slots, slot.number()), slot)),
{
    let b = upper_bound(slots, slot.number());
    lemma_upper_bound(slots, slot.number());
    let more = slots.insert(b, slot);
    assert forall|i: int| 0 <= i < more.len() implies (more[i].head <==> #[trigger] is_first(more, i)) by {
        if i < b {
            assert(is_first(slots, i) == slots[i].head);
            assert(more[i] == slots[i]);
            if i > 0 {
                assert(more[i - 1] == slots[i - 1]);
            }
        } else if i == b {
            if i > 0 {
                assert(more[i - 1] == slots[i - 1]);
                assert(slots[i - 1].number() <= slot.number());
            }
        } else {
            assert(more[i] == slots[i - 1]);
            assert(slots[i - 1].number() > slot.number());
            if i - 1 > b {
                assert(more[i - 1] == slots[i - 2]);
                assert(slots[i - 1].head <==> is_first(slots, i - 1));
            } else {
                // The endpoint behind the new one is of a larger subject.
                assert(slots[b].head) by {
                    assert(slots[b].head == is_first(slots, b));
                    if b > 0 {
                        assert(slots[b - 1].number() <= slot.number());
                    }
                }
            }
        }
    }
}

impl<S> RegularState<S> {
    /// Registration of a new endpoint of an active subject.
    proof fn lemma_registered_active(self, limit: u64, subject: SubjectId, state: S)
        requires
            self.is_consistent(limit),
            limit < u64::MAX,
            subject.value() <= MAX_SUBJECT,
            has_subject(self.active, subject.value() as int),
        ensures
            ({
                let slot = Slot { id: limit, subject, head: false, state };
                let active = self.active.insert(upper_bound(self.active, slot.number()), slot);
                (RegularState { active, ..self }).is_consistent((limit + 1) as u64)
            }),
    {
        let number = subject.value() as int;
        let slot = Slot { id: limit, subject, head: false, state };
        lemma_upper_bound(self.active, number);
        lemma_sorted_changes(self.active, slot, 0);
        let b = upper_bound(self.active, number);
        assert(!has_id(self.active, limit));
        lemma_slots_inserted(self.active, b, slot);
        lemma_heads_inserted(self.active, slot);
        let after = RegularState { active: self.active.insert(b, slot), ..self };
        assert forall|i: int| #[trigger] after.is_marked(i) implies after.active[i].head && has_gap(after.active, i) by {
            if i == b {
                let k = self.clean_up.index_of(limit);
                assert(has_id(self.active, self.clean_up[k]));
            } else {
                let i0 = if i > b { i - 1 } else { i };
                assert(after.active[i] == self.active[i0]);
                assert(self.is_marked(i0));
                assert(self.active[b - 1].number() == number);
                if i > 0 && i - 1 < b {
                    assert(after.active[i - 1] == self.active[i - 1]);
                } else if i > 0 && i - 1 > b {
                    assert(after.active[i - 1] == self.active[i - 2]);
                }
            }
        }
        if after.clean_up_last {
            if b == self.active.len() {
                assert(after.active.last() == slot);
                assert(self.active[b - 1].number() == number);
            } else {
                assert(after.active.last() == self.active.last());
            }
        }
        assert forall|i: int| 0 <= i < after.active.len() implies (#[trigger] after.active[i]).number() <= MAX_SUBJECT
            && after.active[i].id < limit + 1 by {
            if i != b {
                assert(after.active[i] == self.active[if i > b { i - 1 } else { i }]);
            }
        }
        assert forall|i: int, j: int| 0 <= i < after.active.len() && 0 <= j < after.inactive.len() implies (
        #[trigger] after.active[i]).id != (#[trigger] after.inactive[j]).id by {
            if i != b {
                assert(after.active[i] == self.active[if i > b { i - 1 } else { i }]);
            }
        }
        assert forall|k: int| 0 <= k < after.clean_up.len() implies has_id(after.active, #[trigger] after.clean_up[k]) by {
            assert(has_id(self.active, self.clean_up[k]));
        }
    }

    /// Registration of an endpoint that becomes active later.
    proof fn lemma_registered_inactive(self, limit: u64, subject: SubjectId, state: S, free: int, waiting: bool)
        requires
            self.is_consistent(limit),
            limit < u64::MAX,
            subject.value() <= MAX_SUBJECT,
        ensures
            ({
                let slot = Slot { id: limit, subject, head: false, state };
                let inactive = self.inactive.insert(upper_bound(self.inactive, slot.number()), slot);
                (RegularState { inactive, activation: self.activation.push(limit), free, waiting, ..self }).is_consistent(
                    (limit + 1) as u64,
                )
            }),
    {
        let number = subject.value() as int;
        let slot = Slot { id: limit, subject, head: false, state };
        lemma_upper_bound(self.inactive, number);
        lemma_sorted_changes(self.inactive, slot, 0);
        let b = upper_bound(self.inactive, number);
        assert(!has_id(self.inactive, limit));
        lemma_slots_inserted(self.inactive, b, slot);
        lemma_push_id(self.activation, limit);
        assert(!self.activation.contains(limit)) by {
            if self.activation.contains(limit) {
                let k = self.activation.index_of(limit);
                assert(has_id(self.inactive, self.activation[k]));
            }
        }
        let after = RegularState {
            inactive: self.inactive.insert(b, slot),
            activation: self.activation.push(limit),
            free,
            waiting,
            ..self
        };
        assert forall|i: int| #[trigger] after.is_marked(i) implies after.active[i].head && has_gap(after.active, i) by {
            assert(self.is_marked(i));
        }
        assert forall|k: int| 0 <= k < after.activation.len() implies has_id(after.inactive, #[trigger] after.activation[k]) by {
            if k < self.activation.len() {
                assert(has_id(self.inactive, self.activation[k]));
            }
        }
        assert forall|i: int| 0 <= i < after.inactive.len() implies !(#[trigger] after.inactive[i]).head
            && after.inactive[i].number() <= MAX_SUBJECT && after.inactive[i].id < limit + 1
            && after.activation.contains(after.inactive[i].id) by {
            if i != b {
                let i0 = if i > b { i - 1 } else { i };
                assert(after.inactive[i] == self.inactive[i0]);
                assert(self.activation.contains(self.inactive[i0].id));
            }
        }
        assert forall|i: int, j: int| 0 <= i < after.active.len() && 0 <= j < after.inactive.len() implies (
        #[trigger] after.active[i]).id != (#[trigger] after.inactive[j]).id by {
            if j != b {
                assert(after.inactive[j] == self.inactive[if j > b { j - 1 } else { j }]);
            }
        }
        assert forall|i: int| 0 <= i < after.active.len() implies (#[trigger] after.active[i]).id < limit + 1 by {}
    }

    /// Registration keeps the parts in agreement.
    pub proof fn lemma_registered(self, limit: u64, subject: SubjectId, state: S)
        requires
            self.is_consistent(limit),
            limit < u64::MAX,
            subject.value() <= MAX_SUBJECT,
        ensures
            self.registered(limit, subject, state) matches Some(after) ==> after.is_consistent((limit + 1) as u64),
    {
        let number = subject.value() as int;
        if has_subject(self.inactive, number) {
            self.lemma_registered_inactive(limit, subject, state, self.free, self.waiting);
        } else if has_subject(self.active, number) {
            self.lemma_registered_active(limit, subject, state);
        } else if self.free != 0 {
            self.lemma_registered_inactive(limit, subject, state, self.free - 1, false);
        }
    }

    /// Where the current frame goes on is active.
    proof fn lemma_next_push(self, limit: u64, i: int)
        requires
            self.is_consistent(limit),
            0 <= i < self.active.len(),
        ensures
            self.next_push_without(i) matches Some(id) ==> has_id(self.active.remove(i), id),
    {
        let rest = self.active.remove(i);
        lemma_slots_removed(self.active, i);
        if self.next_push == Some(self.active[i].id) && i < rest.len() {
            assert(has_id(rest, rest[i].id));
        }
    }

    /// The active endpoints after one of them left.
    pub open spec fn active_without(self, i: int) -> Slots<S> {
        let rest = self.active.remove(i);
        if self.active[i].head && i < rest.len() {
            rest.update(i, Slot { head: true, ..rest[i] })
        } else {
            rest
        }
    }

    /// The order, the marks and the identities of the active endpoints after one of them left.
    pub proof fn lemma_active_without(self, limit: u64, i: int)
        requires
            self.is_consistent(limit),
            0 <= i < self.active.len(),
        ensures
            ({
                let after = self.active_without(i);
                let rest = self.active.remove(i);
                &&& after.len() == rest.len()
                &&& forall|k: int|
                    0 <= k < rest.len() ==> (#[trigger] after[k]).id == self.active[place_before(i, k)].id && after[k].subject == self.active[place_before(i, k)].subject
                &&& is_sorted(after)
                &&& has_unique_ids(after)
                &&& has_right_heads(after)
                &&& has_ids_below(after, limit)
                &&& forall|k: int| 0 <= k < after.len() ==> (#[trigger] after[k]).number() <= MAX_SUBJECT
                &&& forall|x: u64| #[trigger] has_id(after, x) <==> has_id(self.active, x) && x != self.active[i].id
            }),
    {
        let after = self.active_without(i);
        let rest = self.active.remove(i);
        lemma_slots_removed(self.active, i);
        lemma_sorted_changes(self.active, self.active[i], i);
        assert forall|k: int| 0 <= k < rest.len() implies (#[trigger] after[k]).id == self.active[place_before(i, k)].id && after[k].subject == self.active[place_before(i, k)].subject by {
            assert(rest[k] == self.active[place_before(i, k)]);
        }
        assert forall|x: int, y: int| 0 <= x <= y < after.len() implies (#[trigger] after[x]).number() <= (
        #[trigger] after[y]).number() by {
            assert(rest[x].number() <= rest[y].number());
        }
        assert forall|x: int, y: int|
            0 <= x < after.len() && 0 <= y < after.len() && (#[trigger] after[x]).id == (#[trigger] after[y]).id implies x == y by {
            assert(rest[x].id == rest[y].id);
        }
        assert forall|x: u64| #[trigger] has_id(after, x) <==> has_id(rest, x) by {
            if has_id(after, x) {
                let k = choose|k: int| 0 <= k < after.len() && (#[trigger] after[k]).id == x;
                assert(rest[k].id == x);
            }
            if has_id(rest, x) {
                let k = choose|k: int| 0 <= k < rest.len() && (#[trigger] rest[k]).id == x;
                assert(after[k].id == x);
            }
        }
        assert forall|k: int| 0 <= k < after.len() implies (after[k].head <==> #[trigger] is_first(after, k)) by {
            let k0 = if k >= i { k + 1 } else { k };
            assert(rest[k] == self.active[k0]);
            assert(self.active[k0].head <==> is_first(self.active, k0));
            if k > 0 {
                assert(rest[k - 1] == self.active[if k - 1 >= i { k } else { k - 1 }]);
            }
            if k == i {
                assert(self.active[i].head <==> is_first(self.active, i));
                assert(self.active[i].number() <= self.active[i + 1].number());
                if i > 0 {
                    assert(self.active[i - 1].number() <= self.active[i].number());
                }
            }
        }
    }

    /// What is to be removed from the filter after an active endpoint left.
    proof fn lemma_unregistered_marks(self, limit: u64, i: int)
        requires
            self.is_consistent(limit),
            0 <= i < self.active.len(),
        ensures
            ({
                let after = self.unregistered_active(i);
                &&& after.clean_up.no_duplicates()
                &&& forall|k: int| 0 <= k < after.clean_up.len() ==> has_id(after.active, #[trigger] after.clean_up[k])
                &&& forall|k: int| #[trigger] after.is_marked(k) ==> after.active[k].head && has_gap(after.active, k)
                &&& after.clean_up_last ==> after.active.len() == 0 || after.active.last().number() < MAX_SUBJECT
            }),
    {
        let id = self.active[i].id;
        let rest = self.active.remove(i);
        let after = self.unregistered_active(i);
        self.lemma_active_without(limit, i);
        assert(after.active == self.active_without(i));
        lemma_without_id(self.clean_up, id);
        let less = without_id(self.clean_up, id);
        if !self.active[i].head {
            assert(!self.is_marked(i));
            assert(less == self.clean_up);
        }
        if i < rest.len() {
            lemma_push_id(less, rest[i].id);
        }
        assert forall|k: int| 0 <= k < after.clean_up.len() implies has_id(after.active, #[trigger] after.clean_up[k]) by {
            if k < less.len() {
                assert(after.clean_up[k] == less[k]);
                assert(less.contains(less[k]));
                let j = self.clean_up.index_of(less[k]);
                assert(has_id(self.active, self.clean_up[j]));
            } else {
                assert(after.active[i].id == after.clean_up[k]);
            }
        }
        assert forall|k: int| #[trigger] after.is_marked(k) implies after.active[k].head && has_gap(after.active, k) by {
            self.lemma_mark_stays(limit, i, k);
        }
        if after.clean_up_last && after.active.len() > 0 {
            let last = after.active.len() - 1;
            if i <= last {
                assert(after.active[last].subject == self.active[last + 1].subject);
                assert(self.clean_up_last);
            } else {
                assert(after.active[last].subject == self.active[i - 1].subject);
                assert(self.active[i].head <==> is_first(self.active, i));
                assert(self.active[i - 1].number() <= self.active[i].number());
            }
        }
    }

    /// A gap stays or grows.
    proof fn lemma_mark_stays(self, limit: u64, i: int, k: int)
        requires
            self.is_consistent(limit),
            0 <= i < self.active.len(),
            self.unregistered_active(i).is_marked(k),
        ensures
            self.active_without(i)[k].head,
            has_gap(self.active_without(i), k),
    {
        let id = self.active[i].id;
        let rest = self.active.remove(i);
        let after = self.unregistered_active(i);
        self.lemma_active_without(limit, i);
        assert(after.active == self.active_without(i));
        lemma_without_id(self.clean_up, id);
        let less = without_id(self.clean_up, id);
        if i < rest.len() {
            lemma_push_id(less, rest[i].id);
        }
        let k0 = if k >= i { k + 1 } else { k };
        assert(after.active[k].id == self.active[k0].id);
        assert(after.active[k].subject == self.active[k0].subject);
        if k > 0 {
            assert(after.active[k - 1].subject == self.active[if k - 1 >= i { k } else { k - 1 }].subject);
        }
        if less.contains(after.active[k].id) {
            assert(self.is_marked(k0));
            if k == i {
                assert(self.active[i].number() <= self.active[i + 1].number());
                if i > 0 {
                    assert(self.active[i - 1].number() <= self.active[i].number());
                }
            }
        } else if self.active[i].head {
            assert(after.active[k].id == rest[i].id);
            assert(self.active[k0].id == self.active[i + 1].id);
            assert(k == i);
            assert(self.active[i].number() <= self.active[i + 1].number());
            assert(self.active[i].head <==> is_first(self.active, i));
            assert(self.active[i + 1].head <==> is_first(self.active, i + 1));
            if self.clean_up.contains(id) {
                assert(self.is_marked(i));
            }
        } else {
            assert(!self.is_marked(i));
        }
    }

    /// Unregistration keeps the parts in agreement.
    pub proof fn lemma_taken_out(self, limit: u64, id: u64)
        requires
            self.is_consistent(limit),
            has_id(self.active, id) || has_id(self.inactive, id),
        ensures
            self.taken_out(id).is_consistent(limit),
    {
        let after = self.taken_out(id);
        if has_id(self.active, id) {
            let i = position(self.active, id);
            assert(0 <= i < self.active.len() && self.active[i].id == id);
            self.lemma_active_without(limit, i);
            self.lemma_next_push(limit, i);
            assert(after == self.unregistered_active(i));
            self.lemma_unregistered_marks(limit, i);
            lemma_slots_removed(self.active, i);
            assert(after.active == self.active_without(i));
            assert forall|x: int, y: int| 0 <= x < after.active.len() && 0 <= y < after.inactive.len() implies (
            #[trigger] after.active[x]).id != (#[trigger] after.inactive[y]).id by {
                assert(after.active[x].id == self.active[if x >= i { x + 1 } else { x }].id);
            }
        } else {
            let i = position(self.inactive, id);
            assert(0 <= i < self.inactive.len() && self.inactive[i].id == id);
            self.lemma_inactive_without(limit, i);
            assert forall|k: int| #[trigger] after.is_marked(k) implies after.active[k].head && has_gap(after.active, k) by {
                assert(self.is_marked(k));
            }
        }
    }

    /// The inactive endpoints after one of them left.
    proof fn lemma_inactive_without(self, limit: u64, i: int)
        requires
            self.is_consistent(limit),
            0 <= i < self.inactive.len(),
        ensures
            ({
                let inactive = self.inactive.remove(i);
                let activation = without_id(self.activation, self.inactive[i].id);
                &&& is_sorted(inactive)
                &&& has_unique_ids(inactive)
                &&& has_ids_below(inactive, limit)
                &&& activation.no_duplicates()
                &&& forall|k: int| 0 <= k < activation.len() ==> has_id(inactive, #[trigger] activation[k])
                &&& forall|k: int|
                    0 <= k < inactive.len() ==> activation.contains((#[trigger] inactive[k]).id) && !inactive[k].head
                        && inactive[k].number() <= MAX_SUBJECT
                &&& forall|x: int, y: int|
                    0 <= x < self.active.len() && 0 <= y < inactive.len() ==> (#[trigger] self.active[x]).id != (
                    #[trigger] inactive[y]).id
            }),
    {
        let id = self.inactive[i].id;
        let inactive = self.inactive.remove(i);
        let activation = without_id(self.activation, id);
        lemma_slots_removed(self.inactive, i);
        lemma_sorted_changes(self.inactive, self.inactive[i], i);
        lemma_without_id(self.activation, id);
        assert forall|k: int| 0 <= k < activation.len() implies has_id(inactive, #[trigger] activation[k]) by {
            assert(activation.contains(activation[k]));
            assert(self.activation.contains(activation[k]));
            let j = self.activation.index_of(activation[k]);
            assert(has_id(self.inactive, self.activation[j]));
        }
        assert forall|k: int| 0 <= k < inactive.len() implies activation.contains((#[trigger] inactive[k]).id)
            && !inactive[k].head && inactive[k].number() <= MAX_SUBJECT && inactive[k].id < limit by {
            let k0 = if k >= i { k + 1 } else { k };
            assert(inactive[k] == self.inactive[k0]);
            assert(self.activation.contains(self.inactive[k0].id));
            if self.inactive[k0].id == id {
                assert(k0 == i);
            }
        }
        assert forall|x: int, y: int| 0 <= x < self.active.len() && 0 <= y < inactive.len() implies (
        #[trigger] self.active[x]).id != (#[trigger] inactive[y]).id by {
            assert(inactive[y] == self.inactive[if y >= i { y + 1 } else { y }]);
        }
    }

    /// Registration keeps the state valid, and it fails exactly if a new subject finds all slots
    /// taken by other subjects.
    pub proof fn lemma_registered_wf(self, limit: u64, subject: SubjectId, state: S)
        requires
            self.wf(limit),
            limit < u64::MAX,
            subject.value() <= MAX_SUBJECT,
        ensures
            self.registered(limit, subject, state) is None <==> !self.is_subject(subject.value() as int)
                && self.subjects().len() == self.slots,
            self.registered(limit, subject, state) matches Some(after) ==> after.wf((limit + 1) as u64)
                && after.subjects() == self.subjects().insert(subject.value() as int),
    {
        let number = subject.value() as int;
        self.lemma_registered(limit, subject, state);
        if let Some(after) = self.registered(limit, subject, state) {
            let slot = Slot { id: limit, subject, head: false, state };
            lemma_upper_bound(self.active, number);
            lemma_upper_bound(self.inactive, number);
            if has_subject(self.active, number) && !has_subject(self.inactive, number) {
                lemma_subject_inserted(self.active, upper_bound(self.active, number), slot);
            } else {
                lemma_subject_inserted(self.inactive, upper_bound(self.inactive, number), slot);
            }
            assert(after.subjects() =~= self.subjects().insert(number));
            if !self.is_subject(number) {
                assert(!self.subjects().contains(number));
            } else {
                assert(self.subjects().contains(number));
                assert(after.subjects() =~= self.subjects());
            }
            if has_subject(self.inactive, number) {
                let i = choose|i: int| 0 <= i < self.inactive.len() && (#[trigger] self.inactive[i]).number() == number;
                assert(self.activation.contains(self.inactive[i].id));
            }
        }
    }

    /// The subjects after an endpoint was taken out.
    proof fn lemma_subjects_taken_out(self, limit: u64, id: u64)
        requires
            self.is_consistent(limit),
            has_id(self.active, id) || has_id(self.inactive, id),
        ensures
            ({
                let number = self.slot(id).number();
                let after = self.taken_out(id);
                &&& self.subjects().contains(number)
                &&& after.subjects() == (if after.is_subject(number) {
                    self.subjects()
                } else {
                    self.subjects().remove(number)
                })
            }),
    {
        let number = self.slot(id).number();
        let after = self.taken_out(id);
        if has_id(self.active, id) {
            let i = position(self.active, id);
            assert(0 <= i < self.active.len() && self.active[i].id == id);
            assert(has_subject(self.active, number));
            lemma_subject_removed(self.active, i);
            self.lemma_active_without(limit, i);
            assert(after.active == self.active_without(i));
            assert forall|n: int| has_subject(after.active, n) <==> has_subject(self.active.remove(i), n) by {
                lemma_same_subjects(after.active, self.active.remove(i), n);
            }
        } else {
            let i = position(self.inactive, id);
            assert(0 <= i < self.inactive.len() && self.inactive[i].id == id);
            assert(has_subject(self.inactive, number));
            lemma_subject_removed(self.inactive, i);
        }
        assert(after.subjects() =~= (if after.is_subject(number) {
            self.subjects()
        } else {
            self.subjects().remove(number)
        }));
    }

    /// Unregistration keeps the state valid.
    pub proof fn lemma_unregistered_wf(self, limit: u64, id: u64)
        requires
            self.wf(limit),
            has_id(self.active, id) || has_id(self.inactive, id),
        ensures
            self.unregistered(id).wf(limit),
            self.unregistered(id).free <= self.slots,
    {
        let taken = self.taken_out(id);
        let after = self.unregistered(id);
        self.lemma_taken_out(limit, id);
        self.lemma_subjects_taken_out(limit, id);
        assert forall|k: int| #[trigger] after.is_marked(k) implies after.active[k].head && has_gap(after.active, k) by {
            assert(taken.is_marked(k));
        }
        assert(after.subjects() =~= taken.subjects());
        if after.waiting {
            assert(self.waiting);
            assert(self.activation.len() == 0);
            lemma_without_id(self.clean_up, self.slot(id).id);
            assert(after.activation.len() == 0) by {
                if has_id(self.inactive, id) && !has_id(self.active, id) {
                    let i = position(self.inactive, id);
                    assert(self.activation.contains(self.inactive[i].id));
                }
            }
        }
    }
}

impl<S> RegularState<S> {
    /// The endpoint that waits longest has become active.
    pub proof fn lemma_activated(self, limit: u64)
        requires
            self.is_consistent(limit),
            self.clean_up.len() == 0,
            !self.clean_up_last,
            self.activation.len() > 0,
        ensures
            self.activated().is_consistent(limit),
            self.activated().subjects() == self.subjects(),
            self.first_inactive().number() <= MAX_SUBJECT,
            self.activated().active.len() == self.active.len() + 1,
            forall|n: int|
                #[trigger] has_subject(self.activated().active, n) <==> has_subject(self.active, n) || n
                    == self.first_inactive().number(),
    {
        let id = self.activation[0];
        assert(has_id(self.inactive, id));
        let i = position(self.inactive, id);
        assert(0 <= i < self.inactive.len() && self.inactive[i].id == id);
        let slot = self.first_inactive();
        let head = !has_subject(self.active, slot.number());
        let entry = Slot { head, ..slot };
        let after = self.activated();
        let b = upper_bound(self.active, slot.number());
        lemma_upper_bound(self.active, slot.number());
        lemma_sorted_changes(self.active, entry, 0);
        lemma_heads_inserted(self.active, entry);
        assert(!has_id(self.active, id)) by {
            if has_id(self.active, id) {
                let k = choose|k: int| 0 <= k < self.active.len() && (#[trigger] self.active[k]).id == id;
                assert(self.active[k].id != self.inactive[i].id);
            }
        }
        lemma_slots_inserted(self.active, b, entry);
        self.lemma_inactive_without(limit, i);
        assert(without_id(self.activation, id) =~= self.activation.drop_first()) by {
            assert(self.activation.contains(id));
            assert(self.activation.index_of(id) == 0);
        }
        assert forall|k: int| #[trigger] after.is_marked(k) implies after.active[k].head && has_gap(after.active, k) by {
            assert(!after.clean_up.contains(after.active[k].id));
        }
        assert forall|k: int| 0 <= k < after.active.len() implies (#[trigger] after.active[k]).number() <= MAX_SUBJECT
            && after.active[k].id < limit by {
            if k < b {
                assert(after.active[k] == self.active[k]);
            } else if k > b {
                assert(after.active[k] == self.active[k - 1]);
            }
        }
        assert forall|x: int, y: int| 0 <= x < after.active.len() && 0 <= y < after.inactive.len() implies (
        #[trigger] after.active[x]).id != (#[trigger] after.inactive[y]).id by {
            if x < b {
                assert(after.active[x] == self.active[x]);
            } else if x > b {
                assert(after.active[x] == self.active[x - 1]);
            } else {
                assert(after.inactive[y] == self.inactive[place_before(i, y)]);
            }
        }
        lemma_subject_inserted(self.active, b, entry);
        lemma_subject_removed(self.inactive, i);
        assert(has_subject(self.inactive, slot.number()));
        assert(after.subjects() =~= self.subjects());
    }

    /// Telling the driver keeps the state valid.
    pub proof fn lemma_popped_wf(self, limit: u64, popped: Popped, after: RegularState<S>)
        requires
            self.wf(limit),
            self.is_popped(popped, after),
        ensures
            after.wf(limit),
            after.subjects() == self.subjects(),
            !self.waiting,
    {
        if self.clean_up.len() > 0 {
            let rest = self.clean_up.drop_first();
            assert forall|k: int| #[trigger] after.is_marked(k) implies after.active[k].head && has_gap(after.active, k) by {
                let j = rest.index_of(after.active[k].id);
                assert(self.clean_up[j + 1] == after.active[k].id);
                assert(self.is_marked(k));
            }
            assert forall|k: int| 0 <= k < rest.len() implies has_id(after.active, #[trigger] rest[k]) by {
                assert(rest[k] == self.clean_up[k + 1]);
            }
            assert(after.subjects() =~= self.subjects());
        } else if self.clean_up_last {
            assert forall|k: int| #[trigger] after.is_marked(k) implies after.active[k].head && has_gap(after.active, k) by {
                assert(self.is_marked(k));
            }
            assert(after.subjects() =~= self.subjects());
        } else {
            self.lemma_activated(limit);
        }
    }

    /// What the buffers hold does not matter for the rest.
    pub proof fn lemma_states_changed(self, limit: u64, after: RegularState<S>)
        requires
            self.wf(limit),
            is_same_but_state(self.active, after.active),
            is_same_but_state(self.inactive, after.inactive),
            after == (RegularState {
                active: after.active,
                inactive: after.inactive,
                next_push: after.next_push,
                ..self
            }),
            after.next_push matches Some(id) ==> has_id(self.active, id),
        ensures
            after.wf(limit),
    {
        assert forall|x: u64| has_id(self.active, x) implies #[trigger] has_id(after.active, x) by {
            let k = choose|k: int| 0 <= k < self.active.len() && (#[trigger] self.active[k]).id == x;
            assert(after.active[k].id == x);
        }
        assert forall|x: u64| has_id(self.inactive, x) implies #[trigger] has_id(after.inactive, x) by {
            let k = choose|k: int| 0 <= k < self.inactive.len() && (#[trigger] self.inactive[k]).id == x;
            assert(after.inactive[k].id == x);
        }
        assert forall|x: int, y: int| 0 <= x <= y < after.active.len() implies (#[trigger] after.active[x]).number() <= (
        #[trigger] after.active[y]).number() by {
            assert(self.active[x].number() <= self.active[y].number());
        }
        assert forall|x: int, y: int| 0 <= x <= y < after.inactive.len() implies (
        #[trigger] after.inactive[x]).number() <= (#[trigger] after.inactive[y]).number() by {
            assert(self.inactive[x].number() <= self.inactive[y].number());
        }
        assert forall|i: int| 0 <= i < after.active.len() implies (after.active[i].head <==> #[trigger] is_first(
            after.active,
            i,
        )) by {
            assert(self.active[i].head <==> is_first(self.active, i));
            assert(self.active[i].head == after.active[i].head);
            if i > 0 {
                assert(self.active[i - 1].subject == after.active[i - 1].subject);
            }
        }
        assert forall|k: int| #[trigger] after.is_marked(k) implies after.active[k].head && has_gap(after.active, k) by {
            assert(self.active[k].id == after.active[k].id);
            assert(self.is_marked(k));
            if k > 0 {
                assert(self.active[k - 1].subject == after.active[k - 1].subject);
            }
        }
        assert forall|k: int| 0 <= k < after.clean_up.len() implies has_id(after.active, #[trigger] after.clean_up[k]) by {
            assert(has_id(self.active, self.clean_up[k]));
        }
        assert forall|k: int| 0 <= k < after.activation.len() implies has_id(after.inactive, #[trigger] after.activation[k]) by {
            assert(has_id(self.inactive, self.activation[k]));
        }
        assert forall|x: int, y: int| 0 <= x < after.active.len() && 0 <= y < after.inactive.len() implies (
        #[trigger] after.active[x]).id != (#[trigger] after.inactive[y]).id by {
            assert(self.active[x].id != self.inactive[y].id);
        }
        assert forall|x: int, y: int|
            0 <= x < after.active.len() && 0 <= y < after.active.len() && (#[trigger] after.active[x]).id == (
            #[trigger] after.active[y]).id implies x == y by {
            assert(self.active[x].id == self.active[y].id);
        }
        assert forall|x: int, y: int|
            0 <= x < after.inactive.len() && 0 <= y < after.inactive.len() && (#[trigger] after.inactive[x]).id == (
            #[trigger] after.inactive[y]).id implies x == y by {
            assert(self.inactive[x].id == self.inactive[y].id);
        }
        assert forall|n: int| self.is_subject(n) <==> after.is_subject(n) by {
            lemma_same_subjects(self.active, after.active, n);
            lemma_same_subjects(self.inactive, after.inactive, n);
        }
        assert(after.subjects() =~= self.subjects());
        if after.active.len() > 0 {
            assert(self.active[after.active.len() - 1].subject == after.active[after.active.len() - 1].subject);
        }
    }

    /// What the buffer of an endpoint holds does not matter for the rest, and only what it holds in
    /// the end counts.
    pub proof fn lemma_with_state(self, limit: u64, id: u64, state: S, next: S)
        requires
            self.wf(limit),
            has_id(self.active, id) || has_id(self.inactive, id),
        ensures
            self.with_state(id, state).wf(limit),
            self.with_state(id, state).slot(id).state == state,
            self.with_state(id, self.slot(id).state) == self,
            self.with_state(id, state).with_state(id, next) == self.with_state(id, next),
    {
        let after = self.with_state(id, state);
        self.lemma_states_changed(limit, after);
        if has_id(self.active, id) {
            let i = position(self.active, id);
            assert(0 <= i < self.active.len() && self.active[i].id == id);
            assert(after.active[i].id == id);
            lemma_position(after.active, i);
            assert(self.with_state(id, self.slot(id).state).active =~= self.active);
            assert(after.with_state(id, next).active =~= self.with_state(id, next).active);
        } else {
            let i = position(self.inactive, id);
            assert(0 <= i < self.inactive.len() && self.inactive[i].id == id);
            assert(after.inactive[i].id == id);
            lemma_position(after.inactive, i);
            assert(self.with_state(id, self.slot(id).state).inactive =~= self.inactive);
            assert(after.with_state(id, next).inactive =~= self.with_state(id, next).inactive);
        }
    }

    /// Further identities are allowed.
    pub proof fn lemma_larger_limit(self, limit: u64, larger: u64)
        requires
            self.wf(limit),
            limit <= larger,
        ensures
            self.wf(larger),
    {
    }

    /// The subjects before an active endpoint, as far as they are to be removed.
    pub open spec fn is_in_gap(self, i: int, number: int) -> bool {
        &&& self.is_marked(i)
        &&& number < self.active[i].number()
        &&& i == 0 || self.active[i - 1].number() < number
    }

    /// The driver will be told to remove the subject.
    pub open spec fn is_to_be_removed(self, number: int) -> bool {
        ||| exists|i: int| #[trigger] self.is_in_gap(i, number)
        ||| self.clean_up_last && (self.active.len() == 0 || self.active.last().number() < number)
    }

    /// A driver that was told everything so far receives these subjects: all active ones, and
    /// others only as long as it has not been told to remove them.
    pub open spec fn is_tracked_by(self, received: Set<int>) -> bool {
        &&& forall|n: int| has_subject(self.active, n) ==> #[trigger] received.contains(n)
        &&& forall|n: int|
            #[trigger] received.contains(n) ==> 0 <= n <= MAX_SUBJECT && (has_subject(self.active, n)
                || self.is_to_be_removed(n))
    }
}

/// The subjects of endpoints after a new one was inserted.
pub proof fn lemma_subject_inserted<S>(slots: Slots<S>, i: int, slot: Slot<S>)
    requires
        0 <= i <= slots.len(),
    ensures
        forall|n: int|
            #[trigger] has_subject(slots.insert(i, slot), n) <==> has_subject(slots, n) || n == slot.number(),
{
    let more = slots.insert(i, slot);
    assert forall|n: int| #[trigger] has_subject(more, n) <==> has_subject(slots, n) || n == slot.number() by {
        if has_subject(more, n) {
            let k = choose|k: int| 0 <= k < more.len() && (#[trigger] more[k]).number() == n;
            if k < i {
                assert(slots[k].number() == n);
            } else if k > i {
                assert(slots[k - 1].number() == n);
            }
        }
        if has_subject(slots, n) {
            let k = choose|k: int| 0 <= k < slots.len() && (#[trigger] slots[k]).number() == n;
            if k < i {
                assert(more[k].number() == n);
            } else {
                assert(more[k + 1].number() == n);
            }
        }
        if n == slot.number() {
            assert(more[i].number() == n);
        }
    }
}

/// The subjects of endpoints after one was taken out.
pub proof fn lemma_subject_removed<S>(slots: Slots<S>, i: int)
    requires
        0 <= i < slots.len(),
    ensures
        forall|n: int|
            n != slots[i].number() ==> (#[trigger] has_subject(slots.remove(i), n) <==> has_subject(slots, n)),
        forall|n: int| #[trigger] has_subject(slots.remove(i), n) ==> has_subject(slots, n),
{
    let rest = slots.remove(i);
    assert forall|n: int| #[trigger] has_subject(rest, n) implies has_subject(slots, n) by {
        let k = choose|k: int| 0 <= k < rest.len() && (#[trigger] rest[k]).number() == n;
        assert(slots[place_before(i, k)].number() == n);
    }
    assert forall|n: int| n != slots[i].number() && has_subject(slots, n) implies #[trigger] has_subject(rest, n) by {
        let k = choose|k: int| 0 <= k < slots.len() && (#[trigger] slots[k]).number() == n;
        if k < i {
            assert(rest[k].number() == n);
        } else {
            assert(rest[k - 1].number() == n);
        }
    }
}

/// The same endpoints but for their marks have the same subjects.
pub proof fn lemma_same_subjects<S>(a: Slots<S>, b: Slots<S>, n: int)
    requires
        a.len() == b.len(),
        forall|k: int| 0 <= k < a.len() ==> (#[trigger] a[k]).subject == b[k].subject,
    ensures
        has_subject(a, n) <==> has_subject(b, n),
{
    if has_subject(a, n) {
        let k = choose|k: int| 0 <= k < a.len() && (#[trigger] a[k]).number() == n;
        assert(b[k].number() == n);
    }
    if has_subject(b, n) {
        let k = choose|k: int| 0 <= k < b.len() && (#[trigger] b[k]).number() == n;
        assert(a[k].number() == n);
    }
}

} // verus!
