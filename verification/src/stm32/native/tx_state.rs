//! What the transmitter does next.
//!
//! The transmitter holds one frame of each priority at most. Only the most urgent frame is handed
//! to the periphery: when a more urgent one arrives, the transmission of the other is cancelled.

use vstd::prelude::*;

use crate::frame::{Frame, Mtu};
use crate::priority::{lemma_code_bijective, Priority, PrioritySet};
use crate::stm32::header::{header_id, is_sendable};
use crate::stm32::native::config::FrameFormat;
use crate::stm32::native::driver::{frame_time, frame_timestamp};
use crate::stm32::native::raw::{byte_words, code_length, store_tx_buffer, TxElement, TxEvent};
use crate::stm32::native::utils::{all_mailboxes, MailboxPriorityMap, TxMailboxIdx, TxMailboxSet};
use crate::stm32::timer::Timer;
use crate::time::Instant;
use crate::utils::priority_map::PriorityMap;

verus! {

/// A transmission that has to be started.
pub struct Transmission {
    /// The mailbox that the frame is put into.
    pub mailbox: TxMailboxIdx,
    /// The contents of the mailbox.
    pub element: TxElement,
    /// The mailboxes whose transmission has to be cancelled.
    pub cancel: TxMailboxSet,
}

/// A frame can be put into a mailbox.
pub open spec fn is_storable(frame: &Frame, format: FrameFormat) -> bool {
    is_sendable(&frame.header) && (format != FrameFormat::Classic || frame.data@.len() <= 8)
}

/// A mailbox is in use, and the frame that it holds is one of the given priorities.
pub open spec fn is_held(mailboxes: Map<int, Priority>, priorities: Set<Priority>, i: int) -> bool {
    mailboxes.contains_key(i) && priorities.contains(mailboxes[i])
}

/// The frames that the transmitter holds.
pub struct TxRunner {
    frames: PriorityMap<Frame>,
    pending: MailboxPriorityMap,
    loop_back: PrioritySet,
    frame_format: FrameFormat,
}

impl TxRunner {
    /// The frames by their priorities.
    pub closed spec fn frames(&self) -> Map<Priority, Frame> {
        self.frames@
    }

    /// The priorities of the frames in the mailboxes.
    pub closed spec fn mailboxes(&self) -> Map<int, Priority> {
        self.pending@
    }

    /// The priorities of the frames that were sent and have to be handed back.
    pub closed spec fn loop_back(&self) -> Set<Priority> {
        self.loop_back@
    }

    /// The format of the frames.
    pub closed spec fn format(&self) -> FrameFormat {
        self.frame_format
    }

    /// The priorities of the frames that are still to be sent.
    pub open spec fn queued(&self) -> Set<Priority> {
        self.frames().dom().difference(self.loop_back())
    }

    /// Frames in mailboxes are still to be sent, frames to hand back are there, and every frame
    /// can be stored.
    pub closed spec fn wf(&self) -> bool {
        &&& self.frames.wf()
        &&& self.pending.wf()
        &&& self.loop_back@.subset_of(self.frames@.dom())
        &&& forall|i: int| #[trigger]
            self.pending@.contains_key(i) ==> self.frames@.contains_key(self.pending@[i])
                && !self.loop_back@.contains(self.pending@[i])
        &&& forall|p: Priority| #[trigger]
            self.frames@.contains_key(p) ==> self.frames@[p].header.priority == p && is_storable(
                &self.frames@[p],
                self.frame_format,
            )
    }

    /// What always holds of the transmitter.
    pub proof fn law_transmitter(&self)
        requires
            self.wf(),
        ensures
            self.loop_back().subset_of(self.frames().dom()),
            forall|i: int| #[trigger]
                self.mailboxes().contains_key(i) ==> 0 <= i < 3 && self.queued().contains(self.mailboxes()[i]),
            forall|i: int, j: int|
                #![trigger self.mailboxes()[i], self.mailboxes()[j]]
                self.mailboxes().contains_key(i) && self.mailboxes().contains_key(j) && self.mailboxes()[i]
                    == self.mailboxes()[j] ==> i == j,
            forall|p: Priority| #[trigger]
                self.frames().contains_key(p) ==> self.frames()[p].header.priority == p && is_storable(
                    &self.frames()[p],
                    self.format(),
                ),
    {
        self.pending.lemma_injective();
    }

    /// Returns a transmitter without frames.
    pub fn new(frame_format: FrameFormat) -> (r: Self)
        ensures
            r.wf(),
            r.frames() == Map::<Priority, Frame>::empty(),
            r.mailboxes() == Map::<int, Priority>::empty(),
            r.loop_back() == Set::<Priority>::empty(),
            r.format() == frame_format,
    {
        TxRunner {
            frames: PriorityMap::new(),
            pending: MailboxPriorityMap::new(),
            loop_back: PrioritySet::none(),
            frame_format,
        }
    }

    /// Tells whether an event belongs to a frame in a mailbox.
    pub fn is_expected(&self, event: &TxEvent) -> (r: bool)
        requires
            self.wf(),
        ensures
            r == self.mailboxes().contains_key(event.marker as int),
    {
        proof {
            self.pending.lemma_injective();
        }
        match TxMailboxIdx::new(event.marker) {
            Some(idx) => self.pending.contains_mailbox(idx),
            None => false,
        }
    }

    /// A frame was transmitted: its mailbox is free again. The frame is dropped, or gets the time
    /// of its transmission as its timestamp and is handed back.
    pub fn complete(&mut self, event: &TxEvent, now: Instant, offset: Option<u16>) -> (r: TxMailboxIdx)
        requires
            old(self).wf(),
            old(self).mailboxes().contains_key(event.marker as int),
        ensures
            final(self).wf(),
            r.value() == event.marker,
            final(self).format() == old(self).format(),
            final(self).mailboxes() == old(self).mailboxes().remove(event.marker as int),
            ({
                let p = old(self).mailboxes()[event.marker as int];
                let frame = old(self).frames()[p];
                if frame.loop_back {
                    &&& final(self).frames() == old(self).frames().insert(
                        p,
                        Frame { timestamp: frame_time(now, event.timestamp, offset), ..frame },
                    )
                    &&& final(self).loop_back() == old(self).loop_back().insert(p)
                } else {
                    &&& final(self).frames() == old(self).frames().remove(p)
                    &&& final(self).loop_back() == old(self).loop_back()
                }
            }),
    {
        proof {
            self.pending.lemma_injective();
        }
        let ghost before = *self;
        let idx: TxMailboxIdx = TxMailboxIdx::new(event.marker).unwrap();
        let priority: Priority = self.pending.remove_by_mailbox(idx).unwrap();
        let frame: Frame = *self.frames.get(priority);
        if frame.loop_back {
            let timestamp = frame_timestamp(now, event.timestamp, offset);
            self.frames.insert(priority, Frame { timestamp, ..frame });
            self.loop_back.insert(priority);
        } else {
            self.frames.remove(priority);
        }
        proof {
            assert forall|i: int| #[trigger] self.pending@.contains_key(i) implies self.pending@[i] != priority by {
                assert(before.pending@.contains_key(i));
                assert(before.pending@[i] == self.pending@[i]);
                assert(before.pending@[event.marker as int] == priority);
            }
        }
        idx
    }

    /// Takes the mailboxes out of use that are neither pending nor completed: their transmission
    /// was cancelled. Returns the mailboxes that are free.
    pub fn release(&mut self, pending: TxMailboxSet, completed: TxMailboxSet) -> (r: TxMailboxSet)
        requires
            old(self).wf(),
        ensures
            final(self).wf(),
            r@ == all_mailboxes().difference(pending@).union(completed@),
            final(self).frames() == old(self).frames(),
            final(self).loop_back() == old(self).loop_back(),
            final(self).format() == old(self).format(),
            final(self).mailboxes() == old(self).mailboxes().remove_keys(r@.difference(completed@)),
    {
        let free: TxMailboxSet = pending.complement().unite(completed);
        let cancelled: TxMailboxSet = free.intersect(completed.complement());
        let ghost before = *self;
        proof {
            self.pending.lemma_injective();
        }
        let mut i: u8 = 0;
        while i < 3
            invariant
                i <= 3,
                self.pending.wf(),
                self.frames == before.frames,
                self.loop_back == before.loop_back,
                self.frame_format == before.frame_format,
                self.pending@ == before.pending@.remove_keys(
                    cancelled@.filter(|k: int| k < i),
                ),
            decreases 3 - i,
        {
            let ghost was = self.pending@;
            if let Some(idx) = TxMailboxIdx::new(i) {
                if cancelled.contains(idx) {
                    self.pending.remove_by_mailbox(idx);
                }
            }
            proof {
                if cancelled@.contains(i as int) {
                    assert(self.pending@ =~= before.pending@.remove_keys(cancelled@.filter(|k: int| k < i + 1)));
                } else {
                    assert(cancelled@.filter(|k: int| k < i + 1) =~= cancelled@.filter(|k: int| k < i));
                }
            }
            i = i + 1;
        }
        proof {
            let gone = free@.difference(completed@);
            assert(self.pending@ =~= before.pending@.remove_keys(gone)) by {
                assert forall|k: int| #[trigger] before.pending@.contains_key(k) implies gone.contains(k)
                    == cancelled@.filter(|k: int| k < 3).contains(k) by {
                    assert(0 <= k < 3);
                }
            }
            assert forall|k: int| #[trigger] self.pending@.contains_key(k) implies before.pending@.contains_key(k)
                && self.pending@[k] == before.pending@[k] by {}
        }
        free
    }

    /// Returns the priorities of all frames.
    pub fn occupied_priorities(&self) -> (r: PrioritySet)
        requires
            self.wf(),
        ensures
            r@ == self.frames().dom(),
    {
        self.frames.keys()
    }

    /// Returns the priorities of the frames that are still to be sent.
    pub fn queued_priorities(&self) -> (r: PrioritySet)
        requires
            self.wf(),
        ensures
            r@ == self.queued(),
    {
        let r = self.frames.keys().intersect(self.loop_back.complement());
        assert(r@ =~= self.queued());
        r
    }

    /// Returns the earliest deadline of the frames that are still to be sent.
    pub fn deadline(&self) -> (r: Option<Instant>)
        requires
            self.wf(),
        ensures
            r is None <==> self.queued() == Set::<Priority>::empty(),
            r matches Some(t) ==> {
                &&& exists|p: Priority| #[trigger] self.queued().contains(p) && self.frames()[p].timestamp == t
                &&& forall|p: Priority| #[trigger]
                    self.queued().contains(p) ==> t.ticks <= self.frames()[p].timestamp.ticks
            },
    {
        let queued: PrioritySet = self.queued_priorities();
        let mut deadline: Option<Instant> = None;
        let mut c: u8 = 0;
        while c < 8
            invariant
                c <= 8,
                self.wf(),
                queued@ == self.queued(),
                deadline is None ==> forall|p: Priority| p.code() < c ==> !#[trigger] self.queued().contains(p),
                deadline matches Some(t) ==> {
                    &&& exists|p: Priority| #[trigger]
                        self.queued().contains(p) && self.frames()[p].timestamp == t
                    &&& forall|p: Priority|
                        p.code() < c && #[trigger] self.queued().contains(p) ==> t.ticks
                            <= self.frames()[p].timestamp.ticks
                },
            decreases 8 - c,
        {
            let p = Priority::from_u8_truncating(c);
            proof {
                assert forall|q: Priority| q.code() < c + 1 implies q == p || q.code() < c by {
                    lemma_code_bijective(p, q);
                }
            }
            if queued.contains(p) {
                let t: Instant = self.frames.get(p).timestamp;
                let earlier: bool = match deadline {
                    Some(d) => t.ticks < d.ticks,
                    None => true,
                };
                if earlier {
                    assert(self.queued().contains(p) && self.frames()[p].timestamp == t);
                    deadline = Some(t);
                }
            }
            c = c + 1;
        }
        proof {
            if deadline is None {
                assert forall|p: Priority| !self.queued().contains(p) by {
                    assert(p.code() < 8);
                }
                assert(self.queued() =~= Set::<Priority>::empty());
            }
        }
        deadline
    }

    /// Tells what to do about the deadlines of the frames that are still to be sent.
    pub fn timer(&self, now: Instant) -> (r: Timer)
        requires
            self.wf(),
        ensures
            r is Never <==> self.queued() == Set::<Priority>::empty(),
            r is Expired <==> self.expired(now) != Set::<Priority>::empty(),
            r matches Timer::At(t) ==> {
                &&& now.ticks < t.ticks
                &&& exists|p: Priority| #[trigger] self.queued().contains(p) && self.frames()[p].timestamp == t
                &&& forall|p: Priority| #[trigger]
                    self.queued().contains(p) ==> t.ticks <= self.frames()[p].timestamp.ticks
            },
    {
        let deadline: Option<Instant> = self.deadline();
        proof {
            if let Some(t) = deadline {
                let p = choose|p: Priority| #[trigger]
                    self.queued().contains(p) && self.frames()[p].timestamp == t;
                assert(self.expired(now).contains(p) == (t.ticks <= now.ticks));
                if self.expired(now) != Set::<Priority>::empty() {
                    let q = self.expired(now).choose();
                    assert(self.expired(now) =~= Set::<Priority>::empty() || self.expired(now).contains(q));
                    assert(self.queued().contains(q));
                }
            } else {
                assert(self.expired(now) =~= Set::<Priority>::empty());
            }
        }
        Timer::new(deadline, now)
    }

    /// Returns the priorities of which a frame can be taken.
    pub fn free_priorities(&self) -> (r: PrioritySet)
        requires
            self.wf(),
        ensures
            r@ == self.frames().dom().complement(),
    {
        self.frames.keys().complement()
    }

    /// The priorities and the transmission unit that frames are asked for with: those of which no
    /// frame is held, and the unit of the format.
    pub open spec fn requested(&self) -> (Set<Priority>, Mtu) {
        (
            self.frames().dom().complement(),
            if self.format() == FrameFormat::Classic {
                Mtu::Classic
            } else {
                Mtu::Fd
            },
        )
    }

    /// Returns the priorities and the transmission unit to ask for the next frame with.
    pub fn request(&self) -> (r: (PrioritySet, Mtu))
        requires
            self.wf(),
        ensures
            r.0@ == self.requested().0,
            r.1 == self.requested().1,
    {
        (self.free_priorities(), self.frame_format.mtu())
    }

    /// A frame that was asked for is none of a priority that is held, and can be stored unless it
    /// is anonymous.
    pub proof fn law_requested_frame_fits(&self, frame: Frame)
        requires
            self.wf(),
            self.requested().0.contains(frame.header.priority),
            frame.data@.len() <= self.requested().1.size(),
            frame.header.source is Some ==> is_sendable(&frame.header),
        ensures
            !self.frames().contains_key(frame.header.priority),
            frame.header.source is Some ==> is_storable(&frame, self.format()),
    {
    }

    /// Drops the frames whose deadline has passed, and returns the mailboxes whose transmission
    /// has to be cancelled.
    pub fn expire(&mut self, now: Instant) -> (r: TxMailboxSet)
        requires
            old(self).wf(),
        ensures
            final(self).wf(),
            final(self).loop_back() == old(self).loop_back(),
            final(self).format() == old(self).format(),
            final(self).frames() == old(self).frames().remove_keys(old(self).expired(now)),
            final(self).mailboxes() == old(self).mailboxes().remove_keys(r@),
            forall|i: int| #[trigger]
                r@.contains(i) <==> is_held(old(self).mailboxes(), old(self).expired(now), i),
    {
        let queued: PrioritySet = self.queued_priorities();
        let mut cancel = TxMailboxSet::none();
        let ghost before = *self;
        let ghost expired = self.expired(now);
        let mut c: u8 = 0;
        proof {
            assert(self.frames@ =~= before.frames@.remove_keys(expired.filter(|p: Priority| p.code() < c)));
            assert(self.pending@ =~= before.pending@.remove_keys(cancel@));
        }
        while c < 8
            invariant
                c <= 8,
                before.wf(),
                self.frames.wf(),
                self.pending.wf(),
                self.loop_back == before.loop_back,
                self.frame_format == before.frame_format,
                queued@ == before.queued(),
                expired == before.expired(now),
                self.frames@ == before.frames@.remove_keys(expired.filter(|p: Priority| p.code() < c)),
                self.pending@ == before.pending@.remove_keys(cancel@),
                forall|i: int| #[trigger]
                    cancel@.contains(i) <==> is_held(
                        before.pending@,
                        expired.filter(|p: Priority| p.code() < c),
                        i,
                    ),
            decreases 8 - c,
        {
            let p = Priority::from_u8_truncating(c);
            let ghost gone = expired.filter(|p: Priority| p.code() < c);
            let ghost more = expired.filter(|p: Priority| p.code() < c + 1);
            let ghost was = cancel@;
            proof {
                assert forall|q: Priority| q.code() < c + 1 implies q == p || q.code() < c by {
                    lemma_code_bijective(p, q);
                }
            }
            let mut late: bool = false;
            if queued.contains(p) {
                assert(!gone.contains(p));
                assert(self.frames@.contains_key(p));
                late = self.frames.get(p).timestamp.ticks <= now.ticks;
            }
            if late {
                assert(more =~= gone.insert(p));
                self.frames.remove(p);
                assert(self.frames@ =~= before.frames@.remove_keys(more));
                let ghost mailboxes = self.pending;
                let removed: Option<TxMailboxIdx> = self.pending.remove_by_priority(p);
                if let Some(idx) = removed {
                    cancel.insert(idx);
                }
                proof {
                    before.pending.lemma_injective();
                    before.lemma_cancelled(mailboxes, gone, p, was, removed);
                    assert(self.pending@ =~= before.pending@.remove_keys(cancel@));
                }
            } else {
                assert(more =~= gone);
            }
            c = c + 1;
        }
        proof {
            assert(expired.filter(|p: Priority| p.code() < c) =~= expired);
            before.lemma_after_expiry(*self, expired);
        }
        cancel
    }

    /// The priorities of the frames that are still to be sent, but whose deadline has passed.
    pub open spec fn expired(&self, now: Instant) -> Set<Priority> {
        self.queued().filter(|p: Priority| self.frames()[p].timestamp.ticks <= now.ticks)
    }

    /// The mailboxes to cancel when one more frame is dropped.
    proof fn lemma_cancelled(
        &self,
        mailboxes: MailboxPriorityMap,
        gone: Set<Priority>,
        p: Priority,
        was: Set<int>,
        removed: Option<TxMailboxIdx>,
    )
        requires
            self.wf(),
            mailboxes@ == self.pending@.remove_keys(was),
            !gone.contains(p),
            forall|i: int| #[trigger] was.contains(i) <==> is_held(self.pending@, gone, i),
            removed is Some <==> mailboxes.has_priority(p),
            removed matches Some(idx) ==> mailboxes@.contains_key(idx.value() as int) && mailboxes@[idx.value() as int]
                == p,
        ensures
            forall|i: int|
                (was.contains(i) || (removed is Some && removed->0.value() == i)) <==> #[trigger] is_held(
                    self.pending@,
                    gone.insert(p),
                    i,
                ),
    {
        self.pending.lemma_injective();
        assert forall|i: int|
            (was.contains(i) || (removed is Some && removed->0.value() == i)) == #[trigger] is_held(
                self.pending@,
                gone.insert(p),
                i,
            ) by {
            assert(was.contains(i) == is_held(self.pending@, gone, i));
            if self.pending@.contains_key(i) && self.pending@[i] == p {
                assert(mailboxes@.contains_key(i));
                assert(mailboxes.has_priority(p));
                let j = removed->0.value() as int;
                assert(self.pending@[j] == p);
                assert(i == j);
            }
            if removed is Some && removed->0.value() == i {
                assert(self.pending@.contains_key(i));
            }
        }
    }

    /// Dropped frames are in no mailbox any more.
    proof fn lemma_after_expiry(&self, after: Self, expired: Set<Priority>)
        requires
            self.wf(),
            after.frames.wf(),
            after.pending.wf(),
            after.loop_back == self.loop_back,
            after.frame_format == self.frame_format,
            expired.subset_of(self.queued()),
            after.frames@ == self.frames@.remove_keys(expired),
            forall|i: int| #[trigger]
                after.pending@.contains_key(i) ==> self.pending@.contains_key(i) && after.pending@[i]
                    == self.pending@[i] && !is_held(self.pending@, expired, i),
        ensures
            after.wf(),
    {
        assert forall|i: int| #[trigger] after.pending@.contains_key(i) implies after.frames@.contains_key(
            after.pending@[i],
        ) && !after.loop_back@.contains(after.pending@[i]) by {
            assert(self.pending@.contains_key(i));
        }
    }

    /// Returns the most urgent of the frames to hand back.
    pub fn next_loop_back(&self) -> (r: Option<Frame>)
        requires
            self.wf(),
        ensures
            r is None <==> self.loop_back() == Set::<Priority>::empty(),
            r matches Some(frame) ==> {
                &&& PrioritySet::is_first(self.loop_back(), Some(frame.header.priority))
                &&& frame == self.frames()[frame.header.priority]
            },
    {
        match self.loop_back.first() {
            Some(priority) => Some(*self.frames.get(priority)),
            None => None,
        }
    }

    /// A frame was handed back, and is dropped.
    pub fn loop_back_sent(&mut self, priority: Priority)
        requires
            old(self).wf(),
            old(self).loop_back().contains(priority),
        ensures
            final(self).wf(),
            final(self).loop_back() == old(self).loop_back().remove(priority),
            final(self).frames() == old(self).frames().remove(priority),
            final(self).mailboxes() == old(self).mailboxes(),
            final(self).format() == old(self).format(),
    {
        self.loop_back.remove(priority);
        self.frames.remove(priority);
    }

    /// Takes a frame of a priority that has none. Anonymous frames are dropped: their
    /// transmission is not supported.
    pub fn fetched(&mut self, frame: Frame)
        requires
            old(self).wf(),
            frame.header.source is Some ==> is_storable(&frame, old(self).format()) && !old(
                self,
            ).frames().contains_key(frame.header.priority),
        ensures
            final(self).wf(),
            final(self).frames() == (if frame.header.source is Some {
                old(self).frames().insert(frame.header.priority, frame)
            } else {
                old(self).frames()
            }),
            final(self).mailboxes() == old(self).mailboxes(),
            final(self).loop_back() == old(self).loop_back(),
            final(self).format() == old(self).format(),
    {
        if frame.header.source.is_some() {
            let ghost before = *self;
            self.frames.insert(frame.header.priority, frame);
            assert forall|i: int| #[trigger] self.pending@.contains_key(i) implies self.frames@.contains_key(
                self.pending@[i],
            ) && !self.loop_back@.contains(self.pending@[i]) by {
                assert(before.pending@.contains_key(i));
            }
        }
    }

    /// Puts the most urgent frame that is still to be sent into the first free mailbox, unless it
    /// is in a mailbox already. All other transmissions have to be cancelled then.
    pub fn next_transmission(&mut self, free: TxMailboxSet) -> (r: Option<Transmission>)
        requires
            old(self).wf(),
            free@ != Set::<int>::empty(),
            forall|i: int| #[trigger] free@.contains(i) ==> !old(self).mailboxes().contains_key(i),
        ensures
            final(self).wf(),
            final(self).frames() == old(self).frames(),
            final(self).loop_back() == old(self).loop_back(),
            final(self).format() == old(self).format(),
            match r {
                Some(t) => {
                    let p = PrioritySet::first_of(old(self).queued())->0;
                    &&& PrioritySet::is_first(old(self).queued(), Some(p))
                    &&& final(self).mailboxes() == old(self).mailboxes().insert(t.mailbox.value() as int, p)
                    &&& !old(self).is_started()
                    &&& is_stored(&old(self).frames()[p], old(self).format(), t.mailbox.value(), &t.element)
                },
                None => {
                    &&& final(self).mailboxes() == old(self).mailboxes()
                    &&& old(self).queued() == Set::<Priority>::empty() || old(self).is_started()
                },
            },
            r matches Some(t) ==> {
                &&& TxMailboxSet::is_first(free@, Some(t.mailbox))
                &&& t.cancel@ == all_mailboxes().remove(t.mailbox.value() as int)
            },
    {
        let queued: PrioritySet = self.queued_priorities();
        let priority: Priority = match queued.first() {
            Some(priority) => priority,
            None => {
                return None;
            },
        };
        if self.pending.contains_priority(priority) {
            proof {
                let i = choose|i: int| #[trigger] self.pending@.contains_key(i) && self.pending@[i] == priority;
                assert(self.mailboxes().contains_key(i));
            }
            return None;
        }
        let ghost before = *self;
        let mailbox: TxMailboxIdx = free.first().unwrap();
        let element: TxElement = store_tx_buffer(
            self.frames.get(priority),
            self.frame_format,
            mailbox.into_u8(),
        );
        let inserted = self.pending.insert(mailbox, priority);
        proof {
            assert(inserted is Ok);
            PrioritySet::lemma_first(before.queued(), Some(priority));
            if before.is_started() {
                let i = choose|i: int| #[trigger]
                    before.mailboxes().contains_key(i) && PrioritySet::is_first(
                        before.queued(),
                        Some(before.mailboxes()[i]),
                    );
                PrioritySet::lemma_first(before.queued(), Some(before.mailboxes()[i]));
                assert(before.pending@.contains_key(i) && before.pending@[i] == priority);
                assert(before.pending.has_priority(priority));
            }
        }
        let cancel: TxMailboxSet = TxMailboxSet::new_eq(mailbox).complement();
        assert(cancel@ =~= all_mailboxes().remove(mailbox.value() as int));
        Some(Transmission { mailbox, element, cancel })
    }

    /// The most urgent frame that is still to be sent is in a mailbox.
    pub open spec fn is_started(&self) -> bool {
        exists|i: int| #[trigger]
            self.mailboxes().contains_key(i) && PrioritySet::is_first(self.queued(), Some(self.mailboxes()[i]))
    }

    /// Returns the mailbox of the most urgent frame that is still to be sent: the one to wait for.
    pub fn awaited_mailbox(&self) -> (r: Option<TxMailboxIdx>)
        requires
            self.wf(),
        ensures
            r is Some <==> self.is_started(),
            r matches Some(idx) ==> self.mailboxes().contains_key(idx.value() as int) && PrioritySet::is_first(
                self.queued(),
                Some(self.mailboxes()[idx.value() as int]),
            ),
    {
        let priority: Priority = match self.queued_priorities().first() {
            Some(priority) => priority,
            None => {
                return None;
            },
        };
        let r: Option<TxMailboxIdx> = self.pending.get_by_priority(priority);
        proof {
            if let Some(idx) = r {
                assert(self.mailboxes().contains_key(idx.value() as int));
            }
            if self.is_started() {
                let i = choose|i: int| #[trigger]
                    self.mailboxes().contains_key(i) && PrioritySet::is_first(
                        self.queued(),
                        Some(self.mailboxes()[i]),
                    );
                PrioritySet::lemma_first(self.queued(), Some(priority));
                PrioritySet::lemma_first(self.queued(), Some(self.mailboxes()[i]));
                assert(self.pending@.contains_key(i) && self.pending@[i] == priority);
            }
        }
        r
    }
}

/// A mailbox holds a frame.
pub open spec fn is_stored(frame: &Frame, format: FrameFormat, marker: u8, element: &TxElement) -> bool {
    &&& element.can_id == header_id(&frame.header)
    &&& element.marker == marker
    &&& element.fd == (format != FrameFormat::Classic)
    &&& element.bit_rate_switch == (format == FrameFormat::FdBrs)
    &&& element.dlc < 16
    &&& code_length(element.dlc as int) == frame.data@.len()
    &&& element.words@ == byte_words(frame.data@)
}

/// After the frames with a passed deadline were dropped, every frame that is still to be sent has
/// a deadline in the future.
pub proof fn law_deadlines(runner: &TxRunner, after: &TxRunner, now: Instant, p: Priority)
    requires
        after.frames() == runner.frames().remove_keys(runner.expired(now)),
        after.loop_back() == runner.loop_back(),
        after.queued().contains(p),
    ensures
        after.frames()[p].timestamp.ticks > now.ticks,
        after.frames()[p] == runner.frames()[p],
{
    assert(runner.queued().contains(p));
}

/// What the transmitter does with its frames: those that are not handed back are to be sent, it asks
/// for frames of exactly the priorities of which it has none and of the size of the format, and a
/// frame is late from its deadline on.
pub proof fn law_transmitter_sets(runner: &TxRunner, now: Instant, p: Priority)
    ensures
        runner.queued().contains(p) <==> runner.frames().contains_key(p) && !runner.loop_back().contains(p),
        runner.requested().0.contains(p) <==> !runner.frames().contains_key(p),
        runner.requested().1 == (match runner.format() {
            FrameFormat::Classic => Mtu::Classic,
            FrameFormat::Fd => Mtu::Fd,
            FrameFormat::FdBrs => Mtu::Fd,
        }),
        runner.expired(now).contains(p) <==> runner.frames().contains_key(p) && !runner.loop_back().contains(p)
            && runner.frames()[p].timestamp.ticks <= now.ticks,
{
}

/// The transmitter waits for a mailbox exactly if the most urgent frame that is to be sent is in one.
pub proof fn law_most_urgent_is_in_mailbox(runner: &TxRunner)
    ensures
        runner.is_started() <==> exists|i: int|
            {
                &&& #[trigger] runner.mailboxes().contains_key(i)
                &&& runner.queued().contains(runner.mailboxes()[i])
                &&& forall|q: Priority| #[trigger]
                    runner.queued().contains(q) ==> runner.mailboxes()[i].code() <= q.code()
            },
{
    if runner.is_started() {
        let i = choose|i: int| #[trigger]
            runner.mailboxes().contains_key(i) && PrioritySet::is_first(runner.queued(), Some(runner.mailboxes()[i]));
        assert(runner.mailboxes().contains_key(i));
    }
    if exists|i: int|
        {
            &&& #[trigger] runner.mailboxes().contains_key(i)
            &&& runner.queued().contains(runner.mailboxes()[i])
            &&& forall|q: Priority| #[trigger]
                runner.queued().contains(q) ==> runner.mailboxes()[i].code() <= q.code()
        } {
        let i = choose|i: int|
            {
                &&& #[trigger] runner.mailboxes().contains_key(i)
                &&& runner.queued().contains(runner.mailboxes()[i])
                &&& forall|q: Priority| #[trigger]
                    runner.queued().contains(q) ==> runner.mailboxes()[i].code() <= q.code()
            };
        assert(PrioritySet::is_first(runner.queued(), Some(runner.mailboxes()[i])));
    }
}

/// What is written into a mailbox is the frame: its identifier, its length and its bytes, four to a
/// word with the first one least significant, in the format of the transmitter.
pub proof fn law_mailbox_holds_frame(frame: &Frame, format: FrameFormat, marker: u8, element: &TxElement, k: int)
    requires
        is_stored(frame, format, marker, element),
    ensures
        element.can_id == header_id(&frame.header),
        element.marker == marker,
        element.fd <==> format == FrameFormat::Fd || format == FrameFormat::FdBrs,
        element.bit_rate_switch <==> format == FrameFormat::FdBrs,
        frame.data@.len() == (match element.dlc {
            9u8 => 12int,
            10u8 => 16,
            11u8 => 20,
            12u8 => 24,
            13u8 => 32,
            14u8 => 48,
            15u8 => 64,
            n => n as int,
        }),
        element.words@.len() == (frame.data@.len() + 3) / 4,
        0 <= k < element.words@.len() ==> element.words@[k] == (frame.data@[4 * k] + (if 4 * k + 1 < frame.data@.len() {
            0x100 * frame.data@[4 * k + 1]
        } else {
            0
        }) + (if 4 * k + 2 < frame.data@.len() {
            0x1_0000 * frame.data@[4 * k + 2]
        } else {
            0
        }) + (if 4 * k + 3 < frame.data@.len() {
            0x100_0000 * frame.data@[4 * k + 3]
        } else {
            0
        })),
{
}

/// Which frames can be stored: those whose header can be sent, with at most eight bytes in the classic
/// format.
pub proof fn law_storable_frames(frame: &Frame, format: FrameFormat)
    ensures
        is_storable(frame, format) <==> is_sendable(&frame.header) && (format == FrameFormat::Classic ==> frame.data@.len()
            <= 8),
{
}

/// A mailbox is cleared exactly if its frame is late.
pub proof fn law_late_mailboxes(runner: &TxRunner, now: Instant, i: int)
    ensures
        is_held(runner.mailboxes(), runner.expired(now), i) <==> {
            &&& runner.mailboxes().contains_key(i)
            &&& runner.frames().contains_key(runner.mailboxes()[i])
            &&& !runner.loop_back().contains(runner.mailboxes()[i])
            &&& runner.frames()[runner.mailboxes()[i]].timestamp.ticks <= now.ticks
        },
{
}

} // verus!
