//! What the transmitter does next.
//!
//! Frames are handed to the periphery in the order of their priorities. When its transmit buffers
//! are full, it gives the least urgent frame back, and this frame waits at the front of its
//! priority.

use vstd::prelude::*;

use crate::frame::{Frame, Mtu};
use crate::priority::{law_priority_codes, lemma_code_bijective, Priority, PrioritySet};
use crate::stm32::embassy::config::FrameFormat;
use crate::stm32::embassy::driver::{id_priority, make_raw_frame, raw_frame, raw_frame_priority};
use crate::stm32::embassy::utils::{busy, FdFrame, FrameId, PriorityDeque};
use crate::stm32::header::{header_id, is_sendable};
use crate::stm32::timer::Timer;
use crate::time::Instant;
use crate::utils::priority_map::PriorityArray;

verus! {

/// The deadlines after those that have passed were taken out.
pub open spec fn kept_deadlines(deadlines: Seq<Instant>, now: Instant) -> Seq<Instant> {
    Seq::new(
        deadlines.len(),
        |i: int|
            if now.ticks > deadlines[i].ticks {
                Instant { ticks: u64::MAX }
            } else {
                deadlines[i]
            },
    )
}

/// The queues after the frames whose deadline has passed were taken out. The deadline of a
/// priority is the one of the frame at the back.
pub open spec fn kept_frames(
    queues: Seq<Seq<FdFrame>>,
    deadlines: Seq<Instant>,
    now: Instant,
) -> Seq<Seq<FdFrame>> {
    Seq::new(
        queues.len(),
        |i: int|
            if now.ticks > deadlines[i].ticks {
                queues[i].drop_last()
            } else {
                queues[i]
            },
    )
}

/// The frames that wait for a transmit buffer.
pub struct TxRunner {
    frames: PriorityDeque,
    deadlines: PriorityArray<Instant>,
    frame_format: FrameFormat,
}

impl TxRunner {
    /// The frames by the codes of their priorities.
    pub closed spec fn queues(&self) -> Seq<Seq<FdFrame>> {
        self.frames@
    }

    /// The deadlines by the codes of the priorities. The latest instant stands for none.
    pub closed spec fn deadlines(&self) -> Seq<Instant> {
        self.deadlines@
    }

    /// The format of the frames.
    pub closed spec fn format(&self) -> FrameFormat {
        self.frame_format
    }

    /// A priority without frames has no deadline.
    pub closed spec fn wf(&self) -> bool {
        &&& self.frames.wf()
        &&& self.deadlines.wf()
        &&& forall|i: int|
            0 <= i < 8 && (#[trigger] self.queues()[i]).len() == 0 ==> self.deadlines()[i].ticks == u64::MAX
    }

    /// What always holds of the transmitter.
    pub proof fn law_transmitter(&self)
        requires
            self.wf(),
        ensures
            self.queues().len() == 8,
            self.deadlines().len() == 8,
            forall|i: int|
                0 <= i < 8 && (#[trigger] self.queues()[i]).len() == 0 ==> self.deadlines()[i].ticks == u64::MAX,
    {
        self.frames.lemma_len();
    }

    /// Returns a transmitter without frames.
    pub fn new(frame_format: FrameFormat) -> (r: Self)
        ensures
            r.wf(),
            r.queues() == Seq::new(8, |i: int| Seq::<FdFrame>::empty()),
            r.deadlines() == Seq::new(8, |i: int| Instant { ticks: u64::MAX }),
            r.format() == frame_format,
    {
        let r = TxRunner {
            frames: PriorityDeque::new(),
            deadlines: PriorityArray::repeat(Instant::max()),
            frame_format,
        };
        assert(r.deadlines() =~= Seq::new(8, |i: int| Instant { ticks: u64::MAX }));
        r
    }

    /// Returns the priorities with frames.
    pub fn priorities(&self) -> (r: PrioritySet)
        requires
            self.wf(),
        ensures
            r@ == busy(self.queues()),
    {
        self.frames.priorities()
    }

    /// The priorities and the transmission unit that frames are asked for with: those of which no
    /// frame waits, and the unit of the format.
    pub open spec fn requested(&self) -> (Set<Priority>, Mtu) {
        (
            busy(self.queues()).complement(),
            if self.format() == FrameFormat::Classic {
                Mtu::Classic
            } else {
                Mtu::Fd
            },
        )
    }

    /// Returns the priorities and the transmission unit to ask for the next frame with.
    pub fn request(&self) -> (r: (PrioritySet, Mtu))
        requires
            self.wf(),
        ensures
            r.0@ == self.requested().0,
            r.1 == self.requested().1,
    {
        (self.frames.priorities().complement(), self.frame_format.mtu())
    }

    /// A frame that was asked for is none of a priority of which a frame waits.
    pub proof fn law_requested_frame_fits(&self, frame: Frame)
        requires
            self.wf(),
            self.requested().0.contains(frame.header.priority),
        ensures
            self.queues()[frame.header.priority.code() as int].len() == 0,
    {
        self.frames.lemma_len();
    }

    /// Returns the earliest deadline.
    pub fn next_deadline(&self) -> (r: Instant)
        requires
            self.wf(),
        ensures
            self.deadlines().contains(r),
            forall|i: int| 0 <= i < 8 ==> r.ticks <= (#[trigger] self.deadlines()[i]).ticks,
    {
        let mut deadline: Instant = *self.deadlines.get(Priority::Exceptional);
        assert(self.deadlines()[0] == deadline);
        let mut c: u8 = 1;
        while c < 8
            invariant
                1 <= c <= 8,
                self.wf(),
                self.deadlines().contains(deadline),
                forall|i: int| 0 <= i < c ==> deadline.ticks <= (#[trigger] self.deadlines()[i]).ticks,
            decreases 8 - c,
        {
            let t: Instant = *self.deadlines.get(Priority::from_u8_truncating(c));
            assert(self.deadlines()[c as int] == t);
            if t.ticks < deadline.ticks {
                deadline = t;
            }
            c = c + 1;
        }
        deadline
    }

    /// Tells what to do about the deadlines.
    pub fn timer(&self, now: Instant) -> (r: Timer)
        requires
            self.wf(),
        ensures
            r is Expired <==> exists|i: int| 0 <= i < 8 && (#[trigger] self.deadlines()[i]).ticks <= now.ticks,
            r is Never <==> now.ticks < u64::MAX && forall|i: int|
                0 <= i < 8 ==> (#[trigger] self.deadlines()[i]).ticks == u64::MAX,
            r matches Timer::At(t) ==> {
                &&& self.deadlines().contains(t)
                &&& forall|i: int| 0 <= i < 8 ==> t.ticks <= (#[trigger] self.deadlines()[i]).ticks
            },
    {
        let next: Instant = self.next_deadline();
        proof {
            let i = choose|i: int| 0 <= i < self.deadlines().len() && self.deadlines()[i] == next;
            assert(self.deadlines()[i] == next);
            assert(self.deadlines().len() == 8);
        }
        if next.ticks > now.ticks && next.ticks == u64::MAX {
            Timer::new(None, now)
        } else {
            Timer::new(Some(next), now)
        }
    }

    /// Returns the frame to send next: the first one of the most urgent priority.
    pub fn next_frame(&self) -> (r: Option<(Priority, FdFrame)>)
        requires
            self.wf(),
        ensures
            r is None <==> busy(self.queues()) == Set::<Priority>::empty(),
            r matches Some((p, frame)) ==> {
                &&& PrioritySet::is_first(busy(self.queues()), Some(p))
                &&& frame == self.queues()[p.code() as int][0]
            },
    {
        match self.frames.priorities().first() {
            Some(priority) => {
                assert(busy(self.queues()).contains(priority));
                Some((priority, *self.frames.front(priority).unwrap()))
            },
            None => None,
        }
    }

    /// Drops the frames whose deadline has passed.
    pub fn expire(&mut self, now: Instant)
        requires
            old(self).wf(),
        ensures
            final(self).wf(),
            final(self).queues() == kept_frames(old(self).queues(), old(self).deadlines(), now),
            final(self).deadlines() == kept_deadlines(old(self).deadlines(), now),
            final(self).format() == old(self).format(),
    {
        let ghost before = *self;
        proof {
            self.frames.lemma_len();
        }
        let mut c: u8 = 0;
        while c < 8
            invariant
                c <= 8,
                self.wf(),
                before.wf(),
                self.frame_format == before.frame_format,
                self.queues().len() == 8,
                before.queues().len() == 8,
                self.deadlines().len() == 8,
                before.deadlines().len() == 8,
                forall|i: int|
                    0 <= i < c ==> #[trigger] self.queues()[i] == kept_frames(
                        before.queues(),
                        before.deadlines(),
                        now,
                    )[i],
                forall|i: int|
                    0 <= i < c ==> #[trigger] self.deadlines()[i] == kept_deadlines(before.deadlines(), now)[i],
                forall|i: int| c <= i < 8 ==> #[trigger] self.queues()[i] == before.queues()[i],
                forall|i: int| c <= i < 8 ==> #[trigger] self.deadlines()[i] == before.deadlines()[i],
            decreases 8 - c,
        {
            let p = Priority::from_u8_truncating(c);
            let deadline: Instant = *self.deadlines.get(p);
            assert(deadline == before.deadlines()[c as int]);
            if now.ticks > deadline.ticks {
                assert(self.queues()[c as int].len() > 0);
                self.deadlines.set(p, Instant::max());
                self.frames.pop_back(p);
                assert(self.queues()[c as int] == before.queues()[c as int].drop_last());
            }
            c = c + 1;
        }
        assert(self.queues() =~= kept_frames(before.queues(), before.deadlines(), now));
        assert(self.deadlines() =~= kept_deadlines(before.deadlines(), now));
    }

    /// Takes a frame of a priority that has none. Anonymous frames are dropped: their
    /// transmission is not supported.
    pub fn fetched(&mut self, frame: &Frame)
        requires
            old(self).wf(),
            frame.header.source is Some ==> is_sendable(&frame.header) && old(
                self,
            ).queues()[frame.header.priority.code() as int].len() == 0,
        ensures
            final(self).wf(),
            final(self).format() == old(self).format(),
            ({
                let c = frame.header.priority.code() as int;
                if frame.header.source is Some {
                    &&& final(self).queues() == old(self).queues().update(
                        c,
                        seq![raw_frame(frame, old(self).format())],
                    )
                    &&& final(self).deadlines() == old(self).deadlines().update(c, frame.timestamp)
                } else {
                    &&& final(self).queues() == old(self).queues()
                    &&& final(self).deadlines() == old(self).deadlines()
                }
            }),
    {
        if frame.header.source.is_some() {
            let ghost before = *self;
            let priority: Priority = frame.header.priority;
            let raw: FdFrame = match make_raw_frame(frame, self.frame_format) {
                Ok(raw) => raw,
                Err(_) => {
                    return ;
                },
            };
            proof {
                self.frames.lemma_len();
            }
            let pushed = self.frames.push_back(priority, raw);
            self.deadlines.set(priority, frame.timestamp);
            proof {
                assert(before.queues()[priority.code() as int].push(raw) =~= seq![raw]);
            }
        }
    }

    /// A frame that came out of a transmit buffer can wait at the front of its priority.
    pub open spec fn can_wait(&self, delivered: Priority, frame: FdFrame) -> bool {
        id_priority(frame.id) matches Some(p) && self.taken(delivered)[p.code() as int].len() < 4
    }

    /// A frame of a priority went into a transmit buffer, and maybe another frame came out of it.
    /// The other one is handed back if there is no place for it.
    pub fn delivered(&mut self, priority: Priority, preempted: Option<FdFrame>) -> (r: Result<(), FdFrame>)
        requires
            old(self).wf(),
            old(self).queues()[priority.code() as int].len() > 0,
        ensures
            final(self).wf(),
            final(self).format() == old(self).format(),
            r == (match preempted {
                Some(frame) => if old(self).can_wait(priority, frame) {
                    Ok(())
                } else {
                    Err(frame)
                },
                None => Ok(()),
            }),
            final(self).queues() == (match preempted {
                Some(frame) => if old(self).can_wait(priority, frame) {
                    let c = id_priority(frame.id)->0.code() as int;
                    old(self).taken(priority).update(c, seq![frame] + old(self).taken(priority)[c])
                } else {
                    old(self).taken(priority)
                },
                None => old(self).taken(priority),
            }),
            final(self).deadlines() == (if old(self).queues()[priority.code() as int].len() == 1 {
                old(self).deadlines().update(priority.code() as int, Instant { ticks: u64::MAX })
            } else {
                old(self).deadlines()
            }),
    {
        proof {
            self.frames.lemma_len();
        }
        self.frames.pop_front(priority);
        if !self.frames.priorities().contains(priority) {
            self.deadlines.set(priority, Instant::max());
        }
        assert(self.queues() == old(self).taken(priority));
        match preempted {
            Some(frame) => match raw_frame_priority(&frame) {
                Some(p) => self.frames.push_front(p, frame),
                None => Err(frame),
            },
            None => Ok(()),
        }
    }

    /// The queues after the first frame of a priority was taken out.
    pub open spec fn taken(&self, priority: Priority) -> Seq<Seq<FdFrame>> {
        self.queues().update(
            priority.code() as int,
            self.queues()[priority.code() as int].drop_first(),
        )
    }
}

/// The frames of each priority, those in the queues and those in the three transmit buffers, are
/// four at most.
pub open spec fn is_bounded(queues: Seq<Seq<FdFrame>>, buffers: spec_fn(Priority) -> nat) -> bool {
    forall|p: Priority| (#[trigger] queues[p.code() as int]).len() + buffers(p) <= 4
}

/// A frame is only fetched for an empty queue, so the bound is kept: three frames of the priority
/// can be in the transmit buffers.
pub proof fn law_fetching_is_bounded(
    queues: Seq<Seq<FdFrame>>,
    buffers: spec_fn(Priority) -> nat,
    priority: Priority,
    frame: FdFrame,
)
    requires
        queues.len() == 8,
        is_bounded(queues, buffers),
        queues[priority.code() as int].len() == 0,
        buffers(priority) <= 3,
    ensures
        is_bounded(queues.update(priority.code() as int, seq![frame]), buffers),
{
    let after = queues.update(priority.code() as int, seq![frame]);
    assert forall|p: Priority| (#[trigger] after[p.code() as int]).len() + buffers(p) <= 4 by {
        lemma_code_bijective(p, priority);
        assert(queues[p.code() as int].len() + buffers(p) <= 4);
    }
}

/// A frame that comes out of the transmit buffers always finds a place at the front of its
/// priority, and the bound is kept.
pub proof fn law_preemption_is_bounded(
    runner: &TxRunner,
    buffers: spec_fn(Priority) -> nat,
    priority: Priority,
    preempted: Option<FdFrame>,
)
    requires
        runner.wf(),
        is_bounded(runner.queues(), buffers),
        runner.queues()[priority.code() as int].len() > 0,
        preempted matches Some(frame) ==> id_priority(frame.id) is Some && buffers(id_priority(frame.id)->0) > 0,
    ensures
        preempted matches Some(frame) ==> runner.can_wait(priority, frame),
        ({
            let after = match preempted {
                Some(frame) => {
                    let c = id_priority(frame.id)->0.code() as int;
                    runner.taken(priority).update(c, seq![frame] + runner.taken(priority)[c])
                },
                None => runner.taken(priority),
            };
            is_bounded(after, buffers_after(buffers, priority, preempted))
        }),
{
    runner.law_transmitter();
    let queues = runner.queues();
    let taken = runner.taken(priority);
    let after = match preempted {
        Some(frame) => {
            let c = id_priority(frame.id)->0.code() as int;
            taken.update(c, seq![frame] + taken[c])
        },
        None => taken,
    };
    let held = buffers_after(buffers, priority, preempted);
    assert forall|p: Priority| (#[trigger] after[p.code() as int]).len() + held(p) <= 4 by {
        lemma_code_bijective(p, priority);
        assert(queues[p.code() as int].len() + buffers(p) <= 4);
        if let Some(frame) = preempted {
            lemma_code_bijective(p, id_priority(frame.id)->0);
        }
    }
    if let Some(frame) = preempted {
        let p = id_priority(frame.id)->0;
        lemma_code_bijective(p, priority);
        assert(queues[p.code() as int].len() + buffers(p) <= 4);
    }
}

/// How many frames of each priority the transmit buffers hold after a frame went in, and maybe
/// another one came out.
pub open spec fn buffers_after(
    buffers: spec_fn(Priority) -> nat,
    priority: Priority,
    preempted: Option<FdFrame>,
) -> spec_fn(Priority) -> nat {
    |p: Priority|
        {
            let more = if p == priority {
                buffers(p) + 1
            } else {
                buffers(p)
            };
            if preempted is Some && id_priority(preempted->0.id) == Some(p) {
                (more - 1) as nat
            } else {
                more
            }
        }
}

/// A frame whose deadline has passed is the last one of its priority and leaves, and the deadline with
/// it. All other frames and deadlines stay.
pub proof fn law_late_frames_leave(queues: Seq<Seq<FdFrame>>, deadlines: Seq<Instant>, now: Instant, i: int)
    requires
        queues.len() == 8,
        deadlines.len() == 8,
        0 <= i < 8,
    ensures
        kept_frames(queues, deadlines, now).len() == 8,
        kept_deadlines(deadlines, now).len() == 8,
        if deadlines[i].ticks < now.ticks {
            &&& kept_deadlines(deadlines, now)[i].ticks == u64::MAX
            &&& queues[i].len() > 0 ==> kept_frames(queues, deadlines, now)[i] == queues[i].subrange(
                0,
                queues[i].len() - 1,
            )
        } else {
            &&& kept_deadlines(deadlines, now)[i] == deadlines[i]
            &&& kept_frames(queues, deadlines, now)[i] == queues[i]
        },
{
    if queues[i].len() > 0 {
        assert(queues[i].drop_last() =~= queues[i].subrange(0, queues[i].len() - 1));
    }
}

/// The transmitter asks for frames of exactly the priorities of which it has none, of the size of the
/// format.
pub proof fn law_transmitter_asks(runner: &TxRunner, p: Priority)
    ensures
        runner.requested().0.contains(p) <==> runner.queues()[p.code() as int].len() == 0,
        runner.requested().1 == (match runner.format() {
            FrameFormat::Classic => Mtu::Classic,
            FrameFormat::Fd => Mtu::Fd,
            FrameFormat::FdBrs => Mtu::Fd,
        }),
{
}

/// A frame that was delivered is the first one of its priority and leaves. The other ones stay. A
/// frame that comes back has a place if fewer than four of its priority wait then.
pub proof fn law_delivered_frame_leaves(runner: &TxRunner, delivered: Priority, q: Priority, frame: FdFrame)
    requires
        runner.queues().len() == 8,
        runner.queues()[delivered.code() as int].len() > 0,
        id_priority(frame.id) == Some(q),
    ensures
        runner.taken(delivered).len() == 8,
        runner.taken(delivered)[q.code() as int] == (if q == delivered {
            runner.queues()[q.code() as int].subrange(1, runner.queues()[q.code() as int].len() as int)
        } else {
            runner.queues()[q.code() as int]
        }),
        runner.can_wait(delivered, frame) <==> runner.queues()[q.code() as int].len() < (if q == delivered {
            5int
        } else {
            4int
        }),
{
    lemma_code_bijective(delivered, q);
    let queue = runner.queues()[delivered.code() as int];
    assert(queue.drop_first() =~= queue.subrange(1, queue.len() as int));
}

/// What is handed to the controller is the frame: its identifier and its data, in the format of the
/// transmitter. Its priority is in the upper three bits of the identifier.
pub proof fn law_raw_frame(frame: &Frame, format: FrameFormat, id: u32)
    requires
        id < 0x2000_0000,
    ensures
        raw_frame(frame, format).id == FrameId::Extended(header_id(&frame.header) as u32),
        raw_frame(frame, format).data == frame.data,
        raw_frame(frame, format).fd <==> format == FrameFormat::Fd || format == FrameFormat::FdBrs,
        raw_frame(frame, format).bit_rate_switch <==> format == FrameFormat::FdBrs,
        id_priority(FrameId::Extended(id)) matches Some(p) && p.code() == id / 0x400_0000,
{
    law_priority_codes(Priority::Nominal, Priority::Nominal, (id / 0x400_0000) as int);
}

} // verus!
