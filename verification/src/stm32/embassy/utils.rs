//! Queues of frames by priority.

use heapless::Deque;
use vstd::prelude::*;

use crate::frame::Data;
use crate::priority::{lemma_code_bijective, Priority, PrioritySet};

verus! {

/// The identifier of a frame.
#[derive(Debug, Clone, Copy, PartialEq, Eq, Structural)]
pub enum FrameId {
    /// An identifier of 11 bits.
    Standard(u16),
    /// An identifier of 29 bits.
    Extended(u32),
}

/// A frame as the periphery sends it.
#[derive(Debug, Clone, Copy, PartialEq, Eq)]
pub struct FdFrame {
    /// The identifier.
    pub id: FrameId,
    /// The frame has the FD format.
    pub fd: bool,
    /// The bit rate is switched in the data phase.
    pub bit_rate_switch: bool,
    /// The data bytes.
    pub data: Data,
}

/// Number of frames of a priority that can wait: those of the three transmit buffers, and the one
/// that is next.
pub const PREEMPTION_DEPTH: usize = 4;

/// `heapless::Deque`: a queue with two ends and a fixed capacity.
#[verifier::external_type_specification]
#[verifier::external_body]
#[verifier::reject_recursive_types(T)]
pub struct ExDeque<T, const N: usize>(Deque<T, N>);

/// The frames of a queue, from the front to the back.
pub uninterp spec fn deque_frames(deque: Deque<FdFrame, 4>) -> Seq<FdFrame>;

/// Calls `heapless::Deque::new`: the queue is empty.
#[verifier::external_body]
fn deque_new() -> (r: Deque<FdFrame, 4>)
    ensures
        deque_frames(r) == Seq::<FdFrame>::empty(),
{
    Deque::new()
}

/// Calls `heapless::Deque::is_empty`.
#[verifier::external_body]
fn deque_is_empty(deque: &Deque<FdFrame, 4>) -> (r: bool)
    ensures
        r == (deque_frames(*deque).len() == 0),
{
    deque.is_empty()
}

/// Calls `heapless::Deque::front`: the frame at the front, if there is one.
#[verifier::external_body]
fn deque_front(deque: &Deque<FdFrame, 4>) -> (r: Option<&FdFrame>)
    ensures
        r == (if deque_frames(*deque).len() > 0 { Some(&deque_frames(*deque)[0]) } else { None }),
{
    deque.front()
}

/// Calls `heapless::Deque::pop_front`: takes the frame at the front out, if there is one.
#[verifier::external_body]
fn deque_pop_front(deque: &mut Deque<FdFrame, 4>) -> (r: Option<FdFrame>)
    ensures
        r == (if deque_frames(*old(deque)).len() > 0 { Some(deque_frames(*old(deque))[0]) } else { None }),
        deque_frames(*final(deque)) == (if deque_frames(*old(deque)).len() > 0 {
            deque_frames(*old(deque)).drop_first()
        } else {
            deque_frames(*old(deque))
        }),
{
    deque.pop_front()
}

/// Calls `heapless::Deque::pop_back`: takes the frame at the back out, if there is one.
#[verifier::external_body]
fn deque_pop_back(deque: &mut Deque<FdFrame, 4>) -> (r: Option<FdFrame>)
    ensures
        r == (if deque_frames(*old(deque)).len() > 0 { Some(deque_frames(*old(deque)).last()) } else { None }),
        deque_frames(*final(deque)) == (if deque_frames(*old(deque)).len() > 0 {
            deque_frames(*old(deque)).drop_last()
        } else {
            deque_frames(*old(deque))
        }),
{
    deque.pop_back()
}

/// Calls `heapless::Deque::push_front`: puts a frame to the front, or hands it back if the queue
/// is full.
#[verifier::external_body]
fn deque_push_front(deque: &mut Deque<FdFrame, 4>, item: FdFrame) -> (r: Result<(), FdFrame>)
    ensures
        r == (if deque_frames(*old(deque)).len() < 4 { Ok(()) } else { Err(item) }),
        deque_frames(*final(deque)) == (if deque_frames(*old(deque)).len() < 4 {
            seq![item] + deque_frames(*old(deque))
        } else {
            deque_frames(*old(deque))
        }),
{
    deque.push_front(item)
}

/// Calls `heapless::Deque::push_back`: puts a frame to the back, or hands it back if the queue is
/// full.
#[verifier::external_body]
fn deque_push_back(deque: &mut Deque<FdFrame, 4>, item: FdFrame) -> (r: Result<(), FdFrame>)
    ensures
        r == (if deque_frames(*old(deque)).len() < 4 { Ok(()) } else { Err(item) }),
        deque_frames(*final(deque)) == (if deque_frames(*old(deque)).len() < 4 {
            deque_frames(*old(deque)).push(item)
        } else {
            deque_frames(*old(deque))
        }),
{
    deque.push_back(item)
}

/// A queue of frames for each priority.
pub struct PriorityDeque {
    queues: Vec<Deque<FdFrame, 4>>,
    priorities: PrioritySet,
}

impl View for PriorityDeque {
    type V = Seq<Seq<FdFrame>>;

    /// The queues by the codes of their priorities.
    closed spec fn view(&self) -> Seq<Seq<FdFrame>> {
        Seq::new(self.queues@.len(), |i: int| deque_frames(self.queues@[i]))
    }
}

/// The priorities with frames.
pub open spec fn busy(queues: Seq<Seq<FdFrame>>) -> Set<Priority> {
    Set::new(|p: Priority| queues[p.code() as int].len() > 0)
}

impl PriorityDeque {
    /// There is a queue for each priority, and the set holds the priorities with frames.
    pub closed spec fn wf(&self) -> bool {
        self.queues@.len() == 8 && self.priorities@ == busy(self@)
    }

    /// The frames of a priority.
    pub open spec fn at(&self, priority: Priority) -> Seq<FdFrame> {
        self@[priority.code() as int]
    }

    /// There is a queue for each priority.
    pub proof fn lemma_len(&self)
        requires
            self.wf(),
        ensures
            self@.len() == 8,
    {
    }

    /// Returns empty queues.
    pub fn new() -> (r: Self)
        ensures
            r.wf(),
            r@ == Seq::new(8, |i: int| Seq::<FdFrame>::empty()),
    {
        let mut queues: Vec<Deque<FdFrame, 4>> = Vec::new();
        let mut i: usize = 0;
        while i < 8
            invariant
                i <= 8,
                queues@.len() == i,
                forall|k: int| 0 <= k < i ==> deque_frames(#[trigger] queues@[k]) == Seq::<FdFrame>::empty(),
            decreases 8 - i,
        {
            queues.push(deque_new());
            i = i + 1;
        }
        let r = PriorityDeque { queues, priorities: PrioritySet::none() };
        assert(r@ =~= Seq::new(8, |i: int| Seq::<FdFrame>::empty()));
        assert(busy(r@) =~= Set::<Priority>::empty());
        r
    }

    /// The queues after one of them was changed.
    proof fn lemma_changed(&self, before: &Self, priority: Priority, frames: Seq<FdFrame>)
        requires
            before.wf(),
            self.queues@.len() == 8,
            forall|i: int| 0 <= i < 8 && i != priority.code() ==> #[trigger] self.queues@[i] == before.queues@[i],
            deque_frames(self.queues@[priority.code() as int]) == frames,
            self.priorities@ == (if frames.len() > 0 {
                before.priorities@.insert(priority)
            } else {
                before.priorities@.remove(priority)
            }),
        ensures
            self.wf(),
            self@ == before@.update(priority.code() as int, frames),
    {
        assert(self@ =~= before@.update(priority.code() as int, frames));
        assert forall|p: Priority| self.priorities@.contains(p) == busy(self@).contains(p) by {
            lemma_code_bijective(p, priority);
            if p != priority {
                assert(self.queues@[p.code() as int] == before.queues@[p.code() as int]);
                assert(before.priorities@.contains(p) == busy(before@).contains(p));
            }
        }
        assert(self.priorities@ =~= busy(self@));
    }

    /// Returns the priorities with frames.
    pub fn priorities(&self) -> (r: PrioritySet)
        requires
            self.wf(),
        ensures
            r@ == busy(self@),
    {
        self.priorities
    }

    /// Returns the frame at the front of a priority.
    pub fn front(&self, priority: Priority) -> (r: Option<&FdFrame>)
        requires
            self.wf(),
        ensures
            r == (if self.at(priority).len() > 0 { Some(&self.at(priority)[0]) } else { None }),
    {
        deque_front(&self.queues[priority.into_u8() as usize])
    }

    /// Takes the frame at the front of a priority out.
    pub fn pop_front(&mut self, priority: Priority) -> (r: Option<FdFrame>)
        requires
            old(self).wf(),
        ensures
            final(self).wf(),
            r == (if old(self).at(priority).len() > 0 { Some(old(self).at(priority)[0]) } else { None }),
            final(self)@ == (if old(self).at(priority).len() > 0 {
                old(self)@.update(priority.code() as int, old(self).at(priority).drop_first())
            } else {
                old(self)@
            }),
    {
        let ghost before = *self;
        let i: usize = priority.into_u8() as usize;
        let value: Option<FdFrame> = deque_pop_front(&mut self.queues[i]);
        let empty: bool = deque_is_empty(&self.queues[i]);
        if empty {
            self.priorities.remove(priority);
        }
        proof {
            let frames = deque_frames(self.queues@[i as int]);
            if frames.len() > 0 {
                assert(before.priorities@.contains(priority));
                assert(before.priorities@ =~= before.priorities@.insert(priority));
            }
            self.lemma_changed(&before, priority, frames);
            if before.at(priority).len() == 0 {
                assert(self@ =~= before@);
            }
        }
        value
    }

    /// Takes the frame at the back of a priority out.
    pub fn pop_back(&mut self, priority: Priority) -> (r: Option<FdFrame>)
        requires
            old(self).wf(),
        ensures
            final(self).wf(),
            r == (if old(self).at(priority).len() > 0 { Some(old(self).at(priority).last()) } else { None }),
            final(self)@ == (if old(self).at(priority).len() > 0 {
                old(self)@.update(priority.code() as int, old(self).at(priority).drop_last())
            } else {
                old(self)@
            }),
    {
        let ghost before = *self;
        let i: usize = priority.into_u8() as usize;
        let value: Option<FdFrame> = deque_pop_back(&mut self.queues[i]);
        let empty: bool = deque_is_empty(&self.queues[i]);
        if empty {
            self.priorities.remove(priority);
        }
        proof {
            let frames = deque_frames(self.queues@[i as int]);
            if frames.len() > 0 {
                assert(before.priorities@.contains(priority));
                assert(before.priorities@ =~= before.priorities@.insert(priority));
            }
            self.lemma_changed(&before, priority, frames);
            if before.at(priority).len() == 0 {
                assert(self@ =~= before@);
            }
        }
        value
    }

    /// Puts a frame to the front of a priority, or hands it back if the queue is full.
    pub fn push_front(&mut self, priority: Priority, item: FdFrame) -> (r: Result<(), FdFrame>)
        requires
            old(self).wf(),
        ensures
            final(self).wf(),
            r == (if old(self).at(priority).len() < 4 { Ok(()) } else { Err(item) }),
            final(self)@ == (if old(self).at(priority).len() < 4 {
                old(self)@.update(priority.code() as int, seq![item] + old(self).at(priority))
            } else {
                old(self)@
            }),
    {
        let ghost before = *self;
        let i: usize = priority.into_u8() as usize;
        let res: Result<(), FdFrame> = deque_push_front(&mut self.queues[i], item);
        self.priorities.insert(priority);
        proof {
            self.lemma_changed(&before, priority, deque_frames(self.queues@[i as int]));
            if before.at(priority).len() >= 4 {
                assert(self@ =~= before@);
            }
        }
        res
    }

    /// Puts a frame to the back of a priority, or hands it back if the queue is full.
    pub fn push_back(&mut self, priority: Priority, item: FdFrame) -> (r: Result<(), FdFrame>)
        requires
            old(self).wf(),
        ensures
            final(self).wf(),
            r == (if old(self).at(priority).len() < 4 { Ok(()) } else { Err(item) }),
            final(self)@ == (if old(self).at(priority).len() < 4 {
                old(self)@.update(priority.code() as int, old(self).at(priority).push(item))
            } else {
                old(self)@
            }),
    {
        let ghost before = *self;
        let i: usize = priority.into_u8() as usize;
        let res: Result<(), FdFrame> = deque_push_back(&mut self.queues[i], item);
        self.priorities.insert(priority);
        proof {
            self.lemma_changed(&before, priority, deque_frames(self.queues@[i as int]));
            if before.at(priority).len() >= 4 {
                assert(self@ =~= before@);
            }
        }
        res
    }
}

impl Default for PriorityDeque {
    fn default() -> (r: Self)
        ensures
            r.wf(),
            r@ == Seq::new(8, |i: int| Seq::<FdFrame>::empty()),
    {
        Self::new()
    }
}

} // verus!
