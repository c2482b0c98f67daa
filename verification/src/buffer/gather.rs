//! Reassembly of received transfers.

use vstd::prelude::*;
use vstd::slice::slice_subrange;

use crate::format::{
    crc_bytes, crc_field, lemma_crc_concat, law_crc_residue, tail_fields, TailByte, TransferCrc, CRC_INIT,
    SOT_TOGGLE_BIT,
};
use crate::frame::Mtu;
use crate::ids::TransferId;
use crate::priority::Priority;
use crate::time::{Duration, Instant};

verus! {

/// What a received frame contributes to a transfer.
#[derive(Clone, Copy)]
struct Segment<'a> {
    transfer_id: TransferId,
    priority: Priority,
    payload: &'a [u8],
    timestamp: Instant,
}

/// A completely received transfer.
#[derive(Debug, Clone, Copy, PartialEq, Eq, Structural)]
pub struct Transfer {
    /// Identifier within the session.
    pub id: TransferId,
    /// Priority of the last frame.
    pub priority: Priority,
    /// Time of the first frame.
    pub timestamp: Instant,
    /// Number of payload bytes, including those that did not fit into the buffer.
    pub length: u32,
}

#[derive(Debug, Clone, Copy, PartialEq, Eq, Structural)]
enum State {
    /// Neither the start time nor the identifier is set.
    Idle,
    /// The identifier is not set.
    IdleLastTransfer,
    AccumulatedFirst,
    AccumulatedOdd,
    AccumulatedEven,
    Assembled,
}

/// How far the reassembly has come.
pub enum Phase {
    /// No transfer is followed.
    Idle,
    /// The start of a transfer has been received, and `odd` tells whether the number of frames
    /// after the first one is odd. `first` tells that no frame followed the first one.
    Accumulating { first: bool, odd: bool },
    /// The transfer is complete.
    Assembled,
}

/// What a session remembers of its transfers.
pub struct Session {
    /// How far the reassembly of the transfer has come.
    pub phase: Phase,
    /// When the last transfer started.
    pub start: Option<Instant>,
    /// The transfer that is followed.
    pub id: Option<TransferId>,
    /// How many payload bytes have been received.
    pub length: int,
    /// Checksum of the payload bytes.
    pub crc: u16,
}

/// What a frame does to a session, its buffer, and the transfer that comes out.
pub struct Step {
    /// The session afterwards.
    pub session: Session,
    /// The buffer afterwards.
    pub buffer: Seq<u8>,
    /// The transfer that the frame completes.
    pub transfer: Option<Transfer>,
}

/// `buffer` with `bytes` written at `offset`, as far as they fit.
pub open spec fn store(buffer: Seq<u8>, offset: int, bytes: Seq<u8>) -> Seq<u8> {
    Seq::new(
        buffer.len(),
        |i: int| if offset <= i < offset + bytes.len() { bytes[i - offset] } else { buffer[i] },
    )
}

impl Session {
    /// A session without any transfer.
    pub open spec fn fresh() -> Session {
        Session { phase: Phase::Idle, start: None, id: None, length: 0, crc: CRC_INIT }
    }

    /// The transfer is known whenever one is followed, and so is its start.
    pub open spec fn wf(self) -> bool {
        &&& self.phase !is Idle ==> self.start is Some && self.id is Some
        &&& self.phase is Idle ==> self.id is None
        &&& 0 <= self.length <= u32::MAX
    }

    /// The session stops to follow a transfer.
    pub open spec fn stopped(self) -> Session {
        Session { phase: Phase::Idle, id: None, length: 0, crc: CRC_INIT, ..self }
    }

    /// The frame belongs to the transfer that is followed, and arrived in time.
    pub open spec fn is_same_transfer(self, timeout: Duration, id: TransferId, timestamp: Instant) -> bool {
        &&& self.phase !is Idle
        &&& self.id == Some(id)
        &&& timestamp.ticks <= self.start->0.plus(timeout).ticks
    }

    /// What is known of the payload that has been received.
    pub open spec fn accumulated(self) -> Accumulated {
        Accumulated { length: self.length, crc: self.crc }
    }

    /// `payload` is the next part of the transfer, and not the last one.
    pub open spec fn accumulate(self, phase: Phase, buffer: Seq<u8>, payload: Seq<u8>) -> Step {
        if (payload.len() != 7 && payload.len() != 63) || self.length + payload.len() > u32::MAX {
            Step { session: self.stopped(), buffer, transfer: None }
        } else {
            Step {
                session: Session {
                    phase,
                    length: self.length + payload.len(),
                    crc: crc_bytes(self.crc, payload),
                    ..self
                },
                buffer: store(buffer, self.length, payload),
                transfer: None,
            }
        }
    }

    /// `payload` is the last part of the transfer.
    pub open spec fn finish(self, buffer: Seq<u8>, payload: Seq<u8>, priority: Priority) -> Step {
        let length = self.length + payload.len();
        if payload.len() == 0 || length > u32::MAX {
            Step { session: self.stopped(), buffer, transfer: None }
        } else if self.accumulated().with(payload).checked_length() is None {
            Step { session: self.stopped(), buffer: store(buffer, self.length, payload), transfer: None }
        } else {
            Step {
                session: Session { phase: Phase::Assembled, length: 0, crc: CRC_INIT, ..self },
                buffer: store(buffer, self.length, payload),
                transfer: Some(
                    Transfer {
                        id: self.id->0,
                        priority,
                        timestamp: self.start->0,
                        length: (length - 2) as u32,
                    },
                ),
            }
        }
    }

    /// The session starts to follow a transfer.
    pub open spec fn started(self, phase: Phase, id: TransferId, timestamp: Instant) -> Session {
        Session { phase, start: Some(timestamp), id: Some(id), length: 0, crc: CRC_INIT }
    }

    /// A frame with a payload and a tail byte is received.
    pub open spec fn receive(
        self,
        timeout: Duration,
        buffer: Seq<u8>,
        priority: Priority,
        payload: Seq<u8>,
        tail: u8,
        timestamp: Instant,
    ) -> Step {
        let fields = tail_fields(tail);
        let same = self.is_same_transfer(timeout, fields.transfer_id, timestamp);
        // Whether the toggle bit is that of a frame with an odd distance to the first one.
        let toggle_odd = fields.toggle != SOT_TOGGLE_BIT;
        let skip = Step { session: self, buffer, transfer: None };
        let stop = Step { session: self.stopped(), buffer, transfer: None };
        if self.phase is Assembled && same {
            // A replica of a complete transfer.
            skip
        } else if fields.sot && toggle_odd {
            stop
        } else if fields.sot && fields.eot {
            Step {
                session: self.started(Phase::Assembled, fields.transfer_id, timestamp),
                buffer: store(buffer, 0, payload),
                transfer: Some(
                    Transfer {
                        id: fields.transfer_id,
                        priority,
                        timestamp,
                        length: payload.len() as u32,
                    },
                ),
            }
        } else if fields.sot {
            if payload.len() != 7 && payload.len() != 63 {
                stop
            } else {
                let phase = Phase::Accumulating { first: true, odd: false };
                self.started(phase, fields.transfer_id, timestamp).accumulate(phase, buffer, payload)
            }
        } else if !same {
            stop
        } else {
            match self.phase {
                Phase::Accumulating { first, odd } => {
                    if !fields.eot && payload.len() != 7 && payload.len() != 63 {
                        stop
                    } else if toggle_odd != odd {
                        if fields.eot {
                            self.finish(buffer, payload, priority)
                        } else {
                            self.accumulate(
                                Phase::Accumulating { first: false, odd: toggle_odd },
                                buffer,
                                payload,
                            )
                        }
                    } else if fields.eot || first {
                        stop
                    } else {
                        // A replica of the last frame.
                        skip
                    }
                },
                _ => skip,
            }
        }
    }

    /// The data of a frame is received. A frame without a tail byte is ignored.
    pub open spec fn push(
        self,
        timeout: Duration,
        buffer: Seq<u8>,
        priority: Priority,
        data: Seq<u8>,
        timestamp: Instant,
    ) -> Step {
        if data.len() == 0 {
            Step { session: self, buffer, transfer: None }
        } else {
            self.receive(timeout, buffer, priority, data.drop_last(), data.last(), timestamp)
        }
    }
}

/// A frame keeps a session well-formed and the size of its buffer.
pub proof fn law_session_wf(
    session: Session,
    timeout: Duration,
    buffer: Seq<u8>,
    priority: Priority,
    data: Seq<u8>,
    timestamp: Instant,
)
    requires
        session.wf(),
    ensures
        session.push(timeout, buffer, priority, data, timestamp).session.wf(),
        session.push(timeout, buffer, priority, data, timestamp).buffer.len() == buffer.len(),
{
}

/// Replicas of a complete transfer are ignored until the timeout: no frame of it changes
/// anything or brings out the transfer again.
pub proof fn law_replicas_are_ignored(
    session: Session,
    timeout: Duration,
    buffer: Seq<u8>,
    priority: Priority,
    data: Seq<u8>,
    timestamp: Instant,
)
    requires
        session.wf(),
        session.phase is Assembled,
        data.len() > 0,
        session.is_same_transfer(timeout, tail_fields(data.last()).transfer_id, timestamp),
    ensures
        session.push(timeout, buffer, priority, data, timestamp) == (Step {
            session,
            buffer,
            transfer: None,
        }),
{
}

/// A frame that is not the last one and does not fill a transmission unit stops an unfinished
/// reassembly, whatever its toggle bit is. It contributes nothing.
pub proof fn law_short_frame_stops(
    session: Session,
    timeout: Duration,
    buffer: Seq<u8>,
    priority: Priority,
    data: Seq<u8>,
    timestamp: Instant,
)
    requires
        session.wf(),
        data.len() > 0,
        !tail_fields(data.last()).eot,
        data.len() != 8 && data.len() != 64,
        !(session.phase is Assembled && session.is_same_transfer(
            timeout,
            tail_fields(data.last()).transfer_id,
            timestamp,
        )),
    ensures
        session.push(timeout, buffer, priority, data, timestamp) == (Step {
            session: session.stopped(),
            buffer,
            transfer: None,
        }),
{
}

/// A frame ends the reassembly and the assembled status of every other transfer: afterwards the
/// session follows the transfer of the frame or none.
pub proof fn law_one_transfer_at_a_time(
    session: Session,
    timeout: Duration,
    buffer: Seq<u8>,
    priority: Priority,
    data: Seq<u8>,
    timestamp: Instant,
)
    requires
        session.wf(),
        data.len() > 0,
    ensures
        ({
            let after = session.push(timeout, buffer, priority, data, timestamp).session;
            after.id is None || after.id == Some(tail_fields(data.last()).transfer_id)
        }),
{
}

/// A transfer comes out only with its last frame, and has the identifier and the priority of
/// that frame. Its session is then assembled.
pub proof fn law_last_frame_completes(
    session: Session,
    timeout: Duration,
    buffer: Seq<u8>,
    priority: Priority,
    data: Seq<u8>,
    timestamp: Instant,
)
    requires
        session.wf(),
    ensures
        session.push(timeout, buffer, priority, data, timestamp).transfer matches Some(transfer) ==> {
            let after = session.push(timeout, buffer, priority, data, timestamp).session;
            &&& data.len() > 0
            &&& tail_fields(data.last()).eot
            &&& transfer.id == tail_fields(data.last()).transfer_id
            &&& transfer.priority == priority
            &&& after.phase is Assembled
            &&& after.id == Some(transfer.id)
            &&& after.start == Some(transfer.timestamp)
        },
{
}

/// A frame as it is handed to a session, and the buffer that goes with it.
pub struct Received {
    /// Priority of the frame.
    pub priority: Priority,
    /// Data of the frame.
    pub data: Seq<u8>,
    /// When the frame was received.
    pub timestamp: Instant,
    /// The buffer for the payload.
    pub buffer: Seq<u8>,
}

impl Received {
    /// The frame has a tail byte.
    pub open spec fn has_tail(self) -> bool {
        self.data.len() > 0
    }

    /// What the frame does to a session.
    pub open spec fn push(self, session: Session, timeout: Duration) -> Step {
        session.push(timeout, self.buffer, self.priority, self.data, self.timestamp)
    }
}

/// A session after a sequence of frames.
pub open spec fn session_after(timeout: Duration, frames: Seq<Received>) -> Session
    decreases frames.len(),
{
    if frames.len() == 0 {
        Session::fresh()
    } else {
        frames.last().push(session_after(timeout, frames.drop_last()), timeout).session
    }
}

/// Frame `k` starts a transfer of several frames, and all later frames belong to it and are in time.
pub open spec fn is_start(timeout: Duration, frames: Seq<Received>, k: int, id: TransferId, start: Instant) -> bool {
    &&& 0 <= k < frames.len()
    &&& frames[k].has_tail()
    &&& tail_fields(frames[k].data.last()).sot
    &&& !tail_fields(frames[k].data.last()).eot
    &&& tail_fields(frames[k].data.last()).transfer_id == id
    &&& frames[k].timestamp == start
    &&& forall|j: int|
        k < j < frames.len() && (#[trigger] frames[j]).has_tail() ==> {
            &&& !tail_fields(frames[j].data.last()).sot
            &&& tail_fields(frames[j].data.last()).transfer_id == id
            &&& frames[j].timestamp.ticks <= start.plus(timeout).ticks
        }
}

/// A transfer that is followed has a first frame.
proof fn lemma_has_start(timeout: Duration, frames: Seq<Received>)
    ensures
        session_after(timeout, frames).wf(),
        session_after(timeout, frames).phase is Accumulating ==> exists|k: int| #[trigger]
            is_start(
                timeout,
                frames,
                k,
                session_after(timeout, frames).id->0,
                session_after(timeout, frames).start->0,
            ),
    decreases frames.len(),
{
    if frames.len() > 0 {
        let before = frames.drop_last();
        let session = session_after(timeout, before);
        let after = session_after(timeout, frames);
        let last = frames.last();
        lemma_has_start(timeout, before);
        law_session_wf(session, timeout, last.buffer, last.priority, last.data, last.timestamp);
        if after.phase is Accumulating {
            let id = after.id->0;
            let start = after.start->0;
            if last.has_tail() && tail_fields(last.data.last()).sot {
                assert(is_start(timeout, frames, frames.len() - 1, id, start));
            } else {
                assert(session.phase is Accumulating);
                let k = choose|k: int| #[trigger] is_start(timeout, before, k, session.id->0, session.start->0);
                assert forall|j: int| k < j < frames.len() && (#[trigger] frames[j]).has_tail() implies {
                    &&& !tail_fields(frames[j].data.last()).sot
                    &&& tail_fields(frames[j].data.last()).transfer_id == id
                    &&& frames[j].timestamp.ticks <= start.plus(timeout).ticks
                } by {
                    if j < before.len() {
                        assert(before[j] == frames[j]);
                    }
                }
                assert(before[k] == frames[k]);
                assert(is_start(timeout, frames, k, id, start));
            }
        }
    }
}

/// Whatever a session has received before, a frame without data changes nothing, and a transfer
/// comes out only with its last frame. It has the identifier and the priority of that frame and the
/// time of its first frame: the frame itself, or an earlier one since which all frames belonged to
/// the transfer. The last frame is received within the timeout.
pub proof fn law_transfer_has_start(timeout: Duration, frames: Seq<Received>, last: Received)
    ensures
        ({
            let session = session_after(timeout, frames);
            let step = last.push(session, timeout);
            let tail = tail_fields(last.data.last());
            &&& !last.has_tail() ==> step == (Step { session, buffer: last.buffer, transfer: None })
            &&& step.transfer matches Some(transfer) ==> {
                &&& last.has_tail()
                &&& tail.eot
                &&& transfer.id == tail.transfer_id
                &&& transfer.priority == last.priority
                &&& last.timestamp.ticks <= transfer.timestamp.plus(timeout).ticks
                &&& if tail.sot {
                    transfer.timestamp == last.timestamp
                } else {
                    exists|k: int| #[trigger] is_start(timeout, frames, k, transfer.id, transfer.timestamp)
                }
            }
        }),
{
    lemma_has_start(timeout, frames);
    let session = session_after(timeout, frames);
    let step = last.push(session, timeout);
    let tail = tail_fields(last.data.last());
    if let Some(transfer) = step.transfer {
        law_last_frame_completes(session, timeout, last.buffer, last.priority, last.data, last.timestamp);
        if !tail.sot {
            assert(session.phase is Accumulating);
            assert(session.is_same_transfer(timeout, tail.transfer_id, last.timestamp));
            assert(transfer.timestamp == session.start->0);
            assert(transfer.id == session.id->0);
        }
    }
}

/// The first `n` bytes of a buffer, or all of them.
pub open spec fn clip(buffer: Seq<u8>, n: int) -> Seq<u8> {
    if n < buffer.len() {
        buffer.take(n)
    } else {
        buffer
    }
}

/// A buffer of `capacity` bytes that starts with the given ones.
pub open spec fn extend(bytes: Seq<u8>, capacity: nat) -> Seq<u8> {
    Seq::new(capacity, |i: int| if i < bytes.len() { bytes[i] } else { 0 })
}

/// What is in the buffer behind the received bytes has no influence.
pub proof fn lemma_push_ignores_rest(
    session: Session,
    timeout: Duration,
    a: Seq<u8>,
    b: Seq<u8>,
    priority: Priority,
    data: Seq<u8>,
    timestamp: Instant,
)
    requires
        session.wf(),
        a.len() == b.len(),
        clip(a, session.length) == clip(b, session.length),
        data.len() <= u32::MAX,
    ensures
        ({
            let x = session.push(timeout, a, priority, data, timestamp);
            let y = session.push(timeout, b, priority, data, timestamp);
            &&& x.session == y.session
            &&& x.transfer == y.transfer
            &&& x.buffer.len() == a.len()
            &&& y.buffer.len() == b.len()
            &&& clip(x.buffer, x.session.length) == clip(y.buffer, y.session.length)
            &&& x.transfer matches Some(t) ==> clip(x.buffer, t.length as int) == clip(
                y.buffer,
                t.length as int,
            )
        }),
{
    let x = session.push(timeout, a, priority, data, timestamp);
    let y = session.push(timeout, b, priority, data, timestamp);
    assert forall|i: int| 0 <= i < a.len() && i < session.length implies a[i] == b[i] by {
        assert(a[i] == clip(a, session.length)[i]);
        assert(b[i] == clip(b, session.length)[i]);
    }
    assert forall|i: int| 0 <= i < a.len() && i < x.session.length implies x.buffer[i] == y.buffer[i] by {}
    assert(clip(x.buffer, x.session.length) =~= clip(y.buffer, y.session.length));
    if let Some(t) = x.transfer {
        assert forall|i: int| 0 <= i < a.len() && i < t.length implies x.buffer[i] == y.buffer[i] by {}
        assert(clip(x.buffer, t.length as int) =~= clip(y.buffer, t.length as int));
    }
}

/// Transfer reception state machine of one session.
///
/// Redundant interfaces and different priorities within a session are not supported. The
/// following rules are written as if there were a timeout timer, a reassembly and an assembled
/// status for each transfer identifier.
///
/// 1.  A frame without data is ignored: it has no tail byte.
/// 2.  A frame stops the reassembly, clears the assembled status and resets the timer of all
///     other transfer identifiers.
/// 3.  A first frame with a wrong toggle bit stops an unfinished reassembly.
/// 4.  A frame that is not the last one and does not fill a transmission unit (8 or 64 bytes)
///     stops an unfinished reassembly and is not processed further.
/// 5.  A single-frame transfer with the right toggle bit restarts the timer, stops reassembly
///     and is a complete transfer, unless the timer runs and the transfer is assembled.
/// 6.  A first frame of several with the right toggle bit restarts the timer and reassembly,
///     unless the timer runs and the transfer is assembled.
/// 7.  A later frame that is received after the timeout stops an unfinished reassembly.
/// 8.  A second frame with a wrong toggle bit stops an unfinished reassembly.
/// 9.  A frame between the first and the last one contributes if it has a new toggle bit, and
///     is ignored if the toggle bit is repeated.
/// 10. A last frame with a wrong toggle bit stops an unfinished reassembly.
/// 11. A last frame finishes the reassembly. The transfer is complete if a reassembly was
///     running, the payload of the frame is not empty and the checksum matches.
/// 12. The priority of a transfer is that of its last frame.
#[derive(Debug)]
pub struct Gather {
    state: State,
    sof_timestamp: Option<Instant>,
    transfer_id: Option<TransferId>,
    acc: PayloadAccumulator,
}

impl View for Gather {
    type V = Session;

    closed spec fn view(&self) -> Session {
        Session {
            phase: match self.state {
                State::Idle => Phase::Idle,
                State::IdleLastTransfer => Phase::Idle,
                State::AccumulatedFirst => Phase::Accumulating { first: true, odd: false },
                State::AccumulatedOdd => Phase::Accumulating { first: false, odd: true },
                State::AccumulatedEven => Phase::Accumulating { first: false, odd: false },
                State::Assembled => Phase::Assembled,
            },
            start: self.sof_timestamp,
            id: self.transfer_id,
            length: self.acc@.length,
            crc: self.acc@.crc,
        }
    }
}

impl Default for Gather {
    fn default() -> (r: Self)
        ensures
            r.wf(),
            r@ == Session::fresh(),
    {
        Self {
            state: State::Idle,
            sof_timestamp: None,
            transfer_id: None,
            acc: PayloadAccumulator::default(),
        }
    }
}

impl Gather {
    /// The state agrees with what is set.
    pub closed spec fn wf(&self) -> bool {
        &&& self@.wf()
        &&& self.state == State::Idle <==> self.sof_timestamp is None
    }

    /// A well-formed state machine stands for a well-formed session.
    pub proof fn lemma_wf(&self)
        requires
            self.wf(),
        ensures
            self@.wf(),
    {
    }

    /// Returns when the last transfer started, if there was one.
    pub fn last_transfer_timestamp(&self) -> (r: Option<Instant>)
        requires
            self.wf(),
        ensures
            r == self@.start,
    {
        match self.state {
            State::Idle => None,
            _ => self.sof_timestamp,
        }
    }

    /// Receives the data of a frame.
    ///
    /// The payload is written to the buffer, as far as it fits. Returns the transfer that the
    /// frame completes.
    pub fn push_frame(
        &mut self,
        timeout: Duration,
        buffer: &mut [u8],
        priority: Priority,
        data: &[u8],
        timestamp: Instant,
        _mtu: Mtu,
    ) -> (r: Option<Transfer>)
        requires
            old(self).wf(),
            data@.len() <= u32::MAX,
        ensures
            final(self).wf(),
            ({
                let step = old(self)@.push(timeout, old(buffer)@, priority, data@, timestamp);
                final(self)@ == step.session && final(buffer)@ == step.buffer && r == step.transfer
            }),
    {
        let n: usize = data.len();
        if n == 0 {
            return None;
        }
        let tail = TailByte::from_u8(data[n - 1]);
        let payload = slice_subrange(data, 0, n - 1);
        assert(payload@ =~= data@.drop_last());

        let segment = Segment { transfer_id: tail.transfer_id(), priority, payload, timestamp };

        let tid_match: bool = match self.state {
            State::Idle | State::IdleLastTransfer => false,
            State::AccumulatedFirst | State::AccumulatedEven | State::AccumulatedOdd
            | State::Assembled => {
                segment.transfer_id == self.transfer_id.unwrap()
                    && timestamp.ticks <= self.sof_timestamp.unwrap().saturating_add(timeout).ticks
            },
        };

        let toggle_odd: bool = tail.toggle() != SOT_TOGGLE_BIT;

        match (self.state, tail.sot(), tail.eot(), toggle_odd, tid_match) {
            (State::Assembled, _, _, _, true) => self.skip_frame(),
            (_, true, _, true, _) => self.stop_assembly(),
            (_, true, true, false, _) => self.single_frame_assembly(buffer, segment),
            (_, true, false, false, _) => self.accumulate_first(buffer, segment),
            (_, _, _, _, false) => self.stop_assembly(),
            (State::Idle, _, _, _, _) => self.skip_frame(),
            (State::IdleLastTransfer, _, _, _, _) => self.skip_frame(),
            (State::AccumulatedFirst, false, false, false, true) => self.stop_assembly(),
            (State::AccumulatedFirst, false, false, true, true) => self.accumulate_odd(buffer, segment),
            (State::AccumulatedFirst, false, true, false, true) => self.stop_assembly(),
            (State::AccumulatedFirst, false, true, true, true) => self.finish_assembly(buffer, segment),
            (State::AccumulatedOdd, false, false, false, true) => self.accumulate_even(buffer, segment),
            (State::AccumulatedOdd, false, false, true, true) => self.skip_repeated(segment),
            (State::AccumulatedOdd, false, true, false, true) => self.finish_assembly(buffer, segment),
            (State::AccumulatedOdd, false, true, true, true) => self.stop_assembly(),
            (State::AccumulatedEven, false, false, false, true) => self.skip_repeated(segment),
            (State::AccumulatedEven, false, false, true, true) => self.accumulate_odd(buffer, segment),
            (State::AccumulatedEven, false, true, false, true) => self.stop_assembly(),
            (State::AccumulatedEven, false, true, true, true) => self.finish_assembly(buffer, segment),
        }
    }

    fn skip_frame(&mut self) -> (r: Option<Transfer>)
        requires
            old(self).wf(),
        ensures
            final(self).wf(),
            final(self)@ == old(self)@,
            r is None,
    {
        None
    }

    fn skip_repeated(&mut self, segment: Segment) -> (r: Option<Transfer>)
        requires
            old(self).wf(),
            segment.payload@.len() < u32::MAX,
        ensures
            final(self).wf(),
            final(self)@ == (if segment.payload@.len() != 7 && segment.payload@.len() != 63 {
                old(self)@.stopped()
            } else {
                old(self)@
            }),
            r is None,
    {
        if Mtu::try_from(segment.payload.len() + 1).is_err() {
            return self.stop_assembly();
        }
        self.skip_frame()
    }

    fn single_frame_assembly(&mut self, buffer: &mut [u8], segment: Segment) -> (r: Option<Transfer>)
        requires
            segment.payload@.len() <= u32::MAX,
        ensures
            final(self).wf(),
            final(self)@ == old(self)@.started(Phase::Assembled, segment.transfer_id, segment.timestamp),
            final(buffer)@ == store(old(buffer)@, 0, segment.payload@),
            r == Some(
                Transfer {
                    id: segment.transfer_id,
                    priority: segment.priority,
                    timestamp: segment.timestamp,
                    length: segment.payload@.len() as u32,
                },
            ),
    {
        write_at(buffer, 0, segment.payload);

        self.state = State::Assembled;
        self.sof_timestamp = Some(segment.timestamp);
        self.transfer_id = Some(segment.transfer_id);
        self.acc = PayloadAccumulator::default();

        Some(
            Transfer {
                id: segment.transfer_id,
                priority: segment.priority,
                timestamp: segment.timestamp,
                length: segment.payload.len() as u32,
            },
        )
    }

    fn accumulate_first(&mut self, buffer: &mut [u8], segment: Segment) -> (r: Option<Transfer>)
        requires
            old(self).wf(),
            segment.payload@.len() < u32::MAX,
        ensures
            final(self).wf(),
            ({
                let phase = Phase::Accumulating { first: true, odd: false };
                let step = if segment.payload@.len() != 7 && segment.payload@.len() != 63 {
                    Step { session: old(self)@.stopped(), buffer: old(buffer)@, transfer: None }
                } else {
                    old(self)@.started(phase, segment.transfer_id, segment.timestamp).accumulate(
                        phase,
                        old(buffer)@,
                        segment.payload@,
                    )
                };
                final(self)@ == step.session && final(buffer)@ == step.buffer && r == step.transfer
            }),
    {
        if Mtu::try_from(segment.payload.len() + 1).is_err() {
            return self.stop_assembly();
        }

        self.state = State::AccumulatedFirst;
        self.sof_timestamp = Some(segment.timestamp);
        self.transfer_id = Some(segment.transfer_id);
        self.acc = PayloadAccumulator::default();

        if self.acc.append(buffer, segment.payload).is_err() {
            return self.stop_assembly();
        }
        None
    }

    fn accumulate_odd(&mut self, buffer: &mut [u8], segment: Segment) -> (r: Option<Transfer>)
        requires
            old(self).wf(),
            old(self)@.phase is Accumulating,
            segment.payload@.len() < u32::MAX,
        ensures
            final(self).wf(),
            ({
                let step = old(self)@.accumulate(
                    Phase::Accumulating { first: false, odd: true },
                    old(buffer)@,
                    segment.payload@,
                );
                final(self)@ == step.session && final(buffer)@ == step.buffer && r == step.transfer
            }),
    {
        if Mtu::try_from(segment.payload.len() + 1).is_err() {
            return self.stop_assembly();
        }

        self.state = State::AccumulatedOdd;
        if self.acc.append(buffer, segment.payload).is_err() {
            return self.stop_assembly();
        }
        None
    }

    fn accumulate_even(&mut self, buffer: &mut [u8], segment: Segment) -> (r: Option<Transfer>)
        requires
            old(self).wf(),
            old(self)@.phase is Accumulating,
            segment.payload@.len() < u32::MAX,
        ensures
            final(self).wf(),
            ({
                let step = old(self)@.accumulate(
                    Phase::Accumulating { first: false, odd: false },
                    old(buffer)@,
                    segment.payload@,
                );
                final(self)@ == step.session && final(buffer)@ == step.buffer && r == step.transfer
            }),
    {
        if Mtu::try_from(segment.payload.len() + 1).is_err() {
            return self.stop_assembly();
        }

        self.state = State::AccumulatedEven;
        if self.acc.append(buffer, segment.payload).is_err() {
            return self.stop_assembly();
        }
        None
    }

    fn finish_assembly(&mut self, buffer: &mut [u8], segment: Segment) -> (r: Option<Transfer>)
        requires
            old(self).wf(),
            old(self)@.phase is Accumulating,
            segment.payload@.len() < u32::MAX,
        ensures
            final(self).wf(),
            ({
                let step = old(self)@.finish(old(buffer)@, segment.payload@, segment.priority);
                final(self)@ == step.session && final(buffer)@ == step.buffer && r == step.transfer
            }),
    {
        if segment.payload.len() == 0 {
            return self.stop_assembly();
        }

        if self.acc.append(buffer, segment.payload).is_err() {
            return self.stop_assembly();
        }

        let length: u32 = match self.acc.try_get() {
            Ok(length) => length,
            Err(_) => {
                return self.stop_assembly();
            },
        };

        self.state = State::Assembled;
        self.acc = PayloadAccumulator::default();

        Some(
            Transfer {
                id: self.transfer_id.unwrap(),
                priority: segment.priority,
                timestamp: self.sof_timestamp.unwrap(),
                length,
            },
        )
    }

    fn stop_assembly(&mut self) -> (r: Option<Transfer>)
        ensures
            final(self).wf(),
            final(self)@ == old(self)@.stopped(),
            r is None,
    {
        self.state = if self.sof_timestamp.is_some() {
            State::IdleLastTransfer
        } else {
            State::Idle
        };
        self.transfer_id = None;
        self.acc = PayloadAccumulator::default();
        None
    }
}

/// Writes bytes into a buffer, as far as they fit.
pub(crate) fn write_at(buffer: &mut [u8], offset: usize, bytes: &[u8])
    requires
        offset <= old(buffer)@.len(),
    ensures
        final(buffer)@ == store(old(buffer)@, offset as int, bytes@),
{
    let space: usize = buffer.len() - offset;
    let count: usize = if bytes.len() < space { bytes.len() } else { space };
    let ghost before = buffer@;
    let mut i: usize = 0;
    while i < count
        invariant
            i <= count,
            count <= bytes@.len(),
            offset + count <= buffer@.len(),
            offset + count <= usize::MAX,
            buffer@ == store(before, offset as int, bytes@.take(i as int)),
        decreases count - i,
    {
        buffer[offset + i] = bytes[i];
        i = i + 1;
        assert(buffer@ =~= store(before, offset as int, bytes@.take(i as int)));
    }
    assert(buffer@ =~= store(before, offset as int, bytes@));
}

/// What is known of the payload that has been received.
pub struct Accumulated {
    /// Number of bytes.
    pub length: int,
    /// Checksum of the bytes.
    pub crc: u16,
}

impl Accumulated {
    /// Nothing has been received.
    pub open spec fn fresh() -> Accumulated {
        Accumulated { length: 0, crc: CRC_INIT }
    }

    /// A part of the payload has been received.
    pub open spec fn with(self, segment: Seq<u8>) -> Accumulated {
        Accumulated { length: self.length + segment.len(), crc: crc_bytes(self.crc, segment) }
    }

    /// Several parts of the payload have been received.
    pub open spec fn with_all(self, segments: Seq<Seq<u8>>) -> Accumulated
        decreases segments.len(),
    {
        if segments.len() == 0 {
            self
        } else {
            self.with_all(segments.drop_last()).with(segments.last())
        }
    }

    /// The length of the payload without the checksum, if the checksum matches.
    pub open spec fn checked_length(self) -> Option<int> {
        if self.length >= 2 && self.crc == 0 {
            Some(self.length - 2)
        } else {
            None
        }
    }
}

/// The check succeeds with length `n` exactly if two bytes follow the first `n` ones and are the
/// checksum of those, however the payload was divided.
pub proof fn law_accumulator_checks(segments: Seq<Seq<u8>>, n: int)
    requires
        n >= 0,
    ensures
        ({
            let payload = segments.flatten();
            Accumulated::fresh().with_all(segments).checked_length() == Some(n) <==> payload.len() == n + 2
                && payload.skip(n) == crc_field(crc_bytes(CRC_INIT, payload.take(n)))
        }),
        Accumulated::fresh().with_all(segments).length == segments.flatten().len(),
        segments.flatten().len() < 2 ==> Accumulated::fresh().with_all(segments).checked_length() is None,
{
    let payload = segments.flatten();
    lemma_accumulated(segments);
    if payload.len() == n + 2 {
        assert(payload =~= payload.take(n) + payload.skip(n));
        law_crc_residue(CRC_INIT, payload.take(n), payload.skip(n));
    }
}

/// Length and checksum do not depend on how the payload is divided.
proof fn lemma_accumulated(segments: Seq<Seq<u8>>)
    ensures
        Accumulated::fresh().with_all(segments) == (Accumulated {
            length: segments.flatten().len() as int,
            crc: crc_bytes(CRC_INIT, segments.flatten()),
        }),
    decreases segments.len(),
{
    if segments.len() == 0 {
        assert(segments.flatten() =~= Seq::<u8>::empty());
    } else {
        let first = segments.drop_last();
        lemma_accumulated(first);
        first.lemma_flatten_push(segments.last());
        assert(first.push(segments.last()) =~= segments);
        lemma_crc_concat(CRC_INIT, first.flatten(), segments.last());
    }
}

/// Length and checksum of the payload that has been received.
#[derive(Debug, Clone, Copy, PartialEq, Eq, Structural)]
pub struct PayloadAccumulator {
    length: u32,
    crc: TransferCrc,
}

impl View for PayloadAccumulator {
    type V = Accumulated;

    closed spec fn view(&self) -> Accumulated {
        Accumulated { length: self.length as int, crc: self.crc@ }
    }
}

impl Default for PayloadAccumulator {
    /// Nothing has been received.
    fn default() -> (r: Self)
        ensures
            r@ == Accumulated::fresh(),
    {
        Self { length: 0, crc: TransferCrc::default() }
    }
}

impl PayloadAccumulator {
    /// Adds a part of the payload, unless the length is not representable. The payload is written
    /// to the buffer, as far as it fits.
    pub fn append(&mut self, buffer: &mut [u8], segment: &[u8]) -> (r: Result<(), ()>)
        ensures
            r is Ok <==> old(self)@.length + segment@.len() <= u32::MAX,
            r is Ok ==> {
                &&& final(self)@ == old(self)@.with(segment@)
                &&& final(buffer)@ == store(old(buffer)@, old(self)@.length, segment@)
            },
            r is Err ==> *final(self) == *old(self) && final(buffer)@ == old(buffer)@,
    {
        if segment.len() > u32::MAX as usize {
            return Err(());
        }
        let new_length: u32 = match self.length.checked_add(segment.len() as u32) {
            Some(length) => length,
            None => {
                return Err(());
            },
        };
        let ghost before = buffer@;
        let buffer_offset: usize = if (self.length as usize) < buffer.len() {
            self.length as usize
        } else {
            buffer.len()
        };
        write_at(buffer, buffer_offset, segment);
        assert(buffer@ =~= store(before, self.length as int, segment@));

        self.length = new_length;
        self.crc.add_bytes(segment);
        Ok(())
    }

    /// Returns the length of the payload without the checksum, if the checksum matches.
    pub fn try_get(&self) -> (r: Result<u32, ()>)
        ensures
            match self@.checked_length() {
                Some(n) => r matches Ok(length) && length == n,
                None => r is Err,
            },
    {
        let tail_len: u32 = TransferCrc::LENGTH as u32;
        let crc_match: bool = self.crc.get() == 0;
        if self.length >= tail_len && crc_match {
            Ok(self.length - tail_len)
        } else {
            Err(())
        }
    }
}

} // verus!
