//! What a console asks of the air: going on it and leaving it, sending, and
//! receiving.
//!
//! A receive is polled. It starts by publishing the console's clock, and then
//! looks until it may go on; a poll that may not leaves the console noted as
//! waiting, and is made again once something on the air has changed.

use vstd::prelude::*;

use crate::air::{frames_of, law_bound_is_the_smallest, Air, AirView, SeatView};
use crate::frame::{
    law_overwriting_is_byte_for_byte, overwrite, overwritten, Frame, FrameView,
};

verus! {

/// How far past a command round's timestamp a host waits for replies.
///
/// The two consoles' wifi clocks can sit up to a video frame apart, so
/// replies older than the command are not dropped: most of every round would
/// go with them.
pub const REPLY_WINDOW_US: u64 = 2000;

/// The bytes of a reply buffer that belong to one client.
pub const REPLY_SLOT: usize = 1024;

/// What a packet receive came back with.
#[derive(Debug)]
pub enum Received {
    /// The frame that was due.
    Frame(Frame),
    /// Nothing due on the air right now.
    Nothing,
    /// The host has left the air, and its parting frames are consumed.
    HostGone,
}

/// What a [`Received`] is.
#[verifier::ext_equal]
pub enum ReceivedView {
    Frame(FrameView),
    Nothing,
    HostGone,
}

impl View for Received {
    type V = ReceivedView;

    open spec fn view(&self) -> ReceivedView {
        match *self {
            Received::Frame(frame) => ReceivedView::Frame(frame@),
            Received::Nothing => ReceivedView::Nothing,
            Received::HostGone => ReceivedView::HostGone,
        }
    }
}

impl Received {
    /// Hands the result to the console, in the form its receive returns: the
    /// payload's length for a frame, which goes to the console's buffer, 0
    /// for nothing, and -1 for a host that is gone.
    pub fn deliver(self, out: &mut [u8], ts_out: &mut u64) -> (code: i32)
        requires
            self@ matches ReceivedView::Frame(frame) ==> frame.data().len() <= old(out)@.len(),
        ensures
            match self@ {
                ReceivedView::Frame(frame) => {
                    &&& code == frame.data().len() as i32
                    &&& final(out)@ == overwritten(old(out)@, 0, frame.data())
                    &&& *final(ts_out) == frame.ts()
                },
                ReceivedView::Nothing => {
                    &&& code == 0
                    &&& final(out)@ == old(out)@
                    &&& *final(ts_out) == *old(ts_out)
                },
                ReceivedView::HostGone => {
                    &&& code == -1
                    &&& final(out)@ == old(out)@
                    &&& *final(ts_out) == *old(ts_out)
                },
            },
    {
        match self {
            Received::Frame(frame) => frame.deliver(out, ts_out),
            Received::Nothing => 0,
            Received::HostGone => -1,
        }
    }
}

/// Where a round of replies stands. The mask has a bit for each client that
/// has answered, at the place of its association id.
#[derive(Clone, Copy, PartialEq, Eq, Debug, Structural)]
pub enum Round {
    /// More replies may come.
    Open(u16),
    /// Every client asked for has answered, or no further reply can arrive.
    Closed(u16),
}

/// Where the payload of client `aid` starts in a reply buffer.
pub open spec fn slot(aid: u16) -> int {
    (aid - 1) * REPLY_SLOT
}

/// The mask with the bit of client `aid` set.
pub open spec fn marked(mask: u16, aid: u16) -> u16 {
    mask | (1u16 << aid)
}

/// Whether every client in `aidmask` has answered.
pub open spec fn complete(mask: u16, aidmask: u16) -> bool {
    mask & aidmask == aidmask
}

/// A round of replies while it is being collected.
#[verifier::ext_equal]
pub struct Collection {
    /// The replies still queued.
    pub queue: Seq<FrameView>,
    /// Who has answered.
    pub mask: u16,
    /// The host's buffer.
    pub buffer: Seq<u8>,
    /// Whether every client asked for has answered.
    pub complete: bool,
}

impl Collection {
    /// Takes the front of the queue. A reply goes to its client's slot and
    /// marks the client; one without an association id is dropped.
    pub open spec fn take_one(self, aidmask: u16) -> Collection {
        let rest = Collection { queue: self.queue.drop_first(), ..self };
        match self.queue[0] {
            FrameView::Reply { aid, data, .. } => if aid == 0 {
                rest
            } else {
                Collection {
                    mask: marked(self.mask, aid),
                    buffer: overwritten(self.buffer, slot(aid), data),
                    complete: complete(marked(self.mask, aid), aidmask),
                    ..rest
                }
            },
            FrameView::Other { .. } => rest,
        }
    }

    /// Whether there is a front to take: it is stamped at or before `target`,
    /// and somebody asked for has not answered.
    pub open spec fn goes_on(self, target: u64) -> bool {
        !self.complete && self.queue.len() > 0 && self.queue[0].ts() <= target
    }

    /// Takes from the queue, front first, for as long as it goes on.
    pub open spec fn taken(self, target: u64, aidmask: u16) -> Collection
        decreases self.queue.len(),
    {
        if self.goes_on(target) {
            self.take_one(aidmask).taken(target, aidmask)
        } else {
            self
        }
    }

    /// Whether the front has room: it is not a reply of a client, or the mask
    /// has a bit for that client and the buffer holds the payload at its
    /// slot.
    pub open spec fn front_fits(self) -> bool {
        match self.queue[0] {
            FrameView::Reply { aid, data, .. } => aid == 0 || (aid < 16 && slot(aid) + data.len()
                <= self.buffer.len()),
            FrameView::Other { .. } => true,
        }
    }

    /// Whether everything that [`taken`](Self::taken) takes has room.
    pub open spec fn fits(self, target: u64, aidmask: u16) -> bool
        decreases self.queue.len(),
    {
        self.goes_on(target) ==> {
            &&& self.front_fits()
            &&& self.take_one(aidmask).fits(target, aidmask)
        }
    }
}

impl AirView {
    /// A poll of a packet receive by `me` at wifi time `now`: the air after
    /// it, and its result if it could go on.
    pub open spec fn recv_packet(self, me: int, now: u64) -> (AirView, Option<ReceivedView>) {
        if !self.gate_opens(me, now, false) {
            (self.with_waiting(me, Some((now, false))), None)
        } else {
            let air = self.with_waiting(me, None);
            if self.seat(me).due(false, now) {
                (
                    air.with_seat(me, air.seat(me).consumed()),
                    Some(ReceivedView::Frame(self.seat(me).incoming[0])),
                )
            } else {
                (air, Some(ReceivedView::Nothing))
            }
        }
    }

    /// A poll of a host packet receive by `me` at wifi time `now`. It is a
    /// packet receive that tells an absent host from a quiet one.
    pub open spec fn recv_host_packet(self, me: int, now: u64) -> (AirView, Option<ReceivedView>) {
        let (air, received) = self.recv_packet(me, now);
        if received == Some(ReceivedView::Nothing) && !self.seat(1 - me).attached && self.seat(
            me,
        ).incoming.len() == 0 {
            (air, Some(ReceivedView::HostGone))
        } else {
            (air, received)
        }
    }

    /// The round of `me` as it stands before a poll.
    pub open spec fn collection(self, me: int, mask: u16, buffer: Seq<u8>) -> Collection {
        Collection { queue: self.seat(me).replies, mask, buffer, complete: false }
    }

    /// A poll of a reply receive by `me`, which waits at `target` for the
    /// clients in `aidmask` and has collected `mask` and `buffer`: the air,
    /// the round and the buffer after it.
    pub open spec fn recv_replies(
        self,
        me: int,
        target: u64,
        aidmask: u16,
        mask: u16,
        buffer: Seq<u8>,
    ) -> (AirView, Round, Seq<u8>) {
        if !self.gate_opens(me, target, true) {
            (self.with_waiting(me, Some((target, true))), Round::Open(mask), buffer)
        } else {
            let round = self.collection(me, mask, buffer).taken(target, aidmask);
            let air = self.with_seat(
                me,
                SeatView { replies: round.queue, waiting: None, ..self.seat(me) },
            );
            if round.complete || air.gives_up(me, target) {
                (air, Round::Closed(round.mask), round.buffer)
            } else {
                (
                    air.with_waiting(me, Some((target, true))),
                    Round::Open(round.mask),
                    round.buffer,
                )
            }
        }
    }
}

/// The last instant before `now`, or 0.
pub open spec fn before(now: u64) -> u64 {
    if now == 0 {
        0
    } else {
        (now - 1) as u64
    }
}

/// What a send reports: the payload counts as sent, whole, whether or not a
/// link is there to carry it.
pub fn reported(data: &[u8]) -> (len: i32)
    ensures
        len == data@.len() as i32,
{
    data.len() as i32
}

/// The wait target of a reply receive for the command round stamped `ts`.
pub fn reply_target(ts: u64) -> (target: u64)
    requires
        ts + REPLY_WINDOW_US <= u64::MAX,
    ensures
        target == ts + REPLY_WINDOW_US,
        target == ts + 2000,
{
    ts + REPLY_WINDOW_US
}

impl Air {
    /// The console of `me` goes on the air.
    pub fn mp_begin(&mut self, me: usize)
        requires
            me < 2,
        ensures
            final(self)@ == old(self)@.with_attached(me as int, true),
    {
        self.seats[me].attached = true;
    }

    /// The console of `me` leaves the air.
    pub fn mp_end(&mut self, me: usize)
        requires
            me < 2,
        ensures
            final(self)@ == old(self)@.with_attached(me as int, false),
    {
        self.seats[me].attached = false;
    }

    /// Sends a packet from `me`, stamped `ts`.
    pub fn mp_send_packet(&mut self, me: usize, data: &[u8], ts: u64) -> (len: i32)
        requires
            me < 2,
        ensures
            final(self)@ == old(self)@.sent(me as int, FrameView::Other { ts, data: data@ }),
            len == data@.len() as i32,
    {
        self.send(me, Frame::Other { ts, data: vstd::slice::slice_to_vec(data) });
        reported(data)
    }

    /// Sends a host's command from `me`, stamped `ts`.
    pub fn mp_send_cmd(&mut self, me: usize, data: &[u8], ts: u64) -> (len: i32)
        requires
            me < 2,
        ensures
            final(self)@ == old(self)@.sent(me as int, FrameView::Other { ts, data: data@ }),
            len == data@.len() as i32,
    {
        self.send(me, Frame::Other { ts, data: vstd::slice::slice_to_vec(data) });
        reported(data)
    }

    /// Sends a host's acknowledgement from `me`, stamped `ts`.
    pub fn mp_send_ack(&mut self, me: usize, data: &[u8], ts: u64) -> (len: i32)
        requires
            me < 2,
        ensures
            final(self)@ == old(self)@.sent(me as int, FrameView::Other { ts, data: data@ }),
            len == data@.len() as i32,
    {
        self.send(me, Frame::Other { ts, data: vstd::slice::slice_to_vec(data) });
        reported(data)
    }

    /// Sends the reply of client `aid` from `me`, stamped `ts`.
    pub fn mp_send_reply(&mut self, me: usize, data: &[u8], ts: u64, aid: u16) -> (len: i32)
        requires
            me < 2,
        ensures
            final(self)@ == old(self)@.sent(me as int, FrameView::Reply { ts, aid, data: data@ }),
            len == data@.len() as i32,
    {
        self.send(me, Frame::Reply { ts, aid, data: vstd::slice::slice_to_vec(data) });
        reported(data)
    }

    /// The wifi clock of `me` at the end of a timer batch. Returns whether
    /// the bound moved.
    pub fn mp_clock(&mut self, me: usize, now: u64) -> (moved: bool)
        requires
            me < 2,
        ensures
            final(self)@ == old(self)@.published(me as int, now),
            moved == (now != old(self)@.seat(me as int).progress),
    {
        self.publish(me, now)
    }

    /// Starts a receive by `me` at wifi time `now`: the console has processed
    /// everything before `now`. Returns whether the bound moved.
    pub fn start_receive(&mut self, me: usize, now: u64) -> (moved: bool)
        requires
            me < 2,
        ensures
            final(self)@ == old(self)@.published(me as int, before(now)),
            now > 0 ==> final(self)@.seat(me as int).progress == now - 1,
            moved == (before(now) != old(self)@.seat(me as int).progress),
    {
        self.publish(me, now.saturating_sub(1))
    }

    /// Takes the front of the incoming queue of `me`.
    fn consume(&mut self, me: usize) -> (frame: Frame)
        requires
            me < 2,
            old(self)@.seat(me as int).incoming.len() > 0,
        ensures
            frame@ == old(self)@.seat(me as int).incoming[0],
            final(self)@ == old(self)@.with_seat(
                me as int,
                old(self)@.seat(me as int).consumed(),
            ),
    {
        let ghost queue = self.seats@[me as int].incoming@;
        let frame: Frame = self.seats[me].incoming.pop_front().unwrap();
        let ts: u64 = frame.timestamp();
        if ts < self.seats[me].progress {
            self.seats[me].progress = ts;
        }
        assert(frames_of(queue.subrange(1, queue.len() as int)) =~= frames_of(queue).drop_first());
        frame
    }

    /// Polls a packet receive by `me` at wifi time `now`. `None` means that
    /// it has to wait.
    ///
    /// Frames of every type but replies come out of one queue, in the order
    /// they were sent.
    pub fn mp_recv_packet(&mut self, me: usize, now: u64) -> (received: Option<Received>)
        requires
            me < 2,
        ensures
            final(self)@ == old(self)@.recv_packet(me as int, now).0,
            match received {
                Some(r) => old(self)@.recv_packet(me as int, now).1 == Some(r@),
                None => old(self)@.recv_packet(me as int, now).1 is None,
            },
    {
        if !self.gate(me, now, false) {
            return None;
        }
        if Self::due(&self.seats[me], false, now) {
            let frame: Frame = self.consume(me);
            Some(Received::Frame(frame))
        } else {
            Some(Received::Nothing)
        }
    }

    /// Polls a host packet receive by `me` at wifi time `now`. `None` means
    /// that it has to wait.
    ///
    /// [`Received::HostGone`] tears the session down, so it is kept for a
    /// peer that really left, and even then until its parting frames have
    /// been consumed.
    pub fn mp_recv_host_packet(&mut self, me: usize, now: u64) -> (received: Option<Received>)
        requires
            me < 2,
        ensures
            final(self)@ == old(self)@.recv_host_packet(me as int, now).0,
            match received {
                Some(r) => old(self)@.recv_host_packet(me as int, now).1 == Some(r@),
                None => old(self)@.recv_host_packet(me as int, now).1 is None,
            },
    {
        let peer: usize = 1 - me;
        if !self.gate(me, now, false) {
            return None;
        }
        if Self::due(&self.seats[me], false, now) {
            let frame: Frame = self.consume(me);
            Some(Received::Frame(frame))
        } else if self.seats[peer].attached || self.seats[me].incoming.len() > 0 {
            Some(Received::Nothing)
        } else {
            Some(Received::HostGone)
        }
    }

    /// Whether every reply that a poll of
    /// [`mp_recv_replies`](Self::mp_recv_replies) would take has room: a bit
    /// in the mask, and its client's slot in `data`.
    pub fn replies_fit(
        &self,
        me: usize,
        target: u64,
        aidmask: u16,
        mask: u16,
        data: &[u8],
    ) -> (fit: bool)
        requires
            me < 2,
        ensures
            fit == self@.collection(me as int, mask, data@).fits(target, aidmask),
    {
        let ghost start = self@.collection(me as int, mask, data@);
        let ghost mut round = start;
        let mut seen: u16 = mask;
        let mut i: usize = 0;
        assert(round.queue =~= start.queue.skip(0));
        while i < self.seats[me].replies.len() && self.seats[me].replies[i].timestamp() <= target
            invariant
                me < 2,
                i <= start.queue.len(),
                start == self@.collection(me as int, mask, data@),
                start.queue == frames_of(self.seats@[me as int].replies@),
                round.queue == start.queue.skip(i as int),
                round.mask == seen,
                round.buffer.len() == data@.len(),
                !round.complete,
                start.fits(target, aidmask) == round.fits(target, aidmask),
            decreases start.queue.len() - i,
        {
            assert(round.queue[0] == start.queue[i as int]);
            assert(round.queue.drop_first() =~= start.queue.skip(i + 1));
            match &self.seats[me].replies[i] {
                Frame::Reply { aid, data: payload, .. } => {
                    if *aid != 0 {
                        let at: usize = (*aid as usize - 1) * REPLY_SLOT;
                        if *aid >= 16 || at > data.len() || data.len() - at < payload.len() {
                            return false;
                        }
                        seen = seen | (1u16 << *aid);
                        if seen & aidmask == aidmask {
                            assert(round.take_one(aidmask).fits(target, aidmask));
                            return true;
                        }
                    }
                },
                Frame::Other { .. } => {},
            }
            proof {
                round = round.take_one(aidmask);
            }
            i = i + 1;
        }
        true
    }

    /// Polls a reply receive by `me`, which waits at `target` for the clients
    /// in `aidmask` and has collected `mask` and `data` so far.
    ///
    /// Replies come out in the order they were sent. Each goes to its
    /// client's slot in `data` and sets the client's bit. Slots count from 0
    /// while the mask uses the raw association id. The round closes once
    /// every client in `aidmask` has answered, or once no further reply can
    /// arrive in the window.
    pub fn mp_recv_replies(
        &mut self,
        me: usize,
        target: u64,
        aidmask: u16,
        mask: u16,
        data: &mut [u8],
    ) -> (round: Round)
        requires
            me < 2,
            old(self)@.collection(me as int, mask, old(data)@).fits(target, aidmask),
        ensures
            (final(self)@, round, final(data)@) == old(self)@.recv_replies(
                me as int,
                target,
                aidmask,
                mask,
                old(data)@,
            ),
    {
        if !self.gate(me, target, true) {
            return Round::Open(mask);
        }
        let ghost gated = self@;
        let ghost start = old(self)@.collection(me as int, mask, old(data)@);
        let ghost mut round = start;
        let mut mask: u16 = mask;
        let mut done: bool = false;
        while !done && Self::due(&self.seats[me], true, target)
            invariant
                me < 2,
                round.queue == self@.seat(me as int).replies,
                self@ == gated.with_seat(
                    me as int,
                    SeatView { replies: round.queue, ..gated.seat(me as int) },
                ),
                round.mask == mask,
                round.buffer == data@,
                round.complete == done,
                round.fits(target, aidmask),
                start.taken(target, aidmask) == round.taken(target, aidmask),
            decreases round.queue.len(),
        {
            let ghost queue = self.seats@[me as int].replies@;
            let frame: Frame = self.seats[me].replies.pop_front().unwrap();
            assert(frames_of(queue.subrange(1, queue.len() as int)) =~= frames_of(
                queue,
            ).drop_first());
            match &frame {
                Frame::Reply { aid, data: payload, .. } => {
                    if *aid != 0 {
                        let at: usize = (*aid as usize - 1) * REPLY_SLOT;
                        overwrite(data, at, payload.as_slice());
                        mask = mask | (1u16 << *aid);
                        done = mask & aidmask == aidmask;
                    }
                },
                Frame::Other { .. } => {},
            }
            proof {
                round = round.take_one(aidmask);
            }
        }
        if done || self.gives_up(me, target) {
            Round::Closed(mask)
        } else {
            self.seats[me].waiting = Some((target, true));
            Round::Open(mask)
        }
    }
}

/// A packet receive comes back with a frame exactly if one is due, and then
/// with the front of the queue, stamped at or before `now`; with nothing only
/// if nothing more can arrive at or before `now`; and otherwise not at all. It
/// leaves the peer's side as it is.
pub proof fn law_packet_receive_is_exact(air: AirView, me: int, now: u64)
    requires
        0 <= me < 2,
    ensures
        match air.recv_packet(me, now).1 {
            Some(ReceivedView::Frame(frame)) => {
                &&& air.seat(me).due(false, now)
                &&& frame == air.seat(me).incoming[0] && frame.ts() <= now
            },
            Some(ReceivedView::Nothing) => !air.seat(me).due(false, now) && air.gives_up(me, now),
            Some(ReceivedView::HostGone) => false,
            None => !air.seat(me).due(false, now) && !air.gives_up(me, now),
        },
        air.recv_packet(me, now).0.seat(1 - me) == air.seat(1 - me),
{
}

/// A host is gone for a receive only if it is off the air and none of its
/// frames is left; until then the receive is a packet receive.
pub proof fn law_host_is_gone_once_its_frames_are_consumed(air: AirView, me: int, now: u64)
    requires
        0 <= me < 2,
    ensures
        air.recv_host_packet(me, now).1 == Some(ReceivedView::HostGone) <==> {
            &&& !air.seat(1 - me).attached
            &&& air.seat(me).incoming.len() == 0
        },
        air.recv_host_packet(me, now).1 != Some(ReceivedView::HostGone) ==> air.recv_host_packet(
            me,
            now,
        ) == air.recv_packet(me, now),
        air.recv_host_packet(me, now).0 == air.recv_packet(me, now).0,
{
}

/// A seat after receives at `now` have consumed all that is due, and the
/// frames they took, in order.
pub open spec fn drained(seat: SeatView, now: u64) -> (SeatView, Seq<FrameView>)
    decreases seat.incoming.len(),
{
    if seat.due(false, now) {
        let (rest, taken) = drained(seat.consumed(), now);
        (rest, seq![seat.incoming[0]] + taken)
    } else {
        (seat, Seq::empty())
    }
}

/// Receives at `now` take exactly the frames stamped at or before `now`, in
/// the order they were sent, where the queue is in the order of its stamps.
pub proof fn law_receives_take_exactly_what_is_due(seat: SeatView, now: u64) -> (count: int)
    requires
        forall|i: int, j: int|
            0 <= i <= j < seat.incoming.len() ==> (#[trigger] seat.incoming[i]).ts() <= (
            #[trigger] seat.incoming[j]).ts(),
    ensures
        0 <= count <= seat.incoming.len(),
        drained(seat, now).1 == seat.incoming.take(count),
        drained(seat, now).0.incoming == seat.incoming.skip(count),
        forall|i: int| 0 <= i < count ==> (#[trigger] seat.incoming[i]).ts() <= now,
        forall|i: int| count <= i < seat.incoming.len() ==> (#[trigger] seat.incoming[i]).ts() > now,
    decreases seat.incoming.len(),
{
    let queue = seat.incoming;
    if seat.due(false, now) {
        let rest = seat.consumed();
        assert forall|i: int, j: int| 0 <= i <= j < rest.incoming.len() implies (
        #[trigger] rest.incoming[i]).ts() <= (#[trigger] rest.incoming[j]).ts() by {
            assert(rest.incoming[i] == queue[i + 1]);
            assert(rest.incoming[j] == queue[j + 1]);
        }
        let count = law_receives_take_exactly_what_is_due(rest, now);
        assert(seq![queue[0]] + rest.incoming.take(count) =~= queue.take(count + 1));
        assert(rest.incoming.skip(count) =~= queue.skip(count + 1));
        assert forall|i: int| 0 <= i < count + 1 implies (#[trigger] queue[i]).ts() <= now by {
            if i > 0 {
                assert(rest.incoming[i - 1] == queue[i]);
            }
        }
        assert forall|i: int| count + 1 <= i < queue.len() implies (#[trigger] queue[i]).ts()
            > now by {
            assert(rest.incoming[i - 1] == queue[i]);
        }
        count + 1
    } else {
        assert(queue.take(0) =~= Seq::empty());
        assert(queue.skip(0) =~= queue);
        0
    }
}

/// Whether the mask has the bit of client `aid`.
pub open spec fn has_answered(mask: u16, aid: u16) -> bool {
    mask & (1u16 << aid) != 0
}

/// A round takes replies from the front of the queue, all of them stamped at
/// or before its target, and its mask then has the bits of the clients whose
/// replies it took, next to those it had.
pub proof fn law_round_marks_who_answered(
    round: Collection,
    target: u64,
    aidmask: u16,
    aid: u16,
) -> (count: int)
    requires
        round.fits(target, aidmask),
        0 < aid < 16,
    ensures
        0 <= count <= round.queue.len(),
        round.taken(target, aidmask).queue == round.queue.skip(count),
        forall|i: int| 0 <= i < count ==> (#[trigger] round.queue[i]).ts() <= target,
        has_answered(round.taken(target, aidmask).mask, aid) <==> has_answered(round.mask, aid) || (
        exists|i: int|
            0 <= i < count && (#[trigger] round.queue[i] matches FrameView::Reply { aid: from, .. }
                && from == aid)),
    decreases round.queue.len(),
{
    let queue = round.queue;
    if round.goes_on(target) {
        let one = round.take_one(aidmask);
        let others = law_round_marks_who_answered(one, target, aidmask, aid);
        let count = others + 1;
        assert(one.queue.skip(others) =~= queue.skip(count));
        assert forall|i: int| 0 <= i < count implies (#[trigger] queue[i]).ts() <= target by {
            if i > 0 {
                assert(one.queue[i - 1] == queue[i]);
            }
        }
        let mask = round.mask;
        if let FrameView::Reply { aid: from, .. } = queue[0] {
            if from != 0 {
                assert((mask | (1u16 << from)) & (1u16 << aid) != 0 <==> mask & (1u16 << aid) != 0
                    || from == aid) by (bit_vector)
                    requires
                        from < 16,
                        aid < 16,
                ;
            }
        }
        if has_answered(round.taken(target, aidmask).mask, aid) && !has_answered(mask, aid) {
            if !has_answered(one.mask, aid) {
                let i = choose|i: int|
                    0 <= i < others && (#[trigger] one.queue[i] matches FrameView::Reply {
                        aid: from,
                        ..
                    } && from == aid);
                assert(queue[i + 1] == one.queue[i]);
            } else {
                assert(queue[0] matches FrameView::Reply { aid: from, .. } && from == aid);
            }
        }
        if exists|i: int|
            0 <= i < count && (#[trigger] queue[i] matches FrameView::Reply { aid: from, .. }
                && from == aid) {
            let i = choose|i: int|
                0 <= i < count && (#[trigger] queue[i] matches FrameView::Reply { aid: from, .. }
                    && from == aid);
            if i > 0 {
                assert(one.queue[i - 1] == queue[i]);
            } else {
                assert(has_answered(one.mask, aid));
            }
        }
        count
    } else {
        assert(queue.skip(0) =~= queue);
        0
    }
}

/// What was received is seen as it is.
pub proof fn law_received_is_seen_whole(received: Received)
    ensures
        match received {
            Received::Frame(frame) => received@ == ReceivedView::Frame(frame@),
            Received::Nothing => received@ is Nothing,
            Received::HostGone => received@ is HostGone,
        },
{
}

/// A console that starts a receive at `now` has published the instant before,
/// and no more. Nothing that it may still send, stamped `now` or later, lies at
/// or below what its peer may give up on: to a receive of the peer's at `now`
/// or later it is not silent, while it is on the air and in its video frame.
pub proof fn law_starting_a_receive_holds_the_peer_back(
    air: AirView,
    me: int,
    now: u64,
    target: u64,
)
    requires
        0 <= me < 2,
    ensures
        before(0) == 0,
        now > 0 ==> before(now) + 1 == now,
        now > 0 ==> air.published(me, before(now)).seat(me).progress == now - 1,
        now > 0 ==> air.published(me, before(now)).seat(me).bound() < now,
        now <= target && air.seat(me).attached && !air.seat(me).frame_done ==> !air.published(
            me,
            before(now),
        ).silent(me, target),
{
    law_bound_is_the_smallest(air.published(me, before(now)).seat(me));
}

/// A packet receive changes nothing but the seat it is made from. One that
/// comes back with a frame takes that frame off the front of the queue and
/// brings the clock down to its stamp where it is above; one that comes back
/// with nothing takes nothing; neither leaves the seat waiting. One that has to
/// wait takes nothing, and leaves the seat waiting for a packet at `now`.
pub proof fn law_packet_receive_takes_what_it_gives(air: AirView, me: int, now: u64)
    requires
        0 <= me < 2,
    ensures
        ({
            let before = air.seat(me);
            let (changed, received) = air.recv_packet(me, now);
            let after = changed.seat(me);
            &&& changed.seat(1 - me) == air.seat(1 - me)
            &&& after.replies == before.replies
            &&& after.frame_done == before.frame_done
            &&& after.attached == before.attached
            &&& match received {
                Some(ReceivedView::Frame(frame)) => {
                    &&& before.incoming.len() == after.incoming.len() + 1
                    &&& before.incoming[0] == frame
                    &&& forall|i: int|
                        0 <= i < after.incoming.len() ==> #[trigger] after.incoming[i]
                            == before.incoming[i + 1]
                    &&& after.progress == if frame.ts() < before.progress {
                        frame.ts()
                    } else {
                        before.progress
                    }
                    &&& after.waiting is None
                },
                Some(_) => {
                    &&& after.incoming == before.incoming
                    &&& after.progress == before.progress
                    &&& after.waiting is None
                },
                None => {
                    &&& after.incoming == before.incoming
                    &&& after.progress == before.progress
                    &&& after.waiting == Some((now, false))
                },
            }
        }),
{
}

/// Whether a reply's payload lands on byte `at` of the host's buffer: it is of
/// a client, and the byte lies in what it fills of the client's 1024 bytes on.
pub open spec fn lands_on(frame: FrameView, at: int) -> bool {
    frame matches FrameView::Reply { aid, data, .. } && aid != 0 && (aid - 1) * 1024 <= at < (aid
        - 1) * 1024 + data.len()
}

/// A round puts payloads into the buffer byte for byte. It takes `count`
/// replies off the front of the queue, and afterwards each byte of the buffer is
/// the one that the last of them to land there has for it: byte `j` of a payload
/// of client `aid` stands at `(aid - 1) * 1024 + j`. A byte that none of them
/// lands on is as it was.
pub proof fn law_round_packs_payloads(round: Collection, target: u64, aidmask: u16) -> (count: int)
    requires
        round.fits(target, aidmask),
    ensures
        0 <= count <= round.queue.len(),
        round.taken(target, aidmask).queue == round.queue.skip(count),
        round.taken(target, aidmask).buffer.len() == round.buffer.len(),
        forall|at: int|
            0 <= at < round.buffer.len() && (forall|i: int|
                0 <= i < count ==> !lands_on(#[trigger] round.queue[i], at))
                ==> #[trigger] round.taken(target, aidmask).buffer[at] == round.buffer[at],
        forall|at: int, i: int|
            #![trigger round.taken(target, aidmask).buffer[at], round.queue[i]]
            0 <= i < count && 0 <= at < round.buffer.len() && lands_on(round.queue[i], at) && (
            forall|k: int| i < k < count ==> !lands_on(#[trigger] round.queue[k], at)) ==> (
            round.queue[i] matches FrameView::Reply { aid, data, .. } && round.taken(
                target,
                aidmask,
            ).buffer[at] == data[at - (aid - 1) * 1024]),
    decreases round.queue.len(),
{
    let queue = round.queue;
    let last = round.taken(target, aidmask);
    if round.goes_on(target) {
        let one = round.take_one(aidmask);
        let others = law_round_packs_payloads(one, target, aidmask);
        let count = others + 1;
        assert(one.queue.skip(others) =~= queue.skip(count));
        assert forall|i: int| 0 <= i < others implies #[trigger] one.queue[i] == queue[i + 1] by {}
        assert(one.buffer.len() == round.buffer.len());
        assert forall|at: int| 0 <= at < round.buffer.len() implies #[trigger] one.buffer[at] == (
        if lands_on(queue[0], at) {
            queue[0].data()[at - (queue[0]->aid - 1) * 1024]
        } else {
            round.buffer[at]
        }) by {}
        assert forall|at: int|
            0 <= at < round.buffer.len() && (forall|i: int|
                0 <= i < count ==> !lands_on(#[trigger] queue[i], at)) implies
            #[trigger] last.buffer[at] == round.buffer[at] by {
            assert(!lands_on(queue[0], at));
            assert forall|i: int| 0 <= i < others implies !lands_on(
                #[trigger] one.queue[i],
                at,
            ) by {
                assert(one.queue[i] == queue[i + 1]);
            }
            assert(last.buffer[at] == one.buffer[at]);
        }
        assert forall|at: int, i: int|
            #![trigger last.buffer[at], queue[i]]
            0 <= i < count && 0 <= at < round.buffer.len() && lands_on(queue[i], at) && (forall|
                k: int,
            | i < k < count ==> !lands_on(#[trigger] queue[k], at)) implies (
        queue[i] matches FrameView::Reply { aid, data, .. } && last.buffer[at] == data[at - (aid
            - 1) * 1024]) by {
            assert forall|k: int| i - 1 < k < others implies !lands_on(
                #[trigger] one.queue[k],
                at,
            ) by {
                assert(one.queue[k] == queue[k + 1]);
            }
            if i > 0 {
                assert(one.queue[i - 1] == queue[i]);
            } else {
                assert(last.buffer[at] == one.buffer[at]);
            }
        }
        count
    } else {
        assert(queue.skip(0) =~= queue);
        0
    }
}

/// A round marks no client that there is not: the bit that no client has stays
/// as it was.
pub proof fn law_round_leaves_the_spare_bit(round: Collection, target: u64, aidmask: u16)
    requires
        round.fits(target, aidmask),
    ensures
        round.taken(target, aidmask).mask & 1 == round.mask & 1,
    decreases round.queue.len(),
{
    if round.goes_on(target) {
        law_round_leaves_the_spare_bit(round.take_one(aidmask), target, aidmask);
        let mask = round.mask;
        if let FrameView::Reply { aid, .. } = round.queue[0] {
            if aid != 0 {
                assert((mask | (1u16 << aid)) & 1 == mask & 1) by (bit_vector)
                    requires
                        0 < aid < 16,
                ;
            }
        }
    }
}

/// A round that is not complete takes all that is due, and stops no sooner than
/// at a reply that is late; if a client's reply is among them, somebody asked
/// for is still not in its mask. One that is complete has every client asked for in
/// its mask, and would not be complete without the last reply that it took.
pub proof fn law_round_stops_in_time(round: Collection, target: u64, aidmask: u16) -> (count: int)
    requires
        !round.complete,
    ensures
        0 <= count <= round.queue.len(),
        round.taken(target, aidmask).queue == round.queue.skip(count),
        !round.taken(target, aidmask).complete ==> count == round.queue.len()
            || round.queue[count].ts() > target,
        round.taken(target, aidmask).complete ==> {
            &&& round.taken(target, aidmask).mask & aidmask == aidmask
            &&& count > 0
            &&& round.queue[count - 1] matches FrameView::Reply { aid, .. } && aid != 0
            &&& !(Collection { queue: round.queue.take(count - 1), ..round }).taken(
                target,
                aidmask,
            ).complete
        },
        (forall|i: int|
            0 <= i < count ==> !(#[trigger] round.queue[i] matches FrameView::Reply { aid, .. }
                && aid != 0)) ==> round.taken(target, aidmask).mask == round.mask,
        !round.taken(target, aidmask).complete && (exists|i: int|
            0 <= i < count && (#[trigger] round.queue[i] matches FrameView::Reply { aid, .. } && aid
                != 0)) ==> round.taken(target, aidmask).mask & aidmask != aidmask,
    decreases round.queue.len(),
{
    let queue = round.queue;
    if round.goes_on(target) {
        let one = round.take_one(aidmask);
        if one.complete {
            assert(one.queue =~= queue.skip(1));
            assert(one.taken(target, aidmask) == one);
            assert(queue.take(0) =~= Seq::empty());
            assert(queue[0] is Reply);
            1
        } else {
            let others = law_round_stops_in_time(one, target, aidmask);
            let count = others + 1;
            assert(one.queue.skip(others) =~= queue.skip(count));
            if others < one.queue.len() {
                assert(one.queue[others] == queue[count]);
            }
            assert forall|i: int| 0 <= i < others implies #[trigger] one.queue[i] == queue[i
                + 1] by {}
            assert forall|i: int| 0 < i < count implies #[trigger] queue[i] == one.queue[i
                - 1] by {}
            if round.taken(target, aidmask).complete {
                assert(one.queue[others - 1] == queue[count - 1]);
                let shorter = Collection { queue: queue.take(count - 1), ..round };
                assert(shorter.queue[0] == queue[0]);
                assert(shorter.take_one(aidmask).queue =~= one.queue.take(others - 1));
                assert(shorter.take_one(aidmask) =~= (Collection {
                    queue: one.queue.take(others - 1),
                    ..one
                }));
                assert(shorter.goes_on(target));
            }
            count
        }
    } else {
        assert(queue.skip(0) =~= queue);
        0
    }
}

/// A reply receive changes nothing but the replies and the note of the seat it
/// is made from. With nothing due and more to come it takes nothing and waits.
/// Otherwise what it has collected is what a round takes off the front of the
/// queue; the round is closed exactly if it is complete or no further reply can
/// arrive, and the seat waits for replies at the target exactly if it is open.
pub proof fn law_reply_receive_is_a_round(
    air: AirView,
    me: int,
    target: u64,
    aidmask: u16,
    mask: u16,
    buffer: Seq<u8>,
)
    requires
        0 <= me < 2,
    ensures
        ({
            let before = air.seat(me);
            let (changed, round, filled) = air.recv_replies(me, target, aidmask, mask, buffer);
            let after = changed.seat(me);
            let taken = (Collection {
                queue: before.replies,
                mask,
                buffer,
                complete: false,
            }).taken(target, aidmask);
            let due = before.replies.len() > 0 && before.replies[0].ts() <= target;
            &&& changed.seat(1 - me) == air.seat(1 - me)
            &&& after.incoming == before.incoming
            &&& after.progress == before.progress
            &&& after.frame_done == before.frame_done
            &&& after.attached == before.attached
            &&& after.waiting == match round {
                Round::Open(_) => Some((target, true)),
                Round::Closed(_) => None,
            }
            &&& if !due && !air.gives_up(me, target) {
                round == Round::Open(mask) && filled == buffer && after.replies == before.replies
            } else {
                &&& filled == taken.buffer
                &&& after.replies == taken.queue
                &&& round == if taken.complete || changed.with_waiting(me, None).gives_up(
                    me,
                    target,
                ) {
                    Round::Closed(taken.mask)
                } else {
                    Round::Open(taken.mask)
                }
            }
        }),
{
    let (changed, _, _) = air.recv_replies(me, target, aidmask, mask, buffer);
    let taken = air.collection(me, mask, buffer).taken(target, aidmask);
    let quiet = air.with_seat(
        me,
        SeatView { replies: taken.queue, waiting: None, ..air.seat(me) },
    );
    if air.gate_opens(me, target, true) {
        assert(changed.with_waiting(me, None) =~= quiet);
    }
}

/// A reply has room exactly if its client has a bit in the mask, and its payload
/// lies within the buffer from the client's place on.
pub proof fn law_front_fits_its_slot(round: Collection)
    requires
        round.queue.len() > 0,
    ensures
        round.front_fits() <==> match round.queue[0] {
            FrameView::Reply { aid, data, .. } => aid == 0 || (aid < 16 && (aid - 1) * 1024
                + data.len() <= round.buffer.len()),
            FrameView::Other { .. } => true,
        },
{
}

/// A poll has room for its replies exactly if each that it takes has: one of a
/// client needs a bit in the mask, and its payload within the buffer from
/// `(aid - 1) * 1024` on.
pub proof fn law_room_is_for_each_reply_taken(
    round: Collection,
    target: u64,
    aidmask: u16,
) -> (count: int)
    ensures
        0 <= count <= round.queue.len(),
        round.taken(target, aidmask).queue == round.queue.skip(count),
        round.fits(target, aidmask) <==> forall|i: int|
            0 <= i < count ==> match #[trigger] round.queue[i] {
                FrameView::Reply { aid, data, .. } => aid == 0 || (aid < 16 && (aid - 1) * 1024
                    + data.len() <= round.buffer.len()),
                FrameView::Other { .. } => true,
            },
    decreases round.queue.len(),
{
    let queue = round.queue;
    if round.goes_on(target) {
        let one = round.take_one(aidmask);
        let others = law_room_is_for_each_reply_taken(one, target, aidmask);
        assert(one.queue.skip(others) =~= queue.skip(others + 1));
        assert forall|i: int| 0 <= i < others implies #[trigger] one.queue[i] == queue[i + 1] by {}
        if round.front_fits() {
            assert(one.buffer.len() == round.buffer.len());
            if round.fits(target, aidmask) {
                assert forall|i: int| 0 <= i < others + 1 implies match #[trigger] queue[i] {
                    FrameView::Reply { aid, data, .. } => aid == 0 || (aid < 16 && (aid - 1) * 1024
                        + data.len() <= round.buffer.len()),
                    FrameView::Other { .. } => true,
                } by {
                    if i > 0 {
                        assert(one.queue[i - 1] == queue[i]);
                    }
                }
            }
        } else {
            assert(queue[0] is Reply);
        }
        others + 1
    } else {
        assert(queue.skip(0) =~= queue);
        0
    }
}

/// What one console sends, the other receives: a packet that goes out with
/// nothing queued before it comes back from the next receive at or after its
/// stamp, with its stamp and every byte of its payload, and leaves nothing
/// queued.
pub proof fn law_sent_packet_is_received(
    air: AirView,
    me: int,
    ts: u64,
    data: Seq<u8>,
    now: u64,
)
    requires
        0 <= me < 2,
        air.seat(1 - me).incoming.len() == 0,
        ts <= now,
    ensures
        ({
            let sent = air.sent(me, FrameView::Other { ts, data });
            let (after, received) = sent.recv_packet(1 - me, now);
            &&& received == Some(ReceivedView::Frame(FrameView::Other { ts, data }))
            &&& sent.recv_host_packet(1 - me, now) == (after, received)
            &&& after.seat(1 - me).incoming.len() == 0
            &&& after.seat(me) == air.seat(me)
        }),
{
}

/// What a client replies, the host collects: a reply that goes out with none
/// queued before it, and that the host's round asks for alone, closes the round
/// with the client's bit, and with every byte of its payload at the client's
/// place in the buffer and all others as they were.
pub proof fn law_sent_reply_is_collected(
    air: AirView,
    me: int,
    ts: u64,
    aid: u16,
    data: Seq<u8>,
    target: u64,
    buffer: Seq<u8>,
)
    requires
        0 <= me < 2,
        air.seat(1 - me).replies.len() == 0,
        ts <= target,
        0 < aid < 16,
        (aid - 1) * 1024 + data.len() <= buffer.len(),
    ensures
        ({
            let sent = air.sent(me, FrameView::Reply { ts, aid, data });
            let (after, round, filled) = sent.recv_replies(1 - me, target, 1u16 << aid, 0, buffer);
            &&& round == Round::Closed(1u16 << aid)
            &&& filled.len() == buffer.len()
            &&& forall|j: int|
                0 <= j < data.len() ==> filled[(aid - 1) * 1024 + j] == #[trigger] data[j]
            &&& forall|at: int|
                0 <= at < buffer.len() && !((aid - 1) * 1024 <= at < (aid - 1) * 1024 + data.len())
                    ==> #[trigger] filled[at] == buffer[at]
            &&& after.seat(1 - me).replies.len() == 0
            &&& after.seat(me) == air.seat(me)
        }),
{
    let sent = air.sent(me, FrameView::Reply { ts, aid, data });
    let bit = 1u16 << aid;
    assert((0u16 | bit) & bit == bit && 0u16 | bit == bit) by (bit_vector);
    let round = sent.collection(1 - me, 0, buffer);
    assert(round.queue[0] == (FrameView::Reply { ts, aid, data }));
    let one = round.take_one(bit);
    assert(one.taken(target, bit) == one);
    assert(round.taken(target, bit) == one);
    law_overwriting_is_byte_for_byte(buffer, (aid - 1) * 1024, data);
}

} // verus!
