//! The emulated airwaves: two seats' frame queues plus the timestamp bounds
//! that gate delivery.
//!
//! Every frame is stamped with its sender's wifi clock, and each console
//! keeps publishing a bound with the meaning "every frame I will ever send
//! from now on is stamped strictly later than this". A receive that polls at
//! wifi time `t` takes only frames stamped at or before `t`, and concludes
//! that nothing more can arrive only once the peer's bound has passed `t`, or
//! the peer has finished its video frame, or has left the air. When both
//! consoles block on each other, the one with the smaller wait target
//! proceeds empty-handed. No decision here reads anything but this state.

use std::collections::VecDeque;
use vstd::prelude::*;

use crate::frame::{Frame, FrameView};

verus! {

/// One console's side of the air.
#[derive(Debug)]
pub struct Seat {
    /// Frames for this console, but for replies.
    pub incoming: VecDeque<Frame>,
    /// Replies to this console's command rounds.
    pub replies: VecDeque<Frame>,
    /// Everything this console will ever send from here on is stamped
    /// strictly later than this.
    pub progress: u64,
    /// Wait target and queue kind (`true` for replies) while blocked in a
    /// receive. `None` while running.
    pub waiting: Option<(u64, bool)>,
    /// Finished its video frame; it sends nothing more until the next.
    pub frame_done: bool,
    /// On the air at all.
    pub attached: bool,
}

/// What a [`Seat`] holds, with its queues as sequences, front first.
#[verifier::ext_equal]
pub struct SeatView {
    pub incoming: Seq<FrameView>,
    pub replies: Seq<FrameView>,
    pub progress: u64,
    pub waiting: Option<(u64, bool)>,
    pub frame_done: bool,
    pub attached: bool,
}

/// The smaller of `cap` and the timestamps in `queue`.
pub open spec fn earliest(cap: u64, queue: Seq<FrameView>) -> u64
    decreases queue.len(),
{
    if queue.len() == 0 {
        cap
    } else {
        let rest = earliest(cap, queue.drop_last());
        if queue.last().ts() < rest {
            queue.last().ts()
        } else {
            rest
        }
    }
}

/// The frames of a queue, each as its view.
pub open spec fn frames_of(queue: Seq<Frame>) -> Seq<FrameView> {
    Seq::new(queue.len(), |i: int| queue[i]@)
}

impl SeatView {
    /// A seat that nothing has happened to.
    pub open spec fn fresh() -> SeatView {
        SeatView {
            incoming: Seq::empty(),
            replies: Seq::empty(),
            progress: 0,
            waiting: None,
            frame_done: false,
            attached: false,
        }
    }

    /// The queue that a receive of the given kind takes from.
    pub open spec fn queue(self, want_reply: bool) -> Seq<FrameView> {
        if want_reply {
            self.replies
        } else {
            self.incoming
        }
    }

    /// The bound that the peer may trust: the published clock, capped by
    /// every frame that still sits in this seat's queues, since consuming a
    /// frame can reset the console's clock to that frame's timestamp.
    pub open spec fn bound(self) -> u64 {
        earliest(earliest(self.progress, self.incoming), self.replies)
    }

    /// Whether the queue's front is stamped at or before `target`.
    pub open spec fn due(self, want_reply: bool, target: u64) -> bool {
        let queue = self.queue(want_reply);
        queue.len() > 0 && queue[0].ts() <= target
    }

    /// The seat with the front of its incoming queue consumed. The bound
    /// follows the console's clock down to that frame's timestamp.
    pub open spec fn consumed(self) -> SeatView {
        let ts = self.incoming[0].ts();
        SeatView {
            incoming: self.incoming.drop_first(),
            progress: if ts < self.progress {
                ts
            } else {
                self.progress
            },
            ..self
        }
    }
}

impl View for Seat {
    type V = SeatView;

    open spec fn view(&self) -> SeatView {
        SeatView {
            incoming: frames_of(self.incoming@),
            replies: frames_of(self.replies@),
            progress: self.progress,
            waiting: self.waiting,
            frame_done: self.frame_done,
            attached: self.attached,
        }
    }
}

impl Default for Seat {
    fn default() -> (seat: Self)
        ensures
            seat@ == SeatView::fresh(),
    {
        Seat {
            incoming: VecDeque::new(),
            replies: VecDeque::new(),
            progress: 0,
            waiting: None,
            frame_done: false,
            attached: false,
        }
    }
}

/// The air between the two seats of a link.
#[derive(Debug)]
pub struct Air {
    pub seats: [Seat; 2],
}

/// What an [`Air`] holds.
#[verifier::ext_equal]
pub struct AirView {
    pub first: SeatView,
    pub second: SeatView,
}

impl View for Air {
    type V = AirView;

    open spec fn view(&self) -> AirView {
        AirView { first: self.seats@[0]@, second: self.seats@[1]@ }
    }
}

impl AirView {
    /// The side of seat `me`, which is 0 or 1.
    pub open spec fn seat(self, me: int) -> SeatView {
        if me == 0 {
            self.first
        } else {
            self.second
        }
    }

    /// The air with seat `me` replaced.
    pub open spec fn with_seat(self, me: int, seat: SeatView) -> AirView {
        if me == 0 {
            AirView { first: seat, ..self }
        } else {
            AirView { second: seat, ..self }
        }
    }

    /// After `me` sends `frame`: it stands at the back of the peer's queue
    /// for frames of its kind, and nothing else changes.
    pub open spec fn sent(self, me: int, frame: FrameView) -> AirView {
        let peer = self.seat(1 - me);
        self.with_seat(
            1 - me,
            match frame {
                FrameView::Reply { .. } => SeatView { replies: peer.replies.push(frame), ..peer },
                FrameView::Other { .. } => SeatView { incoming: peer.incoming.push(frame), ..peer },
            },
        )
    }

    /// After `me` publishes `through`.
    pub open spec fn published(self, me: int, through: u64) -> AirView {
        self.with_seat(me, SeatView { progress: through, ..self.seat(me) })
    }

    /// After `me` notes that it waits, or that it does not.
    pub open spec fn with_waiting(self, me: int, waiting: Option<(u64, bool)>) -> AirView {
        self.with_seat(me, SeatView { waiting, ..self.seat(me) })
    }

    /// After `me` goes on the air, or leaves it.
    pub open spec fn with_attached(self, me: int, attached: bool) -> AirView {
        self.with_seat(me, SeatView { attached, ..self.seat(me) })
    }

    /// After the video frame of `me` is marked as finished, or not.
    pub open spec fn with_frame_done(self, me: int, frame_done: bool) -> AirView {
        self.with_seat(me, SeatView { frame_done, ..self.seat(me) })
    }

    /// Whether the state proves that `me` sends nothing more stamped at or
    /// before `target`: its bound has passed it, it has finished its video
    /// frame, or it is off the air.
    pub open spec fn silent(self, me: int, target: u64) -> bool {
        ||| self.seat(me).bound() > target
        ||| self.seat(me).frame_done
        ||| !self.seat(me).attached
    }

    /// Whether `me`, waiting at `target`, is the one to break a deadlock: the
    /// peer waits too, nothing in this state can ever wake it, and the
    /// tiebreak falls to `me` (the smaller target, seat 0 on a tie).
    pub open spec fn frozen(self, me: int, target: u64) -> bool {
        match self.seat(1 - me).waiting {
            Some((peer_target, peer_reply)) => {
                &&& !self.seat(1 - me).due(peer_reply, peer_target)
                &&& self.seat(me).bound() <= peer_target
                &&& self.seat(me).attached
                &&& target < peer_target || (target == peer_target && me == 0)
            },
            None => false,
        }
    }

    /// Whether a receive by `me` may conclude that nothing more arrives for
    /// it at or before `target`.
    pub open spec fn gives_up(self, me: int, target: u64) -> bool {
        self.silent(1 - me, target) || self.frozen(me, target)
    }

    /// Whether a receive by `me` at `target` may go on: it has something to
    /// take, or nothing more can arrive for it.
    pub open spec fn gate_opens(self, me: int, target: u64, want_reply: bool) -> bool {
        self.seat(me).due(want_reply, target) || self.gives_up(me, target)
    }
}

impl Default for Air {
    fn default() -> (air: Self)
        ensures
            air@ == (AirView { first: SeatView::fresh(), second: SeatView::fresh() }),
    {
        Air { seats: [Seat::default(), Seat::default()] }
    }
}

/// The smaller of `cap` and the timestamps in `queue`.
fn earliest_in(cap: u64, queue: &VecDeque<Frame>) -> (ts: u64)
    ensures
        ts == earliest(cap, frames_of(queue@)),
{
    let ghost frames = frames_of(queue@);
    let mut best: u64 = cap;
    let mut i: usize = 0;
    while i < queue.len()
        invariant
            i <= queue@.len(),
            frames == frames_of(queue@),
            best == earliest(cap, frames.take(i as int)),
        decreases queue.len() - i,
    {
        let ts: u64 = queue[i].timestamp();
        if ts < best {
            best = ts;
        }
        i = i + 1;
        assert(frames.take(i as int).drop_last() =~= frames.take(i - 1));
    }
    assert(frames.take(i as int) =~= frames);
    best
}

impl Air {
    /// Puts a frame from `me` on the air, at the back of the peer's queue for
    /// its kind.
    ///
    /// It moves no bound: with host-clock adoption in play, a send proves
    /// nothing about the stamps of later sends.
    pub fn send(&mut self, me: usize, frame: Frame)
        requires
            me < 2,
        ensures
            final(self)@ == old(self)@.sent(me as int, frame@),
    {
        let peer: usize = 1 - me;
        match frame {
            Frame::Reply { .. } => {
                self.seats[peer].replies.push_back(frame);
            },
            Frame::Other { .. } => {
                self.seats[peer].incoming.push_back(frame);
            },
        }
    }

    /// Notes that the console of `me` has processed everything at or before
    /// `through`, so that any later send is strictly later. Returns whether
    /// the bound moved, which is when a waiting peer has to look again.
    ///
    /// This sets the bound rather than raising it: a client that adopts its
    /// host's clock can jump backward, and a bound left high would let the
    /// peer conclude "nothing more" about frames still to come.
    pub fn publish(&mut self, me: usize, through: u64) -> (moved: bool)
        requires
            me < 2,
        ensures
            final(self)@ == old(self)@.published(me as int, through),
            moved == (through != old(self)@.seat(me as int).progress),
    {
        let moved: bool = through != self.seats[me].progress;
        self.seats[me].progress = through;
        moved
    }

    /// The bound that the peer of `seat` may trust for giving up.
    pub fn bound(seat: &Seat) -> (bound: u64)
        ensures
            bound == seat@.bound(),
    {
        let capped: u64 = earliest_in(seat.progress, &seat.incoming);
        earliest_in(capped, &seat.replies)
    }

    /// Whether a receive of `seat` gated at `target` has something to take.
    pub fn due(seat: &Seat, want_reply: bool, target: u64) -> (due: bool)
        ensures
            due == seat@.due(want_reply, target),
    {
        if want_reply {
            seat.replies.len() > 0 && seat.replies[0].timestamp() <= target
        } else {
            seat.incoming.len() > 0 && seat.incoming[0].timestamp() <= target
        }
    }

    /// Whether a receive by `me` may conclude that nothing more arrives for
    /// it at or before `target`.
    pub(crate) fn gives_up(&self, me: usize, target: u64) -> (gives_up: bool)
        requires
            me < 2,
        ensures
            gives_up == self@.gives_up(me as int, target),
    {
        let peer: usize = 1 - me;
        let frozen: bool = match self.seats[peer].waiting {
            Some((peer_target, peer_reply)) => {
                !Self::due(&self.seats[peer], peer_reply, peer_target) && Self::bound(
                    &self.seats[me],
                ) <= peer_target && self.seats[me].attached && (target < peer_target || (target
                    == peer_target && me == 0))
            },
            None => false,
        };
        Self::bound(&self.seats[peer]) > target || self.seats[peer].frame_done
            || !self.seats[peer].attached || frozen
    }

    /// Looks whether a receive by `me` may go on. If not, `me` is noted as
    /// waiting, and has to look again once something on the air has changed.
    pub fn gate(&mut self, me: usize, target: u64, want_reply: bool) -> (opens: bool)
        requires
            me < 2,
        ensures
            opens == old(self)@.gate_opens(me as int, target, want_reply),
            final(self)@ == old(self)@.with_waiting(
                me as int,
                if opens {
                    None
                } else {
                    Some((target, want_reply))
                },
            ),
    {
        let opens: bool = Self::due(&self.seats[me], want_reply, target) || self.gives_up(
            me,
            target,
        );
        self.seats[me].waiting = if opens {
            None
        } else {
            Some((target, want_reply))
        };
        opens
    }
}

/// A timestamp stays below the smallest of a queue exactly if it stays below
/// the cap and below each frame.
proof fn lemma_earliest(cap: u64, queue: Seq<FrameView>, ts: u64)
    ensures
        earliest(cap, queue) > ts <==> {
            &&& cap > ts
            &&& forall|i: int| 0 <= i < queue.len() ==> (#[trigger] queue[i]).ts() > ts
        },
    decreases queue.len(),
{
    if queue.len() > 0 {
        let rest = queue.drop_last();
        lemma_earliest(cap, rest, ts);
        assert forall|i: int| 0 <= i < rest.len() implies rest[i] == queue[i] by {}
        if earliest(cap, queue) > ts {
            assert forall|i: int| 0 <= i < queue.len() implies (#[trigger] queue[i]).ts() > ts by {
                if i < rest.len() {
                    assert(rest[i].ts() > ts);
                }
            }
        }
        if cap > ts && forall|i: int| 0 <= i < queue.len() ==> (#[trigger] queue[i]).ts() > ts {
            assert(queue.last() == queue[queue.len() - 1]);
            assert forall|i: int| 0 <= i < rest.len() implies (#[trigger] rest[i]).ts() > ts by {
                assert(queue[i].ts() > ts);
            }
        }
    }
}

/// A seat's bound passes a timestamp exactly if its clock and every frame in
/// its queues do.
pub proof fn law_bound(seat: SeatView, ts: u64)
    ensures
        seat.bound() > ts <==> {
            &&& seat.progress > ts
            &&& forall|i: int|
                0 <= i < seat.incoming.len() ==> (#[trigger] seat.incoming[i]).ts() > ts
            &&& forall|i: int|
                0 <= i < seat.replies.len() ==> (#[trigger] seat.replies[i]).ts() > ts
        },
{
    lemma_earliest(seat.progress, seat.incoming, ts);
    lemma_earliest(earliest(seat.progress, seat.incoming), seat.replies, ts);
}

/// Consuming a frame leaves the same timestamps below the bound.
proof fn lemma_consumed_bound(seat: SeatView, ts: u64)
    requires
        seat.incoming.len() > 0,
    ensures
        seat.consumed().bound() > ts <==> seat.bound() > ts,
{
    let after = seat.consumed();
    law_bound(seat, ts);
    law_bound(after, ts);
    if seat.bound() > ts {
        assert(seat.incoming[0].ts() > ts);
        assert forall|i: int| 0 <= i < after.incoming.len() implies (
        #[trigger] after.incoming[i]).ts() > ts by {
            assert(after.incoming[i] == seat.incoming[i + 1]);
        }
    }
    if after.bound() > ts {
        assert forall|i: int| 0 <= i < seat.incoming.len() implies (
        #[trigger] seat.incoming[i]).ts() > ts by {
            if i > 0 {
                assert(after.incoming[i - 1] == seat.incoming[i]);
            }
        }
    }
}

/// Consuming a frame leaves the bound where it was: the frame had capped it
/// while it was queued, and caps the clock from then on.
pub proof fn law_consuming_keeps_bound(seat: SeatView)
    requires
        seat.incoming.len() > 0,
    ensures
        seat.consumed().bound() == seat.bound(),
{
    lemma_consumed_bound(seat, seat.bound());
    lemma_consumed_bound(seat, seat.consumed().bound());
}

/// A frame pushed onto a queue caps the smallest timestamp.
proof fn lemma_pushed_earliest(cap: u64, queue: Seq<FrameView>, frame: FrameView)
    ensures
        earliest(cap, queue.push(frame)) == if frame.ts() < earliest(cap, queue) {
            frame.ts()
        } else {
            earliest(cap, queue)
        },
{
    assert(queue.push(frame).drop_last() =~= queue);
}

/// A lower cap lowers the smallest timestamp no further than the cap.
proof fn lemma_capped_earliest(cap: u64, low: u64, queue: Seq<FrameView>)
    requires
        low <= cap,
    ensures
        earliest(low, queue) == if low < earliest(cap, queue) {
            low
        } else {
            earliest(cap, queue)
        },
    decreases queue.len(),
{
    if queue.len() > 0 {
        lemma_capped_earliest(cap, low, queue.drop_last());
    }
}

/// A frame on its way to a seat caps that seat's bound at its timestamp, and
/// leaves the sender's side as it was.
pub proof fn law_sending_caps_bound(air: AirView, me: int, frame: FrameView)
    requires
        0 <= me < 2,
    ensures
        air.sent(me, frame).seat(1 - me).bound() == if frame.ts() < air.seat(1 - me).bound() {
            frame.ts()
        } else {
            air.seat(1 - me).bound()
        },
        air.sent(me, frame).seat(me) == air.seat(me),
{
    let seat = air.seat(1 - me);
    let cap = earliest(seat.progress, seat.incoming);
    match frame {
        FrameView::Reply { .. } => {
            lemma_pushed_earliest(cap, seat.replies, frame);
        },
        FrameView::Other { .. } => {
            lemma_pushed_earliest(seat.progress, seat.incoming, frame);
            if frame.ts() < cap {
                lemma_capped_earliest(cap, frame.ts(), seat.replies);
            } else {
                lemma_earliest_below_cap(cap, seat.replies);
            }
        },
    }
}

/// The smallest timestamp is no larger than the cap.
proof fn lemma_earliest_below_cap(cap: u64, queue: Seq<FrameView>)
    ensures
        earliest(cap, queue) <= cap,
    decreases queue.len(),
{
    if queue.len() > 0 {
        lemma_earliest_below_cap(cap, queue.drop_last());
    }
}

/// Two consoles that wait on each other are never both stuck. Where neither
/// has a frame due and neither is silent to the other, exactly one goes
/// on: the one with the smaller target, and seat 0 on a tie.
pub proof fn law_deadlock_is_broken(
    air: AirView,
    target: u64,
    want_reply: bool,
    peer_target: u64,
    peer_reply: bool,
)
    requires
        air.seat(0).waiting == Some((target, want_reply)),
        air.seat(1).waiting == Some((peer_target, peer_reply)),
    ensures
        air.gate_opens(0, target, want_reply) || air.gate_opens(1, peer_target, peer_reply),
        !air.seat(0).due(want_reply, target) && !air.silent(1, target) && !air.seat(1).due(
            peer_reply,
            peer_target,
        ) && !air.silent(0, peer_target) ==> {
            &&& air.gate_opens(0, target, want_reply) <==> target <= peer_target
            &&& air.gate_opens(1, peer_target, peer_reply) <==> peer_target < target
        },
{
}

/// A console that another waits on, and that could still send it something in
/// time, is never taken for stuck: the tiebreak waits for a peer that nothing
/// in the state can wake.
pub proof fn law_only_a_stuck_peer_is_overtaken(air: AirView, me: int, target: u64)
    requires
        0 <= me < 2,
        air.frozen(me, target),
        air.seat(me).waiting matches Some((mine, _)) ==> mine == target,
        !air.seat(me).frame_done,
    ensures
        air.seat(1 - me).waiting matches Some((peer_target, peer_reply)) && !air.gate_opens(
            1 - me,
            peer_target,
            peer_reply,
        ),
{
}

/// The views of a queue's frames are those of its frames, one for one.
pub proof fn law_queue_is_seen_in_order(queue: Seq<Frame>)
    ensures
        frames_of(queue).len() == queue.len(),
        forall|i: int| 0 <= i < queue.len() ==> #[trigger] frames_of(queue)[i] == queue[i]@,
{
}

/// An air's view has everything that its two seats hold, each at its place.
pub proof fn law_air_is_seen_whole(air: Air, me: int)
    requires
        0 <= me < 2,
    ensures
        air@.seat(me).incoming == frames_of(air.seats@[me].incoming@),
        air@.seat(me).replies == frames_of(air.seats@[me].replies@),
        air@.seat(me).progress == air.seats@[me].progress,
        air@.seat(me).waiting == air.seats@[me].waiting,
        air@.seat(me).frame_done == air.seats@[me].frame_done,
        air@.seat(me).attached == air.seats@[me].attached,
        air@.seat(me) == air.seats@[me]@,
        air@.first == air.seats@[0]@,
        air@.second == air.seats@[1]@,
{
}

/// A seat that is put in place is found there, and the other one stays.
pub proof fn law_seats_are_apart(air: AirView, me: int, seat: SeatView)
    requires
        0 <= me < 2,
    ensures
        air.seat(0) == air.first,
        air.seat(1) == air.second,
        air.with_seat(me, seat).seat(me) == seat,
        air.with_seat(me, seat).seat(1 - me) == air.seat(1 - me),
{
}

/// A seat that nothing has happened to holds nothing.
pub proof fn law_fresh_seat_holds_nothing()
    ensures
        SeatView::fresh().incoming.len() == 0,
        SeatView::fresh().replies.len() == 0,
        SeatView::fresh().progress == 0,
        SeatView::fresh().waiting is None,
        !SeatView::fresh().frame_done,
        !SeatView::fresh().attached,
{
}

/// A frame that is sent comes last in the peer's queue for its kind, and is
/// the very frame that was sent: its kind, stamp, association id and every byte
/// of its payload. What was queued before it stays, in order, and nothing else
/// on the air changes.
pub proof fn law_sent_frame_arrives_whole(air: AirView, me: int, frame: FrameView)
    requires
        0 <= me < 2,
    ensures
        ({
            let before = air.seat(1 - me);
            let after = air.sent(me, frame).seat(1 - me);
            let (grown, old, kept, same) = if frame is Reply {
                (after.replies, before.replies, after.incoming, before.incoming)
            } else {
                (after.incoming, before.incoming, after.replies, before.replies)
            };
            &&& grown.len() == old.len() + 1
            &&& grown[old.len() as int] == frame
            &&& forall|i: int| 0 <= i < old.len() ==> #[trigger] grown[i] == old[i]
            &&& kept == same
            &&& after.progress == before.progress
            &&& after.waiting == before.waiting
            &&& after.frame_done == before.frame_done
            &&& after.attached == before.attached
        }),
        air.sent(me, frame).seat(me) == air.seat(me),
{
}

/// A published clock is the seat's clock from then on, higher or lower, and
/// nothing else on the air changes.
pub proof fn law_published_clock_is_set(air: AirView, me: int, through: u64)
    requires
        0 <= me < 2,
    ensures
        ({
            let before = air.seat(me);
            let after = air.published(me, through).seat(me);
            &&& after.progress == through
            &&& after.incoming == before.incoming
            &&& after.replies == before.replies
            &&& after.waiting == before.waiting
            &&& after.frame_done == before.frame_done
            &&& after.attached == before.attached
        }),
        air.published(me, through).seat(1 - me) == air.seat(1 - me),
{
}

/// Noting who waits, who is on the air and who has finished changes that, and
/// nothing else.
pub proof fn law_marks_are_set(
    air: AirView,
    me: int,
    waiting: Option<(u64, bool)>,
    mark: bool,
)
    requires
        0 <= me < 2,
    ensures
        air.with_waiting(me, waiting).seat(me).waiting == waiting,
        air.with_waiting(me, waiting).seat(me).incoming == air.seat(me).incoming,
        air.with_waiting(me, waiting).seat(me).replies == air.seat(me).replies,
        air.with_waiting(me, waiting).seat(me).progress == air.seat(me).progress,
        air.with_waiting(me, waiting).seat(me).frame_done == air.seat(me).frame_done,
        air.with_waiting(me, waiting).seat(me).attached == air.seat(me).attached,
        air.with_waiting(me, waiting).seat(1 - me) == air.seat(1 - me),
        air.with_attached(me, mark).seat(me).attached == mark,
        air.with_attached(me, mark).seat(me).incoming == air.seat(me).incoming,
        air.with_attached(me, mark).seat(me).replies == air.seat(me).replies,
        air.with_attached(me, mark).seat(me).progress == air.seat(me).progress,
        air.with_attached(me, mark).seat(me).waiting == air.seat(me).waiting,
        air.with_attached(me, mark).seat(me).frame_done == air.seat(me).frame_done,
        air.with_attached(me, mark).seat(1 - me) == air.seat(1 - me),
        air.with_frame_done(me, mark).seat(me).frame_done == mark,
        air.with_frame_done(me, mark).seat(me).incoming == air.seat(me).incoming,
        air.with_frame_done(me, mark).seat(me).replies == air.seat(me).replies,
        air.with_frame_done(me, mark).seat(me).progress == air.seat(me).progress,
        air.with_frame_done(me, mark).seat(me).waiting == air.seat(me).waiting,
        air.with_frame_done(me, mark).seat(me).attached == air.seat(me).attached,
        air.with_frame_done(me, mark).seat(1 - me) == air.seat(1 - me),
{
}

/// Something is due exactly if the queue of its kind has a front stamped at or
/// before the target.
pub proof fn law_due_is_the_front(seat: SeatView, target: u64)
    ensures
        seat.due(true, target) <==> seat.replies.len() > 0 && seat.replies[0].ts() <= target,
        seat.due(false, target) <==> seat.incoming.len() > 0 && seat.incoming[0].ts() <= target,
{
}

/// Consuming takes the front of the incoming queue and nothing else off it, and
/// brings the clock down to the frame's stamp where it is above.
pub proof fn law_consuming_takes_the_front(seat: SeatView)
    requires
        seat.incoming.len() > 0,
    ensures
        seat.consumed().incoming.len() == seat.incoming.len() - 1,
        forall|i: int|
            0 <= i < seat.consumed().incoming.len() ==> #[trigger] seat.consumed().incoming[i]
                == seat.incoming[i + 1],
        seat.consumed().progress <= seat.progress,
        seat.consumed().progress <= seat.incoming[0].ts(),
        seat.consumed().progress == seat.progress || seat.consumed().progress
            == seat.incoming[0].ts(),
        seat.consumed().replies == seat.replies,
        seat.consumed().waiting == seat.waiting,
        seat.consumed().frame_done == seat.frame_done,
        seat.consumed().attached == seat.attached,
{
}

/// A receive by `me` goes on exactly if one of five things holds: a frame of
/// its kind is due; the peer's bound has passed the target; the peer has
/// finished its video frame; the peer is off the air; or both wait on each
/// other, nothing can wake the peer, and `me` has the smaller target, or the
/// same and seat 0.
pub proof fn law_gate_opens_for_five_reasons(air: AirView, me: int, target: u64, want_reply: bool)
    requires
        0 <= me < 2,
    ensures
        air.gate_opens(me, target, want_reply) <==> {
            let mine = air.seat(me);
            let peer = air.seat(1 - me);
            ||| want_reply && mine.replies.len() > 0 && mine.replies[0].ts() <= target
            ||| !want_reply && mine.incoming.len() > 0 && mine.incoming[0].ts() <= target
            ||| peer.bound() > target
            ||| peer.frame_done
            ||| !peer.attached
            ||| {
                &&& peer.waiting matches Some((peer_target, peer_reply))
                &&& !(peer_reply && peer.replies.len() > 0 && peer.replies[0].ts() <= peer_target)
                &&& !(!peer_reply && peer.incoming.len() > 0 && peer.incoming[0].ts()
                    <= peer_target)
                &&& mine.bound() <= peer_target
                &&& mine.attached
                &&& target < peer_target || (target == peer_target && me == 0)
            }
        },
        air.gives_up(me, target) <==> {
            let mine = air.seat(me);
            let peer = air.seat(1 - me);
            ||| peer.bound() > target
            ||| peer.frame_done
            ||| !peer.attached
            ||| {
                &&& peer.waiting matches Some((peer_target, peer_reply))
                &&& !(peer_reply && peer.replies.len() > 0 && peer.replies[0].ts() <= peer_target)
                &&& !(!peer_reply && peer.incoming.len() > 0 && peer.incoming[0].ts()
                    <= peer_target)
                &&& mine.bound() <= peer_target
                &&& mine.attached
                &&& target < peer_target || (target == peer_target && me == 0)
            }
        },
        air.silent(me, target) <==> air.seat(me).bound() > target || air.seat(me).frame_done
            || !air.seat(me).attached,
{
}

/// A seat's bound is the smallest of its clock and the stamps in its queues: it
/// is at or below each of them, and is one of them.
pub proof fn law_bound_is_the_smallest(seat: SeatView)
    ensures
        seat.bound() <= seat.progress,
        forall|i: int| 0 <= i < seat.incoming.len() ==> seat.bound() <= (#[trigger] seat.incoming[i]).ts(),
        forall|i: int| 0 <= i < seat.replies.len() ==> seat.bound() <= (#[trigger] seat.replies[i]).ts(),
        seat.bound() == seat.progress || (exists|i: int|
            0 <= i < seat.incoming.len() && seat.bound() == (#[trigger] seat.incoming[i]).ts()) || (
        exists|i: int|
            0 <= i < seat.replies.len() && seat.bound() == (#[trigger] seat.replies[i]).ts()),
{
    let cap = earliest(seat.progress, seat.incoming);
    lemma_earliest_is_one(seat.progress, seat.incoming);
    lemma_earliest_is_one(cap, seat.replies);
    lemma_earliest_below_cap(cap, seat.replies);
}

/// The smallest timestamp is at or below each of a queue, and is the cap or one
/// of them.
proof fn lemma_earliest_is_one(cap: u64, queue: Seq<FrameView>)
    ensures
        earliest(cap, queue) <= cap,
        forall|i: int| 0 <= i < queue.len() ==> earliest(cap, queue) <= (#[trigger] queue[i]).ts(),
        earliest(cap, queue) == cap || exists|i: int|
            0 <= i < queue.len() && earliest(cap, queue) == (#[trigger] queue[i]).ts(),
    decreases queue.len(),
{
    if queue.len() > 0 {
        let rest = queue.drop_last();
        lemma_earliest_is_one(cap, rest);
        assert(queue.last() == queue[queue.len() - 1]);
        assert forall|i: int| 0 <= i < queue.len() implies earliest(cap, queue) <= (
        #[trigger] queue[i]).ts() by {
            if i < rest.len() {
                assert(rest[i] == queue[i]);
            }
        }
        if earliest(cap, queue) != cap && earliest(cap, queue) != queue.last().ts() {
            let i = choose|i: int| 0 <= i < rest.len() && earliest(cap, rest) == rest[i].ts();
            assert(queue[i] == rest[i]);
        }
    }
}

} // verus!
