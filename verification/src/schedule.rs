//! How two consoles share the air: a model of what their threads can do.
//!
//! A console is a program: what it does next on the air is a function of what
//! came back from everything it did before. Two consoles take turns in any
//! order, and a turn is one visit to the air, which is one call of an
//! [`Air`](crate::air::Air) under its lock: a send, a clock, the start of a
//! receive, a poll. [`determinism`](crate::determinism) says what holds of
//! every order.

use vstd::prelude::*;

use crate::air::{AirView, SeatView};
use crate::frame::FrameView;
use crate::host::{before, ReceivedView, Round};

verus! {

/// What a console does next on the air.
pub enum Action {
    /// Its wifi clock, at the end of a timer batch.
    Clock { now: u64 },
    /// A frame goes out.
    Send { frame: FrameView },
    /// It goes on the air.
    Begin,
    /// It leaves the air.
    End,
    /// A packet receive.
    RecvPacket { now: u64 },
    /// A host packet receive.
    RecvHostPacket { now: u64 },
    /// A reply receive.
    RecvReplies { now: u64, target: u64, aidmask: u16, buffer: Seq<u8> },
    /// The video frame is over.
    Finish,
}

/// What came back from an action.
pub enum Outcome {
    Done,
    Packet(ReceivedView),
    Replies { mask: u16, buffer: Seq<u8> },
}

/// Where a console stands in its program.
pub enum Phase {
    /// Between two actions.
    Running,
    /// In a receive whose clock is published, looking whether it may go on. A
    /// reply receive has collected `mask` and `buffer` so far.
    Polling { mask: u16, buffer: Seq<u8> },
    /// Its video frame is over.
    Finished,
}

/// What a console does in one video frame, by what came back so far. It
/// stands for the console's memory and for the input that the frame has.
pub type Program = spec_fn(Seq<Outcome>) -> Action;

/// A console in the middle of a video frame.
pub struct Console {
    /// The next action, by what came back from those before it.
    pub program: Program,
    /// What came back so far.
    pub history: Seq<Outcome>,
    pub phase: Phase,
}

impl Console {
    /// What it does, or is in the middle of doing.
    pub open spec fn action(self) -> Action {
        (self.program)(self.history)
    }

    /// After its action came back with `outcome`.
    pub open spec fn advanced(self, outcome: Outcome) -> Console {
        Console { history: self.history.push(outcome), phase: Phase::Running, ..self }
    }

    /// While it polls its receive.
    pub open spec fn polling(self, mask: u16, buffer: Seq<u8>) -> Console {
        Console { phase: Phase::Polling { mask, buffer }, ..self }
    }

    /// The wait target and queue kind of the receive that it polls, if it
    /// polls one.
    pub open spec fn polls(self) -> Option<(u64, bool)> {
        match (self.phase, self.action()) {
            (Phase::Polling { .. }, Action::RecvPacket { now }) => Some((now, false)),
            (Phase::Polling { .. }, Action::RecvHostPacket { now }) => Some((now, false)),
            (Phase::Polling { .. }, Action::RecvReplies { target, .. }) => Some((target, true)),
            _ => None,
        }
    }
}

/// One turn of a seat, 0 or 1.
pub enum Turn {
    /// Its next visit to the air: an action, the start of a receive, or a
    /// poll.
    Visit(int),
    /// A visit that takes a single reply, where a poll takes all that are
    /// due.
    TakeReply(int),
}

impl Turn {
    pub open spec fn seat(self) -> int {
        match self {
            Turn::Visit(me) => me,
            Turn::TakeReply(me) => me,
        }
    }
}

/// Whether every turn is one of seat 0 or 1.
pub open spec fn turns(schedule: Seq<Turn>) -> bool {
    forall|i: int| 0 <= i < schedule.len() ==> 0 <= (#[trigger] schedule[i]).seat() < 2
}

/// One video frame of a link, in the middle of it.
pub struct Tick {
    pub air: AirView,
    pub first: Console,
    pub second: Console,
}

impl Tick {
    pub open spec fn console(self, me: int) -> Console {
        if me == 0 {
            self.first
        } else {
            self.second
        }
    }

    pub open spec fn with_console(self, me: int, console: Console) -> Tick {
        if me == 0 {
            Tick { first: console, ..self }
        } else {
            Tick { second: console, ..self }
        }
    }

    /// After `me` did something that has no result.
    pub open spec fn did(self, me: int, air: AirView) -> Tick {
        Tick { air, ..self.with_console(me, self.console(me).advanced(Outcome::Done)) }
    }

    /// After `me` started a receive.
    pub open spec fn started(self, me: int, now: u64, buffer: Seq<u8>) -> Tick {
        Tick {
            air: self.air.published(me, before(now)),
            ..self.with_console(me, self.console(me).polling(0, buffer))
        }
    }

    /// After a packet receive of `me` was polled.
    pub open spec fn polled(self, me: int, result: (AirView, Option<ReceivedView>)) -> Tick {
        match result.1 {
            Some(received) => Tick {
                air: result.0,
                ..self.with_console(me, self.console(me).advanced(Outcome::Packet(received)))
            },
            None => Tick { air: result.0, ..self },
        }
    }

    /// The next visit of `me` to the air.
    pub open spec fn visited(self, me: int) -> Tick {
        match (self.console(me).phase, self.console(me).action()) {
            (Phase::Running, Action::Clock { now }) => self.did(me, self.air.published(me, now)),
            (Phase::Running, Action::Send { frame }) => self.did(me, self.air.sent(me, frame)),
            (Phase::Running, Action::Begin) => self.did(me, self.air.with_attached(me, true)),
            (Phase::Running, Action::End) => self.did(me, self.air.with_attached(me, false)),
            (Phase::Running, Action::RecvPacket { now }) => self.started(me, now, Seq::empty()),
            (Phase::Running, Action::RecvHostPacket { now }) => self.started(
                me,
                now,
                Seq::empty(),
            ),
            (Phase::Running, Action::RecvReplies { now, buffer, .. }) => self.started(
                me,
                now,
                buffer,
            ),
            (Phase::Running, Action::Finish) => Tick {
                air: self.air.with_frame_done(me, true),
                ..self.with_console(me, Console { phase: Phase::Finished, ..self.console(me) })
            },
            (Phase::Polling { .. }, Action::RecvPacket { now }) => self.polled(
                me,
                self.air.recv_packet(me, now),
            ),
            (Phase::Polling { .. }, Action::RecvHostPacket { now }) => self.polled(
                me,
                self.air.recv_host_packet(me, now),
            ),
            (
                Phase::Polling { mask, buffer },
                Action::RecvReplies { target, aidmask, .. },
            ) => {
                let (air, round, buffer) = self.air.recv_replies(me, target, aidmask, mask, buffer);
                let console = match round {
                    Round::Open(mask) => self.console(me).polling(mask, buffer),
                    Round::Closed(mask) => self.console(me).advanced(
                        Outcome::Replies { mask, buffer },
                    ),
                };
                Tick { air, ..self.with_console(me, console) }
            },
            _ => self,
        }
    }

    /// A visit of `me` that takes a single reply, if it polls for replies and
    /// one is due.
    pub open spec fn took_reply(self, me: int) -> Tick {
        match (self.console(me).phase, self.console(me).action()) {
            (
                Phase::Polling { mask, buffer },
                Action::RecvReplies { target, aidmask, .. },
            ) => if self.air.seat(me).due(true, target) {
                let round = self.air.collection(me, mask, buffer).take_one(aidmask);
                let air = self.air.with_seat(
                    me,
                    SeatView { replies: round.queue, waiting: None, ..self.air.seat(me) },
                );
                let console = if round.complete {
                    self.console(me).advanced(
                        Outcome::Replies { mask: round.mask, buffer: round.buffer },
                    )
                } else {
                    self.console(me).polling(round.mask, round.buffer)
                };
                Tick { air, ..self.with_console(me, console) }
            } else {
                self
            },
            _ => self,
        }
    }

    /// After one turn.
    pub open spec fn after(self, turn: Turn) -> Tick {
        match turn {
            Turn::Visit(me) => self.visited(me),
            Turn::TakeReply(me) => self.took_reply(me),
        }
    }

    /// After the turns of a schedule, first to last.
    pub open spec fn run(self, schedule: Seq<Turn>) -> Tick
        decreases schedule.len(),
    {
        if schedule.len() == 0 {
            self
        } else {
            self.run(schedule.drop_last()).after(schedule.last())
        }
    }

    /// Whether the video frame is just starting: nobody has finished it,
    /// nobody waits.
    pub open spec fn starting(self) -> bool {
        forall|me: int|
            0 <= me < 2 ==> {
                &&& (#[trigger] self.console(me)).phase is Running
                &&& !self.air.seat(me).frame_done
                &&& self.air.seat(me).waiting is None
            }
    }

    /// Whether both consoles have finished the video frame.
    pub open spec fn finished(self) -> bool {
        self.first.phase is Finished && self.second.phase is Finished
    }

    /// Without the notes of who waits.
    pub open spec fn unnoted(self) -> Tick {
        Tick { air: self.air.with_waiting(0, None).with_waiting(1, None), ..self }
    }

    /// Whether `me`, receiving from a host, has nothing left of a host that
    /// is off the air.
    pub open spec fn host_gone(self, me: int) -> bool {
        !self.air.seat(1 - me).attached && self.air.seat(me).incoming.len() == 0
    }

    /// Whether `me` polls a host packet receive that, if it has to give up,
    /// takes its host for gone.
    pub open spec fn takes_host_for_gone(self, me: int) -> bool {
        self.console(me).polls() is Some && self.console(me).action() is RecvHostPacket
            && self.host_gone(me)
    }

    /// Whether it matters to a receive that the peer polls who is first. The
    /// receive could give up now, with nothing to take and `me` silent at its
    /// target; after the next action of `me` it would have something to take,
    /// or would have to wait, or would find otherwise whether its host is
    /// gone.
    pub open spec fn races(self, me: int) -> bool {
        let peer = 1 - me;
        let next = self.visited(me);
        match self.console(peer).polls() {
            Some((target, want_reply)) => {
                &&& self.console(me).phase is Running
                &&& self.air.silent(me, target)
                &&& !self.air.seat(peer).due(want_reply, target)
                &&& next.air.seat(peer).due(want_reply, target) || !next.air.silent(me, target)
                    || next.takes_host_for_gone(peer) != self.takes_host_for_gone(peer)
            },
            None => false,
        }
    }

    /// Whether two points come to the same, but for who is noted as waiting,
    /// by a schedule each.
    pub open spec fn meet(self, schedule: Seq<Turn>, other: Tick, others: Seq<Turn>) -> bool {
        &&& turns(schedule)
        &&& turns(others)
        &&& self.run(schedule).unnoted() == other.run(others).unnoted()
    }

    /// Whether a race of `me` with a receive of the peer's is no more than
    /// that: whoever is first, there are turns after which the link stands at
    /// the same point.
    pub open spec fn comes_together(self, me: int) -> bool {
        let peer_first = self.visited(1 - me);
        let me_first = self.visited(me);
        self.races(me) ==> exists|a: Seq<Turn>, b: Seq<Turn>| peer_first.meet(a, me_first, b)
    }

    /// Whether every race comes together, at every point of every schedule.
    pub open spec fn always_comes_together(self) -> bool {
        forall|schedule: Seq<Turn>, me: int|
            turns(schedule) && 0 <= me < 2 ==> #[trigger] self.run(schedule).comes_together(me)
    }
}

impl Tick {
    /// The turn of `me` that does the least: it takes a single reply where one
    /// is due to a reply receive, and is a visit otherwise.
    pub open spec fn least_turn(self, me: int) -> Turn {
        match self.console(me).polls() {
            Some((target, want_reply)) => if want_reply && self.air.seat(me).due(true, target) {
                Turn::TakeReply(me)
            } else {
                Turn::Visit(me)
            },
            None => Turn::Visit(me),
        }
    }

    /// Whether `me` goes on without a tiebreak: it is in no receive, or in one
    /// that has something to take, or that the state proves nothing more to.
    pub open spec fn goes_on(self, me: int) -> bool {
        match self.console(me).polls() {
            Some((target, want_reply)) => self.air.seat(me).due(want_reply, target)
                || self.air.silent(1 - me, target),
            None => self.console(me).phase is Running,
        }
    }

    /// Whether the next turns of `me`, up to the first that leaves `me` silent
    /// at `target`, need no tiebreak and send nothing stamped there, and
    /// whether the peer then takes its host for gone just if `gone` says so.
    /// At most `more` turns come before that first one.
    pub open spec fn stays_quiet(self, me: int, target: u64, gone: bool, more: nat) -> bool
        decreases more,
    {
        let next = self.after(self.least_turn(me));
        &&& self.goes_on(me)
        &&& self.console(me).phase is Running ==> (self.console(
            me,
        ).action() matches Action::Send { frame } ==> frame.ts() > target)
        &&& if next.air.silent(me, target) {
            next.takes_host_for_gone(1 - me) == gone
        } else {
            more > 0 && next.stays_quiet(me, target, gone, (more - 1) as nat)
        }
    }

    /// Whether `me` is silent at `target`, or will be before it sends
    /// anything stamped there.
    pub open spec fn quiet(self, me: int, target: u64) -> bool {
        self.air.silent(me, target) || exists|gone: bool, more: nat|
            self.stays_quiet(me, target, gone, more)
    }

    /// Whether the next action of `me` keeps its word. If the state already
    /// proves to a receive that the peer polls, and that has nothing to take,
    /// that `me` sends nothing more at or before its target, then `me` leaves
    /// it proved: at once, or after some turns that send nothing stamped
    /// there, such as going on the air, listening, and publishing a clock that
    /// is past the target. And it does not decide, under a host packet
    /// receive, whether the host is gone.
    pub open spec fn keeps_word(self, me: int) -> bool {
        match self.console(1 - me).polls() {
            Some((target, want_reply)) => {
                let gone = self.takes_host_for_gone(1 - me);
                self.console(me).phase is Running && self.air.silent(me, target) && !self.air.seat(
                    1 - me,
                ).due(want_reply, target) ==> exists|more: nat|
                    self.stays_quiet(me, target, gone, more)
            },
            None => true,
        }
    }

    /// Whether both consoles keep their word at every point of every
    /// schedule.
    pub open spec fn always_keeps_word(self) -> bool {
        forall|schedule: Seq<Turn>, me: int|
            turns(schedule) && 0 <= me < 2 ==> #[trigger] self.run(schedule).keeps_word(me)
    }

    /// Whether `me`, going on the air under a receive that the peer polls,
    /// gets past the receive's target before it sends anything there. It may
    /// listen on the way.
    pub open spec fn joins_ahead(self, me: int) -> bool {
        match self.console(1 - me).polls() {
            Some((target, _)) => {
                let gone = self.takes_host_for_gone(1 - me);
                exists|more: nat| self.stays_quiet(me, target, gone, more)
            },
            None => true,
        }
    }

    /// Whether the next action of `me` follows the console's clock: what it
    /// sends is stamped later than what it has published, and goes out on the
    /// air; its clock falls only with the frames that it consumes; it goes on
    /// the air while the peer is in no receive, or ahead of the peer's
    /// target; and it leaves the air without a host packet receive of the
    /// peer's taking it for gone.
    pub open spec fn on_the_clock(self, me: int) -> bool {
        let seat = self.air.seat(me);
        self.console(me).phase is Running ==> match self.console(me).action() {
            Action::Clock { now } => now >= seat.progress,
            Action::Send { frame } => frame.ts() > seat.progress && seat.attached,
            Action::Begin => self.joins_ahead(me),
            Action::End => self.visited(me).takes_host_for_gone(1 - me)
                == self.takes_host_for_gone(1 - me),
            Action::RecvPacket { now } => before(now) >= seat.progress,
            Action::RecvHostPacket { now } => before(now) >= seat.progress,
            Action::RecvReplies { now, .. } => before(now) >= seat.progress,
            Action::Finish => true,
        }
    }
}

impl Tick {
    /// The start of the next video frame, in which the consoles run the given
    /// programs.
    pub open spec fn next_frame(self, programs: (Program, Program)) -> Tick {
        Tick {
            air: self.air.ticking(),
            first: Console { program: programs.0, phase: Phase::Running, ..self.first },
            second: Console { program: programs.1, phase: Phase::Running, ..self.second },
        }
    }

    /// After `count` video frames, each with its programs and its schedule.
    pub open spec fn played(
        self,
        programs: Seq<(Program, Program)>,
        schedules: Seq<Seq<Turn>>,
        count: int,
    ) -> Tick
        decreases count,
    {
        if count <= 0 {
            self
        } else {
            self.played(programs, schedules, count - 1).next_frame(programs[count - 1]).run(
                schedules[count - 1],
            )
        }
    }

    /// Whether every schedule plays out its video frame to the end.
    pub open spec fn plays_out(
        self,
        programs: Seq<(Program, Program)>,
        schedules: Seq<Seq<Turn>>,
    ) -> bool {
        forall|i: int|
            0 < i <= programs.len() ==> (#[trigger] self.played(programs, schedules, i)).finished()
    }
}

/// Whether a queue has only grown, and only by frames stamped later than
/// `target`.
pub open spec fn grew_later(
    earlier: Seq<FrameView>,
    later: Seq<FrameView>,
    target: u64,
) -> bool {
    &&& earlier.len() <= later.len()
    &&& later.take(earlier.len() as int) == earlier
    &&& forall|i: int| earlier.len() <= i < later.len() ==> (#[trigger] later[i]).ts() > target
}

} // verus!
