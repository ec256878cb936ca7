//! What a link does to its air, around what it does to its two consoles:
//! starting and finishing video frames, capturing and resuming.

use std::collections::VecDeque;
use vstd::prelude::*;

use crate::air::{frames_of, Air, AirView, Seat, SeatView};
use crate::determinism::law_link_is_a_function_of_its_inputs;
use crate::format::snapshot_bytes;
use crate::frame::Frame;
use crate::schedule::{turns, Console, Program, Tick, Turn};
use crate::snapshot::{SideView, Snapshot, SnapshotView};

verus! {

impl SeatView {
    /// The part of a capture that a seat gives, next to its console's state.
    pub open spec fn captured(self, console: Seq<u8>) -> SideView {
        SideView {
            console,
            incoming: self.incoming,
            replies: self.replies,
            progress: self.progress,
            attached: self.attached,
        }
    }
}

impl SideView {
    /// The seat that resumes from a part of a capture. It does not wait, and
    /// its next video frame is still to come.
    pub open spec fn resumed(self) -> SeatView {
        SeatView {
            incoming: self.incoming,
            replies: self.replies,
            progress: self.progress,
            waiting: None,
            frame_done: false,
            attached: self.attached,
        }
    }
}

impl AirView {
    /// The capture of a link with this air and the given console states.
    pub open spec fn captured(self, first: Seq<u8>, second: Seq<u8>) -> SnapshotView {
        SnapshotView { first: self.first.captured(first), second: self.second.captured(second) }
    }

    /// At the start of a video frame: neither seat has finished it.
    pub open spec fn ticking(self) -> AirView {
        self.with_frame_done(0, false).with_frame_done(1, false)
    }
}

impl Tick {
    /// The link that resumes from a capture of this one, which holds the given
    /// console states: its consoles stand where they stood, and its air is
    /// the one that the capture gives.
    pub open spec fn resumed(self, states: (Seq<u8>, Seq<u8>)) -> Tick {
        Tick { air: self.air.captured(states.0, states.1).resumed(), ..self }
    }

    /// The capture of this link, whose consoles serialize as `save` says.
    pub open spec fn snapshot(self, save: spec_fn(Console) -> Seq<u8>) -> SnapshotView {
        self.air.captured(save(self.first), save(self.second))
    }
}

impl SnapshotView {
    /// The air that resumes from a capture.
    pub open spec fn resumed(self) -> AirView {
        AirView { first: self.first.resumed(), second: self.second.resumed() }
    }
}

/// Copies a queue, front first.
fn listed(queue: &VecDeque<Frame>) -> (frames: Vec<Frame>)
    ensures
        frames_of(frames@) == frames_of(queue@),
{
    let mut frames: Vec<Frame> = Vec::new();
    let mut i: usize = 0;
    while i < queue.len()
        invariant
            i <= queue@.len(),
            frames@.len() == i,
            forall|k: int| 0 <= k < i ==> (#[trigger] frames@[k])@ == queue@[k]@,
        decreases queue.len() - i,
    {
        frames.push(queue[i].clone());
        i = i + 1;
    }
    assert(frames_of(frames@) =~= frames_of(queue@));
    frames
}

/// Queues frames, the first at the front.
fn queued(frames: &Vec<Frame>) -> (queue: VecDeque<Frame>)
    ensures
        frames_of(queue@) == frames_of(frames@),
{
    let mut queue: VecDeque<Frame> = VecDeque::new();
    let mut i: usize = 0;
    while i < frames.len()
        invariant
            i <= frames@.len(),
            queue@.len() == i,
            forall|k: int| 0 <= k < i ==> (#[trigger] queue@[k])@ == frames@[k]@,
        decreases frames.len() - i,
    {
        queue.push_back(frames[i].clone());
        i = i + 1;
    }
    assert(frames_of(queue@) =~= frames_of(frames@));
    queue
}

impl Air {
    /// A video frame starts.
    pub fn begin_tick(&mut self)
        ensures
            final(self)@ == old(self)@.ticking(),
    {
        self.seats[0].frame_done = false;
        self.seats[1].frame_done = false;
    }

    /// The console of `me` has finished its video frame.
    pub fn finish_frame(&mut self, me: usize)
        requires
            me < 2,
        ensures
            final(self)@ == old(self)@.with_frame_done(me as int, true),
    {
        self.seats[me].frame_done = true;
    }

    /// Whether both consoles are on the air, as they are once a wireless
    /// session is up.
    pub fn connected(&self) -> (connected: bool)
        ensures
            connected == (self@.first.attached && self@.second.attached),
    {
        self.seats[0].attached && self.seats[1].attached
    }

    /// Captures the air, next to the states of the two consoles.
    pub fn capture(&self, consoles: [Vec<u8>; 2]) -> (snapshot: Snapshot)
        ensures
            snapshot@ == self@.captured(consoles@[0]@, consoles@[1]@),
    {
        Snapshot {
            consoles,
            incoming: [listed(&self.seats[0].incoming), listed(&self.seats[1].incoming)],
            replies: [listed(&self.seats[0].replies), listed(&self.seats[1].replies)],
            progress: [self.seats[0].progress, self.seats[1].progress],
            attached: [self.seats[0].attached, self.seats[1].attached],
        }
    }

    /// Resumes from a capture. What goes on is the video frame after the one
    /// that had completed when it was taken.
    pub fn restore(&mut self, snapshot: &Snapshot)
        ensures
            final(self)@ == snapshot@.resumed(),
    {
        let mut i: usize = 0;
        while i < 2
            invariant
                i <= 2,
                i > 0 ==> self.seats@[0]@ == snapshot@.first.resumed(),
                i > 1 ==> self.seats@[1]@ == snapshot@.second.resumed(),
            decreases 2 - i,
        {
            self.seats[i] = Seat {
                incoming: queued(&snapshot.incoming[i]),
                replies: queued(&snapshot.replies[i]),
                progress: snapshot.progress[i],
                waiting: None,
                frame_done: false,
                attached: snapshot.attached[i],
            };
            i = i + 1;
        }
    }
}

impl Snapshot {
    /// The console buffers to capture into: those of a retired snapshot where
    /// one is offered, to keep a session off the allocator, and empty ones
    /// where none is.
    pub fn buffers(recycled: Option<Snapshot>) -> (consoles: [Vec<u8>; 2])
        ensures
            match recycled {
                Some(snapshot) => {
                    &&& consoles@[0]@ == snapshot@.first.console
                    &&& consoles@[1]@ == snapshot@.second.console
                },
                None => consoles@[0]@.len() == 0 && consoles@[1]@.len() == 0,
            },
    {
        match recycled {
            Some(snapshot) => snapshot.consoles,
            None => [Vec::new(), Vec::new()],
        }
    }
}

/// Both results of work done on the two consoles at once, or the failure of
/// the first that failed.
pub fn both<R, E>(first: Result<R, E>, second: Result<R, E>) -> (results: Result<(R, R), E>)
    ensures
        match (first, second) {
            (Ok(a), Ok(b)) => results == Ok::<(R, R), E>((a, b)),
            (Err(e), _) => results == Err::<(R, R), E>(e),
            (Ok(_), Err(e)) => results == Err::<(R, R), E>(e),
        },
{
    match first {
        Ok(a) => match second {
            Ok(b) => Ok((a, b)),
            Err(e) => Err(e),
        },
        Err(e) => Err(e),
    }
}

/// Resuming from a capture gives back the air that was captured, at the start
/// of its next video frame: the frames in flight, the bounds, and who is on
/// the air.
pub proof fn law_restore_resumes_the_air(air: AirView, first: Seq<u8>, second: Seq<u8>)
    ensures
        air.captured(first, second).resumed() == air.ticking().with_waiting(0, None).with_waiting(
            1,
            None,
        ),
        air.first.waiting is None && air.second.waiting is None ==> air.captured(
            first,
            second,
        ).resumed() == air.ticking(),
{
}

/// Capturing what was just resumed gives the capture again.
pub proof fn law_capture_of_resumed_is_the_capture(snapshot: SnapshotView)
    ensures
        snapshot.resumed().captured(snapshot.first.console, snapshot.second.console) == snapshot,
{
}

/// Two links that hold the same state, and get the same inputs, have captures
/// that are the same to the byte after each video frame, however the consoles'
/// turns interleave in either. What is asked is that every race comes together.
pub proof fn law_same_inputs_give_the_same_bytes(
    start: Tick,
    programs: Seq<(Program, Program)>,
    a: Seq<Seq<Turn>>,
    b: Seq<Seq<Turn>>,
    save: spec_fn(Console) -> Seq<u8>,
    count: int,
)
    requires
        start.air.first.waiting is None && start.air.second.waiting is None,
        0 <= count <= programs.len(),
        a.len() == programs.len(),
        b.len() == programs.len(),
        forall|i: int| 0 <= i < a.len() ==> turns(#[trigger] a[i]),
        forall|i: int| 0 <= i < b.len() ==> turns(#[trigger] b[i]),
        start.plays_out(programs, a),
        start.plays_out(programs, b),
        forall|i: int|
            0 <= i < programs.len() ==> (#[trigger] start.played(programs, a, i)).next_frame(
                programs[i],
            ).always_comes_together(),
    ensures
        snapshot_bytes(start.played(programs, a, count).snapshot(save)) == snapshot_bytes(
            start.played(programs, b, count).snapshot(save),
        ),
{
    law_link_is_a_function_of_its_inputs(start, programs, a, b, count);
}

/// The next video frame does not tell a link from the one that resumes from
/// its capture, and so none after it does.
proof fn lemma_resumed_plays_the_same(
    live: Tick,
    resumed: Tick,
    programs: Seq<(Program, Program)>,
    schedules: Seq<Seq<Turn>>,
    count: int,
)
    requires
        live.air.ticking() == resumed.air.ticking(),
        live.first == resumed.first,
        live.second == resumed.second,
        count > 0,
    ensures
        live.played(programs, schedules, count) == resumed.played(programs, schedules, count),
    decreases count,
{
    if count == 1 {
        assert(live.played(programs, schedules, 0) == live);
        assert(resumed.played(programs, schedules, 0) == resumed);
        assert(live.next_frame(programs[0]) == resumed.next_frame(programs[0]));
    } else {
        lemma_resumed_plays_the_same(live, resumed, programs, schedules, count - 1);
    }
}

/// A link replays identically across a snapshot and a restore: the video
/// frames that follow a capture, and those that follow a restore from it with
/// the same inputs, go the same way, however the consoles' turns interleave in
/// either. What is asked is that every race comes together.
pub proof fn law_replay_is_identical(
    live: Tick,
    states: (Seq<u8>, Seq<u8>),
    programs: Seq<(Program, Program)>,
    a: Seq<Seq<Turn>>,
    b: Seq<Seq<Turn>>,
    count: int,
)
    requires
        live.air.first.waiting is None && live.air.second.waiting is None,
        0 < count <= programs.len(),
        a.len() == programs.len(),
        b.len() == programs.len(),
        forall|i: int| 0 <= i < a.len() ==> turns(#[trigger] a[i]),
        forall|i: int| 0 <= i < b.len() ==> turns(#[trigger] b[i]),
        live.plays_out(programs, a),
        live.resumed(states).plays_out(programs, b),
        forall|i: int|
            0 <= i < programs.len() ==> (#[trigger] live.played(programs, a, i)).next_frame(
                programs[i],
            ).always_comes_together(),
    ensures
        live.played(programs, a, count) == live.resumed(states).played(programs, b, count),
{
    let resumed = live.resumed(states);
    law_restore_resumes_the_air(live.air, states.0, states.1);
    assert(live.air.ticking().ticking() == live.air.ticking());
    assert forall|i: int| 0 < i <= programs.len() implies (#[trigger] live.played(
        programs,
        b,
        i,
    )).finished() by {
        lemma_resumed_plays_the_same(live, resumed, programs, b, i);
        assert(resumed.played(programs, b, i).finished());
    }
    lemma_resumed_plays_the_same(live, resumed, programs, b, count);
    law_link_is_a_function_of_its_inputs(live, programs, a, b, count);
}

/// A capture has each console's state and everything that its seat holds, but
/// for the notes of who waits and who has finished.
pub proof fn law_capture_holds_both_sides(air: AirView, first: Seq<u8>, second: Seq<u8>)
    ensures
        air.captured(first, second).first.console == first,
        air.captured(first, second).second.console == second,
        air.captured(first, second).first.incoming == air.first.incoming,
        air.captured(first, second).second.incoming == air.second.incoming,
        air.captured(first, second).first.replies == air.first.replies,
        air.captured(first, second).second.replies == air.second.replies,
        air.captured(first, second).first.progress == air.first.progress,
        air.captured(first, second).second.progress == air.second.progress,
        air.captured(first, second).first.attached == air.first.attached,
        air.captured(first, second).second.attached == air.second.attached,
{
}

/// The air that resumes from a capture holds what the capture holds, each side
/// at its seat. Nobody waits there, and nobody has finished.
pub proof fn law_resumed_air_holds_the_capture(snapshot: SnapshotView)
    ensures
        snapshot.resumed().first.incoming == snapshot.first.incoming,
        snapshot.resumed().second.incoming == snapshot.second.incoming,
        snapshot.resumed().first.replies == snapshot.first.replies,
        snapshot.resumed().second.replies == snapshot.second.replies,
        snapshot.resumed().first.progress == snapshot.first.progress,
        snapshot.resumed().second.progress == snapshot.second.progress,
        snapshot.resumed().first.attached == snapshot.first.attached,
        snapshot.resumed().second.attached == snapshot.second.attached,
        snapshot.resumed().first.waiting is None && snapshot.resumed().second.waiting is None,
        !snapshot.resumed().first.frame_done && !snapshot.resumed().second.frame_done,
{
}

/// At the start of a video frame nobody has finished it, and everything else on
/// the air is as it was.
pub proof fn law_tick_starts_unfinished(air: AirView, me: int)
    requires
        0 <= me < 2,
    ensures
        !air.ticking().seat(me).frame_done,
        air.ticking().seat(me).incoming == air.seat(me).incoming,
        air.ticking().seat(me).replies == air.seat(me).replies,
        air.ticking().seat(me).progress == air.seat(me).progress,
        air.ticking().seat(me).waiting == air.seat(me).waiting,
        air.ticking().seat(me).attached == air.seat(me).attached,
{
}

} // verus!
