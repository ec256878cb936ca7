//! Why a link does not depend on how its two threads interleave: whatever the
//! order of their visits to the air, two consoles end their video frame with
//! the same air between them and the same results behind them, if every race
//! between them comes together.
//!
//! A race ([`Tick::races`]) is the one thing in which order could count: a
//! receive could give up, since the state proves that the peer sends nothing
//! more in time, and the peer is about to send something in time after all, to
//! take the proof back, or to decide whether a host is gone. A console off the air is silent by its absence, so that it
//! races when it comes on the air under a receive of its peer's with its clock
//! at or before the receive's target. A clock published below one that a
//! receive relies on races too, and so does coming or going under a host packet
//! receive with nothing queued. Everything else can be swapped.
//!
//! A race comes together ([`Tick::comes_together`]) if the link gets to the
//! same point whoever is first. Where races do not, the schedule does matter,
//! and the law fails: [`law_races_have_to_come_together`]. They do for consoles
//! that keep their word ([`law_kept_word_comes_together`]): where the state
//! proves to a receive that a console sends nothing more at or before the
//! receive's target, the console sends nothing stamped there, and it stays
//! proved, or is soon proved again; the console may come on the air and listen
//! meanwhile. Consoles that follow their clocks keep their word
//! ([`law_clocks_keep_word`]).

use vstd::prelude::*;

use crate::air::{law_bound, law_deadlock_is_broken, SeatView};
use crate::frame::FrameView;
use crate::host::{before, Collection, ReceivedView};
use crate::schedule::{
    grew_later, turns, Action, Console, Outcome, Phase, Program, Tick, Turn,
};

verus! {

// The proof looks at a link in which whoever polls is noted as waiting, and at
// moves that each take the link further. There, two moves of different seats
// that do not race can be swapped, and so all orders lead to one end.

/// What one move changes: the seat's own side of the air, its console, and a
/// frame that it sends.
struct Move {
    console: Console,
    progress: u64,
    attached: bool,
    frame_done: bool,
    pops_incoming: bool,
    pops_reply: bool,
    sends: Option<FrameView>,
}

/// A queue without its front, if the front is popped.
spec fn popped(queue: Seq<FrameView>, pops: bool) -> Seq<FrameView> {
    if pops {
        queue.drop_first()
    } else {
        queue
    }
}

/// How many replies a console with this program has sent.
spec fn replies_sent(program: Program, history: Seq<Outcome>) -> nat
    decreases history.len(),
{
    if history.len() == 0 {
        0
    } else {
        let sent = match program(history.drop_last()) {
            Action::Send { frame } => frame is Reply,
            _ => false,
        };
        replies_sent(program, history.drop_last()) + if sent {
            1nat
        } else {
            0nat
        }
    }
}

impl Console {
    /// How far a console has come. The replies that it sends count, so that
    /// taking them off the air takes the link further.
    spec fn distance(self) -> int {
        2 * self.history.len() + replies_sent(self.program, self.history) + if self.phase is Running {
            0int
        } else {
            1int
        }
    }
}

impl Tick {
    /// With every console that polls noted as waiting.
    #[verifier::opaque]
    spec fn noted(self) -> Tick {
        Tick {
            air: self.air.with_waiting(0, self.first.polls()).with_waiting(1, self.second.polls()),
            ..self
        }
    }

    /// What holds of `me` at every point of a run.
    spec fn sound_seat(self, me: int) -> bool {
        let console = self.console(me);
        let seat = self.air.seat(me);
        &&& console.phase is Polling ==> console.polls() is Some
        &&& seat.waiting is Some ==> seat.waiting == console.polls()
        &&& seat.frame_done <==> console.phase is Finished
    }

    /// What holds of every point of a run.
    spec fn sound(self) -> bool {
        self.sound_seat(0) && self.sound_seat(1)
    }

    /// The move that changes nothing but the console.
    spec fn still(self, me: int, console: Console) -> Move {
        Move {
            console,
            progress: self.air.seat(me).progress,
            attached: self.air.seat(me).attached,
            frame_done: self.air.seat(me).frame_done,
            pops_incoming: false,
            pops_reply: false,
            sends: None,
        }
    }

    /// The move of a packet receive.
    spec fn packet_move(self, me: int, now: u64, host: bool) -> Option<Move> {
        let seat = self.air.seat(me);
        if seat.due(false, now) {
            Some(
                Move {
                    progress: seat.consumed().progress,
                    pops_incoming: true,
                    ..self.still(
                        me,
                        self.console(me).advanced(
                            Outcome::Packet(ReceivedView::Frame(seat.incoming[0])),
                        ),
                    )
                },
            )
        } else if self.air.gives_up(me, now) {
            Some(
                self.still(
                    me,
                    self.console(me).advanced(
                        Outcome::Packet(
                            if host && self.host_gone(me) {
                                ReceivedView::HostGone
                            } else {
                                ReceivedView::Nothing
                            },
                        ),
                    ),
                ),
            )
        } else {
            None
        }
    }

    /// The move of a reply receive: one reply, or the end of the round.
    spec fn reply_move(
        self,
        me: int,
        target: u64,
        aidmask: u16,
        mask: u16,
        buffer: Seq<u8>,
    ) -> Option<Move> {
        let console = self.console(me);
        if self.air.seat(me).due(true, target) {
            let round = self.air.collection(me, mask, buffer).take_one(aidmask);
            Some(
                Move {
                    pops_reply: true,
                    ..self.still(
                        me,
                        if round.complete {
                            console.advanced(
                                Outcome::Replies { mask: round.mask, buffer: round.buffer },
                            )
                        } else {
                            console.polling(round.mask, round.buffer)
                        },
                    )
                },
            )
        } else if self.air.gives_up(me, target) {
            Some(self.still(me, console.advanced(Outcome::Replies { mask, buffer })))
        } else {
            None
        }
    }

    /// The next move of `me`, or `None` while it has none.
    #[verifier::opaque]
    spec fn next_move(self, me: int) -> Option<Move> {
        let console = self.console(me);
        let done = self.still(me, console.advanced(Outcome::Done));
        match (console.phase, console.action()) {
            (Phase::Running, Action::Clock { now }) => Some(Move { progress: now, ..done }),
            (Phase::Running, Action::Send { frame }) => Some(Move { sends: Some(frame), ..done }),
            (Phase::Running, Action::Begin) => Some(Move { attached: true, ..done }),
            (Phase::Running, Action::End) => Some(Move { attached: false, ..done }),
            (Phase::Running, Action::RecvPacket { now }) => Some(
                Move {
                    progress: before(now),
                    ..self.still(me, console.polling(0, Seq::empty()))
                },
            ),
            (Phase::Running, Action::RecvHostPacket { now }) => Some(
                Move {
                    progress: before(now),
                    ..self.still(me, console.polling(0, Seq::empty()))
                },
            ),
            (Phase::Running, Action::RecvReplies { now, buffer, .. }) => Some(
                Move { progress: before(now), ..self.still(me, console.polling(0, buffer)) },
            ),
            (Phase::Running, Action::Finish) => Some(
                Move {
                    frame_done: true,
                    ..self.still(me, Console { phase: Phase::Finished, ..console })
                },
            ),
            (Phase::Polling { .. }, Action::RecvPacket { now }) => self.packet_move(
                me,
                now,
                false,
            ),
            (Phase::Polling { .. }, Action::RecvHostPacket { now }) => self.packet_move(
                me,
                now,
                true,
            ),
            (
                Phase::Polling { mask, buffer },
                Action::RecvReplies { target, aidmask, .. },
            ) => self.reply_move(me, target, aidmask, mask, buffer),
            _ => None,
        }
    }

    /// After a move of `me`.
    #[verifier::opaque]
    spec fn moved(self, me: int, m: Move) -> Tick {
        let seat = self.air.seat(me);
        let own = self.air.with_seat(
            me,
            SeatView {
                incoming: popped(seat.incoming, m.pops_incoming),
                replies: popped(seat.replies, m.pops_reply),
                progress: m.progress,
                waiting: m.console.polls(),
                frame_done: m.frame_done,
                attached: m.attached,
            },
        );
        Tick {
            air: match m.sends {
                Some(frame) => own.sent(me, frame),
                None => own,
            },
            ..self.with_console(me, m.console)
        }
    }

    /// After the next move of `me`.
    spec fn after_move(self, me: int) -> Tick {
        self.moved(me, self.next_move(me)->0)
    }

    /// The move of a receive of `me` that gives up with nothing to take.
    spec fn quit_move(self, me: int, gone: bool) -> Move {
        self.still(
            me,
            self.console(me).advanced(
                match (self.console(me).phase, self.console(me).action()) {
                    (Phase::Polling { mask, buffer }, Action::RecvReplies { .. }) => {
                        Outcome::Replies { mask, buffer }
                    },
                    _ => Outcome::Packet(
                        if gone {
                            ReceivedView::HostGone
                        } else {
                            ReceivedView::Nothing
                        },
                    ),
                },
            ),
        )
    }

    /// After a receive of `me` has given up.
    spec fn quit(self, me: int, gone: bool) -> Tick {
        self.moved(me, self.quit_move(me, gone))
    }
}

impl Tick {
    /// An action outside a receive is the same visit and the same move.
    #[verifier::spinoff_prover]
    proof fn lemma_running_visit(self, me: int)
        requires
            self.sound(),
            0 <= me < 2,
            self.console(me).phase is Running,
        ensures
            self.noted().next_move(me) is Some,
            self.visited(me).noted() == self.noted().moved(
                me,
                self.noted().next_move(me)->0,
            ),
    {
        reveal(Tick::noted);
        reveal(Tick::next_move);
        reveal(Tick::moved);
        let m = self.noted().next_move(me)->0;
        let l = self.visited(me).noted();
        let r = self.noted().moved(me, m);
        assert(self.sound_seat(1 - me));
        assert(l.air.first =~= r.air.first);
        assert(l.air.second =~= r.air.second);
    }

    /// A move inside a receive sends nothing, and keeps the seat silent where
    /// it was.
    #[verifier::spinoff_prover]
    proof fn lemma_polling_move(self, me: int, ts: u64)
        requires
            self.sound(),
            0 <= me < 2,
            self.console(me).phase is Polling,
            self.next_move(me) is Some,
        ensures
            self.next_move(me)->0.sends is None,
            self.air.silent(me, ts) ==> self.moved(me, self.next_move(me)->0).air.silent(me, ts),
            self.moved(me, self.next_move(me)->0).air.seat(me).attached == self.air.seat(
                me,
            ).attached,
    {
        reveal(Tick::next_move);
        reveal(Tick::moved);
        let m = self.next_move(me)->0;
        let seat = self.air.seat(me);
        let after = self.moved(me, m).air.seat(me);
        law_bound(seat, ts);
        law_bound(after, ts);
        if seat.bound() > ts {
            if m.pops_incoming {
                assert(seat.incoming[0].ts() > ts);
                assert forall|i: int| 0 <= i < after.incoming.len() implies (
                #[trigger] after.incoming[i]).ts() > ts by {
                    assert(after.incoming[i] == seat.incoming[i + 1]);
                }
            }
            if m.pops_reply {
                assert forall|i: int| 0 <= i < after.replies.len() implies (
                #[trigger] after.replies[i]).ts() > ts by {
                    assert(after.replies[i] == seat.replies[i + 1]);
                }
            }
        }
    }

    /// While the tiebreak falls to `me`, the peer has no move.
    #[verifier::spinoff_prover]
    proof fn lemma_frozen_peer(self, me: int, target: u64, want_reply: bool)
        requires
            self.sound(),
            self == self.noted(),
            0 <= me < 2,
            self.console(me).polls() == Some((target, want_reply)),
            self.air.frozen(me, target),
        ensures
            self.next_move(1 - me) is None,
    {
        reveal(Tick::noted);
        reveal(Tick::next_move);
        let peer = 1 - me;
        assert(self.sound_seat(me) && self.sound_seat(peer));
        assert(self.air.seat(peer).waiting == self.console(peer).polls());
        assert(self.air.seat(me).waiting == self.console(me).polls());
    }

    /// A receive that has nothing to take, and that the state proves nothing
    /// more to, gives up.
    #[verifier::spinoff_prover]
    proof fn lemma_quit_is_the_move(self, me: int, target: u64, want_reply: bool)
        requires
            0 <= me < 2,
            self.console(me).polls() == Some((target, want_reply)),
            !self.air.seat(me).due(want_reply, target),
            self.air.silent(1 - me, target),
        ensures
            self.noted().next_move(me) == Some(
                self.noted().quit_move(me, self.takes_host_for_gone(me)),
            ),
    {
        reveal(Tick::noted);
        reveal(Tick::next_move);
    }

    /// An action of `me` leaves what a receive of the peer's would give up
    /// with, and leaves it with nothing to take unless it sends something
    /// stamped at or before the target.
    #[verifier::spinoff_prover]
    proof fn lemma_action_under_receive(self, me: int, target: u64, want_reply: bool, gone: bool)
        requires
            0 <= me < 2,
            self.console(me).phase is Running,
            self.console(1 - me).polls() == Some((target, want_reply)),
            !self.air.seat(1 - me).due(want_reply, target),
        ensures
            self.visited(me).console(1 - me) == self.console(1 - me),
            self.visited(me).noted().quit_move(1 - me, gone) == self.noted().quit_move(
                1 - me,
                gone,
            ),
            (self.console(me).action() matches Action::Send { frame } ==> frame.ts() > target)
                ==> !self.visited(me).air.seat(1 - me).due(want_reply, target),
    {
        reveal(Tick::noted);
        let peer = 1 - me;
        if let Action::Send { frame } = self.console(me).action() {
            let queue = self.air.seat(peer).queue(want_reply);
            let after = self.visited(me).air.seat(peer).queue(want_reply);
            assert(queue.len() > 0 ==> after[0] == queue[0]);
        }
    }

    /// A receive of the peer's giving up, and a move of `me` that needs no
    /// tiebreak, can be swapped.
    #[verifier::spinoff_prover]
    proof fn lemma_quit_commutes(self, me: int, gone: bool)
        requires
            0 <= me < 2,
            self.goes_on(me),
            self.next_move(me) is Some,
        ensures
            self.quit(1 - me, gone).next_move(me) is Some,
            self.quit(1 - me, gone).after_move(me) == self.after_move(me).moved(
                1 - me,
                self.quit_move(1 - me, gone),
            ),
    {
        reveal(Tick::next_move);
        reveal(Tick::moved);
        let peer = 1 - me;
        let quitted = self.quit(peer, gone);
        assert(quitted.air.seat(me) == self.air.seat(me));
        assert(quitted.air.seat(peer).bound() == self.air.seat(peer).bound());
        assert(quitted.next_move(me) == self.next_move(me));
        let l = quitted.after_move(me);
        let r = self.after_move(me).moved(peer, self.quit_move(peer, gone));
        assert(l.air.first =~= r.air.first);
        assert(l.air.second =~= r.air.second);
    }

    /// A receive that has something to take goes on having it.
    #[verifier::spinoff_prover]
    proof fn lemma_due_persists(self, me: int, target: u64, want_reply: bool)
        requires
            0 <= me < 2,
            self.console(me).polls() == Some((target, want_reply)),
            self.air.seat(me).due(want_reply, target),
            self.next_move(1 - me) is Some,
        ensures
            self.after_move(1 - me).next_move(me) == self.next_move(me),
    {
        reveal(Tick::next_move);
        reveal(Tick::moved);
        let seat = self.air.seat(me);
        let after = self.after_move(1 - me).air.seat(me);
        assert(after.queue(want_reply)[0] == seat.queue(want_reply)[0]);
        assert(after.due(want_reply, target));
    }

    /// A receive that gives up can still do so after a peer that polls has
    /// moved.
    #[verifier::spinoff_prover]
    proof fn lemma_polling_peer_persists(self, me: int, target: u64, want_reply: bool)
        requires
            self.sound(),
            0 <= me < 2,
            self.console(me).polls() == Some((target, want_reply)),
            !self.air.seat(me).due(want_reply, target),
            self.air.silent(1 - me, target),
            self.console(1 - me).phase is Polling,
            self.next_move(1 - me) is Some,
        ensures
            self.after_move(1 - me).next_move(me) == self.next_move(me),
    {
        self.lemma_polling_move(1 - me, target);
        reveal(Tick::next_move);
        reveal(Tick::moved);
        assert(self.after_move(1 - me).air.seat(me) == self.air.seat(me));
    }

    /// A move of the peer leaves the move of `me` what it was, unless the peer
    /// races.
    #[verifier::spinoff_prover]
    proof fn lemma_persists(self, me: int)
        requires
            self.sound(),
            0 <= me < 2,
            self.noted().next_move(me) is Some,
            self.noted().next_move(1 - me) is Some,
            !self.races(1 - me),
        ensures
            self.noted().after_move(1 - me).next_move(me) == self.noted().next_move(me),
    {
        let peer = 1 - me;
        let here = self.noted();
        let next = here.after_move(peer);
        self.lemma_noted_sound();
        self.lemma_noted_twice();
        if self.console(me).phase is Polling {
            assert(self.sound_seat(me) && self.sound_seat(peer));
            let (target, want_reply) = self.console(me).polls()->0;
            self.lemma_noted_consoles(me);
            self.lemma_noted_consoles(peer);
            assert(here.air.seat(me).due(want_reply, target) == self.air.seat(me).due(
                want_reply,
                target,
            )) by {
                reveal(Tick::noted);
            }
            if self.air.seat(me).due(want_reply, target) {
                here.lemma_due_persists(me, target, want_reply);
            } else {
                assert(here.air.gives_up(me, target)) by {
                    reveal(Tick::noted);
                    reveal(Tick::next_move);
                }
                if here.air.frozen(me, target) {
                    here.lemma_frozen_peer(me, target, want_reply);
                }
                assert(here.air.silent(peer, target));
                assert(self.air.silent(peer, target)) by {
                    reveal(Tick::noted);
                }
                if self.console(peer).phase is Running {
                    self.lemma_running_visit(peer);
                    let gone = self.takes_host_for_gone(me);
                    self.lemma_action_under_receive(peer, target, want_reply, gone);
                    self.lemma_quit_is_the_move(me, target, want_reply);
                    self.visited(peer).lemma_quit_is_the_move(me, target, want_reply);
                } else {
                    assert(self.console(peer).phase is Polling) by {
                        reveal(Tick::next_move);
                    }
                    here.lemma_polling_peer_persists(me, target, want_reply);
                }
            }
        } else {
            reveal(Tick::noted);
            reveal(Tick::next_move);
            reveal(Tick::moved);
        }
    }
}

/// Popping the front of a queue and pushing a frame at its back can be
/// swapped.
proof fn lemma_pop_push(queue: Seq<FrameView>, pops: bool, frame: FrameView)
    requires
        pops ==> queue.len() > 0,
    ensures
        popped(queue.push(frame), pops) == popped(queue, pops).push(frame),
{
    assert(popped(queue.push(frame), pops) =~= popped(queue, pops).push(frame));
}

impl Tick {
    /// Two moves of different seats can be swapped.
    #[verifier::spinoff_prover]
    proof fn lemma_moves_commute(self)
        requires
            self.next_move(0) is Some,
            self.next_move(1) is Some,
        ensures
            self.moved(0, self.next_move(0)->0).moved(1, self.next_move(1)->0) == self.moved(
                1,
                self.next_move(1)->0,
            ).moved(0, self.next_move(0)->0),
    {
        reveal(Tick::next_move);
        reveal(Tick::moved);
        let m = self.next_move(0)->0;
        let n = self.next_move(1)->0;
        let l = self.moved(0, m).moved(1, n);
        let r = self.moved(1, n).moved(0, m);
        let first = self.air.first;
        let second = self.air.second;
        assert(m.pops_incoming ==> first.incoming.len() > 0);
        assert(m.pops_reply ==> first.replies.len() > 0);
        assert(n.pops_incoming ==> second.incoming.len() > 0);
        assert(n.pops_reply ==> second.replies.len() > 0);
        if m.sends is Some {
            lemma_pop_push(second.incoming, n.pops_incoming, m.sends->0);
            lemma_pop_push(second.replies, n.pops_reply, m.sends->0);
        }
        if n.sends is Some {
            lemma_pop_push(first.incoming, m.pops_incoming, n.sends->0);
            lemma_pop_push(first.replies, m.pops_reply, n.sends->0);
        }
        assert(l.air.first =~= r.air.first);
        assert(l.air.second =~= r.air.second);
    }

    /// Whether `count` moves lead to `end`.
    spec fn leads(self, end: Tick, count: nat) -> bool
        decreases count,
    {
        if count == 0 {
            self == end
        } else {
            exists|me: int|
                0 <= me < 2 && self.next_move(me) is Some && (#[trigger] self.after_move(me)).leads(
                    end,
                    (count - 1) as nat,
                )
        }
    }

    /// Whether some moves lead to `end`.
    spec fn settles(self, end: Tick) -> bool {
        exists|count: nat| self.leads(end, count)
    }

    /// Whether nobody has a move left.
    spec fn still_stands(self) -> bool {
        self.next_move(0) is None && self.next_move(1) is None
    }

    /// A run goes on from where another ended.
    proof fn lemma_run_concat(self, a: Seq<Turn>, b: Seq<Turn>)
        ensures
            self.run(a + b) == self.run(a).run(b),
        decreases b.len(),
    {
        if b.len() == 0 {
            assert(a + b =~= a);
        } else {
            assert((a + b).drop_last() =~= a + b.drop_last());
            assert((a + b).last() == b.last());
            self.lemma_run_concat(a, b.drop_last());
        }
    }

    /// Two schedules, one after the other, are a schedule.
    proof fn lemma_turns_concat(a: Seq<Turn>, b: Seq<Turn>)
        requires
            turns(a),
            turns(b),
        ensures
            turns(a + b),
    {
    }

    /// Every race goes on coming together.
    proof fn lemma_still_comes_together(self, schedule: Seq<Turn>)
        requires
            self.always_comes_together(),
            turns(schedule),
        ensures
            self.run(schedule).always_comes_together(),
    {
        assert forall|more: Seq<Turn>, me: int|
            turns(more) && 0 <= me < 2 implies #[trigger] self.run(schedule).run(
            more,
        ).comes_together(me) by {
            self.lemma_run_concat(schedule, more);
            Self::lemma_turns_concat(schedule, more);
        }
    }

    /// Whether `next` has the peer's console of `self`, and of the peer's seat
    /// at least its note and its mark.
    spec fn same_peer(self, me: int, next: Tick) -> bool {
        let peer = 1 - me;
        &&& next.console(peer) == self.console(peer)
        &&& next.air.seat(peer).waiting == self.air.seat(peer).waiting
        &&& next.air.seat(peer).frame_done == self.air.seat(peer).frame_done
    }

    /// A visit outside a receive keeps what holds of its seat, and
    /// leaves the peer.
    #[verifier::spinoff_prover]
    proof fn lemma_running_visit_sound(self, me: int)
        requires
            self.sound_seat(me),
            0 <= me < 2,
            self.console(me).phase is Running,
        ensures
            self.visited(me).sound_seat(me),
            self.same_peer(me, self.visited(me)),
    {
    }

    /// A visit inside a packet receive keeps what holds of its seat, and
    /// leaves the peer.
    #[verifier::spinoff_prover]
    proof fn lemma_packet_visit_sound(self, me: int)
        requires
            self.sound_seat(me),
            0 <= me < 2,
            self.console(me).polls() matches Some((target, want_reply)) && !want_reply,
        ensures
            self.visited(me).sound_seat(me),
            self.same_peer(me, self.visited(me)),
    {
    }

    /// A visit inside a reply receive keeps what holds of its seat, and
    /// leaves the peer.
    #[verifier::spinoff_prover]
    proof fn lemma_reply_visit_sound(self, me: int)
        requires
            self.sound_seat(me),
            0 <= me < 2,
            self.console(me).polls() matches Some((target, want_reply)) && want_reply,
        ensures
            self.visited(me).sound_seat(me),
            self.same_peer(me, self.visited(me)),
            self.took_reply(me).sound_seat(me),
            self.same_peer(me, self.took_reply(me)),
    {
    }

    /// A turn keeps what holds of every point of a run.
    #[verifier::spinoff_prover]
    proof fn lemma_turn_sound(self, turn: Turn)
        requires
            self.sound(),
            0 <= turn.seat() < 2,
        ensures
            self.after(turn).sound(),
    {
        let me = turn.seat();
        let next = self.after(turn);
        assert(self.sound_seat(me) && self.sound_seat(1 - me));
        assert(next == self || next.sound_seat(me) && self.same_peer(me, next)) by {
            if self.console(me).phase is Running {
                self.lemma_running_visit_sound(me);
            } else if self.console(me).phase is Polling {
                let (_, want_reply) = self.console(me).polls()->0;
                if want_reply {
                    self.lemma_reply_visit_sound(me);
                } else {
                    self.lemma_packet_visit_sound(me);
                }
            }
        }
    }

    /// A run keeps what holds of every point of it.
    proof fn lemma_run_sound(self, schedule: Seq<Turn>)
        requires
            self.sound(),
            turns(schedule),
        ensures
            self.run(schedule).sound(),
        decreases schedule.len(),
    {
        if schedule.len() > 0 {
            let last = schedule.last();
            assert(schedule[schedule.len() - 1] == last);
            assert forall|i: int| 0 <= i < schedule.drop_last().len() implies 0 <= (
            #[trigger] schedule.drop_last()[i]).seat() < 2 by {
                assert(schedule.drop_last()[i] == schedule[i]);
            }
            self.lemma_run_sound(schedule.drop_last());
            self.run(schedule.drop_last()).lemma_turn_sound(last);
        }
    }

    /// A single reply taken is a move.
    #[verifier::spinoff_prover]
    proof fn lemma_took_reply(self, me: int)
        requires
            self.sound(),
            0 <= me < 2,
            self.console(me).polls() matches Some((target, want_reply)) && want_reply
                && self.air.seat(me).due(true, target),
        ensures
            self.noted().next_move(me) is Some,
            self.took_reply(me).noted() == self.noted().after_move(me),
    {
        reveal(Tick::noted);
        reveal(Tick::next_move);
        reveal(Tick::moved);
        let l = self.took_reply(me).noted();
        let r = self.noted().after_move(me);
        assert(l.air.first =~= r.air.first);
        assert(l.air.second =~= r.air.second);
    }

    /// A poll of a packet receive is a move, or leaves things as they were.
    #[verifier::spinoff_prover]
    proof fn lemma_packet_visit(self, me: int, target: u64)
        requires
            self.sound(),
            0 <= me < 2,
            self.console(me).polls() == Some((target, false)),
        ensures
            self.air.gate_opens(me, target, false) ==> {
                &&& self.noted().next_move(me) is Some
                &&& self.visited(me).noted() == self.noted().after_move(me)
            },
            !self.air.gate_opens(me, target, false) ==> self.visited(me).noted() == self.noted(),
    {
        reveal(Tick::noted);
        reveal(Tick::next_move);
        reveal(Tick::moved);
        assert(self.sound_seat(1 - me));
        let l = self.visited(me).noted();
        if self.air.gate_opens(me, target, false) {
            let r = self.noted().after_move(me);
            if self.air.seat(me).due(false, target) {
                assert(self.noted().next_move(me) is Some);
            } else {
                assert(self.air.gives_up(me, target));
                assert(self.noted().air.gives_up(me, target));
                assert(self.noted().next_move(me) is Some);
            }
            assert(l.air.first =~= r.air.first);
            assert(l.air.second =~= r.air.second);
        } else {
            assert(l.air.first =~= self.noted().air.first);
            assert(l.air.second =~= self.noted().air.second);
        }
    }

    /// A poll of a reply receive that finds nothing due ends the round in one
    /// move, or leaves things as they were.
    #[verifier::spinoff_prover]
    proof fn lemma_quiet_reply_visit(self, me: int, target: u64)
        requires
            self.sound(),
            0 <= me < 2,
            self.console(me).polls() == Some((target, true)),
            !self.air.seat(me).due(true, target),
        ensures
            self.air.gives_up(me, target) ==> {
                &&& self.noted().next_move(me) is Some
                &&& self.visited(me).noted() == self.noted().after_move(me)
            },
            !self.air.gives_up(me, target) ==> self.visited(me).noted() == self.noted(),
    {
        reveal(Tick::noted);
        reveal(Tick::next_move);
        reveal(Tick::moved);
        assert(self.sound_seat(1 - me));
        let l = self.visited(me).noted();
        if self.air.gives_up(me, target) {
            let r = self.noted().after_move(me);
            assert(self.noted().air.gives_up(me, target));
            assert(self.noted().next_move(me) is Some);
            let quiet = self.air.with_seat(
                me,
                SeatView {
                    replies: self.air.seat(me).replies,
                    waiting: None,
                    ..self.air.seat(me)
                },
            );
            assert(quiet.gives_up(me, target));
            assert(l.air.first =~= r.air.first);
            assert(l.air.second =~= r.air.second);
        } else {
            assert(l.air.first =~= self.noted().air.first);
            assert(l.air.second =~= self.noted().air.second);
        }
    }

    /// A deadlock is broken by two turns: the peer looks, and so is noted as
    /// waiting, and then `me` looks.
    #[verifier::spinoff_prover]
    proof fn lemma_frozen_turns(self, me: int, target: u64, want_reply: bool)
        requires
            self.sound(),
            0 <= me < 2,
            self.console(me).polls() == Some((target, want_reply)),
            !self.air.seat(me).due(want_reply, target),
            self.noted().air.frozen(me, target),
        ensures
            self.visited(1 - me).visited(me).noted() == self.noted().after_move(me),
    {
        reveal(Tick::noted);
        reveal(Tick::next_move);
        let peer = 1 - me;
        let mid = self.visited(peer);
        self.lemma_noted_sound();
        assert(self.noted().noted() == self.noted()) by {
            assert(self.noted().noted().air.first =~= self.noted().air.first);
            assert(self.noted().noted().air.second =~= self.noted().air.second);
        }
        self.noted().lemma_frozen_peer(me, target, want_reply);
        let (peer_target, peer_reply) = self.console(peer).polls()->0;
        if peer_reply {
            self.lemma_quiet_reply_visit(peer, peer_target);
        } else {
            self.lemma_packet_visit(peer, peer_target);
        }
        assert(mid.noted() == self.noted());
        self.lemma_turn_sound(Turn::Visit(peer));
        assert(mid.air.frozen(me, target));
        assert(mid.console(me) == self.console(me));
        if want_reply {
            mid.lemma_quiet_reply_visit(me, target);
        } else {
            mid.lemma_packet_visit(me, target);
        }
    }

    /// A schedule of one turn, and one of two.
    proof fn lemma_run_short(self, turn: Turn, then: Turn)
        ensures
            self.run(seq![turn]) == self.after(turn),
            self.run(seq![turn, then]) == self.after(turn).after(then),
    {
        assert(seq![turn].drop_last() =~= Seq::empty());
        assert(seq![turn, then].drop_last() =~= seq![turn]);
        assert(self.run(Seq::empty()) == self);
        assert(self.run(seq![turn]) == self.run(Seq::empty()).after(turn));
        assert(self.run(seq![turn, then]) == self.run(seq![turn]).after(then));
    }

    /// Every move can be made by turns.
    #[verifier::spinoff_prover]
    proof fn lemma_realised(self, me: int) -> (schedule: Seq<Turn>)
        requires
            self.sound(),
            0 <= me < 2,
            self.noted().next_move(me) is Some,
        ensures
            turns(schedule),
            self.run(schedule).noted() == self.noted().after_move(me),
    {
        let visit = Turn::Visit(me);
        assert(self.sound_seat(me));
        if self.console(me).phase is Running {
            self.lemma_running_visit(me);
            self.lemma_run_short(visit, visit);
            seq![visit]
        } else {
            assert(self.console(me).phase is Polling) by {
                reveal(Tick::noted);
                reveal(Tick::next_move);
            }
            let (target, want_reply) = self.console(me).polls()->0;
            if want_reply && self.air.seat(me).due(true, target) {
                let take = Turn::TakeReply(me);
                self.lemma_took_reply(me);
                self.lemma_run_short(take, take);
                seq![take]
            } else if self.air.gate_opens(me, target, want_reply) {
                if want_reply {
                    self.lemma_quiet_reply_visit(me, target);
                } else {
                    self.lemma_packet_visit(me, target);
                }
                self.lemma_run_short(visit, visit);
                seq![visit]
            } else {
                self.lemma_only_frozen(me, target, want_reply);
                self.lemma_frozen_turns(me, target, want_reply);
                self.lemma_run_short(Turn::Visit(1 - me), visit);
                seq![Turn::Visit(1 - me), visit]
            }
        }
    }

    /// A receive that has a move though it has to wait has it from the
    /// tiebreak, once the peer is noted as waiting.
    proof fn lemma_only_frozen(self, me: int, target: u64, want_reply: bool)
        requires
            self.sound(),
            0 <= me < 2,
            self.console(me).polls() == Some((target, want_reply)),
            self.noted().next_move(me) is Some,
            !self.air.gate_opens(me, target, want_reply),
        ensures
            self.noted().air.frozen(me, target),
    {
        reveal(Tick::noted);
        reveal(Tick::next_move);
        assert(self.noted().air.silent(1 - me, target) == self.air.silent(1 - me, target));
    }

    /// Noting who waits keeps what holds of every point of a run.
    proof fn lemma_noted_sound(self)
        requires
            self.sound(),
        ensures
            self.noted().sound(),
    {
        reveal(Tick::noted);
    }

    /// Noting who waits twice notes nothing new.
    proof fn lemma_noted_twice(self)
        ensures
            self.noted().noted() == self.noted(),
    {
        reveal(Tick::noted);
        assert(self.noted().noted().air.first =~= self.noted().air.first);
        assert(self.noted().noted().air.second =~= self.noted().air.second);
    }

    /// Noting who waits leaves the consoles as they are.
    proof fn lemma_noted_consoles(self, me: int)
        ensures
            self.noted().console(me) == self.console(me),
    {
        reveal(Tick::noted);
    }

    /// Two points that differ in who is noted as waiting, and in nothing else,
    /// are noted alike, and the other way round.
    proof fn lemma_noted_alike(self, other: Tick)
        ensures
            self.noted() == other.noted() <==> self.unnoted() == other.unnoted(),
    {
        reveal(Tick::noted);
        if self.noted() == other.noted() {
            assert(self.unnoted().air.first =~= self.noted().unnoted().air.first);
            assert(self.unnoted().air.second =~= self.noted().unnoted().air.second);
            assert(other.unnoted().air.first =~= other.noted().unnoted().air.first);
            assert(other.unnoted().air.second =~= other.noted().unnoted().air.second);
        }
        if self.unnoted() == other.unnoted() {
            assert(self.noted().air.first =~= self.unnoted().noted().air.first);
            assert(self.noted().air.second =~= self.unnoted().noted().air.second);
            assert(other.noted().air.first =~= other.unnoted().noted().air.first);
            assert(other.noted().air.second =~= other.unnoted().noted().air.second);
        }
    }

    /// Where both seats have a move, and neither races, either order leads to
    /// the same place.
    proof fn lemma_diamond(self, me: int)
        requires
            self.sound(),
            0 <= me < 2,
            self.noted().next_move(me) is Some,
            self.noted().next_move(1 - me) is Some,
            !self.races(me),
            !self.races(1 - me),
        ensures
            self.noted().after_move(me).next_move(1 - me) is Some,
            self.noted().after_move(1 - me).next_move(me) is Some,
            self.noted().after_move(me).after_move(1 - me) == self.noted().after_move(
                1 - me,
            ).after_move(me),
    {
        self.lemma_persists(me);
        self.lemma_persists(1 - me);
        self.noted().lemma_moves_commute();
    }

    /// A visit of a receive that has nothing to take, and that the state proves
    /// nothing more to, is its giving up.
    proof fn lemma_quit_visit(self, me: int, target: u64, want_reply: bool)
        requires
            self.sound(),
            0 <= me < 2,
            self.console(me).polls() == Some((target, want_reply)),
            !self.air.seat(me).due(want_reply, target),
            self.air.silent(1 - me, target),
        ensures
            self.noted().next_move(me) is Some,
            self.visited(me).noted() == self.noted().after_move(me),
            self.visited(me).noted() == self.noted().quit(me, self.takes_host_for_gone(me)),
    {
        self.lemma_quit_is_the_move(me, target, want_reply);
        if want_reply {
            self.lemma_quiet_reply_visit(me, target);
        } else {
            self.lemma_packet_visit(me, target);
        }
    }

    /// The two sides of a race are each a move.
    proof fn lemma_race_moves(self, me: int)
        requires
            self.sound(),
            0 <= me < 2,
            self.races(me),
        ensures
            self.visited(me).noted() == self.noted().after_move(me),
            self.visited(1 - me).noted() == self.noted().after_move(1 - me),
    {
        let (target, want_reply) = self.console(1 - me).polls()->0;
        self.lemma_running_visit(me);
        self.lemma_quit_visit(1 - me, target, want_reply);
    }

    /// What goes on holding after a turn.
    proof fn lemma_turn_goes_on(self, turn: Turn)
        requires
            self.sound(),
            self.always_comes_together(),
            0 <= turn.seat() < 2,
        ensures
            self.after(turn).sound(),
            self.after(turn).always_comes_together(),
    {
        self.lemma_turn_sound(turn);
        self.lemma_run_short(turn, turn);
        self.lemma_still_comes_together(seq![turn]);
    }

    /// Moves after moves.
    proof fn lemma_leads_on(self, mid: Tick, count: nat, end: Tick, more: nat)
        requires
            self.leads(mid, count),
            mid.leads(end, more),
        ensures
            self.leads(end, count + more),
        decreases count,
    {
        if count > 0 {
            let fewer = (count - 1) as nat;
            let me = choose|me: int|
                0 <= me < 2 && self.next_move(me) is Some && (#[trigger] self.after_move(me)).leads(
                    mid,
                    fewer,
                );
            self.after_move(me).lemma_leads_on(mid, fewer, end, more);
            assert(self.after_move(me).leads(end, (count + more - 1) as nat));
        }
    }

    /// One move.
    proof fn lemma_leads_one(self, me: int)
        requires
            0 <= me < 2,
            self.next_move(me) is Some,
        ensures
            self.leads(self.after_move(me), 1),
    {
        assert(self.after_move(me).leads(self.after_move(me), 0));
    }

    /// How far a link has come: every move takes it further.
    spec fn distance(self) -> int {
        self.first.distance() + self.second.distance() - self.air.first.replies.len()
            - self.air.second.replies.len()
    }

    /// Every move takes a link further.
    #[verifier::spinoff_prover]
    proof fn lemma_move_distance(self, me: int)
        requires
            0 <= me < 2,
            self.next_move(me) is Some,
        ensures
            self.after_move(me).distance() > self.distance(),
    {
        reveal(Tick::next_move);
        reveal(Tick::moved);
        let console = self.console(me);
        let m = self.next_move(me)->0;
        if m.console.history.len() > console.history.len() {
            assert(m.console.history.drop_last() =~= console.history);
        }
    }

    /// Moves take a link further.
    proof fn lemma_leads_distance(self, end: Tick, count: nat)
        requires
            self.leads(end, count),
        ensures
            self.distance() <= end.distance(),
        decreases count,
    {
        if count > 0 {
            let fewer = (count - 1) as nat;
            let me = choose|me: int|
                0 <= me < 2 && self.next_move(me) is Some && (#[trigger] self.after_move(me)).leads(
                    end,
                    fewer,
                );
            self.lemma_move_distance(me);
            self.after_move(me).lemma_leads_distance(end, fewer);
        }
    }

    /// Where moves lead to a point where nobody has one left, they still do
    /// after any other move. `room` is what the link has left to go.
    #[verifier::spinoff_prover]
    proof fn lemma_any_move_first(self, me: int, end: Tick, room: nat)
        requires
            self.sound(),
            self.always_comes_together(),
            0 <= me < 2,
            self.noted().next_move(me) is Some,
            self.noted().settles(end),
            end.still_stands(),
            end.distance() - self.noted().distance() <= room,
        ensures
            self.noted().after_move(me).settles(end),
        decreases room, 0nat,
    {
        let here = self.noted();
        let count = choose|count: nat| here.leads(end, count);
        assert(count > 0);
        let fewer = (count - 1) as nat;
        let k = choose|k: int|
            0 <= k < 2 && here.next_move(k) is Some && (#[trigger] here.after_move(k)).leads(
                end,
                fewer,
            );
        assert(here.after_move(k).settles(end));
        here.lemma_move_distance(k);
        here.after_move(k).lemma_leads_distance(end, fewer);
        let less = (room - 1) as nat;
        if k != me {
            assert(k == 1 - me);
            if self.races(me) || self.races(k) {
                self.lemma_race_comes_together(me, k, end, less);
            } else {
                let schedule = self.lemma_realised(k);
                let next = self.run(schedule);
                self.lemma_run_sound(schedule);
                self.lemma_still_comes_together(schedule);
                self.lemma_diamond(me);
                next.lemma_any_move_first(me, end, less);
                let rest = choose|rest: nat|
                    here.after_move(k).after_move(me).leads(end, rest);
                assert(here.after_move(me).after_move(k).leads(end, rest));
                assert(here.after_move(me).leads(end, rest + 1));
            }
        }
    }

    /// The same, where the move of `me` and the one of `k` that leads to the
    /// end race.
    proof fn lemma_race_comes_together(self, me: int, k: int, end: Tick, room: nat)
        requires
            self.sound(),
            self.always_comes_together(),
            0 <= me < 2,
            k == 1 - me,
            self.races(me) || self.races(k),
            self.noted().after_move(k).settles(end),
            end.still_stands(),
            end.distance() - self.noted().after_move(k).distance() <= room,
        ensures
            self.noted().after_move(me).settles(end),
        decreases room, 2nat,
    {
        let racer = if self.races(me) {
            me
        } else {
            k
        };
        assert(turns(Seq::<Turn>::empty()));
        assert(self.run(Seq::empty()) == self);
        assert(self.run(Seq::empty()).comes_together(racer));
        self.lemma_race_moves(racer);
        let theirs = self.visited(k);
        let ours = self.visited(me);
        let peer_first = self.visited(1 - racer);
        let racer_first = self.visited(racer);
        let (a, b) = choose|a: Seq<Turn>, b: Seq<Turn>| peer_first.meet(a, racer_first, b);
        let (to, from) = if racer == me {
            (a, b)
        } else {
            (b, a)
        };
        assert(theirs.run(to).unnoted() == ours.run(from).unnoted());
        theirs.run(to).lemma_noted_alike(ours.run(from));
        self.lemma_turn_goes_on(Turn::Visit(k));
        self.lemma_turn_sound(Turn::Visit(me));
        let there = theirs.lemma_run_leads(to);
        theirs.lemma_moves_settle(theirs.run(to).noted(), there, end, room);
        let back = ours.lemma_run_leads(from);
        let rest = choose|rest: nat| theirs.run(to).noted().leads(end, rest);
        ours.noted().lemma_leads_on(ours.run(from).noted(), back, end, rest);
    }

    /// Moves do not change where a link ends.
    proof fn lemma_moves_settle(self, next: Tick, count: nat, end: Tick, room: nat)
        requires
            self.sound(),
            self.always_comes_together(),
            self.noted().leads(next, count),
            self.noted().settles(end),
            end.still_stands(),
            end.distance() - self.noted().distance() <= room,
        ensures
            next.settles(end),
        decreases room, 1nat,
    {
        if count > 0 {
            let here = self.noted();
            let fewer = (count - 1) as nat;
            let me = choose|me: int|
                0 <= me < 2 && here.next_move(me) is Some && (#[trigger] here.after_move(me)).leads(
                    next,
                    fewer,
                );
            self.lemma_any_move_first(me, end, room);
            let schedule = self.lemma_realised(me);
            self.lemma_run_sound(schedule);
            self.lemma_still_comes_together(schedule);
            here.lemma_move_distance(me);
            let rest = choose|rest: nat| here.after_move(me).leads(end, rest);
            here.after_move(me).lemma_leads_distance(end, rest);
            self.run(schedule).lemma_moves_settle(next, fewer, end, (room - 1) as nat);
        }
    }

    /// Taking one due reply and polling again is the same as polling.
    #[verifier::spinoff_prover]
    proof fn lemma_reply_by_reply(self, me: int, target: u64)
        requires
            0 <= me < 2,
            self.console(me).polls() == Some((target, true)),
            self.air.seat(me).due(true, target),
        ensures
            self.took_reply(me).console(me).phase is Running ==> self.visited(me)
                == self.took_reply(me),
            self.took_reply(me).console(me).phase is Polling ==> {
                &&& self.visited(me) == self.took_reply(me).visited(me)
                &&& self.took_reply(me).console(me).polls() == Some((target, true))
                &&& self.took_reply(me).air.seat(me).replies.len() < self.air.seat(
                    me,
                ).replies.len()
            },
    {
        let console = self.console(me);
        let mask = console.phase->mask;
        let buffer = console.phase->buffer;
        let aidmask = console.action()->aidmask;
        let before = self.air.collection(me, mask, buffer);
        let one = before.take_one(aidmask);
        let took = self.took_reply(me);
        assert(before.goes_on(target));
        assert(before.taken(target, aidmask) == one.taken(target, aidmask));
        if one.complete {
            assert(one.taken(target, aidmask) == one);
            assert(self.visited(me).air.first =~= took.air.first);
            assert(self.visited(me).air.second =~= took.air.second);
        } else {
            assert(took.air.collection(me, one.mask, one.buffer) =~= one);
            let l = self.visited(me);
            let r = took.visited(me);
            if !took.air.gate_opens(me, target, true) {
                assert(one.taken(target, aidmask) == one);
            }
            assert(l.air.first =~= r.air.first);
            assert(l.air.second =~= r.air.second);
        }
    }

    /// A poll of a reply receive is some moves.
    proof fn lemma_reply_visit_leads(self, me: int, target: u64) -> (count: nat)
        requires
            self.sound(),
            0 <= me < 2,
            self.console(me).polls() == Some((target, true)),
        ensures
            self.noted().leads(self.visited(me).noted(), count),
        decreases self.air.seat(me).replies.len(),
    {
        if self.air.seat(me).due(true, target) {
            let took = self.took_reply(me);
            self.lemma_reply_by_reply(me, target);
            self.lemma_took_reply(me);
            self.noted().lemma_leads_one(me);
            self.lemma_turn_sound(Turn::TakeReply(me));
            if took.console(me).phase is Polling {
                let more = took.lemma_reply_visit_leads(me, target);
                self.noted().lemma_leads_on(took.noted(), 1, self.visited(me).noted(), more);
                1 + more
            } else {
                1
            }
        } else {
            self.lemma_quiet_reply_visit(me, target);
            if self.air.gives_up(me, target) {
                self.noted().lemma_leads_one(me);
                1
            } else {
                0
            }
        }
    }

    /// A turn is some moves.
    proof fn lemma_turn_leads(self, turn: Turn) -> (count: nat)
        requires
            self.sound(),
            0 <= turn.seat() < 2,
        ensures
            self.noted().leads(self.after(turn).noted(), count),
    {
        let me = turn.seat();
        let console = self.console(me);
        assert(self.sound_seat(me));
        if console.phase is Polling {
            let (target, want_reply) = console.polls()->0;
            if turn is TakeReply {
                if want_reply && self.air.seat(me).due(true, target) {
                    self.lemma_took_reply(me);
                    self.noted().lemma_leads_one(me);
                    1
                } else {
                    assert(self.after(turn) == self);
                    0
                }
            } else if want_reply {
                self.lemma_reply_visit_leads(me, target)
            } else {
                self.lemma_packet_visit(me, target);
                if self.air.gate_opens(me, target, false) {
                    self.noted().lemma_leads_one(me);
                    1
                } else {
                    0
                }
            }
        } else if console.phase is Running && turn is Visit {
            self.lemma_running_visit(me);
            self.noted().lemma_leads_one(me);
            1
        } else {
            assert(self.after(turn) == self);
            0
        }
    }

    /// A run is some moves.
    proof fn lemma_run_leads(self, schedule: Seq<Turn>) -> (count: nat)
        requires
            self.sound(),
            turns(schedule),
        ensures
            self.noted().leads(self.run(schedule).noted(), count),
        decreases schedule.len(),
    {
        if schedule.len() > 0 {
            let earlier = schedule.drop_last();
            let last = schedule.last();
            assert(schedule[schedule.len() - 1] == last);
            assert forall|i: int| 0 <= i < earlier.len() implies 0 <= (
            #[trigger] earlier[i]).seat() < 2 by {
                assert(earlier[i] == schedule[i]);
            }
            let count = self.lemma_run_leads(earlier);
            self.lemma_run_sound(earlier);
            let mid = self.run(earlier);
            let more = mid.lemma_turn_leads(last);
            self.noted().lemma_leads_on(mid.noted(), count, mid.after(last).noted(), more);
            count + more
        } else {
            0
        }
    }

    /// Where both consoles have finished, nobody waits and nobody has a move.
    proof fn lemma_finished(self)
        requires
            self.sound(),
            self.finished(),
        ensures
            self.noted() == self,
            self.still_stands(),
    {
        reveal(Tick::noted);
        reveal(Tick::next_move);
        assert(self.noted().air.first =~= self.air.first);
        assert(self.noted().air.second =~= self.air.second);
    }
}

/// A link does not depend on how its consoles' turns interleave: from the
/// start of a video frame, any two schedules that finish it end with the same
/// air, and with the same results behind both consoles. What is asked is that
/// every race comes together.
pub proof fn law_schedule_does_not_matter(start: Tick, a: Seq<Turn>, b: Seq<Turn>)
    requires
        start.starting(),
        start.always_comes_together(),
        turns(a),
        turns(b),
        start.run(a).finished(),
        start.run(b).finished(),
    ensures
        start.run(a) == start.run(b),
{
    assert(start.console(0).phase is Running);
    assert(start.console(1).phase is Running);
    let end = start.run(a);
    let other = start.run(b);
    start.lemma_run_sound(a);
    start.lemma_run_sound(b);
    end.lemma_finished();
    other.lemma_finished();
    let count = start.lemma_run_leads(a);
    let others = start.lemma_run_leads(b);
    start.noted().lemma_leads_distance(end, count);
    let room = (end.distance() - start.noted().distance()) as nat;
    start.lemma_moves_settle(other, others, end, room);
    let rest = choose|rest: nat| other.leads(end, rest);
    assert(other.leads(end, rest));
}

/// Nothing less will do: where any two schedules that finish a video frame end
/// alike, every race comes together that can be played out whoever is first.
pub proof fn law_races_have_to_come_together(
    start: Tick,
    schedule: Seq<Turn>,
    me: int,
    a: Seq<Turn>,
    b: Seq<Turn>,
)
    requires
        forall|x: Seq<Turn>, y: Seq<Turn>|
            turns(x) && turns(y) && (#[trigger] start.run(x)).finished() && (#[trigger] start.run(
                y,
            )).finished() ==> start.run(x) == start.run(y),
        turns(schedule),
        0 <= me < 2,
        turns(a),
        turns(b),
        start.run(schedule).visited(1 - me).run(a).finished(),
        start.run(schedule).visited(me).run(b).finished(),
    ensures
        start.run(schedule).comes_together(me),
{
    let here = start.run(schedule);
    let peer_first = seq![Turn::Visit(1 - me)];
    let me_first = seq![Turn::Visit(me)];
    here.lemma_run_short(Turn::Visit(1 - me), Turn::Visit(me));
    here.lemma_run_short(Turn::Visit(me), Turn::Visit(me));
    here.lemma_run_concat(peer_first, a);
    here.lemma_run_concat(me_first, b);
    start.lemma_run_concat(schedule, peer_first + a);
    start.lemma_run_concat(schedule, me_first + b);
    Tick::lemma_turns_concat(peer_first, a);
    Tick::lemma_turns_concat(me_first, b);
    Tick::lemma_turns_concat(schedule, peer_first + a);
    Tick::lemma_turns_concat(schedule, me_first + b);
    assert(start.run(schedule + (peer_first + a)) == start.run(schedule + (me_first + b)));
    assert(here.visited(1 - me).meet(a, here.visited(me), b));
}

impl Tick {
    /// A move changes more than who is noted as waiting.
    proof fn lemma_move_changes(self, me: int)
        requires
            0 <= me < 2,
            self.next_move(me) is Some,
        ensures
            self.after_move(me) != self,
    {
        reveal(Tick::next_move);
        reveal(Tick::moved);
        let next = self.after_move(me);
        let m = self.next_move(me)->0;
        if m.pops_reply {
            assert(next.air.seat(me).replies.len() != self.air.seat(me).replies.len());
        } else {
            assert(next.console(me).phase != self.console(me).phase
                || next.console(me).history.len() != self.console(me).history.len());
        }
    }

    /// Until both consoles have finished, one of them has a move.
    #[verifier::spinoff_prover]
    proof fn lemma_somebody_moves(self) -> (me: int)
        requires
            self.sound(),
            self == self.noted(),
            !self.finished(),
        ensures
            0 <= me < 2,
            self.next_move(me) is Some,
    {
        reveal(Tick::noted);
        reveal(Tick::next_move);
        assert(self.sound_seat(0) && self.sound_seat(1));
        if self.first.phase is Running {
            0
        } else if self.second.phase is Running {
            1
        } else if self.first.phase is Finished {
            assert(self.air.silent(0, (self.second.polls()->0).0));
            1
        } else if self.second.phase is Finished {
            assert(self.air.silent(1, (self.first.polls()->0).0));
            0
        } else {
            let (target, want_reply) = self.first.polls()->0;
            let (peer_target, peer_reply) = self.second.polls()->0;
            law_deadlock_is_broken(self.air, target, want_reply, peer_target, peer_reply);
            if self.air.gate_opens(0, target, want_reply) {
                0
            } else {
                1
            }
        }
    }
}

/// Two consoles never wedge each other: at any point of any schedule, until
/// both have finished, there are turns that get the link on.
#[verifier::spinoff_prover]
pub proof fn law_link_never_wedges(start: Tick, schedule: Seq<Turn>) -> (more: Seq<Turn>)
    requires
        start.starting(),
        turns(schedule),
        !start.run(schedule).finished(),
    ensures
        turns(more),
        start.run(schedule).run(more).unnoted() != start.run(schedule).unnoted(),
{
    assert(start.console(0).phase is Running);
    assert(start.console(1).phase is Running);
    let here = start.run(schedule);
    start.lemma_run_sound(schedule);
    here.lemma_noted_sound();
    here.lemma_noted_twice();
    assert(!here.noted().finished()) by {
        reveal(Tick::noted);
    }
    let me = here.noted().lemma_somebody_moves();
    let more = here.lemma_realised(me);
    here.noted().lemma_move_changes(me);
    let next = here.run(more);
    assert(next.noted() != here.noted());
    next.lemma_noted_alike(here);
    more
}

/// A round takes replies from the front of the queue.
proof fn lemma_taken_from_front(round: Collection, target: u64, aidmask: u16) -> (count: int)
    ensures
        0 <= count <= round.queue.len(),
        round.taken(target, aidmask).queue == round.queue.skip(count),
    decreases round.queue.len(),
{
    if round.goes_on(target) {
        let count = lemma_taken_from_front(round.take_one(aidmask), target, aidmask);
        assert(round.queue.drop_first().skip(count) =~= round.queue.skip(count + 1));
        count + 1
    } else {
        assert(round.queue.skip(0) =~= round.queue);
        0
    }
}

impl Tick {
    /// A turn inside a receive touches nothing of the peer's, and keeps the
    /// seat silent where it was.
    #[verifier::spinoff_prover]
    proof fn lemma_polling_turn(self, turn: Turn, ts: u64)
        requires
            0 <= turn.seat() < 2,
            !(self.console(turn.seat()).phase is Running),
        ensures
            self.after(turn).air.seat(1 - turn.seat()) == self.air.seat(1 - turn.seat()),
            self.air.silent(turn.seat(), ts) ==> self.after(turn).air.silent(turn.seat(), ts),
    {
        let me = turn.seat();
        let seat = self.air.seat(me);
        let after = self.after(turn).air.seat(me);
        law_bound(seat, ts);
        law_bound(after, ts);
        if seat.bound() > ts {
            if let (Phase::Polling { mask, buffer }, Action::RecvReplies { target, aidmask, .. }) =
                (self.console(me).phase, self.console(me).action()) {
                let count = lemma_taken_from_front(
                    self.air.collection(me, mask, buffer),
                    target,
                    aidmask,
                );
                assert forall|i: int| 0 <= i < after.replies.len() implies (
                #[trigger] after.replies[i]).ts() > ts by {
                    if after.replies == seat.replies.skip(count) {
                        assert(after.replies[i] == seat.replies[i + count]);
                    } else if after.replies == seat.replies.drop_first() {
                        assert(after.replies[i] == seat.replies[i + 1]);
                    }
                }
            } else {
                if after.incoming != seat.incoming {
                    assert(seat.incoming[0].ts() > ts);
                    assert(after.incoming == seat.incoming.drop_first());
                    assert forall|i: int| 0 <= i < after.incoming.len() implies (
                    #[trigger] after.incoming[i]).ts() > ts by {
                        assert(after.incoming[i] == seat.incoming[i + 1]);
                    }
                }
            }
        }
    }
}

/// A queue that grew twice has grown.
proof fn lemma_grew_twice(
    first: Seq<FrameView>,
    second: Seq<FrameView>,
    third: Seq<FrameView>,
    target: u64,
)
    requires
        grew_later(first, second, target),
        grew_later(second, third, target),
    ensures
        grew_later(first, third, target),
{
    let len = first.len() as int;
    assert(third.take(len) =~= third.take(second.len() as int).take(len));
    assert forall|i: int| first.len() <= i < third.len() implies (#[trigger] third[i]).ts()
        > target by {
        if i < second.len() {
            assert(third.take(second.len() as int)[i] == second[i]);
        }
    }
}

impl Tick {
    /// Whether a seat has grown, and only by frames stamped later than
    /// `target`.
    spec fn seat_grew(self, me: int, next: Tick, target: u64) -> bool {
        &&& grew_later(self.air.seat(me).incoming, next.air.seat(me).incoming, target)
        &&& grew_later(self.air.seat(me).replies, next.air.seat(me).replies, target)
    }

    /// A seat has grown by nothing.
    proof fn lemma_seat_same(self, me: int, next: Tick, target: u64)
        requires
            next.air.seat(me).incoming == self.air.seat(me).incoming,
            next.air.seat(me).replies == self.air.seat(me).replies,
        ensures
            self.seat_grew(me, next, target),
    {
        let seat = self.air.seat(me);
        assert(seat.incoming.take(seat.incoming.len() as int) =~= seat.incoming);
        assert(seat.replies.take(seat.replies.len() as int) =~= seat.replies);
    }

    /// An action of `me` that sends nothing stamped at or before `target` lets
    /// the peer's seat grow by later frames only.
    #[verifier::spinoff_prover]
    proof fn lemma_quiet_action_grows(self, me: int, target: u64)
        requires
            0 <= me < 2,
            self.console(me).phase is Running,
            self.console(me).action() matches Action::Send { frame } ==> frame.ts() > target,
        ensures
            self.seat_grew(1 - me, self.visited(me), target),
    {
        let before = self.air.seat(1 - me);
        let after = self.visited(me).air.seat(1 - me);
        if let Action::Send { frame } = self.console(me).action() {
            assert(after.incoming.take(before.incoming.len() as int) =~= before.incoming);
            assert(after.replies.take(before.replies.len() as int) =~= before.replies);
        } else {
            assert(after == before);
            self.lemma_seat_same(1 - me, self.visited(me), target);
        }
    }

    /// A quiet console that polls for replies is quiet after a visit, which
    /// takes all that are due at once.
    proof fn lemma_quiet_reply_poll(self, me: int, mine: u64, target: u64, gone: bool, more: nat)
        requires
            0 <= me < 2,
            self.console(me).polls() == Some((mine, true)),
            self.stays_quiet(me, target, gone, more),
        ensures
            self.visited(me).quiet(me, target),
        decreases self.air.seat(me).replies.len(),
    {
        if self.air.seat(me).due(true, mine) {
            let took = self.took_reply(me);
            let fewer = (more - 1) as nat;
            assert(took == self.after(self.least_turn(me)));
            self.lemma_reply_by_reply(me, mine);
            if took.air.silent(me, target) {
                took.lemma_silent_visit(me, target);
            } else {
                assert(took.stays_quiet(me, target, gone, fewer));
                if took.console(me).phase is Polling {
                    took.lemma_quiet_reply_poll(me, mine, target, gone, fewer);
                }
            }
        } else {
            let next = self.after(self.least_turn(me));
            assert(next == self.visited(me));
            if !next.air.silent(me, target) {
                assert(next.stays_quiet(me, target, gone, (more - 1) as nat));
            }
        }
    }

    /// A visit of a silent console that is in a receive leaves it silent.
    proof fn lemma_silent_visit(self, me: int, target: u64)
        requires
            0 <= me < 2,
            self.air.silent(me, target),
        ensures
            !(self.console(me).phase is Running) ==> self.visited(me).air.silent(me, target),
    {
        if !(self.console(me).phase is Running) {
            self.lemma_polling_turn(Turn::Visit(me), target);
        }
    }

    /// A turn of a peer that is quiet, but not silent yet, leaves it quiet.
    #[verifier::spinoff_prover]
    proof fn lemma_dipping_turn(self, turn: Turn, target: u64, gone: bool, more: nat)
        requires
            0 <= turn.seat() < 2,
            self.stays_quiet(turn.seat(), target, gone, more),
        ensures
            self.after(turn).quiet(turn.seat(), target),
    {
        let me = turn.seat();
        let next = self.after(turn);
        if next == self {
        } else if turn == self.least_turn(me) {
            if !next.air.silent(me, target) {
                assert(next.stays_quiet(me, target, gone, (more - 1) as nat));
            }
        } else {
            let (mine, _) = self.console(me).polls()->0;
            self.lemma_quiet_reply_poll(me, mine, target, gone, more);
        }
    }

    /// A turn of a quiet peer leaves a receive of `me` with nothing to take,
    /// and the peer quiet.
    #[verifier::spinoff_prover]
    proof fn lemma_quiet_turn(self, turn: Turn, me: int, target: u64, want_reply: bool)
        requires
            0 <= me < 2,
            turn.seat() == 1 - me,
            self.keeps_word(1 - me),
            self.console(me).polls() == Some((target, want_reply)),
            !self.air.seat(me).due(want_reply, target),
            self.quiet(1 - me, target),
        ensures
            self.after(turn).console(me) == self.console(me),
            !self.after(turn).air.seat(me).due(want_reply, target),
            self.after(turn).quiet(1 - me, target),
            self.seat_grew(me, self.after(turn), target),
    {
        let peer = 1 - me;
        let next = self.after(turn);
        let silent = self.air.silent(peer, target);
        let now = self.takes_host_for_gone(me);
        let (gone, more) = if silent {
            (now, choose|more: nat| self.stays_quiet(peer, target, now, more))
        } else {
            choose|gone: bool, more: nat| self.stays_quiet(peer, target, gone, more)
        };
        if self.console(peer).phase is Running {
            assert(self.stays_quiet(peer, target, gone, more));
            self.lemma_dipping_turn(turn, target, gone, more);
            if turn is Visit {
                self.lemma_action_under_receive(peer, target, want_reply, gone);
                self.lemma_quiet_action_grows(peer, target);
            } else {
                assert(next == self);
                self.lemma_seat_same(me, next, target);
            }
        } else {
            self.lemma_polling_turn(turn, target);
            self.lemma_polling_turn_leaves(turn);
            self.lemma_seat_same(me, next, target);
            if !silent {
                self.lemma_dipping_turn(turn, target, gone, more);
            }
        }
    }

    /// A turn inside a receive leaves the peer's console as it was.
    #[verifier::spinoff_prover]
    proof fn lemma_polling_turn_leaves(self, turn: Turn)
        requires
            0 <= turn.seat() < 2,
            !(self.console(turn.seat()).phase is Running),
        ensures
            self.after(turn).console(1 - turn.seat()) == self.console(1 - turn.seat()),
    {
    }
}

/// What a receive concludes is true: where it has nothing to take, and the
/// state proves to it that the peer sends nothing more at or before its target,
/// nothing stamped there arrives while the receive goes on, whatever the peer
/// does. The state goes on proving it, but for a while in which the peer does
/// something that sends nothing stamped there and ends with it proved again.
pub proof fn law_nothing_more_arrives(
    start: Tick,
    schedule: Seq<Turn>,
    me: int,
    target: u64,
    want_reply: bool,
    more: Seq<Turn>,
)
    requires
        start.always_keeps_word(),
        turns(schedule),
        0 <= me < 2,
        start.run(schedule).console(me).polls() == Some((target, want_reply)),
        !start.run(schedule).air.seat(me).due(want_reply, target),
        start.run(schedule).air.silent(1 - me, target),
        forall|i: int| 0 <= i < more.len() ==> (#[trigger] more[i]).seat() == 1 - me,
    ensures
        start.run(schedule).run(more).console(me) == start.run(schedule).console(me),
        !start.run(schedule).run(more).air.seat(me).due(want_reply, target),
        start.run(schedule).run(more).quiet(1 - me, target),
        grew_later(
            start.run(schedule).air.seat(me).incoming,
            start.run(schedule).run(more).air.seat(me).incoming,
            target,
        ),
        grew_later(
            start.run(schedule).air.seat(me).replies,
            start.run(schedule).run(more).air.seat(me).replies,
            target,
        ),
    decreases more.len(),
{
    let here = start.run(schedule);
    if more.len() == 0 {
        here.lemma_seat_same(me, here, target);
    } else {
        let peer = 1 - me;
        let earlier = more.drop_last();
        let turn = more.last();
        assert(turn == more[more.len() - 1]);
        assert forall|i: int| 0 <= i < earlier.len() implies (#[trigger] earlier[i]).seat()
            == peer by {
            assert(earlier[i] == more[i]);
        }
        law_nothing_more_arrives(start, schedule, me, target, want_reply, earlier);
        let mid = here.run(earlier);
        let next = mid.after(turn);
        assert(here.run(more) == next);
        start.lemma_run_concat(schedule, earlier);
        assert(turns(schedule + earlier));
        assert(start.run(schedule + earlier).keeps_word(peer));
        mid.lemma_quiet_turn(turn, me, target, want_reply);
        let seat = here.air.seat(me);
        lemma_grew_twice(
            seat.incoming,
            mid.air.seat(me).incoming,
            next.air.seat(me).incoming,
            target,
        );
        lemma_grew_twice(
            seat.replies,
            mid.air.seat(me).replies,
            next.air.seat(me).replies,
            target,
        );
    }
}

impl Tick {
    /// The least turn of a console that needs no tiebreak is its move.
    proof fn lemma_least_turn(self, me: int)
        requires
            self.sound(),
            0 <= me < 2,
            self.goes_on(me),
        ensures
            self.noted().next_move(me) is Some,
            self.after(self.least_turn(me)).noted() == self.noted().after_move(me),
    {
        match self.console(me).polls() {
            Some((target, want_reply)) => {
                if !want_reply {
                    self.lemma_packet_visit(me, target);
                } else if self.air.seat(me).due(true, target) {
                    self.lemma_took_reply(me);
                } else {
                    self.lemma_quiet_reply_visit(me, target);
                }
            },
            None => {
                self.lemma_running_visit(me);
            },
        }
    }

    /// The least turn of a console leaves a receive of the peer's as it is,
    /// unless it sends something stamped at or before the target.
    #[verifier::spinoff_prover]
    proof fn lemma_least_turn_under_receive(
        self,
        me: int,
        target: u64,
        want_reply: bool,
        gone: bool,
        more: nat,
    )
        requires
            0 <= me < 2,
            self.console(1 - me).polls() == Some((target, want_reply)),
            !self.air.seat(1 - me).due(want_reply, target),
            self.stays_quiet(me, target, gone, more),
        ensures
            self.after(self.least_turn(me)).console(1 - me) == self.console(1 - me),
            !self.after(self.least_turn(me)).air.seat(1 - me).due(want_reply, target),
            self.after(self.least_turn(me)).noted().quit_move(1 - me, gone)
                == self.noted().quit_move(1 - me, gone),
    {
        let turn = self.least_turn(me);
        let next = self.after(turn);
        if self.console(me).phase is Running {
            self.lemma_action_under_receive(me, target, want_reply, gone);
        } else {
            self.lemma_polling_turn(turn, target);
            self.lemma_polling_turn_leaves(turn);
            assert(next.noted().quit_move(1 - me, gone) == self.noted().quit_move(1 - me, gone))
                by {
                reveal(Tick::noted);
            }
        }
    }

    /// A receive that has given up leaves the peer's least turn what it was.
    #[verifier::spinoff_prover]
    proof fn lemma_quit_leaves_least_turn(self, quitted: Tick, me: int, gone: bool)
        requires
            0 <= me < 2,
            quitted.noted() == self.noted().quit(1 - me, gone),
            self.goes_on(me),
        ensures
            self.noted().goes_on(me),
            quitted.goes_on(me),
            quitted.least_turn(me) == self.least_turn(me),
    {
        reveal(Tick::noted);
        reveal(Tick::moved);
        let peer = 1 - me;
        quitted.lemma_noted_consoles(me);
        self.lemma_noted_consoles(me);
        assert(quitted.noted().air.seat(peer).bound() == self.noted().air.seat(peer).bound());
        assert(quitted.air.seat(peer).bound() == self.air.seat(peer).bound());
    }

    /// A quiet console can be played on, by turns that need no tiebreak, until
    /// it is silent; and whether a receive of the peer's gives up before or
    /// after that comes to the same.
    proof fn lemma_quiet_path(
        self,
        quitted: Tick,
        me: int,
        target: u64,
        want_reply: bool,
        gone: bool,
        more: nat,
    ) -> (path: Seq<Turn>)
        requires
            self.sound(),
            quitted.sound(),
            0 <= me < 2,
            self.console(1 - me).polls() == Some((target, want_reply)),
            !self.air.seat(1 - me).due(want_reply, target),
            self.stays_quiet(me, target, gone, more),
            quitted.noted() == self.noted().quit(1 - me, gone),
        ensures
            turns(path),
            self.run(path).visited(1 - me).noted() == quitted.run(path).noted(),
        decreases more,
    {
        let peer = 1 - me;
        let turn = self.least_turn(me);
        let next = self.after(turn);
        let after = quitted.after(turn);
        self.lemma_quit_leaves_least_turn(quitted, me, gone);
        self.lemma_least_turn(me);
        quitted.lemma_least_turn(me);
        self.noted().lemma_quit_commutes(me, gone);
        self.lemma_least_turn_under_receive(me, target, want_reply, gone, more);
        assert(after.noted() == next.noted().quit(peer, gone));
        self.lemma_turn_sound(turn);
        quitted.lemma_turn_sound(turn);
        self.lemma_run_short(turn, turn);
        quitted.lemma_run_short(turn, turn);
        if next.air.silent(me, target) {
            next.lemma_quit_visit(peer, target, want_reply);
            seq![turn]
        } else {
            let rest = next.lemma_quiet_path(
                after,
                me,
                target,
                want_reply,
                gone,
                (more - 1) as nat,
            );
            self.lemma_run_concat(seq![turn], rest);
            quitted.lemma_run_concat(seq![turn], rest);
            Tick::lemma_turns_concat(seq![turn], rest);
            seq![turn] + rest
        }
    }

    /// A race of a console that keeps its word comes together.
    proof fn lemma_word_comes_together(self, me: int)
        requires
            self.sound(),
            0 <= me < 2,
            self.keeps_word(me),
        ensures
            self.comes_together(me),
    {
        if self.races(me) {
            let peer = 1 - me;
            let (target, want_reply) = self.console(peer).polls()->0;
            let gone = self.takes_host_for_gone(peer);
            let more = choose|more: nat| self.stays_quiet(me, target, gone, more);
            assert(self.stays_quiet(me, target, gone, more));
            assert(self.least_turn(me) == Turn::Visit(me));
            self.lemma_least_turn_under_receive(me, target, want_reply, gone, more);
            let visit = Turn::Visit(me);
            let quit = Turn::Visit(peer);
            let next = self.visited(me);
            let quitted = self.visited(peer);
            self.lemma_quit_visit(peer, target, want_reply);
            self.lemma_turn_sound(visit);
            self.lemma_turn_sound(quit);
            let after = quitted.visited(me);
            self.lemma_quit_leaves_least_turn(quitted, me, gone);
            self.lemma_least_turn(me);
            quitted.lemma_least_turn(me);
            self.noted().lemma_quit_commutes(me, gone);
            assert(after.noted() == next.noted().quit(peer, gone));
            quitted.lemma_turn_sound(visit);
            let path = next.lemma_quiet_path(
                after,
                me,
                target,
                want_reply,
                gone,
                (more - 1) as nat,
            );
            quitted.lemma_run_short(visit, visit);
            quitted.lemma_run_concat(seq![visit], path);
            Tick::lemma_turns_concat(seq![visit], path);
            let played = next.run(path);
            played.lemma_run_short(quit, quit);
            next.lemma_run_concat(path, seq![quit]);
            Tick::lemma_turns_concat(path, seq![quit]);
            next.run(path + seq![quit]).lemma_noted_alike(quitted.run(seq![visit] + path));
            assert(quitted.meet(seq![visit] + path, next, path + seq![quit]));
        }
    }

    /// An action that follows the console's clock keeps the console's word.
    #[verifier::spinoff_prover]
    proof fn lemma_clock_keeps_word(self, me: int)
        requires
            self.sound_seat(me),
            0 <= me < 2,
            self.on_the_clock(me),
        ensures
            self.keeps_word(me),
    {
        if self.console(me).phase is Running {
            if let Some((target, _)) = self.console(1 - me).polls() {
                let gone = self.takes_host_for_gone(1 - me);
                law_bound(self.air.seat(me), target);
                law_bound(self.visited(me).air.seat(me), target);
                assert(self.least_turn(me) == Turn::Visit(me));
                if self.air.silent(me, target) && !(self.console(me).action() is Begin)
                    && self.visited(me).air.silent(me, target) {
                    assert(self.stays_quiet(me, target, gone, 0));
                }
            }
        }
    }
}

/// In a link whose consoles keep their word, every race comes together.
pub proof fn law_kept_word_comes_together(start: Tick)
    requires
        start.starting(),
        start.always_keeps_word(),
    ensures
        start.always_comes_together(),
{
    assert(start.console(0).phase is Running);
    assert(start.console(1).phase is Running);
    assert forall|schedule: Seq<Turn>, me: int|
        turns(schedule) && 0 <= me < 2 implies #[trigger] start.run(schedule).comes_together(
        me,
    ) by {
        start.lemma_run_sound(schedule);
        assert(start.run(schedule).keeps_word(me));
        start.run(schedule).lemma_word_comes_together(me);
    }
}

/// Consoles that follow their clocks keep their word.
pub proof fn law_clocks_keep_word(start: Tick)
    requires
        start.starting(),
        forall|schedule: Seq<Turn>, me: int|
            turns(schedule) && 0 <= me < 2 ==> #[trigger] start.run(schedule).on_the_clock(me),
    ensures
        start.always_keeps_word(),
{
    assert(start.console(0).phase is Running);
    assert(start.console(1).phase is Running);
    assert forall|schedule: Seq<Turn>, me: int|
        turns(schedule) && 0 <= me < 2 implies #[trigger] start.run(schedule).keeps_word(me) by {
        start.lemma_run_sound(schedule);
        assert(start.run(schedule).on_the_clock(me));
        start.run(schedule).lemma_clock_keeps_word(me);
    }
}

/// A link is a function of its inputs: from the same start, the same programs
/// lead to the same air and the same results, video frame after video frame,
/// whatever the schedules were. What is asked is that every race comes together.
pub proof fn law_link_is_a_function_of_its_inputs(
    start: Tick,
    programs: Seq<(Program, Program)>,
    a: Seq<Seq<Turn>>,
    b: Seq<Seq<Turn>>,
    count: int,
)
    requires
        start.air.first.waiting is None && start.air.second.waiting is None,
        0 <= count <= programs.len(),
        a.len() == programs.len(),
        b.len() == programs.len(),
        forall|i: int| 0 <= i < a.len() ==> turns(#[trigger] a[i]),
        forall|i: int| 0 <= i < b.len() ==> turns(#[trigger] b[i]),
        start.plays_out(programs, a),
        start.plays_out(programs, b),
        forall|i: int|
            0 <= i < programs.len() ==> (#[trigger] start.played(programs, a, i)).next_frame(
                programs[i],
            ).always_comes_together(),
    ensures
        start.played(programs, a, count) == start.played(programs, b, count),
        start.played(programs, a, count).air.first.waiting is None,
        start.played(programs, a, count).air.second.waiting is None,
    decreases count,
{
    if count > 0 {
        law_link_is_a_function_of_its_inputs(start, programs, a, b, count - 1);
        let frame = start.played(programs, a, count - 1).next_frame(programs[count - 1]);
        assert(frame.starting());
        assert(start.played(programs, a, count).finished());
        assert(start.played(programs, b, count).finished());
        assert(turns(a[count - 1]) && turns(b[count - 1]));
        law_schedule_does_not_matter(frame, a[count - 1], b[count - 1]);
        frame.lemma_run_sound(a[count - 1]);
        let end = frame.run(a[count - 1]);
        assert(end.sound_seat(0) && end.sound_seat(1));
    }
}

} // verus!
