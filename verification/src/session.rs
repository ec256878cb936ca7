//! The rollback session over a link.
//!
//! Both peers run the same link, and the only true inputs are the two
//! players' pads. Every frame the local peer feeds its own input in, predicts
//! the remote's, and simulates ahead; when a prediction turns out wrong the
//! session restores the last settled snapshot and simulates again. What is
//! here is the bookkeeping of that: whose input goes to which seat, which
//! ticks are worth rendering, when a restore is needed, and what is reported.

use vstd::prelude::*;

use crate::input::Input;
use crate::snapshot::Snapshot;

verus! {

/// What the caller must forward to the peer after an advance.
#[derive(Clone, Copy, Debug)]
pub struct Outgoing {
    /// The tick this input belongs to.
    pub tick: u32,
    /// The local player's input for that tick.
    pub input: Input,
    /// How far ahead of the peer this side is running, for the clock-sync
    /// governor on the other end.
    pub tick_advantage: i16,
}

/// What an advance did.
#[derive(Clone, Copy, Debug)]
pub struct Report {
    /// Ticks simulated (settles plus speculation).
    pub ticks: u32,
    /// Depth of the rollback this advance performed, 0 if none.
    pub rollback_depth: u32,
}

impl Default for Report {
    fn default() -> (report: Self)
        ensures
            report == (Report { ticks: 0, rollback_depth: 0 }),
    {
        Report { ticks: 0, rollback_depth: 0 }
    }
}

/// `a - b`, or 0 where `b` is larger.
pub open spec fn less(a: u32, b: u32) -> u32 {
    if a < b {
        0
    } else {
        (a - b) as u32
    }
}

/// A snapshot tagged with the tick it was taken at.
#[derive(Debug)]
pub struct SnapshotAt {
    pub snap: Snapshot,
    pub tick: u32,
    /// How much audio each console had produced by then, so that a rollback
    /// to this snapshot knows how much its speculation appended. Audio is not
    /// machine state, and a savestate does not carry it.
    pub audio_produced: [u64; 2],
}

/// The two players' inputs in seat order, as the player at `local_player` has
/// them: its own, and its peer's.
pub open spec fn seated(local_player: int, local: Input, remote: Input) -> (Input, Input) {
    if local_player == 0 {
        (local, remote)
    } else {
        (remote, local)
    }
}

/// What one step of the session does to the link.
#[derive(Clone, Copy, Debug)]
pub struct Step {
    /// Which consoles composit a framebuffer.
    pub render: [bool; 2],
    /// The two players' inputs, in seat order.
    pub inputs: [Input; 2],
    /// The number of the tick that is simulated.
    pub tick: u32,
}

/// How many retired snapshots are kept: the settled state, and the one that
/// replaces it. More would just hold memory.
pub const POOL_DEPTH: usize = 2;

/// The session's side of a link: where the live link stands, which of its
/// ticks anybody sees, and the snapshots kept for their allocations.
#[derive(Debug)]
pub struct LinkWorld {
    /// The seat of the local player.
    pub local_player: usize,
    /// Ticks simulated on the live link.
    pub live_tick: u32,
    /// Which consoles anybody displays: the local seat. The other console
    /// never composits a framebuffer.
    pub visible: [bool; 2],
    /// First tick of the current advance whose output could reach the screen.
    /// Ticks below this are rollback re-simulation: nobody will ever see
    /// their frames, so nothing renders them.
    pub render_from: u32,
    /// Ticks simulated since the current advance started. A tick that is
    /// simulated again after a rollback counts again.
    pub simulated: u32,
    /// Snapshots that the session has finished with.
    pub pool: Vec<Snapshot>,
}

impl LinkWorld {
    /// The local player has a seat, its console and no other is displayed,
    /// and the pool holds no more than it may.
    pub open spec fn wf(&self) -> bool {
        &&& self.local_player < 2
        &&& forall|i: int| 0 <= i < 2 ==> (#[trigger] self.visible@[i] <==> i == self.local_player)
        &&& self.pool@.len() <= POOL_DEPTH
    }

    /// After an advance has started, with the input frontier at `frontier`.
    pub open spec fn aimed(self, frontier: u32, present_delay: u32) -> LinkWorld {
        LinkWorld { render_from: less(frontier, present_delay), simulated: 0, ..self }
    }

    /// After a tick has been simulated.
    pub open spec fn stepped(self) -> LinkWorld {
        LinkWorld {
            live_tick: (self.live_tick + 1) as u32,
            simulated: (self.simulated + 1) as u32,
            ..self
        }
    }

    /// After the live link has been taken to `tick` by a restore.
    pub open spec fn landed(self, tick: u32) -> LinkWorld {
        LinkWorld { live_tick: tick, ..self }
    }

    /// With other snapshots in the pool.
    pub open spec fn with_pool(self, pool: Vec<Snapshot>) -> LinkWorld {
        LinkWorld { pool, ..self }
    }

    /// At the start of a session of `local_player`.
    pub fn new(local_player: usize) -> (world: Self)
        requires
            local_player < 2,
        ensures
            world.wf(),
            world.local_player == local_player,
            world.live_tick == 0,
            world.render_from == 0,
            world.simulated == 0,
            world.pool@ == Seq::<Snapshot>::empty(),
    {
        LinkWorld {
            local_player,
            live_tick: 0,
            visible: [local_player == 0, local_player == 1],
            render_from: 0,
            simulated: 0,
            pool: Vec::new(),
        }
    }

    /// The seat of the local player.
    pub fn local_player(&self) -> (player: usize)
        ensures
            player == self.local_player,
    {
        self.local_player
    }

    /// An advance starts with the input frontier at `frontier`. The
    /// simulation only ever reaches the present target, `present_delay` ticks
    /// behind the frontier; everything below the target is replay whose
    /// frames nobody sees, and rendering resumes at the target. The count of
    /// simulated ticks starts over.
    pub fn aim(&mut self, frontier: u32, present_delay: u32)
        ensures
            *final(self) == old(self).aimed(frontier, present_delay),
    {
        self.render_from = frontier.saturating_sub(present_delay);
        self.simulated = 0;
    }

    /// Plans the next tick, and counts it as simulated. The first of
    /// `remotes` is the peer's input.
    pub fn step(&mut self, local: &Input, remotes: &[Input]) -> (step: Step)
        requires
            old(self).wf(),
            old(self).live_tick < u32::MAX,
            old(self).simulated < u32::MAX,
            remotes@.len() > 0,
        ensures
            final(self).wf(),
            step.tick == old(self).live_tick + 1,
            *final(self) == old(self).stepped(),
            (step.inputs@[0], step.inputs@[1]) == seated(
                old(self).local_player as int,
                *local,
                remotes@[0],
            ),
            step.inputs@[old(self).local_player as int] == *local,
            step.inputs@[1 - old(self).local_player] == remotes@[0],
            step.render@[old(self).local_player as int] <==> step.tick >= old(self).render_from,
            !step.render@[1 - old(self).local_player],
    {
        let tick: u32 = self.live_tick + 1;
        let render: bool = tick >= self.render_from;
        let inputs: [Input; 2] = if self.local_player == 0 {
            [*local, remotes[0]]
        } else {
            [remotes[0], *local]
        };
        self.live_tick = tick;
        self.simulated = self.simulated + 1;
        Step { render: [render && self.visible[0], render && self.visible[1]], inputs, tick }
    }

    /// Starts a save: takes the snapshot that was retired last, if there is
    /// one, to capture into.
    pub fn save(&mut self) -> (recycled: Option<Snapshot>)
        requires
            old(self).wf(),
        ensures
            final(self).wf(),
            *final(self) == old(self).with_pool(final(self).pool),
            match recycled {
                Some(snap) => old(self).pool@ == final(self).pool@.push(snap),
                None => old(self).pool@.len() == 0 && final(self).pool@.len() == 0,
            },
    {
        let recycled: Option<Snapshot> = self.pool.pop();
        assert(recycled is Some ==> old(self).pool@ =~= self.pool@.push(recycled->0));
        recycled
    }

    /// Finishes a save: tags a snapshot of the live link with where it was
    /// taken.
    pub fn saved(&self, snap: Snapshot, audio_produced: [u64; 2]) -> (state: SnapshotAt)
        ensures
            state == (SnapshotAt { snap, tick: self.live_tick, audio_produced }),
    {
        SnapshotAt { snap, tick: self.live_tick, audio_produced }
    }

    /// Retires a state: its snapshot is kept if there is room, and dropped if
    /// not.
    pub fn recycle(&mut self, state: SnapshotAt)
        requires
            old(self).wf(),
        ensures
            final(self).wf(),
            *final(self) == old(self).with_pool(final(self).pool),
            final(self).pool@ == if old(self).pool@.len() < POOL_DEPTH {
                old(self).pool@.push(state.snap)
            } else {
                old(self).pool@
            },
    {
        if self.pool.len() < POOL_DEPTH {
            self.pool.push(state.snap);
        }
    }

    /// Whether loading a state takes a restore. Where nothing speculated past
    /// it, the link is parked there already and holds exactly this state, so
    /// that a restore would be pure cost.
    pub fn load(&self, state: &SnapshotAt) -> (restore: bool)
        ensures
            restore == (self.live_tick != state.tick),
    {
        self.live_tick != state.tick
    }

    /// A state has been restored to the live link.
    pub fn loaded(&mut self, state: &SnapshotAt)
        ensures
            *final(self) == old(self).landed(state.tick),
            final(self).live_tick == state.tick,
    {
        self.live_tick = state.tick;
    }

    /// Predicts the peer's next input: the one it gave last. On this hardware
    /// a held direction or button is far more likely to persist than to
    /// change on any given frame.
    pub fn predict(&self, last_remote: &Input) -> (input: Input)
        ensures
            input == *last_remote,
    {
        *last_remote
    }

    /// What an advance hands back: the local input, which belongs to `tick`,
    /// and how many ticks were simulated since the advance started.
    pub fn advanced(
        &self,
        tick: u32,
        input: Input,
        tick_advantage: i16,
        rollback_depth: u32,
    ) -> (result: (Outgoing, Report))
        ensures
            result.0 == (Outgoing { tick, input, tick_advantage }),
            result.1 == (Report { ticks: self.simulated, rollback_depth }),
    {
        (
            Outgoing { tick, input, tick_advantage },
            Report { ticks: self.simulated, rollback_depth },
        )
    }
}

/// What a session does with its world in the middle of an advance.
pub enum Deed {
    /// It simulates a tick, for the first time or again.
    Step,
    /// It restores a state that was saved at `tick`.
    Load { tick: u32 },
    /// It takes a snapshot out of the pool, or retires one to it.
    Pool { pool: Vec<Snapshot> },
}

/// How many of `deeds` simulate a tick.
pub open spec fn steps(deeds: Seq<Deed>) -> nat
    decreases deeds.len(),
{
    if deeds.len() == 0 {
        0
    } else {
        steps(deeds.drop_last()) + if deeds.last() is Step {
            1nat
        } else {
            0nat
        }
    }
}

impl LinkWorld {
    /// After some deeds, first to last.
    pub open spec fn after(self, deeds: Seq<Deed>) -> LinkWorld
        decreases deeds.len(),
    {
        if deeds.len() == 0 {
            self
        } else {
            let before = self.after(deeds.drop_last());
            match deeds.last() {
                Deed::Step => before.stepped(),
                Deed::Load { tick } => before.landed(tick),
                Deed::Pool { pool } => before.with_pool(pool),
            }
        }
    }
}

/// An advance counts every tick that it simulates, settled or speculated, and
/// those that a rollback has it simulate again.
pub proof fn law_every_simulated_tick_is_counted(
    world: LinkWorld,
    frontier: u32,
    present_delay: u32,
    deeds: Seq<Deed>,
)
    requires
        steps(deeds) <= u32::MAX,
    ensures
        world.aimed(frontier, present_delay).after(deeds).simulated == steps(deeds),
    decreases deeds.len(),
{
    if deeds.len() > 0 {
        law_every_simulated_tick_is_counted(world, frontier, present_delay, deeds.drop_last());
    }
}

/// Both peers run the same link: what one feeds it as its own input and its
/// peer's, the other feeds it as its peer's and its own.
pub proof fn law_peers_feed_the_same_inputs(player: int, mine: Input, yours: Input)
    requires
        0 <= player < 2,
    ensures
        seated(player, mine, yours) == seated(1 - player, yours, mine),
{
}

/// What is left of a count after another is taken off it, and nothing less.
pub proof fn law_less_is_what_is_left(a: u32, b: u32)
    ensures
        b <= a ==> less(a, b) + b == a,
        a < b ==> less(a, b) == 0,
{
}

/// Each player's input reaches that player's seat as it is, keys and stylus
/// both.
pub proof fn law_inputs_reach_their_seats(local: Input, remote: Input)
    ensures
        seated(0, local, remote).0 == local,
        seated(0, local, remote).1 == remote,
        seated(1, local, remote).1 == local,
        seated(1, local, remote).0 == remote,
{
}

/// A state that has been loaded is where the link stands: its live tick is the
/// one that the state was saved at, and the next step simulates the tick after
/// it. A load changes nothing else.
pub proof fn law_load_lands_on_its_tick(world: LinkWorld, tick: u32)
    ensures
        world.landed(tick).live_tick == tick,
        tick < u32::MAX ==> world.landed(tick).stepped().live_tick == tick + 1,
        world.landed(tick).local_player == world.local_player,
        world.landed(tick).visible == world.visible,
        world.landed(tick).render_from == world.render_from,
        world.landed(tick).simulated == world.simulated,
        world.landed(tick).pool == world.pool,
{
}

/// A step goes one tick on, counts one tick, and changes nothing else.
pub proof fn law_step_goes_one_tick_on(world: LinkWorld)
    requires
        world.live_tick < u32::MAX,
        world.simulated < u32::MAX,
    ensures
        world.stepped().live_tick == world.live_tick + 1,
        world.stepped().simulated == world.simulated + 1,
        world.stepped().local_player == world.local_player,
        world.stepped().visible == world.visible,
        world.stepped().render_from == world.render_from,
        world.stepped().pool == world.pool,
{
}

/// An advance renders from `present_delay` ticks behind the frontier on, or from
/// the start, counts from 0, and leaves where the link stands.
pub proof fn law_aim_is_at_the_present_target(
    world: LinkWorld,
    frontier: u32,
    present_delay: u32,
)
    ensures
        present_delay <= frontier ==> world.aimed(frontier, present_delay).render_from
            + present_delay == frontier,
        frontier < present_delay ==> world.aimed(frontier, present_delay).render_from == 0,
        world.aimed(frontier, present_delay).simulated == 0,
        world.aimed(frontier, present_delay).live_tick == world.live_tick,
        world.aimed(frontier, present_delay).local_player == world.local_player,
        world.aimed(frontier, present_delay).visible == world.visible,
        world.aimed(frontier, present_delay).pool == world.pool,
{
}

/// Putting snapshots into the pool, or taking them out, changes nothing else.
pub proof fn law_pool_is_apart(world: LinkWorld, pool: Vec<Snapshot>)
    ensures
        world.with_pool(pool).pool == pool,
        world.with_pool(pool).live_tick == world.live_tick,
        world.with_pool(pool).simulated == world.simulated,
        world.with_pool(pool).render_from == world.render_from,
        world.with_pool(pool).local_player == world.local_player,
        world.with_pool(pool).visible == world.visible,
{
}

/// A session's world has a seat for the local player, displays that seat and
/// no other, and keeps at most two retired snapshots.
pub proof fn law_world_displays_the_local_seat(world: LinkWorld)
    ensures
        world.wf() <==> {
            &&& world.local_player < 2
            &&& world.visible@[0] == (world.local_player == 0)
            &&& world.visible@[1] == (world.local_player == 1)
            &&& world.pool@.len() <= 2
        },
{
    if world.local_player < 2 && world.visible@[0] == (world.local_player == 0)
        && world.visible@[1] == (world.local_player == 1) {
        assert forall|i: int| 0 <= i < 2 implies (#[trigger] world.visible@[i] <==> i
            == world.local_player) by {
            assert(i == 0 || i == 1);
        }
    }
}

} // verus!
