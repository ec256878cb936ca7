use melonds_rollback::session::{LinkWorld, Report, SnapshotAt, POOL_DEPTH};
use melonds_rollback::{Input, Snapshot};

fn snap(id: u8) -> Snapshot {
    Snapshot {
        consoles: [vec![id], vec![]],
        incoming: [vec![], vec![]],
        replies: [vec![], vec![]],
        progress: [0, 0],
        attached: [false, false],
    }
}

fn at(id: u8, tick: u32) -> SnapshotAt {
    SnapshotAt { snap: snap(id), tick, audio_produced: [0, 0] }
}

#[test]
fn a_session_starts_at_zero() {
    for player in 0..2 {
        let world = LinkWorld::new(player);
        assert_eq!(world.local_player(), player);
        assert_eq!(world.live_tick, 0);
        assert_eq!(world.render_from, 0);
        assert_eq!(world.simulated, 0);
        assert_eq!(world.visible, [player == 0, player == 1]);
        assert_eq!(world.pool.len(), 0);
    }
}

#[test]
fn inputs_go_to_their_seats() {
    let step = LinkWorld::new(0).step(&Input::keys(1), &[Input::keys(2)]);
    assert_eq!(step.inputs, [Input::keys(1), Input::keys(2)]);
    assert_eq!(step.tick, 1);
    assert_eq!(step.render, [true, false]);
    let step = LinkWorld::new(1).step(&Input::keys(1), &[Input::keys(2)]);
    assert_eq!(step.inputs, [Input::keys(2), Input::keys(1)]);
    assert_eq!(step.render, [false, true]);
}

#[test]
fn peers_feed_the_same_inputs() {
    let here = LinkWorld::new(0).step(&Input::keys(1), &[Input::touch(2, 3)]);
    let there = LinkWorld::new(1).step(&Input::touch(2, 3), &[Input::keys(1)]);
    assert_eq!(here.inputs, there.inputs);
}

#[test]
fn replay_below_the_present_target_is_not_rendered() {
    let mut world = LinkWorld::new(0);
    world.aim(5, 2);
    assert_eq!(world.render_from, 3);
    let shown: Vec<bool> = (0..4).map(|_| world.step(&Input::keys(0), &[Input::keys(0)]).render[0]).collect();
    assert_eq!(shown, [false, false, true, true]);
    assert_eq!(world.live_tick, 4);
    world.aim(1, 2);
    assert_eq!(world.render_from, 0);
}

#[test]
fn prediction_repeats_the_last_input() {
    let world = LinkWorld::new(0);
    assert_eq!(world.predict(&Input::touch(3, 4)), Input::touch(3, 4));
}

#[test]
fn saves_are_tagged_with_the_live_tick() {
    let mut world = LinkWorld::new(0);
    world.step(&Input::keys(0), &[Input::keys(0)]);
    let state = world.saved(snap(5), [10, 20]);
    assert_eq!(state.tick, 1);
    assert_eq!(state.audio_produced, [10, 20]);
    assert_eq!(state.snap.consoles[0], vec![5]);
}

#[test]
fn a_parked_link_needs_no_restore() {
    let mut world = LinkWorld::new(0);
    let state = at(1, 0);
    assert!(!world.load(&state));
    world.step(&Input::keys(0), &[Input::keys(0)]);
    assert!(world.load(&state));
    world.loaded(&state);
    assert_eq!(world.live_tick, 0);
    assert!(!world.load(&state));
}

#[test]
fn the_pool_keeps_two_and_gives_back_the_latest() {
    let mut world = LinkWorld::new(0);
    assert!(world.save().is_none());
    world.recycle(at(1, 0));
    world.recycle(at(2, 0));
    world.recycle(at(3, 0));
    assert_eq!(world.pool.len(), POOL_DEPTH);
    assert_eq!(world.save().unwrap().consoles[0], vec![2]);
    assert_eq!(world.save().unwrap().consoles[0], vec![1]);
    assert!(world.save().is_none());
}

#[test]
fn an_advance_is_reported() {
    let mut world = LinkWorld::new(0);
    world.aim(7, 2);
    world.step(&Input::keys(0), &[Input::keys(0)]);
    world.step(&Input::keys(0), &[Input::keys(0)]);
    let (outgoing, report) = world.advanced(8, Input::keys(4), -3, 1);
    assert_eq!(outgoing.tick, 8);
    assert_eq!(outgoing.input, Input::keys(4));
    assert_eq!(outgoing.tick_advantage, -3);
    assert_eq!((report.ticks, report.rollback_depth), (2, 1));
    world.aim(8, 2);
    let (_, report) = world.advanced(9, Input::keys(4), 0, 0);
    assert_eq!(report.ticks, 0);
    let report = Report::default();
    assert_eq!((report.ticks, report.rollback_depth), (0, 0));
}

#[test]
fn ticks_simulated_again_count_again() {
    let mut world = LinkWorld::new(1);
    let settled = at(1, 0);
    let step = |world: &mut LinkWorld| world.step(&Input::keys(0), &[Input::keys(0)]);
    step(&mut world);
    step(&mut world);
    world.aim(3, 0);
    // A misprediction: back to the settled state, and forward past where the
    // link was.
    assert!(world.load(&settled));
    world.loaded(&settled);
    step(&mut world);
    let state = world.saved(snap(2), [0, 0]);
    world.recycle(state);
    world.save();
    step(&mut world);
    step(&mut world);
    assert_eq!(world.live_tick, 3);
    assert_eq!(world.advanced(3, Input::keys(0), 0, 2).1.ticks, 3);
}
