use melonds_rollback::air::Air;
use melonds_rollback::Frame;

fn other(ts: u64) -> Frame {
    Frame::Other { ts, data: vec![ts as u8] }
}

fn reply(ts: u64, aid: u16) -> Frame {
    Frame::Reply { ts, aid, data: vec![aid as u8] }
}

/// Both consoles on the air, with the given clocks.
fn attached(first: u64, second: u64) -> Air {
    let mut air = Air::default();
    air.mp_begin(0);
    air.mp_begin(1);
    air.publish(0, first);
    air.publish(1, second);
    air
}

#[test]
fn fresh_air_is_empty() {
    let air = Air::default();
    for seat in &air.seats {
        assert_eq!(seat.incoming.len(), 0);
        assert_eq!(seat.replies.len(), 0);
        assert_eq!(seat.progress, 0);
        assert_eq!(seat.waiting, None);
        assert!(!seat.frame_done);
        assert!(!seat.attached);
    }
}

#[test]
fn send_reaches_the_peer_by_kind() {
    let mut air = attached(5, 6);
    air.send(0, other(10));
    air.send(0, reply(11, 1));
    air.send(1, other(12));
    assert_eq!(air.seats[1].incoming.len(), 1);
    assert_eq!(air.seats[1].incoming[0].timestamp(), 10);
    assert_eq!(air.seats[1].replies.len(), 1);
    assert_eq!(air.seats[1].replies[0].timestamp(), 11);
    assert_eq!(air.seats[0].incoming.len(), 1);
    assert_eq!(air.seats[0].incoming[0].timestamp(), 12);
    // A send moves no bound of its own.
    assert_eq!((air.seats[0].progress, air.seats[1].progress), (5, 6));
}

#[test]
fn publish_sets_even_downward() {
    let mut air = attached(0, 0);
    assert!(air.publish(0, 100));
    assert_eq!(air.seats[0].progress, 100);
    assert!(!air.publish(0, 100));
    assert!(air.publish(0, 40));
    assert_eq!(air.seats[0].progress, 40);
    assert_eq!(air.seats[1].progress, 0);
}

#[test]
fn bound_is_capped_by_queued_frames() {
    let mut air = attached(50, 50);
    assert_eq!(Air::bound(&air.seats[0]), 50);
    air.send(1, other(60));
    assert_eq!(Air::bound(&air.seats[0]), 50);
    air.send(1, other(30));
    assert_eq!(Air::bound(&air.seats[0]), 30);
    air.send(1, reply(20, 1));
    assert_eq!(Air::bound(&air.seats[0]), 20);
    air.send(1, reply(25, 1));
    assert_eq!(Air::bound(&air.seats[0]), 20);
}

#[test]
fn due_looks_at_the_front_of_its_queue() {
    let mut air = attached(0, 0);
    assert!(!Air::due(&air.seats[0], false, u64::MAX));
    air.send(1, other(10));
    air.send(1, other(5));
    assert!(!Air::due(&air.seats[0], false, 9));
    assert!(Air::due(&air.seats[0], false, 10));
    assert!(!Air::due(&air.seats[0], true, 10));
    air.send(1, reply(3, 1));
    assert!(Air::due(&air.seats[0], true, 3));
}

#[test]
fn gate_opens_for_a_due_frame() {
    let mut air = attached(0, 0);
    air.send(1, other(10));
    assert!(air.gate(0, 10, false));
    assert_eq!(air.seats[0].waiting, None);
    assert!(!air.gate(0, 9, false));
    assert_eq!(air.seats[0].waiting, Some((9, false)));
}

#[test]
fn gate_opens_once_the_peer_bound_passes() {
    let mut air = attached(0, 9);
    assert!(!air.gate(0, 9, false));
    air.publish(1, 10);
    assert!(air.gate(0, 9, false));
    assert_eq!(air.seats[0].waiting, None);
}

#[test]
fn gate_opens_for_a_finished_or_absent_peer() {
    let mut air = attached(0, 0);
    assert!(!air.gate(0, 9, true));
    air.finish_frame(1);
    assert!(air.gate(0, 9, true));

    let mut air = attached(0, 0);
    air.mp_end(1);
    assert!(air.gate(0, 9, true));
}

#[test]
fn smaller_target_breaks_the_deadlock() {
    let mut air = attached(0, 0);
    assert!(!air.gate(0, 20, false));
    assert!(air.gate(1, 10, false));

    let mut air = attached(0, 0);
    assert!(!air.gate(1, 10, false));
    assert!(!air.gate(0, 20, true));
    assert!(!air.gate(0, 20, true));
    assert!(air.gate(1, 10, false));
}

#[test]
fn seat_zero_breaks_a_tie() {
    let mut air = attached(0, 0);
    assert!(!air.gate(0, 10, false));
    assert!(!air.gate(1, 10, false));
    assert!(!air.gate(1, 10, false));
    assert!(air.gate(0, 10, false));
}

#[test]
fn a_peer_that_will_wake_is_not_overtaken() {
    // The peer waits, but has a frame due: it wakes on its own.
    let mut air = attached(0, 0);
    assert!(!air.gate(1, 20, false));
    air.send(0, other(15));
    assert!(!air.gate(0, 10, false));

    // The peer waits, but this console's bound has passed its target.
    let mut air = attached(0, 0);
    assert!(!air.gate(1, 20, false));
    air.publish(0, 21);
    assert!(!air.gate(0, 10, false));

    // The peer does not wait at all.
    let mut air = attached(0, 0);
    assert!(!air.gate(0, 10, false));
}

#[test]
fn consuming_keeps_the_bound() {
    let mut air = attached(0, 50);
    air.send(0, other(30));
    air.send(0, other(40));
    assert_eq!(Air::bound(&air.seats[1]), 30);
    assert!(air.mp_recv_packet(1, 45).is_some());
    assert_eq!(air.seats[1].progress, 30);
    assert_eq!(Air::bound(&air.seats[1]), 30);
}
