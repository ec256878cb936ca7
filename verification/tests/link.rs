use melonds_rollback::air::Air;
use melonds_rollback::host::Received;
use melonds_rollback::link::both;
use melonds_rollback::{Frame, Snapshot};

fn busy() -> Air {
    let mut air = Air::default();
    air.mp_begin(0);
    air.mp_begin(1);
    air.publish(0, 11);
    air.publish(1, 22);
    air.mp_send_packet(0, &[1], 30);
    air.mp_send_packet(0, &[2], 40);
    air.mp_send_reply(1, &[3], 50, 2);
    air
}

#[test]
fn a_tick_starts_with_nobody_done() {
    let mut air = busy();
    air.finish_frame(0);
    assert!(air.seats[0].frame_done);
    assert!(!air.seats[1].frame_done);
    air.finish_frame(1);
    air.begin_tick();
    assert!(!air.seats[0].frame_done);
    assert!(!air.seats[1].frame_done);
}

#[test]
fn connected_takes_both() {
    let mut air = Air::default();
    assert!(!air.connected());
    air.mp_begin(0);
    assert!(!air.connected());
    air.mp_begin(1);
    assert!(air.connected());
    air.mp_end(0);
    assert!(!air.connected());
}

#[test]
fn capture_holds_consoles_and_air() {
    let snap = busy().capture([vec![7], vec![8, 9]]);
    assert_eq!(snap.consoles, [vec![7], vec![8, 9]]);
    assert_eq!(snap.progress, [11, 22]);
    assert_eq!(snap.attached, [true, true]);
    assert_eq!(snap.incoming[0].len(), 0);
    let stamps: Vec<u64> = snap.incoming[1].iter().map(|f| f.timestamp()).collect();
    assert_eq!(stamps, [30, 40]);
    assert_eq!(snap.replies[0].len(), 1);
    assert_eq!(snap.replies[1].len(), 0);
}

#[test]
fn restore_resumes_what_was_captured() {
    let air = busy();
    let snap = air.capture([vec![7], vec![8]]);
    let mut other = Air::default();
    other.mp_begin(0);
    assert!(!other.gate(1, 5, false));
    assert_eq!(other.seats[1].waiting, Some((5, false)));
    other.publish(0, 999);
    other.finish_frame(0);
    other.restore(&snap);
    assert!(other.seats.iter().all(|s| s.waiting.is_none() && !s.frame_done));
    assert_eq!(other.capture([vec![7], vec![8]]).to_bytes(), snap.to_bytes());
}

#[test]
fn replay_after_restore_is_identical() {
    let mut air = busy();
    let snap = air.capture([vec![], vec![]]);
    let play = |air: &mut Air| {
        air.begin_tick();
        air.start_receive(1, 35);
        let first = air.mp_recv_packet(1, 35);
        air.finish_frame(1);
        air.start_receive(0, 45);
        let second = air.mp_recv_packet(0, 45);
        air.finish_frame(0);
        assert!(matches!(first, Some(Received::Frame(Frame::Other { ts: 30, .. }))));
        assert!(matches!(second, Some(Received::Nothing)));
        air.capture([vec![], vec![]]).to_bytes()
    };
    let once = play(&mut air);
    air.restore(&snap);
    let again = play(&mut air);
    assert_eq!(once, again);
}

#[test]
fn buffers_come_from_a_retired_snapshot() {
    let snap = busy().capture([vec![7], vec![8, 9]]);
    assert_eq!(Snapshot::buffers(Some(snap)), [vec![7], vec![8, 9]]);
    assert_eq!(Snapshot::buffers(None), [Vec::<u8>::new(), Vec::new()]);
}

#[test]
fn both_reports_the_first_failure() {
    assert_eq!(both::<u8, char>(Ok(1), Ok(2)), Ok((1, 2)));
    assert_eq!(both::<u8, char>(Err('a'), Ok(2)), Err('a'));
    assert_eq!(both::<u8, char>(Ok(1), Err('b')), Err('b'));
    assert_eq!(both::<u8, char>(Err('a'), Err('b')), Err('a'));
}
