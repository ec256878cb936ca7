use melonds_rollback::air::Air;
use melonds_rollback::host::{reply_target, reported, Received, Round, REPLY_SLOT, REPLY_WINDOW_US};
use melonds_rollback::Frame;

fn attached() -> Air {
    let mut air = Air::default();
    air.mp_begin(0);
    air.mp_begin(1);
    air
}

fn payload(received: Option<Received>) -> Vec<u8> {
    match received {
        Some(Received::Frame(Frame::Other { data, .. })) => data,
        _ => panic!("no frame"),
    }
}

#[test]
fn begin_and_end_attach() {
    let mut air = Air::default();
    air.mp_begin(1);
    assert!(!air.seats[0].attached);
    assert!(air.seats[1].attached);
    air.mp_end(1);
    assert!(!air.seats[1].attached);
}

#[test]
fn sends_report_the_whole_payload() {
    let mut air = attached();
    assert_eq!(air.mp_send_packet(0, &[1, 2, 3], 10), 3);
    assert_eq!(air.mp_send_cmd(0, &[4], 11), 1);
    assert_eq!(air.mp_send_ack(0, &[], 12), 0);
    assert_eq!(air.mp_send_reply(0, &[5, 6], 13, 4), 2);
    let stamps: Vec<u64> = air.seats[1].incoming.iter().map(|f| f.timestamp()).collect();
    assert_eq!(stamps, [10, 11, 12]);
    match &air.seats[1].replies[0] {
        Frame::Reply { ts, aid, data } => assert_eq!((*ts, *aid, data.clone()), (13, 4, vec![5, 6])),
        Frame::Other { .. } => panic!("not a reply"),
    }
    assert_eq!(reported(&[7, 7, 7, 7]), 4);
}

#[test]
fn clock_publishes_and_receives_publish_the_instant_before() {
    let mut air = attached();
    assert!(air.mp_clock(0, 12));
    assert!(!air.mp_clock(0, 12));
    assert_eq!(air.seats[0].progress, 12);
    assert!(air.start_receive(0, 20));
    assert_eq!(air.seats[0].progress, 19);
    assert!(air.start_receive(0, 0));
    assert_eq!(air.seats[0].progress, 0);
}

#[test]
fn packets_come_out_in_order_when_due() {
    let mut air = attached();
    air.mp_send_packet(0, &[1], 10);
    air.mp_send_cmd(0, &[2], 10);
    air.mp_send_ack(0, &[3], 30);
    air.mp_clock(0, 40);
    assert_eq!(payload(air.mp_recv_packet(1, 20)), vec![1]);
    assert_eq!(payload(air.mp_recv_packet(1, 20)), vec![2]);
    assert!(matches!(air.mp_recv_packet(1, 20), Some(Received::Nothing)));
    assert_eq!(payload(air.mp_recv_host_packet(1, 30)), vec![3]);
    assert!(matches!(air.mp_recv_host_packet(1, 30), Some(Received::Nothing)));
}

#[test]
fn a_late_front_holds_back_what_is_behind_it() {
    let mut air = attached();
    air.mp_send_packet(0, &[1], 30);
    air.mp_send_packet(0, &[2], 10);
    air.mp_clock(0, 50);
    assert!(matches!(air.mp_recv_packet(1, 20), Some(Received::Nothing)));
    assert_eq!(payload(air.mp_recv_packet(1, 30)), vec![1]);
    assert_eq!(payload(air.mp_recv_packet(1, 30)), vec![2]);
}

#[test]
fn consuming_lowers_the_clock_to_the_stamp() {
    let mut air = attached();
    air.mp_clock(1, 100);
    air.mp_send_packet(0, &[1], 10);
    assert_eq!(payload(air.mp_recv_packet(1, 100)), vec![1]);
    assert_eq!(air.seats[1].progress, 10);
    air.mp_send_packet(0, &[2], 90);
    assert_eq!(payload(air.mp_recv_host_packet(1, 100)), vec![2]);
    assert_eq!(air.seats[1].progress, 10);
}

#[test]
fn a_packet_receive_waits_for_a_running_peer() {
    let mut air = attached();
    assert!(air.mp_recv_packet(1, 20).is_none());
    assert_eq!(air.seats[1].waiting, Some((20, false)));
    air.mp_clock(0, 21);
    assert!(matches!(air.mp_recv_packet(1, 20), Some(Received::Nothing)));
    assert_eq!(air.seats[1].waiting, None);
}

#[test]
fn the_host_is_gone_only_after_its_parting_frames() {
    let mut air = attached();
    air.mp_send_packet(0, &[1], 50);
    air.mp_end(0);
    assert!(matches!(air.mp_recv_host_packet(1, 20), Some(Received::Nothing)));
    assert_eq!(payload(air.mp_recv_host_packet(1, 50)), vec![1]);
    assert!(matches!(air.mp_recv_host_packet(1, 50), Some(Received::HostGone)));
    // A plain packet receive makes no difference of it.
    assert!(matches!(air.mp_recv_packet(1, 50), Some(Received::Nothing)));
}

#[test]
fn received_hands_the_console_its_code() {
    let mut out = [0u8; 4];
    let mut ts = 5;
    assert_eq!(Received::Nothing.deliver(&mut out, &mut ts), 0);
    assert_eq!(Received::HostGone.deliver(&mut out, &mut ts), -1);
    assert_eq!((out, ts), ([0; 4], 5));
    let frame = Frame::Other { ts: 9, data: vec![1, 2] };
    assert_eq!(Received::Frame(frame).deliver(&mut out, &mut ts), 2);
    assert_eq!((out, ts), ([1, 2, 0, 0], 9));
}

#[test]
fn reply_window_is_two_milliseconds() {
    assert_eq!(REPLY_WINDOW_US, 2000);
    assert_eq!(reply_target(0), 2000);
    assert_eq!(reply_target(123), 2123);
    assert_eq!(reply_target(u64::MAX - 2000), u64::MAX);
}

#[test]
fn replies_pack_by_slot_and_mark_by_id() {
    let mut air = attached();
    air.mp_send_reply(1, &[1, 1], 10, 1);
    air.mp_send_reply(1, &[3], 11, 3);
    let mut data = vec![0u8; 3 * REPLY_SLOT];
    assert!(air.replies_fit(0, 2010, 0b1010, 0, &data));
    let round = air.mp_recv_replies(0, 2010, 0b1010, 0, &mut data);
    assert_eq!(round, Round::Closed(0b1010));
    assert_eq!(&data[0..3], &[1, 1, 0]);
    assert_eq!(&data[2048..2050], &[3, 0]);
    assert_eq!(air.seats[0].replies.len(), 0);
}

#[test]
fn a_complete_round_leaves_later_replies_queued() {
    let mut air = attached();
    air.mp_send_reply(1, &[1], 10, 1);
    air.mp_send_reply(1, &[2], 11, 1);
    let mut data = vec![0u8; REPLY_SLOT];
    assert_eq!(air.mp_recv_replies(0, 2010, 0b10, 0, &mut data), Round::Closed(0b10));
    assert_eq!(data[0], 1);
    assert_eq!(air.seats[0].replies.len(), 1);
}

#[test]
fn a_round_stays_open_until_no_reply_can_come() {
    let mut air = attached();
    air.mp_send_reply(1, &[1], 10, 1);
    let mut data = vec![0u8; 2 * REPLY_SLOT];
    let round = air.mp_recv_replies(0, 2010, 0b110, 0, &mut data);
    assert_eq!(round, Round::Open(0b10));
    assert_eq!(air.seats[0].waiting, Some((2010, true)));
    assert_eq!(air.mp_recv_replies(0, 2010, 0b110, 0b10, &mut data), Round::Open(0b10));
    air.mp_clock(1, 2011);
    assert_eq!(air.mp_recv_replies(0, 2010, 0b110, 0b10, &mut data), Round::Closed(0b10));
    assert_eq!(air.seats[0].waiting, None);
}

#[test]
fn a_round_takes_nothing_past_its_window() {
    let mut air = attached();
    air.mp_send_reply(1, &[1], 2011, 1);
    air.mp_clock(1, 3000);
    let mut data = vec![0u8; REPLY_SLOT];
    assert_eq!(air.mp_recv_replies(0, 2010, 0b10, 0, &mut data), Round::Closed(0));
    assert_eq!(air.seats[0].replies.len(), 1);
}

#[test]
fn replies_without_an_id_are_dropped() {
    let mut air = attached();
    air.mp_send_reply(1, &[9], 10, 0);
    air.mp_send_reply(1, &[1], 10, 1);
    let mut data = vec![0u8; REPLY_SLOT];
    assert_eq!(air.mp_recv_replies(0, 2010, 0b10, 0, &mut data), Round::Closed(0b10));
    assert_eq!(data[0], 1);
}

#[test]
fn a_round_for_nobody_closes_with_the_first_reply() {
    let mut air = attached();
    let mut data = vec![0u8; REPLY_SLOT];
    assert_eq!(air.mp_recv_replies(0, 2010, 0, 0, &mut data), Round::Open(0));
    air.mp_send_reply(1, &[1], 10, 1);
    assert_eq!(air.mp_recv_replies(0, 2010, 0, 0, &mut data), Round::Closed(0b10));
}

#[test]
fn replies_that_do_not_fit_are_told() {
    let mut air = attached();
    air.mp_send_reply(1, &[1], 10, 2);
    assert!(!air.replies_fit(0, 2010, 0b100, 0, &[0u8; 1024]));
    assert!(air.replies_fit(0, 2010, 0b100, 0, &[0u8; 1025]));
    // Out of the window, it is not taken.
    assert!(air.replies_fit(0, 9, 0b100, 0, &[]));

    let mut air = attached();
    air.mp_send_reply(1, &[], 10, 16);
    assert!(!air.replies_fit(0, 2010, 0b10, 0, &vec![0u8; 20 * REPLY_SLOT]));

    // A round that completes before it never reaches the misfit.
    let mut air = attached();
    air.mp_send_reply(1, &[1], 10, 1);
    air.mp_send_reply(1, &[], 10, 16);
    assert!(air.replies_fit(0, 2010, 0b10, 0, &[0u8; 1024]));
    assert!(!air.replies_fit(0, 2010, 0b100, 0, &[0u8; 1024]));
}

/// One host command round and its reply, with the consoles' visits to the air
/// in the given order; what the host collects, and what the client hears.
fn round_in_order(order: &[usize]) -> (u16, u8, Vec<u8>, Vec<u8>) {
    let mut air = attached();
    let mut data = vec![0u8; REPLY_SLOT];
    let mut mask = 0;
    let mut done = None;
    let mut heard = Vec::new();
    let mut at = [0usize, 0usize];
    let mut turns: Vec<usize> = order.to_vec();
    // Whatever the order was, both get to finish.
    for _ in 0..40 {
        turns.push(0);
        turns.push(1);
    }
    for me in turns {
        let step = at[me];
        let moved = if me == 0 {
            match step {
                0 => { air.mp_send_cmd(0, &[7], 100); true }
                1 => { air.start_receive(0, 101); true }
                2 => match air.mp_recv_replies(0, 2100, 0b10, mask, &mut data) {
                    Round::Open(m) => { mask = m; false }
                    Round::Closed(m) => { done = Some(m); true }
                },
                3 => { air.finish_frame(0); true }
                _ => false,
            }
        } else {
            match step {
                0 => { air.start_receive(1, 90); true }
                1 => air.mp_recv_packet(1, 90).is_some(),
                2 => { air.start_receive(1, 120); true }
                3 => match air.mp_recv_packet(1, 120) {
                    Some(Received::Frame(Frame::Other { data, .. })) => { heard = data; true }
                    Some(_) => true,
                    None => false,
                },
                4 => { air.mp_send_reply(1, &[5], 130, 1); true }
                5 => { air.finish_frame(1); true }
                _ => false,
            }
        };
        if moved {
            at[me] += 1;
        }
    }
    assert_eq!(at, [4, 6]);
    let bounds = vec![Air::bound(&air.seats[0]) as u8, Air::bound(&air.seats[1]) as u8];
    (done.unwrap(), data[0], heard, bounds)
}

#[test]
fn interleaving_does_not_change_a_round() {
    let expected = round_in_order(&[]);
    assert_eq!((expected.0, expected.1), (0b10, 5));
    assert_eq!(expected.2, vec![7]);
    for code in 0..1024u32 {
        let order: Vec<usize> = (0..10).map(|i| (code >> i) as usize & 1).collect();
        assert_eq!(round_in_order(&order), expected);
    }
}

/// A console that goes on the air under its peer's packet receive at 10, with
/// visits in the given order; what the receive comes back with, and the bytes
/// of the link at the end.
fn join_in_order(clock: u64, order: &[usize]) -> (bool, Vec<u8>) {
    let mut air = Air::default();
    air.mp_begin(0);
    air.start_receive(0, 10);
    let mut at = [0usize, 0usize];
    let mut got_frame = false;
    let mut turns: Vec<usize> = order.to_vec();
    for _ in 0..10 {
        turns.push(0);
        turns.push(1);
    }
    for me in turns {
        let moved = match (me, at[me]) {
            (0, 0) => match air.mp_recv_packet(0, 10) {
                Some(received) => { got_frame = matches!(received, Received::Frame(_)); true }
                None => false,
            },
            (0, 1) => { air.finish_frame(0); true }
            (1, 0) => { air.mp_begin(1); true }
            (1, 1) => { air.mp_send_packet(1, &[9], clock); true }
            (1, 2) => { air.mp_clock(1, clock); true }
            (1, 3) => { air.finish_frame(1); true }
            _ => false,
        };
        if moved {
            at[me] += 1;
        }
    }
    assert_eq!(at, [2, 4]);
    (got_frame, air.capture([vec![], vec![]]).to_bytes())
}

#[test]
fn a_console_may_join_ahead_of_a_receive() {
    let expected = join_in_order(20, &[]);
    assert!(!expected.0);
    for code in 0..64u32 {
        let order: Vec<usize> = (0..6).map(|i| (code >> i) as usize & 1).collect();
        assert_eq!(join_in_order(20, &order), expected);
    }
    // One that joins behind the receive is heard, or not, by who was first.
    assert!(!join_in_order(5, &[0]).0);
    assert!(join_in_order(5, &[1, 1]).0);
}

/// A console that goes on the air under its peer's packet receive at 10,
/// listens at 5, and publishes 20, with visits in the given order; the bytes of
/// the link at the end.
fn listen_in_order(order: &[usize]) -> Vec<u8> {
    let mut air = Air::default();
    air.mp_begin(0);
    air.start_receive(0, 10);
    let mut at = [0usize, 0usize];
    let mut turns: Vec<usize> = order.to_vec();
    for _ in 0..10 {
        turns.push(0);
        turns.push(1);
    }
    for me in turns {
        let moved = match (me, at[me]) {
            (0, 0) => match air.mp_recv_packet(0, 10) {
                Some(received) => { assert!(matches!(received, Received::Nothing)); true }
                None => false,
            },
            (0, 1) => { air.finish_frame(0); true }
            (1, 0) => { air.mp_begin(1); true }
            (1, 1) => { air.start_receive(1, 5); true }
            (1, 2) => match air.mp_recv_packet(1, 5) {
                Some(received) => { assert!(matches!(received, Received::Nothing)); true }
                None => false,
            },
            (1, 3) => { air.mp_clock(1, 20); true }
            (1, 4) => { air.finish_frame(1); true }
            _ => false,
        };
        if moved {
            at[me] += 1;
        }
    }
    assert_eq!(at, [2, 5]);
    air.capture([vec![], vec![]]).to_bytes()
}

#[test]
fn a_console_may_listen_while_it_joins() {
    let expected = listen_in_order(&[]);
    for code in 0..128u32 {
        let order: Vec<usize> = (0..7).map(|i| (code >> i) as usize & 1).collect();
        assert_eq!(listen_in_order(&order), expected);
    }
}

#[test]
fn two_waiting_consoles_never_wedge() {
    for (first, second) in [(10, 20), (20, 10), (10, 10)] {
        for (a, b) in [(false, false), (false, true), (true, false), (true, true)] {
            let mut air = attached();
            let opened = [
                air.gate(0, first, a),
                air.gate(1, second, b),
                air.gate(0, first, a),
                air.gate(1, second, b),
            ];
            assert!(opened[2] || opened[1] || opened[3]);
        }
    }
}
