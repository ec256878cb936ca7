use melonds_rollback::bytes::{get_le, put_le};
use melonds_rollback::{Frame, Snapshot};

fn sample() -> Snapshot {
    Snapshot {
        consoles: [vec![1, 2, 3], vec![]],
        incoming: [vec![Frame::Other { ts: 5, data: vec![9] }], vec![]],
        replies: [
            vec![],
            vec![
                Frame::Reply { ts: 6, aid: 0x0102, data: vec![7, 8] },
                Frame::Reply { ts: u64::MAX, aid: 1, data: vec![] },
            ],
        ],
        progress: [0x0807060504030201, 4],
        attached: [true, false],
    }
}

fn empty() -> Snapshot {
    Snapshot {
        consoles: [vec![], vec![]],
        incoming: [vec![], vec![]],
        replies: [vec![], vec![]],
        progress: [0, 0],
        attached: [false, false],
    }
}

#[test]
fn size_adds_both_consoles() {
    assert_eq!(sample().size(), 3);
    assert_eq!(empty().size(), 0);
    let mut snap = sample();
    snap.consoles[1] = vec![0; 10];
    assert_eq!(snap.size(), 13);
}

#[test]
fn bytes_are_little_endian() {
    let mut out = vec![0xff];
    put_le(&mut out, 0x1234, 8);
    assert_eq!(out, [0xff, 0x34, 0x12, 0, 0, 0, 0, 0, 0]);
    put_le(&mut out, 0x0102, 2);
    assert_eq!(&out[9..], &[2, 1]);
    assert_eq!(get_le(&out, 1, 8), 0x1234);
    assert_eq!(get_le(&out, 9, 2), 0x0102);
    assert_eq!(get_le(&[0xff; 8], 0, 8), u64::MAX);
}

#[test]
fn to_bytes_spells_the_format() {
    let expected: Vec<u8> = [
        // First console: its state, one frame, no reply, its clock, on the air.
        &[3, 0, 0, 0, 0, 0, 0, 0, 1, 2, 3][..],
        &[1, 0, 0, 0, 0, 0, 0, 0],
        &[0, 5, 0, 0, 0, 0, 0, 0, 0, 0, 0, 1, 0, 0, 0, 0, 0, 0, 0, 9],
        &[0, 0, 0, 0, 0, 0, 0, 0],
        &[1, 2, 3, 4, 5, 6, 7, 8],
        &[1],
        // Second console: no state, no frame, two replies, its clock, off.
        &[0, 0, 0, 0, 0, 0, 0, 0],
        &[0, 0, 0, 0, 0, 0, 0, 0],
        &[2, 0, 0, 0, 0, 0, 0, 0],
        &[1, 6, 0, 0, 0, 0, 0, 0, 0, 2, 1, 2, 0, 0, 0, 0, 0, 0, 0, 7, 8],
        &[1, 255, 255, 255, 255, 255, 255, 255, 255, 1, 0, 0, 0, 0, 0, 0, 0, 0, 0],
        &[4, 0, 0, 0, 0, 0, 0, 0],
        &[0],
        // The byte at the end.
        &[0],
    ]
    .concat();
    assert_eq!(sample().to_bytes(), expected);
    assert_eq!(empty().to_bytes(), vec![0u8; 67]);
}

#[test]
fn bytes_round_trip() {
    let read = Snapshot::from_bytes(&sample().to_bytes()).unwrap();
    assert_eq!(read.consoles, [vec![1, 2, 3], vec![]]);
    assert_eq!(read.progress, [0x0807060504030201, 4]);
    assert_eq!(read.attached, [true, false]);
    assert_eq!(read.incoming[0].len(), 1);
    assert_eq!(read.replies[1].len(), 2);
    match &read.replies[1][0] {
        Frame::Reply { ts, aid, data } => assert_eq!((*ts, *aid, data.clone()), (6, 0x0102, vec![7, 8])),
        Frame::Other { .. } => panic!("kind changed"),
    }
    match &read.incoming[0][0] {
        Frame::Other { ts, data } => assert_eq!((*ts, data.clone()), (5, vec![9])),
        Frame::Reply { .. } => panic!("kind changed"),
    }
    assert_eq!(read.to_bytes(), sample().to_bytes());
    assert!(Snapshot::from_bytes(&empty().to_bytes()).is_some());
}

#[test]
fn truncated_bytes_are_refused() {
    let bytes = sample().to_bytes();
    for len in 0..bytes.len() {
        assert!(Snapshot::from_bytes(&bytes[..len]).is_none());
    }
    assert!(Snapshot::from_bytes(&bytes).is_some());
}

#[test]
fn trailing_bytes_are_passed_over() {
    let mut bytes = sample().to_bytes();
    bytes.extend_from_slice(&[1, 2, 3]);
    assert_eq!(Snapshot::from_bytes(&bytes).unwrap().to_bytes(), sample().to_bytes());
}

#[test]
fn absurd_lengths_are_refused() {
    // A console state that claims to be longer than memory.
    assert!(Snapshot::from_bytes(&[0xff; 100]).is_none());
    // A queue that claims more frames than there can be.
    let mut bytes = vec![0u8; 8];
    bytes.extend_from_slice(&[0xff; 8]);
    bytes.extend_from_slice(&[0; 40]);
    assert!(Snapshot::from_bytes(&bytes).is_none());
    // A payload that claims to wrap around.
    let mut bytes = vec![0u8; 8];
    bytes.extend_from_slice(&[1, 0, 0, 0, 0, 0, 0, 0]);
    bytes.extend_from_slice(&[1, 0, 0, 0, 0, 0, 0, 0, 0, 1, 0]);
    bytes.extend_from_slice(&[0xff; 8]);
    bytes.extend_from_slice(&[0; 40]);
    assert!(Snapshot::from_bytes(&bytes).is_none());
}

#[test]
fn lenient_bytes_are_read() {
    // Any kind but 1 is no reply, whatever its id; any flag but 0 is on the
    // air; the last byte does not matter.
    let mut bytes = vec![0u8; 8];
    bytes.extend_from_slice(&[1, 0, 0, 0, 0, 0, 0, 0]);
    bytes.extend_from_slice(&[2, 9, 0, 0, 0, 0, 0, 0, 0, 3, 3]);
    bytes.extend_from_slice(&[1, 0, 0, 0, 0, 0, 0, 0, 77]);
    bytes.extend_from_slice(&[0; 16]);
    bytes.push(200);
    bytes.extend_from_slice(&[0; 33]);
    bytes.push(123);
    let read = Snapshot::from_bytes(&bytes).unwrap();
    assert_eq!(read.attached, [true, false]);
    match &read.incoming[0][0] {
        Frame::Other { ts, data } => assert_eq!((*ts, data.clone()), (9, vec![77])),
        Frame::Reply { .. } => panic!("read as a reply"),
    }
}

#[test]
fn clone_is_the_same_capture() {
    assert_eq!(sample().clone().to_bytes(), sample().to_bytes());
}
