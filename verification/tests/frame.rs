use melonds_rollback::frame::overwrite;
use melonds_rollback::Frame;

#[test]
fn timestamp_of_either_kind() {
    assert_eq!(Frame::Reply { ts: 7, aid: 1, data: vec![] }.timestamp(), 7);
    assert_eq!(Frame::Other { ts: u64::MAX, data: vec![1] }.timestamp(), u64::MAX);
}

#[test]
fn len_counts_the_payload() {
    assert_eq!(Frame::Reply { ts: 7, aid: 1, data: vec![4, 5] }.len(), 2);
    assert_eq!(Frame::Other { ts: 7, data: vec![] }.len(), 0);
}

#[test]
fn deliver_writes_payload_and_stamp() {
    let mut out = [9u8; 5];
    let mut ts = 0;
    let len = Frame::Other { ts: 42, data: vec![1, 2, 3] }.deliver(&mut out, &mut ts);
    assert_eq!(len, 3);
    assert_eq!(ts, 42);
    assert_eq!(out, [1, 2, 3, 9, 9]);

    let len = Frame::Reply { ts: 43, aid: 2, data: vec![8] }.deliver(&mut out, &mut ts);
    assert_eq!(len, 1);
    assert_eq!(ts, 43);
    assert_eq!(out, [8, 2, 3, 9, 9]);
}

#[test]
fn deliver_fills_a_buffer_of_its_size() {
    let mut out = [0u8; 2];
    let mut ts = 0;
    assert_eq!(Frame::Other { ts: 1, data: vec![6, 7] }.deliver(&mut out, &mut ts), 2);
    assert_eq!(out, [6, 7]);
}

#[test]
fn overwrite_keeps_what_is_around() {
    let mut out = [0u8; 6];
    overwrite(&mut out, 2, &[1, 2]);
    assert_eq!(out, [0, 0, 1, 2, 0, 0]);
    overwrite(&mut out, 6, &[]);
    assert_eq!(out, [0, 0, 1, 2, 0, 0]);
}

#[test]
fn clone_keeps_kind_and_payload() {
    match (Frame::Reply { ts: 3, aid: 9, data: vec![1] }).clone() {
        Frame::Reply { ts, aid, data } => {
            assert_eq!((ts, aid, data), (3, 9, vec![1]));
        }
        Frame::Other { .. } => panic!("kind changed"),
    }
    match (Frame::Other { ts: 4, data: vec![2, 3] }).clone() {
        Frame::Other { ts, data } => assert_eq!((ts, data), (4, vec![2, 3])),
        Frame::Reply { .. } => panic!("kind changed"),
    }
}
