//! The byte format that captures are kept in.

use vstd::prelude::*;

use crate::air::frames_of;
use crate::bytes::{
    law_bytes_are_little_endian, le_bytes, le_limit, le_value, lemma_le_round_trip,
    lemma_le_value_below_limit, lemma_limits,
};
use crate::frame::{Frame, FrameView};
use crate::snapshot::{SideView, Snapshot, SnapshotView};

verus! {

// The format, as it is written.

/// A byte string, after its length in eight bytes.
pub open spec fn blob_bytes(data: Seq<u8>) -> Seq<u8> {
    le_bytes(data.len(), 8) + data
}

/// A frame: its kind, its timestamp, its association id (0 where it has
/// none) and its payload.
pub open spec fn frame_bytes(frame: FrameView) -> Seq<u8> {
    match frame {
        FrameView::Reply { ts, aid, data } => seq![1u8] + le_bytes(ts as nat, 8) + le_bytes(
            aid as nat,
            2,
        ) + blob_bytes(data),
        FrameView::Other { ts, data } => seq![0u8] + le_bytes(ts as nat, 8) + le_bytes(0, 2)
            + blob_bytes(data),
    }
}

/// Frames, one after the other.
pub open spec fn each_frame_bytes(frames: Seq<FrameView>) -> Seq<u8>
    decreases frames.len(),
{
    if frames.len() == 0 {
        Seq::empty()
    } else {
        frame_bytes(frames[0]) + each_frame_bytes(frames.drop_first())
    }
}

/// A queue: how many frames it holds, in eight bytes, and the frames.
pub open spec fn queue_bytes(frames: Seq<FrameView>) -> Seq<u8> {
    le_bytes(frames.len(), 8) + each_frame_bytes(frames)
}

/// One console's part.
pub open spec fn side_bytes(side: SideView) -> Seq<u8> {
    blob_bytes(side.console) + queue_bytes(side.incoming) + queue_bytes(side.replies) + le_bytes(
        side.progress as nat,
        8,
    ) + seq![if side.attached { 1u8 } else { 0u8 }]
}

/// A capture: both parts, and a byte that is always 0.
pub open spec fn snapshot_bytes(snapshot: SnapshotView) -> Seq<u8> {
    side_bytes(snapshot.first) + side_bytes(snapshot.second) + seq![0u8]
}

// The format, as it is read: each of these reads one thing off the front of a
// byte string, and leaves the rest.

/// A byte.
pub open spec fn read_byte(bytes: Seq<u8>) -> Option<(u8, Seq<u8>)> {
    if bytes.len() < 1 {
        None
    } else {
        Some((bytes[0], bytes.skip(1)))
    }
}

/// A number of `width` bytes.
pub open spec fn read_le(bytes: Seq<u8>, width: nat) -> Option<(nat, Seq<u8>)> {
    if bytes.len() < width {
        None
    } else {
        Some((le_value(bytes.take(width as int)), bytes.skip(width as int)))
    }
}

/// A byte string, after its length.
pub open spec fn read_blob(bytes: Seq<u8>) -> Option<(Seq<u8>, Seq<u8>)> {
    match read_le(bytes, 8) {
        Some((len, rest)) => if rest.len() < len {
            None
        } else {
            Some((rest.take(len as int), rest.skip(len as int)))
        },
        None => None,
    }
}

/// A frame: a reply if its kind is 1. The association id of any other frame
/// is passed over.
pub open spec fn read_frame(bytes: Seq<u8>) -> Option<(FrameView, Seq<u8>)> {
    match read_byte(bytes) {
        Some((kind, bytes)) => match read_le(bytes, 8) {
            Some((ts, bytes)) => match read_le(bytes, 2) {
                Some((aid, bytes)) => match read_blob(bytes) {
                    Some((data, bytes)) => Some(
                        (
                            if kind == 1 {
                                FrameView::Reply { ts: ts as u64, aid: aid as u16, data }
                            } else {
                                FrameView::Other { ts: ts as u64, data }
                            },
                            bytes,
                        ),
                    ),
                    None => None,
                },
                None => None,
            },
            None => None,
        },
        None => None,
    }
}

/// `count` frames.
pub open spec fn read_frames(bytes: Seq<u8>, count: nat) -> Option<(Seq<FrameView>, Seq<u8>)>
    decreases count,
{
    if count == 0 {
        Some((Seq::empty(), bytes))
    } else {
        match read_frame(bytes) {
            Some((frame, bytes)) => match read_frames(bytes, (count - 1) as nat) {
                Some((frames, bytes)) => Some((seq![frame] + frames, bytes)),
                None => None,
            },
            None => None,
        }
    }
}

/// A queue.
pub open spec fn read_queue(bytes: Seq<u8>) -> Option<(Seq<FrameView>, Seq<u8>)> {
    match read_le(bytes, 8) {
        Some((count, bytes)) => read_frames(bytes, count),
        None => None,
    }
}

/// One console's part. Any byte but 0 means that the console was on the air.
pub open spec fn read_side(bytes: Seq<u8>) -> Option<(SideView, Seq<u8>)> {
    match read_blob(bytes) {
        Some((console, bytes)) => match read_queue(bytes) {
            Some((incoming, bytes)) => match read_queue(bytes) {
                Some((replies, bytes)) => match read_le(bytes, 8) {
                    Some((progress, bytes)) => match read_byte(bytes) {
                        Some((attached, bytes)) => Some(
                            (
                                SideView {
                                    console,
                                    incoming,
                                    replies,
                                    progress: progress as u64,
                                    attached: attached != 0,
                                },
                                bytes,
                            ),
                        ),
                        None => None,
                    },
                    None => None,
                },
                None => None,
            },
            None => None,
        },
        None => None,
    }
}

/// A capture: both parts, and a byte that is passed over.
pub open spec fn read_snapshot(bytes: Seq<u8>) -> Option<(SnapshotView, Seq<u8>)> {
    match read_side(bytes) {
        Some((first, bytes)) => match read_side(bytes) {
            Some((second, bytes)) => match read_byte(bytes) {
                Some((_, bytes)) => Some((SnapshotView { first, second }, bytes)),
                None => None,
            },
            None => None,
        },
        None => None,
    }
}

/// One more frame goes to the end.
pub proof fn lemma_each_frame_bytes_push(frames: Seq<FrameView>, frame: FrameView)
    ensures
        each_frame_bytes(frames.push(frame)) == each_frame_bytes(frames) + frame_bytes(frame),
    decreases frames.len(),
{
    let more = frames.push(frame);
    if frames.len() == 0 {
        assert(more.drop_first() =~= Seq::empty());
        assert(each_frame_bytes(more.drop_first()) =~= Seq::empty());
        assert(each_frame_bytes(more) =~= frame_bytes(frame));
        assert(each_frame_bytes(frames) + frame_bytes(frame) =~= frame_bytes(frame));
    } else {
        assert(more.drop_first() =~= frames.drop_first().push(frame));
        lemma_each_frame_bytes_push(frames.drop_first(), frame);
        assert(each_frame_bytes(more) =~= each_frame_bytes(frames) + frame_bytes(frame));
    }
}

// What is read does not depend on what comes after it.

/// A byte, and more bytes after it.
proof fn lemma_read_byte_extends(bytes: Seq<u8>, tail: Seq<u8>)
    ensures
        read_byte(bytes) matches Some((byte, rest)) ==> read_byte(bytes + tail) == Some(
            (byte, rest + tail),
        ),
{
    if bytes.len() >= 1 {
        assert((bytes + tail).skip(1) =~= bytes.skip(1) + tail);
    }
}

/// A number, and more bytes after it.
proof fn lemma_read_le_extends(bytes: Seq<u8>, width: nat, tail: Seq<u8>)
    ensures
        read_le(bytes, width) matches Some((value, rest)) ==> read_le(bytes + tail, width) == Some(
            (value, rest + tail),
        ),
{
    if bytes.len() >= width {
        assert((bytes + tail).take(width as int) =~= bytes.take(width as int));
        assert((bytes + tail).skip(width as int) =~= bytes.skip(width as int) + tail);
    }
}

/// A byte string, and more bytes after it.
proof fn lemma_read_blob_extends(bytes: Seq<u8>, tail: Seq<u8>)
    ensures
        read_blob(bytes) matches Some((data, rest)) ==> read_blob(bytes + tail) == Some(
            (data, rest + tail),
        ),
{
    lemma_read_le_extends(bytes, 8, tail);
    if let Some((len, rest)) = read_le(bytes, 8) {
        if rest.len() >= len {
            assert((rest + tail).take(len as int) =~= rest.take(len as int));
            assert((rest + tail).skip(len as int) =~= rest.skip(len as int) + tail);
        }
    }
}

/// A frame, and more bytes after it.
proof fn lemma_read_frame_extends(bytes: Seq<u8>, tail: Seq<u8>)
    ensures
        read_frame(bytes) matches Some((frame, rest)) ==> read_frame(bytes + tail) == Some(
            (frame, rest + tail),
        ),
{
    lemma_read_byte_extends(bytes, tail);
    if let Some((_, bytes)) = read_byte(bytes) {
        lemma_read_le_extends(bytes, 8, tail);
        if let Some((_, bytes)) = read_le(bytes, 8) {
            lemma_read_le_extends(bytes, 2, tail);
            if let Some((_, bytes)) = read_le(bytes, 2) {
                lemma_read_blob_extends(bytes, tail);
            }
        }
    }
}

/// Frames, and more bytes after them.
proof fn lemma_read_frames_extends(bytes: Seq<u8>, count: nat, tail: Seq<u8>)
    ensures
        read_frames(bytes, count) matches Some((frames, rest)) ==> read_frames(bytes + tail, count)
            == Some((frames, rest + tail)),
    decreases count,
{
    if count > 0 {
        lemma_read_frame_extends(bytes, tail);
        if let Some((_, bytes)) = read_frame(bytes) {
            lemma_read_frames_extends(bytes, (count - 1) as nat, tail);
        }
    }
}

/// A queue, and more bytes after it.
proof fn lemma_read_queue_extends(bytes: Seq<u8>, tail: Seq<u8>)
    ensures
        read_queue(bytes) matches Some((frames, rest)) ==> read_queue(bytes + tail) == Some(
            (frames, rest + tail),
        ),
{
    lemma_read_le_extends(bytes, 8, tail);
    if let Some((count, bytes)) = read_le(bytes, 8) {
        lemma_read_frames_extends(bytes, count, tail);
    }
}

/// One console's part, and more bytes after it.
proof fn lemma_read_side_extends(bytes: Seq<u8>, tail: Seq<u8>)
    ensures
        read_side(bytes) matches Some((side, rest)) ==> read_side(bytes + tail) == Some(
            (side, rest + tail),
        ),
{
    lemma_read_blob_extends(bytes, tail);
    if let Some((_, bytes)) = read_blob(bytes) {
        lemma_read_queue_extends(bytes, tail);
        if let Some((_, bytes)) = read_queue(bytes) {
            lemma_read_queue_extends(bytes, tail);
            if let Some((_, bytes)) = read_queue(bytes) {
                lemma_read_le_extends(bytes, 8, tail);
                if let Some((_, bytes)) = read_le(bytes, 8) {
                    lemma_read_byte_extends(bytes, tail);
                }
            }
        }
    }
}

/// Bytes after a capture do not change what is read.
pub proof fn law_trailing_bytes_are_passed_over(bytes: Seq<u8>, tail: Seq<u8>)
    ensures
        read_snapshot(bytes) matches Some((snapshot, rest)) ==> read_snapshot(bytes + tail)
            == Some((snapshot, rest + tail)),
{
    lemma_read_side_extends(bytes, tail);
    if let Some((_, bytes)) = read_side(bytes) {
        lemma_read_side_extends(bytes, tail);
        if let Some((_, bytes)) = read_side(bytes) {
            lemma_read_byte_extends(bytes, tail);
        }
    }
}

// What is written can be read back, whatever comes after it.

/// A byte reads back.
proof fn lemma_byte_reads_back(byte: u8, tail: Seq<u8>)
    ensures
        read_byte(seq![byte] + tail) == Some((byte, tail)),
{
    assert((seq![byte] + tail).skip(1) =~= tail);
}

/// A number reads back.
proof fn lemma_le_reads_back(value: nat, width: nat, tail: Seq<u8>)
    requires
        value < le_limit(width),
    ensures
        read_le(le_bytes(value, width) + tail, width) == Some((value, tail)),
{
    lemma_le_round_trip(value, width);
    let bytes = le_bytes(value, width);
    assert((bytes + tail).take(width as int) =~= bytes);
    assert((bytes + tail).skip(width as int) =~= tail);
}

/// A byte string reads back.
proof fn lemma_blob_reads_back(data: Seq<u8>, tail: Seq<u8>)
    requires
        data.len() < le_limit(8),
    ensures
        read_blob(blob_bytes(data) + tail) == Some((data, tail)),
{
    assert(blob_bytes(data) + tail =~= le_bytes(data.len(), 8) + (data + tail));
    lemma_le_reads_back(data.len(), 8, data + tail);
    assert((data + tail).take(data.len() as int) =~= data);
    assert((data + tail).skip(data.len() as int) =~= tail);
}

/// A frame reads back.
proof fn lemma_frame_reads_back(frame: FrameView, tail: Seq<u8>)
    requires
        frame.data().len() < le_limit(8),
    ensures
        read_frame(frame_bytes(frame) + tail) == Some((frame, tail)),
{
    lemma_limits();
    let ts = frame.ts();
    let (kind, aid) = match frame {
        FrameView::Reply { aid, .. } => (1u8, aid),
        FrameView::Other { .. } => (0u8, 0u16),
    };
    let blob = blob_bytes(frame.data()) + tail;
    let from_aid = le_bytes(aid as nat, 2) + blob;
    let from_ts = le_bytes(ts as nat, 8) + from_aid;
    assert(frame_bytes(frame) + tail =~= seq![kind] + from_ts);
    lemma_byte_reads_back(kind, from_ts);
    lemma_le_reads_back(ts as nat, 8, from_aid);
    lemma_le_reads_back(aid as nat, 2, blob);
    lemma_blob_reads_back(frame.data(), tail);
}

/// Whether a queue's payloads have lengths that eight bytes can spell.
pub open spec fn spellable(frames: Seq<FrameView>) -> bool {
    &&& frames.len() < le_limit(8)
    &&& forall|i: int| 0 <= i < frames.len() ==> (#[trigger] frames[i]).data().len() < le_limit(8)
}

/// Frames read back.
proof fn lemma_frames_read_back(frames: Seq<FrameView>, tail: Seq<u8>)
    requires
        spellable(frames),
    ensures
        read_frames(each_frame_bytes(frames) + tail, frames.len()) == Some((frames, tail)),
    decreases frames.len(),
{
    if frames.len() == 0 {
        assert(each_frame_bytes(frames) + tail =~= tail);
        assert(frames =~= Seq::empty());
    } else {
        let others = frames.drop_first();
        let after = each_frame_bytes(others) + tail;
        assert(each_frame_bytes(frames) + tail =~= frame_bytes(frames[0]) + after);
        lemma_frame_reads_back(frames[0], after);
        assert forall|i: int| 0 <= i < others.len() implies (
        #[trigger] others[i]).data().len() < le_limit(8) by {
            assert(others[i] == frames[i + 1]);
        }
        lemma_frames_read_back(others, tail);
        assert(seq![frames[0]] + others =~= frames);
    }
}

/// A queue reads back.
proof fn lemma_queue_reads_back(frames: Seq<FrameView>, tail: Seq<u8>)
    requires
        spellable(frames),
    ensures
        read_queue(queue_bytes(frames) + tail) == Some((frames, tail)),
{
    let after = each_frame_bytes(frames) + tail;
    assert(queue_bytes(frames) + tail =~= le_bytes(frames.len(), 8) + after);
    lemma_le_reads_back(frames.len(), 8, after);
    lemma_frames_read_back(frames, tail);
}

/// One console's part reads back.
proof fn lemma_side_reads_back(side: SideView, tail: Seq<u8>)
    requires
        side.console.len() < le_limit(8),
        spellable(side.incoming),
        spellable(side.replies),
    ensures
        read_side(side_bytes(side) + tail) == Some((side, tail)),
{
    lemma_limits();
    let flag = if side.attached {
        1u8
    } else {
        0u8
    };
    let from_flag = seq![flag] + tail;
    let from_progress = le_bytes(side.progress as nat, 8) + from_flag;
    let from_replies = queue_bytes(side.replies) + from_progress;
    let from_incoming = queue_bytes(side.incoming) + from_replies;
    assert(side_bytes(side) + tail =~= blob_bytes(side.console) + from_incoming);
    lemma_blob_reads_back(side.console, from_incoming);
    lemma_queue_reads_back(side.incoming, from_replies);
    lemma_queue_reads_back(side.replies, from_progress);
    lemma_le_reads_back(side.progress as nat, 8, from_flag);
    lemma_byte_reads_back(flag, tail);
}

/// The queues of a capture hold what eight bytes can spell.
proof fn lemma_spellable(frames: Seq<Frame>)
    requires
        frames.len() <= usize::MAX,
    ensures
        spellable(frames_of(frames)),
{
    lemma_limits();
    let views = frames_of(frames);
    assert forall|i: int| 0 <= i < views.len() implies (#[trigger] views[i]).data().len()
        < le_limit(8) by {
        match frames[i] {
            Frame::Reply { data, .. } => {
                assert(data@.len() == data.len());
            },
            Frame::Other { data, .. } => {
                assert(data@.len() == data.len());
            },
        }
    }
}

/// Reading what was written gives back the capture, and nothing is left.
pub proof fn law_bytes_round_trip(snapshot: Snapshot)
    ensures
        read_snapshot(snapshot_bytes(snapshot@)) == Some((snapshot@, Seq::<u8>::empty())),
{
    lemma_limits();
    let none = Seq::<u8>::empty();
    let first = snapshot@.first;
    let second = snapshot@.second;
    assert(snapshot.consoles@[0]@.len() == snapshot.consoles@[0].len());
    assert(snapshot.consoles@[1]@.len() == snapshot.consoles@[1].len());
    assert(snapshot.incoming@[0]@.len() == snapshot.incoming@[0].len());
    assert(snapshot.incoming@[1]@.len() == snapshot.incoming@[1].len());
    assert(snapshot.replies@[0]@.len() == snapshot.replies@[0].len());
    assert(snapshot.replies@[1]@.len() == snapshot.replies@[1].len());
    lemma_spellable(snapshot.incoming@[0]@);
    lemma_spellable(snapshot.incoming@[1]@);
    lemma_spellable(snapshot.replies@[0]@);
    lemma_spellable(snapshot.replies@[1]@);
    let last = seq![0u8] + none;
    let from_second = side_bytes(second) + last;
    assert(snapshot_bytes(snapshot@) =~= side_bytes(first) + from_second);
    lemma_side_reads_back(first, from_second);
    lemma_side_reads_back(second, last);
    lemma_byte_reads_back(0, none);
}

/// A capture's bytes, cut short anywhere, are refused.
pub proof fn law_truncated_bytes_are_refused(snapshot: Snapshot, len: int)
    requires
        0 <= len < snapshot_bytes(snapshot@).len(),
    ensures
        read_snapshot(snapshot_bytes(snapshot@).take(len)) is None,
{
    let bytes = snapshot_bytes(snapshot@);
    let cut = bytes.take(len);
    let tail = bytes.skip(len);
    assert(cut + tail =~= bytes);
    law_bytes_round_trip(snapshot);
    law_trailing_bytes_are_passed_over(cut, tail);
    if let Some((_, rest)) = read_snapshot(cut) {
        assert((rest + tail).len() == 0);
    }
}

// The format, place by place.

/// A byte string starts with its length in eight bytes; the rest is the byte
/// string.
pub proof fn law_blob_layout(data: Seq<u8>)
    ensures
        blob_bytes(data).len() == 8 + data.len(),
        blob_bytes(data).take(8) == le_bytes(data.len(), 8),
        blob_bytes(data).skip(8) == data,
{
    lemma_le_width(data.len(), 8);
    assert(blob_bytes(data).take(8) =~= le_bytes(data.len(), 8));
    assert(blob_bytes(data).skip(8) =~= data);
}

/// Numbers take the bytes they are given.
proof fn lemma_le_width(value: nat, width: nat)
    requires
        width > 0,
    ensures
        le_bytes(value, width).len() == width,
{
    law_bytes_are_little_endian(value, width, 0);
}

/// A frame is its kind in one byte, 1 for a reply and 0 for any other, its stamp
/// in eight, its association id in two, which are 0 where it has none, its
/// payload's length in eight, and its payload.
pub proof fn law_frame_layout(frame: FrameView)
    ensures
        frame_bytes(frame).len() == 19 + frame.data().len(),
        frame_bytes(frame)[0] == if frame is Reply {
            1u8
        } else {
            0u8
        },
        frame_bytes(frame).subrange(1, 9) == le_bytes(frame.ts() as nat, 8),
        frame_bytes(frame).subrange(9, 11) == le_bytes(
            match frame {
                FrameView::Reply { aid, .. } => aid as nat,
                FrameView::Other { .. } => 0,
            },
            2,
        ),
        frame_bytes(frame).subrange(11, 19) == le_bytes(frame.data().len(), 8),
        frame_bytes(frame).skip(19) == frame.data(),
{
    let aid = match frame {
        FrameView::Reply { aid, .. } => aid as nat,
        FrameView::Other { .. } => 0,
    };
    let bytes = frame_bytes(frame);
    lemma_le_width(frame.ts() as nat, 8);
    lemma_le_width(aid, 2);
    lemma_le_width(frame.data().len(), 8);
    law_blob_layout(frame.data());
    let blob = blob_bytes(frame.data());
    assert(bytes.subrange(1, 9) =~= le_bytes(frame.ts() as nat, 8));
    assert(bytes.subrange(9, 11) =~= le_bytes(aid, 2));
    assert(bytes.skip(11) =~= blob);
    assert(bytes.subrange(11, 19) =~= blob.take(8));
    assert(bytes.skip(19) =~= blob.skip(8));
}

/// A queue is how many frames it holds, in eight bytes, and then its frames,
/// first to last.
pub proof fn law_queue_layout(frames: Seq<FrameView>, frame: FrameView)
    ensures
        queue_bytes(frames).take(8) == le_bytes(frames.len(), 8),
        queue_bytes(Seq::<FrameView>::empty()).len() == 8,
        queue_bytes(frames.push(frame)).skip(8) == queue_bytes(frames).skip(8) + frame_bytes(frame),
{
    lemma_le_width(frames.len(), 8);
    lemma_le_width(frames.len() + 1, 8);
    lemma_le_width(0, 8);
    lemma_each_frame_bytes_push(frames, frame);
    assert(queue_bytes(frames).take(8) =~= le_bytes(frames.len(), 8));
    assert(queue_bytes(frames).skip(8) =~= each_frame_bytes(frames));
    assert(queue_bytes(frames.push(frame)).skip(8) =~= each_frame_bytes(frames.push(frame)));
}

/// One console's part is its state, its incoming queue, its replies, its clock
/// in eight bytes, and a byte that is 1 if it is on the air and 0 if not.
pub proof fn law_side_layout(side: SideView)
    ensures
        ({
            let bytes = side_bytes(side);
            let queues: int = 8 + side.console.len() as int;
            let replies: int = queues + queue_bytes(side.incoming).len();
            let clock: int = replies + queue_bytes(side.replies).len();
            &&& bytes.len() == clock + 9
            &&& bytes.take(queues) == blob_bytes(side.console)
            &&& bytes.subrange(queues, replies) == queue_bytes(side.incoming)
            &&& bytes.subrange(replies, clock) == queue_bytes(side.replies)
            &&& bytes.subrange(clock, clock + 8) == le_bytes(side.progress as nat, 8)
            &&& bytes[clock + 8] == if side.attached {
                1u8
            } else {
                0u8
            }
        }),
{
    let bytes = side_bytes(side);
    law_blob_layout(side.console);
    lemma_le_width(side.progress as nat, 8);
    let queues: int = 8 + side.console.len() as int;
    let replies: int = queues + queue_bytes(side.incoming).len();
    let clock: int = replies + queue_bytes(side.replies).len();
    assert(bytes.take(queues) =~= blob_bytes(side.console));
    assert(bytes.subrange(queues, replies) =~= queue_bytes(side.incoming));
    assert(bytes.subrange(replies, clock) =~= queue_bytes(side.replies));
    assert(bytes.subrange(clock, clock + 8) =~= le_bytes(side.progress as nat, 8));
}

/// A capture is the part of seat 0, the part of seat 1, and a byte that is 0.
pub proof fn law_capture_layout(snapshot: SnapshotView)
    ensures
        ({
            let bytes = snapshot_bytes(snapshot);
            let first = side_bytes(snapshot.first);
            let second = side_bytes(snapshot.second);
            let end = first.len() + second.len();
            &&& bytes.len() == end + 1
            &&& bytes.take(first.len() as int) == first
            &&& bytes.subrange(first.len() as int, end as int) == second
            &&& bytes[end as int] == 0
        }),
{
    let bytes = snapshot_bytes(snapshot);
    let first = side_bytes(snapshot.first);
    let second = side_bytes(snapshot.second);
    assert(bytes.take(first.len() as int) =~= first);
    assert(bytes.subrange(first.len() as int, (first.len() + second.len()) as int) =~= second);
}

/// A frame is read off the front of any bytes that hold one: 19 bytes, and as
/// many more as the last eight of them say. Only a kind of 1 makes a reply.
pub proof fn law_frame_is_read_by_place(bytes: Seq<u8>)
    ensures
        ({
            let len = le_value(bytes.subrange(11, 19));
            if bytes.len() < 19 || bytes.len() < 19 + len {
                read_frame(bytes) is None
            } else {
                &&& read_frame(bytes) matches Some((frame, rest))
                &&& rest == bytes.skip(19 + len as int)
                &&& frame.data() == bytes.subrange(19, 19 + len as int)
                &&& frame.ts() == le_value(bytes.subrange(1, 9))
                &&& frame is Reply <==> bytes[0] == 1
                &&& frame matches FrameView::Reply { aid, .. } ==> aid == le_value(
                    bytes.subrange(9, 11),
                )
            }
        }),
{
    lemma_limits();
    if bytes.len() >= 9 {
        let from_ts = bytes.skip(1);
        let from_aid = from_ts.skip(8);
        assert(from_ts.take(8) =~= bytes.subrange(1, 9));
        lemma_le_value_below_limit(bytes.subrange(1, 9));
        if bytes.len() >= 11 {
            let from_len = from_aid.skip(2);
            assert(from_aid.take(2) =~= bytes.subrange(9, 11));
            lemma_le_value_below_limit(bytes.subrange(9, 11));
            assert(from_len =~= bytes.skip(11));
            if bytes.len() >= 19 {
                let len = le_value(bytes.subrange(11, 19));
                assert(from_len.take(8) =~= bytes.subrange(11, 19));
                let rest = from_len.skip(8);
                assert(rest =~= bytes.skip(19));
                if rest.len() >= len {
                    assert(rest.take(len as int) =~= bytes.subrange(19, 19 + len as int));
                    assert(rest.skip(len as int) =~= bytes.skip(19 + len as int));
                }
            }
        }
    }
}

/// A byte string is read off the front of any bytes that hold one: eight bytes,
/// and as many more as they say.
pub proof fn law_blob_is_read_by_place(bytes: Seq<u8>)
    ensures
        ({
            let len = le_value(bytes.take(8));
            if bytes.len() < 8 || bytes.len() < 8 + len {
                read_blob(bytes) is None
            } else {
                read_blob(bytes) == Some(
                    (bytes.subrange(8, 8 + len as int), bytes.skip(8 + len as int)),
                )
            }
        }),
{
    if bytes.len() >= 8 {
        let len = le_value(bytes.take(8));
        let rest = bytes.skip(8);
        if rest.len() >= len {
            assert(rest.take(len as int) =~= bytes.subrange(8, 8 + len as int));
            assert(rest.skip(len as int) =~= bytes.skip(8 + len as int));
        }
    }
}

/// Frames are read one after the other, as many as are asked for, and none are
/// read if one of them cannot be.
pub proof fn law_frames_are_read_in_order(bytes: Seq<u8>, count: nat)
    ensures
        read_frames(bytes, 0) matches Some((frames, rest)) && frames.len() == 0 && rest == bytes,
        match read_frames(bytes, count) {
            Some((frames, rest)) => frames.len() == count && match read_frame(rest) {
                Some((frame, after)) => read_frames(bytes, count + 1) == Some(
                    (frames.push(frame), after),
                ),
                None => read_frames(bytes, count + 1) is None,
            },
            None => read_frames(bytes, count + 1) is None,
        },
    decreases count,
{
    if count == 0 {
        if let Some((frame, after)) = read_frame(bytes) {
            assert(read_frames(after, 0) == Some((Seq::<FrameView>::empty(), after)));
            assert(seq![frame] + Seq::<FrameView>::empty() =~= Seq::<FrameView>::empty().push(
                frame,
            ));
        }
        assert(read_frames(bytes, 1) == match read_frame(bytes) {
            Some((frame, after)) => match read_frames(after, 0) {
                Some((frames, after)) => Some((seq![frame] + frames, after)),
                None => None,
            },
            None => None,
        });
    } else if let Some((first, others)) = read_frame(bytes) {
        law_frames_are_read_in_order(others, (count - 1) as nat);
        if let Some((frames, rest)) = read_frames(others, (count - 1) as nat) {
            if let Some((frame, _)) = read_frame(rest) {
                assert(seq![first] + frames.push(frame) =~= (seq![first] + frames).push(frame));
            }
        }
    }
}

/// A capture is read piece by piece: for each seat its state, its two queues,
/// each as many frames as it says, its clock and whether it is on the air, which
/// any byte but 0 says; and one byte more, whatever it is.
pub proof fn law_capture_is_read_piece_by_piece(bytes: Seq<u8>)
    ensures
        read_queue(bytes) == if bytes.len() < 8 {
            None
        } else {
            read_frames(bytes.skip(8), le_value(bytes.take(8)))
        },
        read_side(bytes) matches Some((side, rest)) ==> {
            &&& read_blob(bytes) matches Some((console, queues))
            &&& read_queue(queues) matches Some((incoming, more))
            &&& read_queue(more) matches Some((replies, tail))
            &&& tail.len() >= 9
            &&& side.console == console && side.incoming == incoming && side.replies == replies
            &&& side.progress == le_value(tail.take(8))
            &&& side.attached == (tail[8] != 0)
            &&& rest == tail.skip(9)
        },
        read_side(bytes) is None ==> {
            ||| read_blob(bytes) is None
            ||| read_blob(bytes) matches Some((_, queues)) && {
                ||| read_queue(queues) is None
                ||| read_queue(queues) matches Some((_, more)) && {
                    ||| read_queue(more) is None
                    ||| read_queue(more) matches Some((_, tail)) && tail.len() < 9
                }
            }
        },
        match read_snapshot(bytes) {
            Some((snapshot, rest)) => {
                &&& read_side(bytes) matches Some((first, others))
                &&& read_side(others) matches Some((second, last))
                &&& last.len() > 0
                &&& snapshot.first == first && snapshot.second == second
                &&& rest == last.skip(1)
            },
            None => {
                ||| read_side(bytes) is None
                ||| read_side(bytes) matches Some((_, others)) && {
                    ||| read_side(others) is None
                    ||| read_side(others) matches Some((_, last)) && last.len() == 0
                }
            },
        },
{
    lemma_limits();
    if let Some((_, queues)) = read_blob(bytes) {
        if let Some((_, more)) = read_queue(queues) {
            if let Some((_, tail)) = read_queue(more) {
                if tail.len() >= 8 {
                    lemma_le_value_below_limit(tail.take(8));
                    assert(tail.len() > 8 ==> tail.skip(8).skip(1) =~= tail.skip(9));
                }
            }
        }
    }
}

} // verus!
