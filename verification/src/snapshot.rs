//! Captures of an entire link.

use vstd::prelude::*;

use crate::air::frames_of;
use crate::bytes::{get_le, le_bytes, le_limit, lemma_limits, put_all, put_le};
use crate::format::{
    blob_bytes, each_frame_bytes, frame_bytes, lemma_each_frame_bytes_push, queue_bytes, read_blob,
    read_byte, read_frame, read_frames, read_le, read_queue, read_side, read_snapshot, side_bytes,
    snapshot_bytes,
};
use crate::frame::{Frame, FrameView};

verus! {

/// A point-in-time capture of an entire link: both consoles and the frames
/// still in flight between them.
#[derive(Debug)]
pub struct Snapshot {
    /// The consoles' serialized states.
    pub consoles: [Vec<u8>; 2],
    /// The frames queued for each console, but for replies.
    pub incoming: [Vec<Frame>; 2],
    /// The replies queued for each console.
    pub replies: [Vec<Frame>; 2],
    /// The bounds that the consoles had published.
    pub progress: [u64; 2],
    /// Which consoles were on the air.
    pub attached: [bool; 2],
}

/// One console's part of a capture.
#[verifier::ext_equal]
pub struct SideView {
    pub console: Seq<u8>,
    pub incoming: Seq<FrameView>,
    pub replies: Seq<FrameView>,
    pub progress: u64,
    pub attached: bool,
}

/// What a [`Snapshot`] holds.
#[verifier::ext_equal]
pub struct SnapshotView {
    pub first: SideView,
    pub second: SideView,
}

impl Snapshot {
    /// The part of seat `i`.
    pub open spec fn side(&self, i: int) -> SideView {
        SideView {
            console: self.consoles@[i]@,
            incoming: frames_of(self.incoming@[i]@),
            replies: frames_of(self.replies@[i]@),
            progress: self.progress@[i],
            attached: self.attached@[i],
        }
    }
}

impl View for Snapshot {
    type V = SnapshotView;

    open spec fn view(&self) -> SnapshotView {
        SnapshotView { first: self.side(0), second: self.side(1) }
    }
}

/// Copies frames, in order.
fn copied(frames: &Vec<Frame>) -> (copy: Vec<Frame>)
    ensures
        frames_of(copy@) == frames_of(frames@),
{
    let mut copy: Vec<Frame> = Vec::new();
    let mut i: usize = 0;
    while i < frames.len()
        invariant
            i <= frames@.len(),
            copy@.len() == i,
            forall|k: int| 0 <= k < i ==> (#[trigger] copy@[k])@ == frames@[k]@,
        decreases frames.len() - i,
    {
        copy.push(frames[i].clone());
        i = i + 1;
    }
    assert(frames_of(copy@) =~= frames_of(frames@));
    copy
}

impl Clone for Snapshot {
    fn clone(&self) -> (copy: Self)
        ensures
            copy@ == self@,
    {
        Snapshot {
            consoles: [
                vstd::slice::slice_to_vec(self.consoles[0].as_slice()),
                vstd::slice::slice_to_vec(self.consoles[1].as_slice()),
            ],
            incoming: [copied(&self.incoming[0]), copied(&self.incoming[1])],
            replies: [copied(&self.replies[0]), copied(&self.replies[1])],
            progress: self.progress,
            attached: self.attached,
        }
    }
}

/// Appends a byte string, after its length.
fn put_blob(out: &mut Vec<u8>, data: &[u8])
    ensures
        final(out)@ == old(out)@ + blob_bytes(data@),
{
    put_le(out, data.len() as u64, 8);
    put_all(out, data);
    assert(out@ =~= old(out)@ + blob_bytes(data@));
}

/// Appends a frame.
fn put_frame(out: &mut Vec<u8>, frame: &Frame)
    ensures
        final(out)@ == old(out)@ + frame_bytes(frame@),
{
    match frame {
        Frame::Reply { ts, aid, data } => {
            out.push(1);
            put_le(out, *ts, 8);
            put_le(out, *aid as u64, 2);
            put_blob(out, data.as_slice());
        },
        Frame::Other { ts, data } => {
            out.push(0);
            put_le(out, *ts, 8);
            put_le(out, 0, 2);
            put_blob(out, data.as_slice());
        },
    }
    assert(out@ =~= old(out)@ + frame_bytes(frame@));
}

/// Appends a queue.
fn put_queue(out: &mut Vec<u8>, frames: &Vec<Frame>)
    ensures
        final(out)@ == old(out)@ + queue_bytes(frames_of(frames@)),
{
    let ghost all = frames_of(frames@);
    let ghost start = out@;
    put_le(out, frames.len() as u64, 8);
    let mut i: usize = 0;
    assert(out@ =~= start + le_bytes(all.len(), 8) + each_frame_bytes(all.take(0)));
    while i < frames.len()
        invariant
            i <= frames@.len(),
            all == frames_of(frames@),
            out@ == start + le_bytes(all.len(), 8) + each_frame_bytes(all.take(i as int)),
        decreases frames.len() - i,
    {
        put_frame(out, &frames[i]);
        proof {
            lemma_each_frame_bytes_push(all.take(i as int), all[i as int]);
            assert(all.take(i + 1) =~= all.take(i as int).push(all[i as int]));
            assert(out@ =~= start + le_bytes(all.len(), 8) + each_frame_bytes(all.take(i + 1)));
        }
        i = i + 1;
    }
    assert(all.take(i as int) =~= all);
    assert(out@ =~= start + queue_bytes(all));
}

impl Snapshot {
    /// Total bytes of console state held, for callers budgeting a rollback
    /// buffer.
    pub fn size(&self) -> (size: usize)
        requires
            self@.first.console.len() + self@.second.console.len() <= usize::MAX,
        ensures
            size == self@.first.console.len() + self@.second.console.len(),
    {
        self.consoles[0].len() + self.consoles[1].len()
    }

    /// Appends the part of seat `i`.
    fn put_side(&self, out: &mut Vec<u8>, i: usize)
        requires
            i < 2,
        ensures
            final(out)@ == old(out)@ + side_bytes(self.side(i as int)),
    {
        put_blob(out, self.consoles[i].as_slice());
        put_queue(out, &self.incoming[i]);
        put_queue(out, &self.replies[i]);
        put_le(out, self.progress[i], 8);
        out.push(
            if self.attached[i] {
                1
            } else {
                0
            },
        );
        assert(out@ =~= old(out)@ + side_bytes(self.side(i as int)));
    }

    /// Serializes to bytes, so that a primed link can be cached on disk
    /// instead of walked through the game's menus again.
    pub fn to_bytes(&self) -> (bytes: Vec<u8>)
        ensures
            bytes@ == snapshot_bytes(self@),
    {
        let mut out: Vec<u8> = Vec::new();
        self.put_side(&mut out, 0);
        self.put_side(&mut out, 1);
        out.push(0);
        assert(out@ =~= snapshot_bytes(self@));
        out
    }
}

/// A place in a byte string that is being read.
struct Reader<'a> {
    bytes: &'a [u8],
    at: usize,
}

impl<'a> Reader<'a> {
    /// Whether the place lies within the bytes.
    spec fn wf(self) -> bool {
        self.at <= self.bytes@.len()
    }

    /// What is left to read.
    spec fn rest(self) -> Seq<u8> {
        self.bytes@.skip(self.at as int)
    }

    /// Reads a byte.
    fn byte(&mut self) -> (read: Option<u8>)
        requires
            old(self).wf(),
        ensures
            final(self).wf(),
            match read {
                Some(byte) => read_byte(old(self).rest()) == Some((byte, final(self).rest())),
                None => read_byte(old(self).rest()) is None,
            },
    {
        if self.at >= self.bytes.len() {
            return None;
        }
        let byte: u8 = self.bytes[self.at];
        self.at = self.at + 1;
        assert(old(self).rest().skip(1) =~= self.rest());
        Some(byte)
    }

    /// Reads a number of `width` bytes.
    fn le(&mut self, width: usize) -> (read: Option<u64>)
        requires
            old(self).wf(),
            width <= 8,
        ensures
            final(self).wf(),
            match read {
                Some(value) => {
                    &&& read_le(old(self).rest(), width as nat) == Some(
                        (value as nat, final(self).rest()),
                    )
                    &&& value < le_limit(width as nat)
                },
                None => read_le(old(self).rest(), width as nat) is None,
            },
    {
        if self.bytes.len() - self.at < width {
            return None;
        }
        let value: u64 = get_le(self.bytes, self.at, width);
        assert(self.bytes@.subrange(self.at as int, self.at + width) =~= self.rest().take(
            width as int,
        ));
        self.at = self.at + width;
        assert(old(self).rest().skip(width as int) =~= self.rest());
        Some(value)
    }

    /// Reads a byte string, after its length.
    fn blob(&mut self) -> (read: Option<Vec<u8>>)
        requires
            old(self).wf(),
        ensures
            final(self).wf(),
            match read {
                Some(data) => read_blob(old(self).rest()) == Some((data@, final(self).rest())),
                None => read_blob(old(self).rest()) is None,
            },
    {
        let len: u64 = self.le(8)?;
        let left: usize = self.bytes.len() - self.at;
        if len > left as u64 {
            return None;
        }
        let ghost before = self.rest();
        let end: usize = self.at + len as usize;
        let data: Vec<u8> = vstd::slice::slice_to_vec(
            vstd::slice::slice_subrange(self.bytes, self.at, end),
        );
        assert(data@ =~= before.take(len as int));
        self.at = end;
        assert(before.skip(len as int) =~= self.rest());
        Some(data)
    }

    /// Reads a frame.
    fn frame(&mut self) -> (read: Option<Frame>)
        requires
            old(self).wf(),
        ensures
            final(self).wf(),
            match read {
                Some(frame) => read_frame(old(self).rest()) == Some((frame@, final(self).rest())),
                None => read_frame(old(self).rest()) is None,
            },
    {
        proof {
            lemma_limits();
        }
        let kind: u8 = self.byte()?;
        let ts: u64 = self.le(8)?;
        let aid: u64 = self.le(2)?;
        let data: Vec<u8> = self.blob()?;
        Some(
            if kind == 1 {
                Frame::Reply { ts, aid: aid as u16, data }
            } else {
                Frame::Other { ts, data }
            },
        )
    }

    /// Reads a queue.
    fn queue(&mut self) -> (read: Option<Vec<Frame>>)
        requires
            old(self).wf(),
        ensures
            final(self).wf(),
            match read {
                Some(frames) => read_queue(old(self).rest()) == Some(
                    (frames_of(frames@), final(self).rest()),
                ),
                None => read_queue(old(self).rest()) is None,
            },
    {
        let count: u64 = self.le(8)?;
        let ghost start = self.rest();
        let mut frames: Vec<Frame> = Vec::new();
        let mut left: u64 = count;
        proof {
            assert(frames_of(frames@) =~= Seq::empty());
            if let Some((more, _)) = read_frames(start, count as nat) {
                assert(Seq::<FrameView>::empty() + more =~= more);
            }
        }
        while left > 0
            invariant
                self.wf(),
                left <= count,
                read_frames(start, count as nat) == match read_frames(self.rest(), left as nat) {
                    Some((more, rest)) => Some((frames_of(frames@) + more, rest)),
                    None => None,
                },
                read_queue(old(self).rest()) == read_frames(start, count as nat),
            decreases left,
        {
            let ghost so_far = frames_of(frames@);
            let frame: Frame = self.frame()?;
            frames.push(frame);
            left = left - 1;
            proof {
                assert(frames_of(frames@) =~= so_far.push(frame@));
                if let Some((more, _)) = read_frames(self.rest(), left as nat) {
                    assert(so_far + (seq![frame@] + more) =~= frames_of(frames@) + more);
                }
            }
        }
        assert(frames_of(frames@) + Seq::<FrameView>::empty() =~= frames_of(frames@));
        Some(frames)
    }
}

/// What has been read of one console's part.
struct Side {
    console: Vec<u8>,
    incoming: Vec<Frame>,
    replies: Vec<Frame>,
    progress: u64,
    attached: bool,
}

impl View for Side {
    type V = SideView;

    closed spec fn view(&self) -> SideView {
        SideView {
            console: self.console@,
            incoming: frames_of(self.incoming@),
            replies: frames_of(self.replies@),
            progress: self.progress,
            attached: self.attached,
        }
    }
}

impl<'a> Reader<'a> {
    /// Reads one console's part.
    fn side(&mut self) -> (read: Option<Side>)
        requires
            old(self).wf(),
        ensures
            final(self).wf(),
            match read {
                Some(side) => read_side(old(self).rest()) == Some((side@, final(self).rest())),
                None => read_side(old(self).rest()) is None,
            },
    {
        let console: Vec<u8> = self.blob()?;
        let incoming: Vec<Frame> = self.queue()?;
        let replies: Vec<Frame> = self.queue()?;
        let progress: u64 = self.le(8)?;
        let attached: u8 = self.byte()?;
        Some(Side { console, incoming, replies, progress, attached: attached != 0 })
    }
}

impl Snapshot {
    /// Inverse of [`to_bytes`](Self::to_bytes). `None` if the bytes are
    /// truncated or malformed. Bytes after the capture are passed over.
    pub fn from_bytes(bytes: &[u8]) -> (read: Option<Snapshot>)
        ensures
            match read {
                Some(snapshot) => read_snapshot(bytes@) matches Some((held, _)) && held
                    == snapshot@,
                None => read_snapshot(bytes@) is None,
            },
    {
        let mut reader = Reader { bytes, at: 0 };
        assert(reader.rest() =~= bytes@);
        let first: Side = reader.side()?;
        let second: Side = reader.side()?;
        reader.byte()?;
        let snapshot = Snapshot {
            consoles: [first.console, second.console],
            incoming: [first.incoming, second.incoming],
            replies: [first.replies, second.replies],
            progress: [first.progress, second.progress],
            attached: [first.attached, second.attached],
        };
        assert(snapshot@ =~= (SnapshotView { first: first@, second: second@ }));
        Some(snapshot)
    }
}

/// A capture's view has everything that the capture holds, each side at its
/// place.
pub proof fn law_snapshot_is_seen_whole(snapshot: Snapshot)
    ensures
        snapshot@.first.console == snapshot.consoles@[0]@,
        snapshot@.second.console == snapshot.consoles@[1]@,
        snapshot@.first.incoming == frames_of(snapshot.incoming@[0]@),
        snapshot@.second.incoming == frames_of(snapshot.incoming@[1]@),
        snapshot@.first.replies == frames_of(snapshot.replies@[0]@),
        snapshot@.second.replies == frames_of(snapshot.replies@[1]@),
        snapshot@.first.progress == snapshot.progress@[0],
        snapshot@.second.progress == snapshot.progress@[1],
        snapshot@.first.attached == snapshot.attached@[0],
        snapshot@.second.attached == snapshot.attached@[1],
{
}

} // verus!
