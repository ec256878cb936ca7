//! Frames on the emulated air.

use vstd::prelude::*;

verus! {

/// A frame on the air. Which queue it lands in follows its kind: replies
/// answer a host's command round, and everything else (beacons, management
/// frames, commands, acks) shares one queue that both packet receives pop
/// from.
#[derive(Debug)]
pub enum Frame {
    /// A client's answer to a command round, with its association id.
    Reply { ts: u64, aid: u16, data: Vec<u8> },
    /// Any other frame.
    Other { ts: u64, data: Vec<u8> },
}

/// What a [`Frame`] is, with its payload as a sequence.
#[verifier::ext_equal]
pub enum FrameView {
    Reply { ts: u64, aid: u16, data: Seq<u8> },
    Other { ts: u64, data: Seq<u8> },
}

impl FrameView {
    /// The sender's wifi clock when the frame went out.
    pub open spec fn ts(self) -> u64 {
        match self {
            FrameView::Reply { ts, .. } => ts,
            FrameView::Other { ts, .. } => ts,
        }
    }

    /// The payload.
    pub open spec fn data(self) -> Seq<u8> {
        match self {
            FrameView::Reply { data, .. } => data,
            FrameView::Other { data, .. } => data,
        }
    }
}

impl View for Frame {
    type V = FrameView;

    open spec fn view(&self) -> FrameView {
        match *self {
            Frame::Reply { ts, aid, data } => FrameView::Reply { ts, aid, data: data@ },
            Frame::Other { ts, data } => FrameView::Other { ts, data: data@ },
        }
    }
}

impl Clone for Frame {
    fn clone(&self) -> (copy: Self)
        ensures
            copy@ == self@,
    {
        match self {
            Frame::Reply { ts, aid, data } => Frame::Reply {
                ts: *ts,
                aid: *aid,
                data: vstd::slice::slice_to_vec(data.as_slice()),
            },
            Frame::Other { ts, data } => Frame::Other {
                ts: *ts,
                data: vstd::slice::slice_to_vec(data.as_slice()),
            },
        }
    }
}

/// A buffer with `data` written over it from index `at` on.
pub open spec fn overwritten(buffer: Seq<u8>, at: int, data: Seq<u8>) -> Seq<u8> {
    buffer.take(at) + data + buffer.skip(at + data.len())
}

/// Writes `data` into `out` from index `at` on.
pub fn overwrite(out: &mut [u8], at: usize, data: &[u8])
    requires
        at + data@.len() <= old(out)@.len(),
    ensures
        final(out)@ == overwritten(old(out)@, at as int, data@),
{
    let ghost before = out@;
    let total: usize = out.len();
    let mut i: usize = 0;
    while i < data.len()
        invariant
            i <= data@.len(),
            at + data@.len() <= total,
            total == before.len(),
            total == out@.len(),
            out@ =~= overwritten(before, at as int, data@.take(i as int)),
        decreases data.len() - i,
    {
        out[at + i] = data[i];
        i = i + 1;
    }
    assert(data@.take(i as int) =~= data@);
}

impl Frame {
    /// The sender's wifi clock when the frame went out.
    pub fn timestamp(&self) -> (ts: u64)
        ensures
            ts == self@.ts(),
    {
        match self {
            Frame::Reply { ts, .. } | Frame::Other { ts, .. } => *ts,
        }
    }

    /// How many bytes the payload holds.
    pub fn len(&self) -> (len: usize)
        ensures
            len == self@.data().len(),
    {
        match self {
            Frame::Reply { data, .. } | Frame::Other { data, .. } => data.len(),
        }
    }

    /// Hands the frame to a console: its payload goes to the start of the
    /// console's buffer, its timestamp to `ts_out`, and the payload's length
    /// is returned.
    pub fn deliver(self, out: &mut [u8], ts_out: &mut u64) -> (len: i32)
        requires
            self@.data().len() <= old(out)@.len(),
        ensures
            final(out)@ == overwritten(old(out)@, 0, self@.data()),
            *final(ts_out) == self@.ts(),
            len == self@.data().len() as i32,
    {
        let (ts, data) = match self {
            Frame::Reply { ts, data, .. } => (ts, data),
            Frame::Other { ts, data } => (ts, data),
        };
        overwrite(out, 0, data.as_slice());
        *ts_out = ts;
        data.len() as i32
    }
}

/// A frame's view has the frame's kind, stamp, association id and every byte of
/// its payload.
pub proof fn law_frame_is_seen_whole(frame: Frame)
    ensures
        match frame {
            Frame::Reply { ts, aid, data } => {
                &&& frame@ matches FrameView::Reply { ts: t, aid: a, data: d } && t == ts && a == aid
                    && d == data@
                &&& frame@.ts() == ts && frame@.data() == data@
            },
            Frame::Other { ts, data } => {
                &&& frame@ matches FrameView::Other { ts: t, data: d } && t == ts && d == data@
                &&& frame@.ts() == ts && frame@.data() == data@
            },
        },
{
}

/// The stamp and the payload of a frame are those it was made with.
pub proof fn law_frame_has_its_stamp_and_payload(ts: u64, aid: u16, data: Seq<u8>)
    ensures
        (FrameView::Reply { ts, aid, data }).ts() == ts,
        (FrameView::Reply { ts, aid, data }).data() == data,
        (FrameView::Other { ts, data }).ts() == ts,
        (FrameView::Other { ts, data }).data() == data,
{
}

/// What is written over a buffer stands in it byte for byte, in order, from
/// where it was written; every other byte, and the length, are as they were.
pub proof fn law_overwriting_is_byte_for_byte(buffer: Seq<u8>, at: int, data: Seq<u8>)
    requires
        0 <= at,
        at + data.len() <= buffer.len(),
    ensures
        overwritten(buffer, at, data).len() == buffer.len(),
        forall|j: int|
            0 <= j < data.len() ==> overwritten(buffer, at, data)[at + j] == #[trigger] data[j],
        forall|i: int|
            0 <= i < buffer.len() && !(at <= i < at + data.len()) ==> #[trigger] overwritten(
                buffer,
                at,
                data,
            )[i] == buffer[i],
{
}

} // verus!
