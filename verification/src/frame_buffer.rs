//! Rolling buffer of timestamped JPEG frames, for pre-detection context and
//! clip assembly.

use vstd::prelude::*;
use std::collections::VecDeque;

verus! {

/// A captured frame: its JPEG bytes, its capture time (nanoseconds on the
/// caller's monotonic clock), and its wall-clock time (Unix seconds).
pub struct TimestampedFrame {
    pub jpeg: Vec<u8>,
    pub captured_at: u64,
    pub epoch: i64,
}

pub struct FrameView {
    pub jpeg: Seq<u8>,
    pub captured_at: u64,
    pub epoch: i64,
}

impl View for TimestampedFrame {
    type V = FrameView;

    open spec fn view(&self) -> FrameView {
        FrameView { jpeg: self.jpeg@, captured_at: self.captured_at, epoch: self.epoch }
    }
}

impl Clone for TimestampedFrame {
    fn clone(&self) -> (r: Self)
        ensures
            r@ == self@,
    {
        let mut jpeg: Vec<u8> = Vec::new();
        let mut i: usize = 0;
        while i < self.jpeg.len()
            invariant
                i <= self.jpeg@.len(),
                jpeg@ == self.jpeg@.subrange(0, i as int),
            decreases self.jpeg@.len() - i,
        {
            jpeg.push(self.jpeg[i]);
            i = i + 1;
        }
        assert(self.jpeg@.subrange(0, self.jpeg@.len() as int) =~= self.jpeg@);
        TimestampedFrame { jpeg, captured_at: self.captured_at, epoch: self.epoch }
    }
}

pub open spec fn frame_views(s: Seq<TimestampedFrame>) -> Seq<FrameView> {
    s.map_values(|f: TimestampedFrame| f@)
}

/// What a buffer is: its frames, oldest first, and its capacity.
pub struct BufferState {
    pub frames: Seq<FrameView>,
    pub capacity: usize,
}

/// The frames after pushing `f`: the oldest frame leaves first when the
/// buffer is at capacity.
pub open spec fn pushed(s: BufferState, f: FrameView) -> Seq<FrameView> {
    if s.frames.len() >= s.capacity && s.frames.len() > 0 {
        s.frames.drop_first().push(f)
    } else {
        s.frames.push(f)
    }
}

/// The frames are in capture order: no frame was captured after a later one.
pub open spec fn time_ordered(frames: Seq<FrameView>) -> bool {
    forall|i: int, j: int| 0 <= i < j < frames.len() ==> #[trigger] frames[i].captured_at <= #[trigger] frames[j].captured_at
}

/// A frame captured at `t` may follow `frames`: it is no older than the
/// newest of them (a monotonic clock gives this).
pub open spec fn fits_after(frames: Seq<FrameView>, t: u64) -> bool {
    frames.len() == 0 || frames.last().captured_at <= t
}

/// The last `n` frames (all of them if there are fewer), oldest first.
pub open spec fn last_frames(frames: Seq<FrameView>, n: usize) -> Seq<FrameView> {
    if n >= frames.len() {
        frames
    } else {
        frames.subrange(frames.len() - n, frames.len() as int)
    }
}

/// Fixed-size ring buffer of timestamped JPEG frames.
/// A capacity of 30 is about 3 seconds at 10 FPS.
pub struct FrameBuffer {
    buffer: VecDeque<TimestampedFrame>,
    capacity: usize,
}

impl FrameBuffer {
    /// The frames are always held in capture order.
    #[verifier::type_invariant]
    spec fn in_capture_order(self) -> bool {
        time_ordered(frame_views(self.buffer@))
    }
}

impl View for FrameBuffer {
    type V = BufferState;

    closed spec fn view(&self) -> BufferState {
        BufferState { frames: frame_views(self.buffer@), capacity: self.capacity }
    }
}

impl FrameBuffer {
    pub fn new(capacity: usize) -> (b: FrameBuffer)
        ensures
            b@.frames == Seq::<FrameView>::empty(),
            b@.capacity == capacity,
            time_ordered(b@.frames),
    {
        let b = FrameBuffer { buffer: VecDeque::with_capacity(capacity), capacity };
        assert(frame_views(b.buffer@) =~= Seq::<FrameView>::empty());
        b
    }

    /// Append a frame captured at `captured_at` (monotonic nanoseconds) and
    /// wall-clock time `epoch` (Unix seconds), dropping the oldest frame when
    /// the buffer is full.
    pub fn push(&mut self, jpeg: Vec<u8>, captured_at: u64, epoch: i64)
        requires
            fits_after(old(self)@.frames, captured_at),
        ensures
            final(self)@.capacity == old(self)@.capacity,
            final(self)@.frames == pushed(old(self)@, FrameView { jpeg: jpeg@, captured_at, epoch }),
            time_ordered(final(self)@.frames),
    {
        proof {
            use_type_invariant(&*self);
        }
        let ghost old_state = self@;
        let mut taken = FrameBuffer::new(0);
        std::mem::swap(&mut taken, self);
        let FrameBuffer { mut buffer, capacity } = taken;
        let ghost before = buffer@;
        if buffer.len() >= capacity {
            let _ = buffer.pop_front();
        }
        let ghost mid = buffer@;
        let f = TimestampedFrame { jpeg, captured_at, epoch };
        buffer.push_back(f);
        proof {
            if before.len() >= capacity && before.len() > 0 {
                assert(mid =~= before.subrange(1, before.len() as int));
                assert(frame_views(mid) =~= frame_views(before).drop_first());
            } else {
                assert(mid == before);
            }
            assert(frame_views(buffer@) =~= frame_views(mid).push(f@));
            buffer_keeps_capture_order(old_state, f@);
        }
        *self = FrameBuffer { buffer, capacity };
    }

    fn start_of_recent(&self, n: usize) -> (start: usize)
        ensures
            start == self.buffer@.len() - last_frames(self@.frames, n).len(),
            start <= self.buffer@.len(),
    {
        let len = self.buffer.len();
        if n >= len { 0 } else { len - n }
    }

    /// When the newest frame was captured; `None` when the buffer is empty.
    pub fn newest_capture(&self) -> (r: Option<u64>)
        ensures
            r == (if self@.frames.len() == 0 { None } else { Some(self@.frames.last().captured_at) }),
    {
        let n = self.buffer.len();
        if n == 0 {
            None
        } else {
            Some(self.buffer[n - 1].captured_at)
        }
    }

    /// The last `n` frames (pre-detection context), oldest first.
    pub fn recent(&self, n: usize) -> (r: Vec<&TimestampedFrame>)
        ensures
            r@.len() == last_frames(self@.frames, n).len(),
            forall|i: int| 0 <= i < r@.len() ==> (#[trigger] r@[i])@ == last_frames(self@.frames, n)[i],
    {
        let start = self.start_of_recent(n);
        let len = self.buffer.len();
        let mut r: Vec<&TimestampedFrame> = Vec::new();
        let mut i: usize = start;
        while i < len
            invariant
                len == self.buffer@.len(),
                start <= i <= len,
                start == len - last_frames(self@.frames, n).len(),
                r@.len() == i - start,
                forall|k: int| 0 <= k < r@.len() ==> (#[trigger] r@[k])@ == self@.frames[start + k],
            decreases len - i,
        {
            r.push(&self.buffer[i]);
            i = i + 1;
        }
        proof {
            assert forall|k: int| 0 <= k < r@.len() implies (#[trigger] r@[k])@ == last_frames(self@.frames, n)[k] by {
                assert(self@.frames[start + k] == last_frames(self@.frames, n)[k]);
            }
        }
        r
    }

    /// Copies of all the frames, oldest first.
    pub fn clone_all(&self) -> (r: Vec<TimestampedFrame>)
        ensures
            frame_views(r@) == self@.frames,
    {
        let n = self.buffer.len();
        self.clone_recent(n)
    }

    /// Copies of the last `n` frames, for clip assembly, oldest first.
    pub fn clone_recent(&self, n: usize) -> (r: Vec<TimestampedFrame>)
        ensures
            frame_views(r@) == last_frames(self@.frames, n),
    {
        let start = self.start_of_recent(n);
        let len = self.buffer.len();
        let mut r: Vec<TimestampedFrame> = Vec::new();
        let mut i: usize = start;
        while i < len
            invariant
                len == self.buffer@.len(),
                start <= i <= len,
                start == len - last_frames(self@.frames, n).len(),
                frame_views(r@) == self@.frames.subrange(start as int, i as int),
            decreases len - i,
        {
            let f = self.buffer[i].clone();
            proof {
                assert(frame_views(r@.push(f)) =~= frame_views(r@).push(f@));
                assert(self@.frames.subrange(start as int, i + 1) =~= self@.frames.subrange(start as int, i as int).push(f@));
            }
            r.push(f);
            i = i + 1;
        }
        proof {
            assert(self@.frames.subrange(start as int, len as int) =~= last_frames(self@.frames, n));
        }
        r
    }
}

/// The buffer never holds more than its capacity (or one frame, for a
/// capacity of zero), and keeps the newest frames in the order they came.
pub proof fn buffer_stays_bounded(s: BufferState, f: FrameView)
    requires
        s.frames.len() <= if s.capacity == 0 { 1 } else { s.capacity as int },
    ensures
        pushed(s, f).len() <= if s.capacity == 0 { 1 } else { s.capacity as int },
        pushed(s, f).last() == f,
        pushed(s, f).drop_last() == last_frames(s.frames, (pushed(s, f).len() - 1) as usize),
{
    let p = pushed(s, f);
    assert(p.drop_last() =~= last_frames(s.frames, (p.len() - 1) as usize));
}

/// Frames pushed in capture order stay in capture order, and the newest
/// frame is the one just pushed.
pub proof fn buffer_keeps_capture_order(s: BufferState, f: FrameView)
    requires
        time_ordered(s.frames),
        fits_after(s.frames, f.captured_at),
    ensures
        time_ordered(pushed(s, f)),
        forall|i: int| 0 <= i < pushed(s, f).len() ==> #[trigger] pushed(s, f)[i].captured_at <= f.captured_at,
        fits_after(pushed(s, f), f.captured_at),
{
    let p = pushed(s, f);
    let base = if s.frames.len() >= s.capacity && s.frames.len() > 0 { s.frames.drop_first() } else { s.frames };
    assert(p =~= base.push(f));
    assert forall|i: int| 0 <= i < base.len() implies #[trigger] base[i].captured_at <= f.captured_at by {
        if base.len() > 0 {
            if s.frames.len() >= s.capacity && s.frames.len() > 0 {
                assert(base[i] == s.frames[i + 1]);
                assert(s.frames.last() == s.frames[s.frames.len() - 1]);
                if i + 1 < s.frames.len() - 1 {
                    assert(s.frames[i + 1].captured_at <= s.frames[s.frames.len() - 1].captured_at);
                }
            } else {
                if i < s.frames.len() - 1 {
                    assert(s.frames[i].captured_at <= s.frames[s.frames.len() - 1].captured_at);
                }
            }
        }
    }
    assert forall|i: int, j: int| 0 <= i < j < p.len() implies #[trigger] p[i].captured_at <= #[trigger] p[j].captured_at by {
        if j == p.len() - 1 {
            assert(p[i] == base[i]);
        } else {
            assert(p[i] == base[i] && p[j] == base[j]);
            if s.frames.len() >= s.capacity && s.frames.len() > 0 {
                assert(base[i] == s.frames[i + 1] && base[j] == s.frames[j + 1]);
            }
        }
    }
}

/// A push onto a buffer below its capacity appends the frame; a push onto a
/// full buffer drops exactly the oldest frame and appends the new one; so the
/// buffer holds one more frame, up to its capacity. A buffer of capacity zero
/// holds just the newest frame.
pub proof fn push_drops_only_the_oldest(s: BufferState, f: FrameView)
    requires
        s.frames.len() <= if s.capacity == 0 { 1 } else { s.capacity as int },
    ensures
        s.frames.len() < s.capacity ==> pushed(s, f) == s.frames + seq![f],
        s.capacity > 0 && s.frames.len() == s.capacity ==> pushed(s, f) == s.frames.subrange(1, s.frames.len() as int)
            + seq![f],
        s.capacity == 0 ==> pushed(s, f) == seq![f],
        pushed(s, f).len() == if s.frames.len() < s.capacity { s.frames.len() + 1 as int } else if s.capacity == 0 {
            1
        } else {
            s.capacity as int
        },
{
    assert(s.frames.push(f) =~= s.frames + seq![f]);
    if s.frames.len() > 0 {
        assert(s.frames.drop_first().push(f) =~= s.frames.subrange(1, s.frames.len() as int) + seq![f]);
    }
    if s.capacity == 0 {
        assert(pushed(s, f) =~= seq![f]);
    }
}

/// The frames after pushing each of `fs` in turn onto a buffer in state `s`.
pub open spec fn push_all(s: BufferState, fs: Seq<FrameView>) -> Seq<FrameView>
    decreases fs.len(),
{
    if fs.len() == 0 {
        s.frames
    } else {
        pushed(BufferState { frames: push_all(s, fs.drop_last()), capacity: s.capacity }, fs.last())
    }
}

/// A buffer of capacity `capacity` that starts empty holds, after any run of
/// pushes, exactly the newest `capacity` frames pushed (all of them while
/// fewer were pushed), oldest first.
pub proof fn buffer_holds_the_newest(capacity: usize, fs: Seq<FrameView>)
    requires
        capacity > 0,
    ensures
        push_all(BufferState { frames: Seq::empty(), capacity }, fs) == fs.subrange(
            if fs.len() > capacity { fs.len() - capacity } else { 0 },
            fs.len() as int,
        ),
    decreases fs.len(),
{
    let s0 = BufferState { frames: Seq::<FrameView>::empty(), capacity };
    if fs.len() == 0 {
        assert(fs.subrange(0, 0) =~= Seq::<FrameView>::empty());
    } else {
        let prev_fs = fs.drop_last();
        buffer_holds_the_newest(capacity, prev_fs);
        let n = fs.len() as int;
        let prev = push_all(s0, prev_fs);
        let lo: int = if n - 1 > capacity { n - 1 - capacity } else { 0 };
        assert(prev == prev_fs.subrange(lo, n - 1));
        let b = BufferState { frames: prev, capacity };
        push_drops_only_the_oldest(b, fs.last());
        if n - 1 < capacity {
            assert(prev + seq![fs.last()] =~= fs.subrange(0, n));
        } else {
            assert(prev.subrange(1, prev.len() as int) + seq![fs.last()] =~= fs.subrange(n - capacity, n));
        }
    }
}

} // verus!
