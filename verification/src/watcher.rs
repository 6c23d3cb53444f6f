//! One frame of the detection pipeline: the tracker follows the frame's
//! detections, the event manager decides what to report, and the frame
//! buffer supplies the pre-detection frames of an initial alert and the
//! frames of the final report's clip.

use vstd::prelude::*;
use crate::event::{evaluate_step, evaluation_stays_reachable, event_started, reachable, updates_have_their_cause, DecisionKind, EventDecision, EventManager, ManagerState, UpdateReason};
use crate::frame_buffer::{fits_after, frame_views, last_frames, pushed, BufferState, FrameBuffer, FrameView, TimestampedFrame};
use crate::tracker::{all_fit, det_box, lemma_counters_leave_room, views, ObjectTracker, TrackView, TrackerState, TrackedObject};
use crate::debounce::{is_uuid_v4_text, new_event_id};
use crate::webhook::Detection;

verus! {

/// How many buffered frames go with an initial alert.
pub const PRE_DETECTION_FRAMES: usize = 3;

/// What the monitor should send for a frame.
pub enum WatchAction {
    /// Nothing.
    Quiet,
    /// The initial alert of an event: the current tracks and the frames
    /// buffered just before this one.
    Alert { event_id: String, tracks: Vec<TrackedObject>, pre_frames: Vec<TimestampedFrame> },
    /// A tracking update during an event.
    Update { event_id: String, tracks: Vec<TrackedObject>, reason: UpdateReason },
    /// The final report: the event's length and the buffered frames, this
    /// one last, for its clip.
    Report { event_id: String, total_duration_ns: u64, clip: Vec<TimestampedFrame> },
}

impl WatchAction {
    /// The event manager's decision that the action carries out.
    pub open spec fn kind(&self) -> DecisionKind {
        match self {
            WatchAction::Quiet => DecisionKind::Quiet,
            WatchAction::Alert { .. } => DecisionKind::InitialAlert,
            WatchAction::Update { reason, .. } => DecisionKind::Update(*reason),
            WatchAction::Report { total_duration_ns, .. } => DecisionKind::Complete(*total_duration_ns),
        }
    }

    /// The event id the action carries (none for `Quiet`).
    pub open spec fn carried_id(&self) -> Option<Seq<char>> {
        match self {
            WatchAction::Quiet => None,
            WatchAction::Alert { event_id, .. } => Some(event_id@),
            WatchAction::Update { event_id, .. } => Some(event_id@),
            WatchAction::Report { event_id, .. } => Some(event_id@),
        }
    }

    /// The tracks the action carries (none for `Quiet` and `Report`).
    pub open spec fn carried_tracks(&self) -> Seq<TrackView> {
        match self {
            WatchAction::Alert { tracks, .. } => views(tracks@),
            WatchAction::Update { tracks, .. } => views(tracks@),
            _ => Seq::empty(),
        }
    }

    /// The frames the action carries (none for `Quiet` and `Update`).
    pub open spec fn carried_frames(&self) -> Seq<FrameView> {
        match self {
            WatchAction::Alert { pre_frames, .. } => frame_views(pre_frames@),
            WatchAction::Report { clip, .. } => frame_views(clip@),
            _ => Seq::empty(),
        }
    }
}

/// What a watcher is: its tracker, its event manager, its frame buffer, the
/// time of the last frame it saw, and the id of the event under way.
pub struct WatchState {
    pub tracker: TrackerState,
    pub events: ManagerState,
    pub frames: BufferState,
    pub last_frame: Option<u64>,
    pub event_id: Option<Seq<char>>,
}

/// Whether some track is new since the previous frame (any track, on the
/// first frame).
pub open spec fn new_arrivals(tracks: Seq<TrackView>, previous: Option<u64>) -> bool {
    match previous {
        Some(p) => exists|i: int| 0 <= i < tracks.len() && #[trigger] tracks[i].first_seen > p,
        None => tracks.len() > 0,
    }
}

/// The watcher after the frame `jpeg` with `dets`, seen at `now` (and at
/// wall-clock `epoch`), the decision taken on it, and the event id the
/// action carries. An initial alert names its event `fresh_id`; updates and
/// the final report carry the id of the event under way, which the final
/// report closes.
pub open spec fn watch_step(s: WatchState, dets: Seq<Detection>, jpeg: Seq<u8>, now: u64, epoch: i64, fresh_id: Seq<char>) -> (
    WatchState,
    DecisionKind,
    Option<Seq<char>>,
) {
    let tracker = s.tracker.updated(dets, now);
    let (events, kind) = evaluate_step(s.events, tracker.tracks.len() > 0, new_arrivals(tracker.tracks, s.last_frame), now);
    let event_id = match kind {
        DecisionKind::InitialAlert => Some(fresh_id),
        DecisionKind::Complete(_) => None,
        _ => s.event_id,
    };
    let carried = match kind {
        DecisionKind::Quiet => None,
        DecisionKind::InitialAlert => Some(fresh_id),
        _ => s.event_id,
    };
    (
        WatchState {
            tracker,
            events,
            frames: BufferState {
                frames: pushed(s.frames, FrameView { jpeg, captured_at: now, epoch }),
                capacity: s.frames.capacity,
            },
            last_frame: Some(now),
            event_id,
        },
        kind,
        carried,
    )
}

/// A frame of a run: its detections, its JPEG, its monotonic and wall-clock
/// times, and the id an alert on it would take.
pub type WatchFrame = (Seq<Detection>, Seq<u8>, u64, i64, Seq<char>);

/// A run of frames from `s`: the final watcher, and each frame's decision
/// with the event id its action carries.
pub open spec fn watch_run(s: WatchState, frames: Seq<WatchFrame>) -> (WatchState, Seq<(DecisionKind, Option<Seq<char>>)>)
    decreases frames.len(),
{
    if frames.len() == 0 {
        (s, Seq::empty())
    } else {
        let (t, outs) = watch_run(s, frames.drop_last());
        let f = frames.last();
        let (u, k, c) = watch_step(t, f.0, f.1, f.2, f.3, f.4);
        (u, outs.push((k, c)))
    }
}

/// The id of the event open after the first `n` frames: that of the latest
/// initial alert, unless a final report came after it.
pub open spec fn open_event_id(frames: Seq<WatchFrame>, outs: Seq<(DecisionKind, Option<Seq<char>>)>, n: int) -> Option<
    Seq<char>,
>
    decreases n,
{
    if n <= 0 {
        None
    } else if outs[n - 1].0 is InitialAlert {
        Some(frames[n - 1].4)
    } else if outs[n - 1].0 is Complete {
        None
    } else {
        open_event_id(frames, outs, n - 1)
    }
}

proof fn lemma_open_id_agree(
    f1: Seq<WatchFrame>,
    o1: Seq<(DecisionKind, Option<Seq<char>>)>,
    f2: Seq<WatchFrame>,
    o2: Seq<(DecisionKind, Option<Seq<char>>)>,
    m: int,
)
    requires
        0 <= m <= f1.len(),
        m <= f2.len(),
        m <= o1.len(),
        m <= o2.len(),
        forall|i: int| 0 <= i < m ==> f1[i] == f2[i] && o1[i] == o2[i],
    ensures
        open_event_id(f1, o1, m) == open_event_id(f2, o2, m),
    decreases m,
{
    if m > 0 {
        lemma_open_id_agree(f1, o1, f2, o2, m - 1);
    }
}

proof fn lemma_watch_run_prefix(s: WatchState, frames: Seq<WatchFrame>, j: int)
    requires
        0 <= j <= frames.len(),
    ensures
        watch_run(s, frames).1.len() == frames.len(),
        watch_run(s, frames.take(j)).1 == watch_run(s, frames).1.take(j),
    decreases frames.len(),
{
    if frames.len() > 0 {
        lemma_watch_run_prefix(s, frames.drop_last(), if j < frames.len() { j } else { 0 });
    }
    if j == frames.len() {
        assert(frames.take(j) =~= frames);
        assert(watch_run(s, frames).1.take(j) =~= watch_run(s, frames).1);
    } else {
        assert(frames.drop_last().take(j) =~= frames.take(j));
        let o = watch_run(s, frames.drop_last()).1;
        let f = frames.last();
        let st = watch_step(watch_run(s, frames.drop_last()).0, f.0, f.1, f.2, f.3, f.4);
        assert(watch_run(s, frames).1 == o.push((st.1, st.2)));
        assert(o.push((st.1, st.2)).take(j) =~= o.take(j));
    }
}

/// What a run keeps: an event is under way exactly when the watcher holds
/// an id, and that id is the open event's.
proof fn lemma_watch_run_ids(s: WatchState, frames: Seq<WatchFrame>)
    requires
        s.events.state is Idle,
        s.event_id is None,
    ensures
        ({
            let (t, outs) = watch_run(s, frames);
            &&& outs.len() == frames.len()
            &&& (t.events.state is Idle) <==> (t.event_id is None)
            &&& t.event_id == open_event_id(frames, outs, frames.len() as int)
        }),
    decreases frames.len(),
{
    lemma_watch_run_prefix(s, frames, frames.len() as int);
    if frames.len() > 0 {
        let fr = frames.drop_last();
        lemma_watch_run_ids(s, fr);
        lemma_watch_run_prefix(s, fr, fr.len() as int);
        let (t, outs) = watch_run(s, fr);
        let f = frames.last();
        let (u, k, c) = watch_step(t, f.0, f.1, f.2, f.3, f.4);
        let all = outs.push((k, c));
        let m = fr.len() as int;
        assert(watch_run(s, frames) == (u, all));
        assert forall|i: int| 0 <= i < m implies fr[i] == frames[i] && outs[i] == all[i] by {}
        lemma_open_id_agree(fr, outs, frames, all, m);
        assert(f == frames[m]);
    }
}

/// Over any run of a watcher with no event under way, every event's
/// actions carry one id: an initial alert carries the fresh id it was given,
/// and every update and final report carries the id of the alert that opened
/// the event under way (an event is always under way for them); a quiet
/// frame carries none.
pub proof fn event_ids_follow_alerts(s: WatchState, frames: Seq<WatchFrame>)
    requires
        s.events.state is Idle,
        s.event_id is None,
    ensures
        ({
            let outs = watch_run(s, frames).1;
            &&& outs.len() == frames.len()
            &&& forall|j: int| 0 <= j < frames.len() ==> {
                let (k, c) = #[trigger] outs[j];
                &&& k is InitialAlert ==> c == Some(frames[j].4)
                &&& (k is Update || k is Complete) ==> c == open_event_id(frames, outs, j) && c is Some
                &&& k is Quiet ==> c is None
            }
        }),
{
    let outs = watch_run(s, frames).1;
    lemma_watch_run_prefix(s, frames, 0);
    assert forall|j: int| 0 <= j < frames.len() implies {
        let (k, c) = #[trigger] outs[j];
        &&& k is InitialAlert ==> c == Some(frames[j].4)
        &&& (k is Update || k is Complete) ==> c == open_event_id(frames, outs, j) && c is Some
        &&& k is Quiet ==> c is None
    } by {
        let pre = frames.take(j);
        let pre1 = frames.take(j + 1);
        lemma_watch_run_ids(s, pre);
        lemma_watch_run_prefix(s, frames, j);
        lemma_watch_run_prefix(s, frames, j + 1);
        assert(pre1.drop_last() =~= pre);
        assert(pre1.last() == frames[j]);
        assert(watch_run(s, pre1).1[j] == outs.take(j + 1)[j]);
        let op = watch_run(s, pre).1;
        assert forall|i: int| 0 <= i < j implies pre[i] == frames[i] && op[i] == outs[i] by {}
        lemma_open_id_agree(pre, op, frames, outs, j);
    }
}

/// Whether a frame with `dets` at `now` is one `Watcher::step` takes: the
/// sums behind every box's centre fit in `u32`, no track has reached the
/// largest frame count, there is room for an id per detection, and the
/// clock has not gone back since the newest buffered frame.
pub open spec fn watch_accepts(s: WatchState, dets: Seq<Detection>, now: u64) -> bool {
    &&& all_fit(dets)
    &&& forall|k: int| 0 <= k < s.tracker.tracks.len() ==> (#[trigger] s.tracker.tracks[k]).frames_seen < u32::MAX
    &&& s.tracker.next_id + dets.len() <= u64::MAX
    &&& fits_after(s.frames.frames, now)
}

/// A step remembers its frame's time as the previous frame for the next step.
pub proof fn step_remembers_its_frame(s: WatchState, dets: Seq<Detection>, jpeg: Seq<u8>, now: u64, epoch: i64, fresh_id: Seq<char>)
    ensures
        watch_step(s, dets, jpeg, now, epoch, fresh_id).0.last_frame == Some(now),
{
}

/// A "new arrival" update needs a track first seen after the previous frame
/// (any track, on the first frame).
pub proof fn new_arrival_needs_a_new_track(
    s: WatchState,
    dets: Seq<Detection>,
    jpeg: Seq<u8>,
    now: u64,
    epoch: i64,
    fresh_id: Seq<char>,
)
    requires
        reachable(s.events),
    ensures
        watch_step(s, dets, jpeg, now, epoch, fresh_id).1 == DecisionKind::Update(UpdateReason::NewArrival) ==> {
            let tracks = s.tracker.updated(dets, now).tracks;
            match s.last_frame {
                Some(p) => exists|i: int| 0 <= i < tracks.len() && #[trigger] tracks[i].first_seen > p,
                None => tracks.len() > 0,
            }
        },
{
    let tracks = s.tracker.updated(dets, now).tracks;
    updates_have_their_cause(s.events, tracks.len() > 0, new_arrivals(tracks, s.last_frame), now);
}

/// Tracks already present at a frame never count as new arrivals at the
/// next one: if every track after the second of two steps was first seen no
/// later than the first step's time, the second step sends no "new arrival"
/// update (so a person who stays put is not reported again and again).
pub proof fn seen_tracks_are_not_new(
    s: WatchState,
    d1: Seq<Detection>,
    j1: Seq<u8>,
    t1: u64,
    e1: i64,
    id1: Seq<char>,
    d2: Seq<Detection>,
    j2: Seq<u8>,
    t2: u64,
    e2: i64,
    id2: Seq<char>,
)
    requires
        reachable(s.events),
        ({
            let w = watch_step(s, d1, j1, t1, e1, id1).0;
            forall|i: int| 0 <= i < w.tracker.updated(d2, t2).tracks.len() ==> #[trigger] w.tracker.updated(
                d2,
                t2,
            ).tracks[i].first_seen <= t1
        }),
    ensures
        watch_step(watch_step(s, d1, j1, t1, e1, id1).0, d2, j2, t2, e2, id2).1 != DecisionKind::Update(
            UpdateReason::NewArrival,
        ),
{
    let tracker = s.tracker.updated(d1, t1);
    evaluation_stays_reachable(s.events, tracker.tracks.len() > 0, new_arrivals(tracker.tracks, s.last_frame), t1);
    let w = watch_step(s, d1, j1, t1, e1, id1).0;
    new_arrival_needs_a_new_track(w, d2, j2, t2, e2, id2);
}

/// The detection pipeline of the monitor.
pub struct Watcher {
    tracker: ObjectTracker,
    events: EventManager,
    frames: FrameBuffer,
    last_frame: Option<u64>,
    event_id: Option<String>,
}

impl Watcher {
    /// An event is under way exactly when the watcher holds its id.
    #[verifier::type_invariant]
    spec fn id_follows_event(self) -> bool {
        (self.events@.state is Idle) <==> (self.event_id is None)
    }
}

impl View for Watcher {
    type V = WatchState;

    closed spec fn view(&self) -> WatchState {
        WatchState {
            tracker: self.tracker@,
            events: self.events@,
            frames: self.frames@,
            last_frame: self.last_frame,
            event_id: match &self.event_id {
                Some(id) => Some(id@),
                None => None,
            },
        }
    }
}

impl Watcher {
    /// A watcher with no tracks, no event, and an empty buffer of
    /// `buffer_capacity` frames.
    pub fn new(buffer_capacity: usize) -> (w: Watcher)
        ensures
            w@.tracker.tracks == Seq::<TrackView>::empty(),
            w@.tracker.next_id == 1,
            w@.events == (ManagerState { state: crate::event::State::Idle, last_report: None }),
            w@.frames.frames == Seq::<FrameView>::empty(),
            w@.frames.capacity == buffer_capacity,
            w@.last_frame is None,
            w@.event_id is None,
    {
        Watcher {
            tracker: ObjectTracker::new(),
            events: EventManager::new(),
            frames: FrameBuffer::new(buffer_capacity),
            last_frame: None,
            event_id: None,
        }
    }

    /// The current tracks, in order.
    pub fn tracks(&self) -> (r: &[TrackedObject])
        ensures
            views(r@) == self@.tracker.tracks,
    {
        self.tracker.active_tracks()
    }

    /// When the event under way began, if one is.
    pub fn event_start(&self) -> (r: Option<u64>)
        ensures
            r == event_started(self@.events.state),
    {
        self.events.event_start()
    }

    /// Whether [`Watcher::step`] takes a frame with `detections` at `now`.
    pub fn accepts(&self, detections: &[Detection], now: u64) -> (r: bool)
        ensures
            r == watch_accepts(self@, detections@, now),
            r ==> (all_fit(detections@) && self@.tracker.can_update(detections@, now) && fits_after(
                self@.frames.frames,
                now,
            )),
    {
        let n = detections.len();
        let mut i: usize = 0;
        while i < n
            invariant
                n == detections@.len(),
                i <= n,
                forall|k: int| 0 <= k < i ==> (#[trigger] det_box(detections@[k])).fits(),
            decreases n - i,
        {
            let d = &detections[i];
            if (d.left as u64) + (d.right as u64) > u32::MAX as u64 || (d.top as u64) + (d.bottom as u64) > u32::MAX as u64 {
                assert(!det_box(detections@[i as int]).fits());
                return false;
            }
            i = i + 1;
        }
        let tracks = self.tracker.active_tracks();
        let mut k: usize = 0;
        while k < tracks.len()
            invariant
                views(tracks@) == self@.tracker.tracks,
                k <= tracks@.len(),
                forall|m: int| 0 <= m < k ==> (#[trigger] self@.tracker.tracks[m]).frames_seen < u32::MAX,
            decreases tracks@.len() - k,
        {
            assert(self@.tracker.tracks[k as int] == tracks@[k as int]@);
            if tracks[k].frames_seen == u32::MAX {
                return false;
            }
            k = k + 1;
        }
        let next = self.tracker.next_track_id();
        if n as u64 > u64::MAX - next {
            return false;
        }
        let ok = match self.frames.newest_capture() {
            Some(t) => t <= now,
            None => true,
        };
        proof {
            if ok {
                lemma_counters_leave_room(self@.tracker, detections@, now);
            }
        }
        ok
    }

    /// Take in the frame `jpeg` with its `detections`, seen at `now`
    /// (nanoseconds, monotonic) and wall-clock `epoch`: track the detections,
    /// let the event manager decide, and buffer the frame. An initial alert
    /// names its event with a fresh random UUID and carries the current
    /// tracks and the frames buffered before this one (at most three); an
    /// update carries the event's id and the current tracks; a final report
    /// carries the event's id and the whole buffer, this frame last.
    pub fn step(&mut self, detections: &[Detection], jpeg: Vec<u8>, now: u64, epoch: i64) -> (a: WatchAction)
        requires
            all_fit(detections@),
            old(self)@.tracker.can_update(detections@, now),
            fits_after(old(self)@.frames.frames, now),
        ensures
            a is Alert ==> is_uuid_v4_text(a.carried_id()->0) && (final(self)@, a.kind(), a.carried_id()) == watch_step(
                old(self)@,
                detections@,
                jpeg@,
                now,
                epoch,
                a.carried_id()->0,
            ),
            !(a is Alert) ==> (final(self)@, a.kind(), a.carried_id()) == watch_step(
                old(self)@,
                detections@,
                jpeg@,
                now,
                epoch,
                Seq::empty(),
            ),
            a.carried_tracks() == (if a is Alert || a is Update { final(self)@.tracker.tracks } else { Seq::empty() }),
            a.carried_frames() == (match a {
                WatchAction::Alert { .. } => last_frames(old(self)@.frames.frames, PRE_DETECTION_FRAMES),
                WatchAction::Report { .. } => final(self)@.frames.frames,
                _ => Seq::empty(),
            }),
    {
        proof {
            use_type_invariant(&*self);
        }
        let mut taken = Watcher::new(0);
        std::mem::swap(&mut taken, self);
        let Watcher { mut tracker, mut events, mut frames, last_frame, event_id } = taken;
        let tracks = tracker.update(detections, now);
        let has_new = match last_frame {
            Some(p) => tracker.has_new_arrivals_since(p),
            None => tracks.len() > 0,
        };
        let decision = events.evaluate(tracks.as_slice(), has_new, now);
        let action = match decision {
            EventDecision::Quiet => WatchAction::Quiet,
            EventDecision::InitialAlert { tracks } => {
                let pre_frames = frames.clone_recent(PRE_DETECTION_FRAMES);
                WatchAction::Alert { event_id: new_event_id(), tracks, pre_frames }
            },
            EventDecision::Update { tracks, reason } => {
                let current = match &event_id {
                    Some(id) => id.clone(),
                    None => String::new(),
                };
                WatchAction::Update { event_id: current, tracks, reason }
            },
            EventDecision::Complete { total_duration_ns } => {
                let current = match &event_id {
                    Some(id) => id.clone(),
                    None => String::new(),
                };
                WatchAction::Report { event_id: current, total_duration_ns, clip: Vec::new() }
            },
        };
        frames.push(jpeg, now, epoch);
        let (action, next_id) = match action {
            WatchAction::Alert { event_id: fresh, tracks, pre_frames } => {
                let kept = fresh.clone();
                (WatchAction::Alert { event_id: fresh, tracks, pre_frames }, Some(kept))
            },
            WatchAction::Report { event_id: closed, total_duration_ns, .. } => {
                let clip = frames.clone_all();
                (WatchAction::Report { event_id: closed, total_duration_ns, clip }, None)
            },
            other => (other, event_id),
        };
        *self = Watcher { tracker, events, frames, last_frame: Some(now), event_id: next_id };
        action
    }
}

} // verus!
