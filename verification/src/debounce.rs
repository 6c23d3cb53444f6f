//! Webhook lifecycle of the off-device worker.
//!
//! `Continuous`: any frame with at least one detection fires a single-phase
//! webhook, throttled to `cooldown` between bursts.
//!
//! `Event`: the first detection opens an event and fires a `Start` phase with
//! a fresh random event id; later detected frames only refresh the event;
//! after `idle` without detections an `End` phase closes it with its duration.

use vstd::prelude::*;
use crate::webhook::Detection;
use crate::text::{ascii_lowercase, lowercase_range_equals, trim, trim_bounds};

verus! {

#[derive(Clone, Copy, Debug, PartialEq, Eq, Structural)]
pub enum Mode {
    Continuous,
    Event,
}

/// The words that select event mode, after trimming and ASCII lowercasing.
pub open spec fn names_event_mode(s: Seq<char>) -> bool {
    let w = ascii_lowercase(trim(s));
    w == "event"@ || w == "events"@
}

impl Mode {
    /// `"event"` or `"events"` (any ASCII case, surrounding white space
    /// ignored) selects `Event`; anything else selects `Continuous`.
    pub fn parse(s: &str) -> (m: Mode)
        ensures
            m == (if names_event_mode(s@) { Mode::Event } else { Mode::Continuous }),
    {
        let (a, b) = trim_bounds(s);
        if lowercase_range_equals(s, a, b, "event") || lowercase_range_equals(s, a, b, "events") {
            Mode::Event
        } else {
            Mode::Continuous
        }
    }
}

/// An open event, as plain values.
pub struct OpenEventState {
    pub id: Seq<char>,
    pub started_at: u64,
    pub last_seen: u64,
}

/// What a `Lifecycle` is: its mode, its two periods in nanoseconds, when it
/// last fired in continuous mode, and the event it holds open in event mode.
pub struct LifecycleState {
    pub mode: Mode,
    pub cooldown: u64,
    pub idle: u64,
    pub last_emit: Option<u64>,
    pub open_event: Option<OpenEventState>,
}

/// What a step emits, as plain values.
pub enum EmitKind {
    Silent,
    Single,
    Start { event_id: Seq<char> },
    End { event_id: Seq<char>, duration: u64 },
}

/// What a step hands back. Times and durations are nanoseconds on the
/// caller's monotonic clock.
pub enum Emit<'a> {
    /// Nothing to send.
    Silent,
    Single { detections: &'a [Detection] },
    Start { event_id: String, detections: &'a [Detection] },
    /// The event closed; `duration_ns` runs from its first detection to the
    /// step that closed it.
    End { event_id: String, duration_ns: u64 },
}

impl<'a> Emit<'a> {
    pub open spec fn kind(&self) -> EmitKind {
        match self {
            Emit::Silent => EmitKind::Silent,
            Emit::Single { .. } => EmitKind::Single,
            Emit::Start { event_id, .. } => EmitKind::Start { event_id: event_id@ },
            Emit::End { event_id, duration_ns } => EmitKind::End { event_id: event_id@, duration: *duration_ns },
        }
    }

    /// The detections that an emit forwards (none for `Silent` and `End`).
    pub open spec fn forwarded(&self) -> Seq<Detection> {
        match self {
            Emit::Single { detections } => detections@,
            Emit::Start { detections, .. } => detections@,
            _ => Seq::empty(),
        }
    }
}

/// `Instant::duration_since`: the time from `earlier` to `later`, zero if
/// `later` is not after `earlier`.
pub open spec fn since(later: u64, earlier: u64) -> u64 {
    if later >= earlier { (later - earlier) as u64 } else { 0 }
}

/// One step in continuous mode.
pub open spec fn continuous_step(s: LifecycleState, has_detections: bool, now: u64) -> (LifecycleState, EmitKind) {
    if !has_detections {
        (s, EmitKind::Silent)
    } else if s.last_emit matches Some(last) && since(now, last) < s.cooldown {
        (s, EmitKind::Silent)
    } else {
        (LifecycleState { last_emit: Some(now), ..s }, EmitKind::Single)
    }
}

/// One step in event mode; `fresh_id` names the event if one opens.
pub open spec fn event_step(s: LifecycleState, has_detections: bool, now: u64, fresh_id: Seq<char>) -> (LifecycleState, EmitKind) {
    if has_detections {
        match s.open_event {
            Some(ev) => (
                LifecycleState { open_event: Some(OpenEventState { last_seen: now, ..ev }), ..s },
                EmitKind::Silent,
            ),
            None => (
                LifecycleState {
                    open_event: Some(OpenEventState { id: fresh_id, started_at: now, last_seen: now }),
                    ..s
                },
                EmitKind::Start { event_id: fresh_id },
            ),
        }
    } else {
        match s.open_event {
            Some(ev) => if since(now, ev.last_seen) >= s.idle {
                (
                    LifecycleState { open_event: None, ..s },
                    EmitKind::End { event_id: ev.id, duration: since(now, ev.started_at) },
                )
            } else {
                (s, EmitKind::Silent)
            },
            None => (s, EmitKind::Silent),
        }
    }
}

/// One step of the lifecycle.
pub open spec fn lifecycle_step(s: LifecycleState, has_detections: bool, now: u64, fresh_id: Seq<char>) -> (LifecycleState, EmitKind) {
    match s.mode {
        Mode::Continuous => continuous_step(s, has_detections, now),
        Mode::Event => event_step(s, has_detections, now, fresh_id),
    }
}

/// Whether `after` and `kind` are what a step from `before` gives.
pub open spec fn stepped(before: LifecycleState, after: LifecycleState, kind: EmitKind, detections: Seq<Detection>, now: u64, fresh_id: Seq<char>) -> bool {
    (after, kind) == lifecycle_step(before, detections.len() > 0, now, fresh_id)
}

/// Whether this step opens an event, so that it needs a fresh event id.
pub open spec fn opens_event(s: LifecycleState, has_detections: bool) -> bool {
    s.mode == Mode::Event && has_detections && s.open_event is None
}

/// The text of a random (version 4) UUID as `uuid` prints it: 36 characters,
/// lower-case hexadecimal digits in groups of 8-4-4-4-12 parted by hyphens,
/// with the version digit `4` and a variant digit among `8`, `9`, `a`, `b`.
pub open spec fn is_uuid_v4_text(s: Seq<char>) -> bool {
    &&& s.len() == 36
    &&& forall|i: int| 0 <= i < 36 ==> (if i == 8 || i == 13 || i == 18 || i == 23 {
        s[i] == '-'
    } else {
        ('0' <= #[trigger] s[i] && s[i] <= '9') || ('a' <= s[i] && s[i] <= 'f')
    })
    &&& s[14] == '4'
    &&& (s[19] == '8' || s[19] == '9' || s[19] == 'a' || s[19] == 'b')
}

/// `Uuid::new_v4().to_string()` from the `uuid` crate: a fresh random UUID in
/// its hyphenated lower-case text form. The value is random; the contract
/// states only the shape that every outcome has (the source sets the version
/// nibble to 4 and the two variant bits to `10`, and `Display` prints the
/// hyphenated lower-case form).
#[verifier::external_body]
pub(crate) fn new_event_id() -> (id: String)
    ensures
        is_uuid_v4_text(id@),
{
    uuid::Uuid::new_v4().to_string()
}

struct OpenEvent {
    id: String,
    started_at: u64,
    last_seen: u64,
}


/// The mode and both periods of a lifecycle never change.
pub proof fn lifecycle_settings_fixed(s: LifecycleState, has_detections: bool, now: u64, fresh_id: Seq<char>)
    ensures
        lifecycle_step(s, has_detections, now, fresh_id).0.mode == s.mode,
        lifecycle_step(s, has_detections, now, fresh_id).0.cooldown == s.cooldown,
        lifecycle_step(s, has_detections, now, fresh_id).0.idle == s.idle,
{
}

/// A frame without detections never fires a single-phase webhook and never
/// opens an event.
pub proof fn empty_frame_never_fires(s: LifecycleState, now: u64, fresh_id: Seq<char>)
    ensures
        !(lifecycle_step(s, false, now, fresh_id).1 is Single),
        !(lifecycle_step(s, false, now, fresh_id).1 is Start),
{
}

/// In continuous mode, once a webhook fires at `now`, no webhook fires at a
/// time less than one cooldown later.
pub proof fn continuous_fires_once_per_cooldown(
    s: LifecycleState,
    first: bool,
    now: u64,
    second: bool,
    later: u64,
    id1: Seq<char>,
    id2: Seq<char>,
)
    requires
        s.mode == Mode::Continuous,
        lifecycle_step(s, first, now, id1).1 is Single,
        since(later, now) < s.cooldown,
    ensures
        lifecycle_step(lifecycle_step(s, first, now, id1).0, second, later, id2).1 is Silent,
{
}

/// In event mode, `Start` and `End` alternate: a `Start` comes only while no
/// event is open and leaves one open under its id; an `End` comes only while
/// an event is open, closes it, carries its id, and measures the time since
/// it started; every other step keeps the open event's id and start.
pub proof fn event_phases_alternate(s: LifecycleState, has_detections: bool, now: u64, fresh_id: Seq<char>)
    requires
        s.mode == Mode::Event,
    ensures
        ({
            let (t, k) = lifecycle_step(s, has_detections, now, fresh_id);
            &&& k is Single ==> false
            &&& k is Start ==> (s.open_event is None && t.open_event is Some && t.open_event->0.id
                == k->Start_event_id && t.open_event->0.started_at == now)
            &&& k is End ==> (s.open_event is Some && t.open_event is None && k->End_event_id
                == s.open_event->0.id && k->End_duration == since(now, s.open_event->0.started_at))
            &&& k is Silent ==> (s.open_event is None <==> t.open_event is None) && (s.open_event matches Some(ev)
                ==> t.open_event->0.id == ev.id && t.open_event->0.started_at == ev.started_at)
        }),
{
}

/// In event mode, an open event closes exactly when a frame without
/// detections comes at least `idle` after the last frame with detections.
pub proof fn event_closes_after_idle(s: LifecycleState, has_detections: bool, now: u64, fresh_id: Seq<char>)
    requires
        s.mode == Mode::Event,
        s.open_event is Some,
    ensures
        lifecycle_step(s, has_detections, now, fresh_id).1 is End <==> (!has_detections && since(
            now,
            s.open_event->0.last_seen,
        ) >= s.idle),
{
}

/// A run of steps from `s`: each frame is (has detections, time, candidate
/// event id). Gives the final state and what each step emitted.
pub open spec fn run_steps(s: LifecycleState, frames: Seq<(bool, u64, Seq<char>)>) -> (LifecycleState, Seq<EmitKind>)
    decreases frames.len(),
{
    if frames.len() == 0 {
        (s, Seq::empty())
    } else {
        let (t, kinds) = run_steps(s, frames.drop_last());
        let f = frames.last();
        let (u, k) = lifecycle_step(t, f.0, f.1, f.2);
        (u, kinds.push(k))
    }
}

/// The last `Start` or `End` among the first `i` emissions, if any.
pub open spec fn last_phase(kinds: Seq<EmitKind>, i: int) -> Option<EmitKind>
    decreases i,
{
    if i <= 0 {
        None
    } else if kinds[i - 1] is Start || kinds[i - 1] is End {
        Some(kinds[i - 1])
    } else {
        last_phase(kinds, i - 1)
    }
}

proof fn lemma_last_phase_prefix(kinds: Seq<EmitKind>, k: EmitKind, i: int)
    requires
        0 <= i <= kinds.len(),
    ensures
        last_phase(kinds.push(k), i) == last_phase(kinds, i),
    decreases i,
{
    if i > 0 {
        assert(kinds.push(k)[i - 1] == kinds[i - 1]);
        lemma_last_phase_prefix(kinds, k, i - 1);
    }
}

/// Over any run in event mode that begins with no event open, `Start` and
/// `End` alternate, beginning with `Start`, and every `End` carries the id of
/// the `Start` before it; the open event is the one the last `Start` opened.
pub proof fn event_run_alternates(s: LifecycleState, frames: Seq<(bool, u64, Seq<char>)>)
    requires
        s.mode == Mode::Event,
        s.open_event is None,
    ensures
        ({
            let (t, kinds) = run_steps(s, frames);
            &&& kinds.len() == frames.len()
            &&& t.mode == Mode::Event
            &&& match last_phase(kinds, kinds.len() as int) {
                Some(EmitKind::Start { event_id }) => t.open_event is Some && t.open_event->0.id == event_id,
                _ => t.open_event is None,
            }
            &&& forall|i: int| 0 <= i < kinds.len() ==> (#[trigger] kinds[i] is Start ==> !(last_phase(kinds, i) matches Some(
                EmitKind::Start { .. },
            ))) && (kinds[i] is End ==> last_phase(kinds, i) == Some(
                EmitKind::Start { event_id: kinds[i]->End_event_id },
            ))
        }),
    decreases frames.len(),
{
    if frames.len() > 0 {
        event_run_alternates(s, frames.drop_last());
        let (t, kinds) = run_steps(s, frames.drop_last());
        let f = frames.last();
        let (u, k) = lifecycle_step(t, f.0, f.1, f.2);
        let all = kinds.push(k);
        assert forall|i: int| 0 <= i < all.len() implies (#[trigger] all[i] is Start ==> !(last_phase(all, i) matches Some(
            EmitKind::Start { .. },
        ))) && (all[i] is End ==> last_phase(all, i) == Some(EmitKind::Start { event_id: all[i]->End_event_id })) by {
            lemma_last_phase_prefix(kinds, k, i);
            if i < kinds.len() {
                assert(all[i] == kinds[i]);
            }
        }
        lemma_last_phase_prefix(kinds, k, kinds.len() as int);
    }
}

/// In continuous mode a silent step leaves the lifecycle as it was: an empty
/// or suppressed frame does not restart the cooldown.
pub proof fn continuous_silence_keeps_state(s: LifecycleState, has_detections: bool, now: u64, fresh_id: Seq<char>)
    requires
        s.mode == Mode::Continuous,
        lifecycle_step(s, has_detections, now, fresh_id).1 is Silent,
    ensures
        lifecycle_step(s, has_detections, now, fresh_id).0 == s,
{
}

/// The step times never go back (a monotonic clock).
pub open spec fn step_times_nondecreasing(frames: Seq<(bool, u64, Seq<char>)>) -> bool {
    forall|i: int, j: int| 0 <= i < j < frames.len() ==> #[trigger] frames[i].1 <= #[trigger] frames[j].1
}

/// Whether an event is open after the first `n` emissions: the latest
/// `Start` or `End` among them is a `Start`.
pub open spec fn event_open_after(kinds: Seq<EmitKind>, n: int) -> bool {
    last_phase(kinds, n) matches Some(EmitKind::Start { .. })
}

/// The time of the latest `Single` among the first `n` emissions.
pub open spec fn latest_single(frames: Seq<(bool, u64, Seq<char>)>, kinds: Seq<EmitKind>, n: int) -> Option<u64>
    decreases n,
{
    if n <= 0 {
        None
    } else if kinds[n - 1] is Single {
        Some(frames[n - 1].1)
    } else {
        latest_single(frames, kinds, n - 1)
    }
}

/// The time of the latest `Start` among the first `n` emissions.
pub open spec fn latest_start(frames: Seq<(bool, u64, Seq<char>)>, kinds: Seq<EmitKind>, n: int) -> Option<u64>
    decreases n,
{
    if n <= 0 {
        None
    } else if kinds[n - 1] is Start {
        Some(frames[n - 1].1)
    } else {
        latest_start(frames, kinds, n - 1)
    }
}

/// The time of the latest of the first `n` steps that had detections.
pub open spec fn latest_sighting(frames: Seq<(bool, u64, Seq<char>)>, n: int) -> Option<u64>
    decreases n,
{
    if n <= 0 {
        None
    } else if frames[n - 1].0 {
        Some(frames[n - 1].1)
    } else {
        latest_sighting(frames, n - 1)
    }
}

proof fn lemma_lifecycle_latest_agree(
    f1: Seq<(bool, u64, Seq<char>)>,
    k1: Seq<EmitKind>,
    f2: Seq<(bool, u64, Seq<char>)>,
    k2: Seq<EmitKind>,
    m: int,
)
    requires
        0 <= m <= f1.len(),
        m <= f2.len(),
        m <= k1.len(),
        m <= k2.len(),
        forall|i: int| 0 <= i < m ==> f1[i] == f2[i] && k1[i] == k2[i],
    ensures
        latest_single(f1, k1, m) == latest_single(f2, k2, m),
        latest_start(f1, k1, m) == latest_start(f2, k2, m),
        latest_sighting(f1, m) == latest_sighting(f2, m),
        last_phase(k1, m) == last_phase(k2, m),
    decreases m,
{
    if m > 0 {
        lemma_lifecycle_latest_agree(f1, k1, f2, k2, m - 1);
    }
}

proof fn lemma_steps_prefix(s: LifecycleState, frames: Seq<(bool, u64, Seq<char>)>, j: int)
    requires
        0 <= j <= frames.len(),
    ensures
        run_steps(s, frames).1.len() == frames.len(),
        run_steps(s, frames.take(j)).1 == run_steps(s, frames).1.take(j),
    decreases frames.len(),
{
    if frames.len() > 0 {
        lemma_steps_prefix(s, frames.drop_last(), if j < frames.len() { j } else { 0 });
    }
    if j == frames.len() {
        assert(frames.take(j) =~= frames);
        assert(run_steps(s, frames).1.take(j) =~= run_steps(s, frames).1);
    } else {
        assert(frames.drop_last().take(j) =~= frames.take(j));
        let k = run_steps(s, frames.drop_last()).1;
        let last = frames.last();
        let kk = lifecycle_step(run_steps(s, frames.drop_last()).0, last.0, last.1, last.2).1;
        assert(run_steps(s, frames).1 == k.push(kk));
        assert(k.push(kk).take(j) =~= k.take(j));
    }
}

/// What a run of a fresh lifecycle keeps, on a clock that never goes back:
/// in continuous mode the last firing is the latest `Single`; in event mode
/// an open event started at the latest `Start` and was last seen at the
/// latest step with detections.
proof fn lemma_steps_invariant(s: LifecycleState, frames: Seq<(bool, u64, Seq<char>)>)
    requires
        s.last_emit is None,
        s.open_event is None,
        step_times_nondecreasing(frames),
    ensures
        ({
            let (t, kinds) = run_steps(s, frames);
            let n = frames.len() as int;
            &&& kinds.len() == n
            &&& t.mode == s.mode && t.cooldown == s.cooldown && t.idle == s.idle
            &&& t.last_emit == latest_single(frames, kinds, n)
            &&& (latest_single(frames, kinds, n) matches Some(e) ==> n > 0 && e <= frames[n - 1].1)
            &&& (t.open_event matches Some(ev) ==> latest_start(frames, kinds, n) == Some(ev.started_at)
                && latest_sighting(frames, n) == Some(ev.last_seen) && ev.started_at <= ev.last_seen && n > 0
                && ev.last_seen <= frames[n - 1].1)
            &&& (s.mode == Mode::Event ==> (t.open_event is Some <==> last_phase(kinds, n) matches Some(EmitKind::Start { .. })))
            &&& (s.mode == Mode::Continuous ==> t.open_event is None)
        }),
    decreases frames.len(),
{
    lemma_steps_prefix(s, frames, frames.len() as int);
    if frames.len() > 0 {
        let fr = frames.drop_last();
        assert(step_times_nondecreasing(fr));
        lemma_steps_invariant(s, fr);
        lemma_steps_prefix(s, fr, fr.len() as int);
        let (t, kinds) = run_steps(s, fr);
        let f = frames.last();
        let (u, k) = lifecycle_step(t, f.0, f.1, f.2);
        let all = kinds.push(k);
        let m = fr.len() as int;
        assert(run_steps(s, frames) == (u, all));
        assert forall|i: int| 0 <= i < m implies fr[i] == frames[i] && kinds[i] == all[i] by {}
        lemma_lifecycle_latest_agree(fr, kinds, frames, all, m);
        assert(f == frames[m]);
        assert(latest_sighting(frames, m + 1) == if f.0 { Some(f.1) } else { latest_sighting(frames, m) });
        if m > 0 {
            assert(frames[m - 1].1 <= frames[m].1);
        }
    }
}

/// Step `j` of a run of a fresh lifecycle: the state before it is the run of
/// the first `j` steps, whose facts hold, and emission `j` is that state's
/// step on frame `j`.
proof fn lifecycle_step_facts(s: LifecycleState, frames: Seq<(bool, u64, Seq<char>)>, j: int)
    requires
        s.last_emit is None,
        s.open_event is None,
        step_times_nondecreasing(frames),
        0 <= j < frames.len(),
    ensures
        ({
            let pre = frames.take(j);
            let (t, kp) = run_steps(s, pre);
            let kinds = run_steps(s, frames).1;
            &&& kinds.len() == frames.len()
            &&& lifecycle_step(t, frames[j].0, frames[j].1, frames[j].2).1 == kinds[j]
            &&& t.mode == s.mode && t.cooldown == s.cooldown && t.idle == s.idle
            &&& t.last_emit == latest_single(frames, kinds, j)
            &&& (latest_single(frames, kinds, j) matches Some(e) ==> e <= frames[j].1)
            &&& (t.open_event matches Some(ev) ==> latest_start(frames, kinds, j) == Some(ev.started_at)
                && latest_sighting(frames, j) == Some(ev.last_seen) && ev.started_at <= ev.last_seen
                && ev.last_seen <= frames[j].1)
            &&& (s.mode == Mode::Event ==> (t.open_event is Some <==> last_phase(kinds, j) matches Some(EmitKind::Start { .. })))
        }),
{
    let pre = frames.take(j);
    let pre1 = frames.take(j + 1);
    assert(step_times_nondecreasing(pre));
    lemma_steps_invariant(s, pre);
    lemma_steps_prefix(s, frames, j);
    lemma_steps_prefix(s, frames, j + 1);
    assert(pre1.drop_last() =~= pre);
    assert(pre1.last() == frames[j]);
    let kinds = run_steps(s, frames).1;
    assert(run_steps(s, pre1).1[j] == kinds.take(j + 1)[j]);
    let kp = run_steps(s, pre).1;
    assert forall|i: int| 0 <= i < j implies pre[i] == frames[i] && kp[i] == kinds[i] by {}
    lemma_lifecycle_latest_agree(pre, kp, frames, kinds, j);
    if j > 0 {
        assert(frames[j - 1].1 <= frames[j].1);
        assert(pre[j - 1] == frames[j - 1]);
    }
}

/// Over any run of a fresh continuous lifecycle on a clock that never goes
/// back, a step fires (`Single`) exactly when it has detections and no
/// earlier step fired, or the latest one that did lies at least a cooldown
/// back; every other step is silent.
pub proof fn continuous_run_fires_after_cooldown(s: LifecycleState, frames: Seq<(bool, u64, Seq<char>)>)
    requires
        s.mode == Mode::Continuous,
        s.last_emit is None,
        s.open_event is None,
        step_times_nondecreasing(frames),
    ensures
        ({
            let kinds = run_steps(s, frames).1;
            &&& kinds.len() == frames.len()
            &&& forall|j: int| 0 <= j < frames.len() ==> (#[trigger] kinds[j] is Single <==> frames[j].0 && (match latest_single(
                frames,
                kinds,
                j,
            ) {
                Some(e) => e + s.cooldown <= frames[j].1,
                None => true,
            })) && (kinds[j] is Single || kinds[j] is Silent)
        }),
{
    let kinds = run_steps(s, frames).1;
    lemma_steps_prefix(s, frames, 0);
    assert forall|j: int| 0 <= j < frames.len() implies (#[trigger] kinds[j] is Single <==> frames[j].0 && (match latest_single(
        frames,
        kinds,
        j,
    ) {
        Some(e) => e + s.cooldown <= frames[j].1,
        None => true,
    })) && (kinds[j] is Single || kinds[j] is Silent) by {
        lifecycle_step_facts(s, frames, j);
    }
}

/// Over any run of a fresh event-mode lifecycle on a clock that never goes
/// back, an `End` comes exactly when an event is open, the step has no
/// detections, and the latest step with detections lies at least `idle`
/// back; it carries the time since the `Start` that opened the event.
pub proof fn event_run_ends_after_idle(s: LifecycleState, frames: Seq<(bool, u64, Seq<char>)>)
    requires
        s.mode == Mode::Event,
        s.last_emit is None,
        s.open_event is None,
        step_times_nondecreasing(frames),
    ensures
        ({
            let kinds = run_steps(s, frames).1;
            &&& kinds.len() == frames.len()
            &&& forall|j: int| 0 <= j < frames.len() ==> (#[trigger] kinds[j] is End <==> (event_open_after(kinds, j) && !frames[j].0
                && latest_sighting(frames, j) is Some && latest_sighting(frames, j)->0 + s.idle <= frames[j].1)) && (
                kinds[j] is End ==> latest_start(frames, kinds, j) is Some && kinds[j]->End_duration == frames[j].1
                - latest_start(frames, kinds, j)->0)
        }),
{
    let kinds = run_steps(s, frames).1;
    lemma_steps_prefix(s, frames, 0);
    assert forall|j: int| 0 <= j < frames.len() implies (#[trigger] kinds[j] is End <==> (event_open_after(kinds, j) && !frames[j].0
                && latest_sighting(frames, j) is Some && latest_sighting(frames, j)->0 + s.idle <= frames[j].1)) && (
                kinds[j] is End ==> latest_start(frames, kinds, j) is Some && kinds[j]->End_duration == frames[j].1
                - latest_start(frames, kinds, j)->0) by {
        lifecycle_step_facts(s, frames, j);
    }
}

pub struct Lifecycle {
    mode: Mode,
    cooldown: u64,
    idle: u64,
    last_emit: Option<u64>,
    open_event: Option<OpenEvent>,
}

impl View for Lifecycle {
    type V = LifecycleState;

    closed spec fn view(&self) -> LifecycleState {
        LifecycleState {
            mode: self.mode,
            cooldown: self.cooldown,
            idle: self.idle,
            last_emit: self.last_emit,
            open_event: match self.open_event {
                Some(ev) => Some(OpenEventState { id: ev.id@, started_at: ev.started_at, last_seen: ev.last_seen }),
                None => None,
            },
        }
    }
}

impl Lifecycle {
    /// A lifecycle in `mode` that has never fired and holds no event;
    /// `cooldown` and `idle` are in nanoseconds.
    pub fn new(mode: Mode, cooldown: u64, idle: u64) -> (l: Lifecycle)
        ensures
            l@ == (LifecycleState { mode, cooldown, idle, last_emit: None, open_event: None }),
    {
        Lifecycle { mode, cooldown, idle, last_emit: None, open_event: None }
    }

    fn step_continuous<'a>(&mut self, detections: &'a [Detection], now: u64) -> (e: Emit<'a>)
        requires
            old(self)@.mode == Mode::Continuous,
        ensures
            (final(self)@, e.kind()) == continuous_step(old(self)@, detections@.len() > 0, now),
            e.forwarded() == (if e is Single { detections@ } else { Seq::empty() }),
    {
        if detections.len() == 0 {
            return Emit::Silent;
        }
        if let Some(last) = self.last_emit {
            let elapsed = if now >= last { now - last } else { 0 };
            if elapsed < self.cooldown {
                return Emit::Silent;
            }
        }
        self.last_emit = Some(now);
        Emit::Single { detections }
    }

    fn step_event<'a>(&mut self, detections: &'a [Detection], now: u64, fresh_id: String) -> (e: Emit<'a>)
        requires
            old(self)@.mode == Mode::Event,
        ensures
            (final(self)@, e.kind()) == event_step(old(self)@, detections@.len() > 0, now, fresh_id@),
            e.forwarded() == (if e is Start { detections@ } else { Seq::empty() }),
    {
        if detections.len() > 0 {
            match self.open_event.take() {
                Some(ev) => {
                    self.open_event = Some(OpenEvent { last_seen: now, ..ev });
                    Emit::Silent
                },
                None => {
                    let id = fresh_id.clone();
                    self.open_event = Some(OpenEvent { id: fresh_id, started_at: now, last_seen: now });
                    Emit::Start { event_id: id, detections }
                },
            }
        } else {
            match self.open_event.take() {
                Some(ev) => {
                    let quiet = if now >= ev.last_seen { now - ev.last_seen } else { 0 };
                    if quiet >= self.idle {
                        let dur = if now >= ev.started_at { now - ev.started_at } else { 0 };
                        Emit::End { event_id: ev.id, duration_ns: dur }
                    } else {
                        self.open_event = Some(ev);
                        Emit::Silent
                    }
                },
                None => Emit::Silent,
            }
        }
    }

    /// One step with a given candidate event id: `fresh_id` becomes the id of
    /// the event if this step opens one, and is dropped otherwise.
    pub fn step_with_id<'a>(&mut self, detections: &'a [Detection], now: u64, fresh_id: String) -> (e: Emit<'a>)
        ensures
            (final(self)@, e.kind()) == lifecycle_step(old(self)@, detections@.len() > 0, now, fresh_id@),
            e.forwarded() == (if e is Single || e is Start { detections@ } else { Seq::empty() }),
    {
        match self.mode {
            Mode::Continuous => self.step_continuous(detections, now),
            Mode::Event => self.step_event(detections, now, fresh_id),
        }
    }

    /// One step: the frame's detections at time `now` (nanoseconds). An event
    /// that opens here gets a fresh random UUID as its id.
    pub fn step<'a>(&mut self, detections: &'a [Detection], now: u64) -> (e: Emit<'a>)
        ensures
            exists|id: Seq<char>|
                (opens_event(old(self)@, detections@.len() > 0) ==> is_uuid_v4_text(id))
                && #[trigger] stepped(old(self)@, final(self)@, e.kind(), detections@, now, id),
            e.forwarded() == (if e is Single || e is Start { detections@ } else { Seq::empty() }),
    {
        let opens = match self.mode {
            Mode::Event => detections.len() > 0 && self.open_event.is_none(),
            Mode::Continuous => false,
        };
        let id = if opens { new_event_id() } else { String::new() };
        let ghost g = id@;
        let e = self.step_with_id(detections, now, id);
        assert((opens_event(old(self)@, detections@.len() > 0) ==> is_uuid_v4_text(g))
            && stepped(old(self)@, final(self)@, e.kind(), detections@, now, g));
        e
    }
}

} // verus!
