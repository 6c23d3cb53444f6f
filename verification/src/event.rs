//! The event manager: a state machine from the tracker's output to webhook
//! decisions. Idle, then Active while objects are present, then Cooldown
//! once they have left, then back to Idle when they stay away.
//!
//! Times and durations are nanoseconds on the caller's monotonic clock.

use vstd::prelude::*;
use crate::debounce::since;
use crate::tracker::{copy_tracks, views, TrackedObject, TrackView};

verus! {

/// How long objects must be gone before the event closes (3 s).
pub const DEPARTURE_GRACE_NS: u64 = 3_000_000_000;

/// How long an event must last before a "prolonged" update (3 s).
pub const PROLONGED_THRESHOLD_NS: u64 = 3_000_000_000;

/// Minimum gap between reports, to avoid spam (10 s).
pub const MIN_UPDATE_INTERVAL_NS: u64 = 10_000_000_000;

#[derive(Debug, Clone, Copy, PartialEq, Eq, Structural)]
pub enum UpdateReason {
    NewArrival,
    Prolonged,
}

/// What the event manager decided the monitor should do.
pub enum EventDecision {
    /// Nothing to report.
    Quiet,
    /// First detection: fire an initial alert with pre-detection frames.
    InitialAlert { tracks: Vec<TrackedObject> },
    /// Something changed during an active event (new arrival, prolonged).
    Update { tracks: Vec<TrackedObject>, reason: UpdateReason },
    /// The event is over: send the final report.
    Complete { total_duration_ns: u64 },
}

/// A decision as plain values.
pub enum DecisionKind {
    Quiet,
    InitialAlert,
    Update(UpdateReason),
    Complete(u64),
}

impl EventDecision {
    pub open spec fn kind(&self) -> DecisionKind {
        match self {
            EventDecision::Quiet => DecisionKind::Quiet,
            EventDecision::InitialAlert { .. } => DecisionKind::InitialAlert,
            EventDecision::Update { reason, .. } => DecisionKind::Update(*reason),
            EventDecision::Complete { total_duration_ns } => DecisionKind::Complete(*total_duration_ns),
        }
    }

    /// The tracks a decision carries (none for `Quiet` and `Complete`).
    pub open spec fn carried(&self) -> Seq<TrackView> {
        match self {
            EventDecision::InitialAlert { tracks } => views(tracks@),
            EventDecision::Update { tracks, .. } => views(tracks@),
            _ => Seq::empty(),
        }
    }
}

/// The phase of the event state machine.
#[derive(Debug, Clone, Copy, PartialEq, Eq, Structural)]
pub enum State {
    Idle,
    Active { started: u64, sent_initial: bool, sent_prolonged: bool },
    Cooldown { started: u64, event_started: u64 },
}

/// What an event manager is: its phase and when it last reported. No last
/// report stands for "one full update interval before the manager began",
/// which lets the first report through at once.
pub struct ManagerState {
    pub state: State,
    pub last_report: Option<u64>,
}

/// Whether a report at `now` keeps the minimum gap since the last one.
pub open spec fn report_gap_ok(last_report: Option<u64>, now: u64) -> bool {
    match last_report {
        Some(last) => since(now, last) >= MIN_UPDATE_INTERVAL_NS,
        None => true,
    }
}

/// The Active-phase step (after an Idle manager saw objects).
pub open spec fn active_step(
    started: u64,
    sent_initial: bool,
    sent_prolonged: bool,
    last_report: Option<u64>,
    has_objects: bool,
    has_new_arrivals: bool,
    now: u64,
) -> (ManagerState, DecisionKind) {
    if !sent_initial {
        (
            ManagerState { state: State::Active { started, sent_initial: true, sent_prolonged }, last_report: Some(now) },
            DecisionKind::InitialAlert,
        )
    } else if !has_objects {
        (ManagerState { state: State::Cooldown { started: now, event_started: started }, last_report }, DecisionKind::Quiet)
    } else if !sent_prolonged && since(now, started) >= PROLONGED_THRESHOLD_NS && report_gap_ok(last_report, now) {
        (
            ManagerState { state: State::Active { started, sent_initial, sent_prolonged: true }, last_report: Some(now) },
            DecisionKind::Update(UpdateReason::Prolonged),
        )
    } else if has_new_arrivals && report_gap_ok(last_report, now) {
        (
            ManagerState { state: State::Active { started, sent_initial, sent_prolonged }, last_report: Some(now) },
            DecisionKind::Update(UpdateReason::NewArrival),
        )
    } else {
        (ManagerState { state: State::Active { started, sent_initial, sent_prolonged }, last_report }, DecisionKind::Quiet)
    }
}

/// One evaluation of the state machine at `now`.
pub open spec fn evaluate_step(s: ManagerState, has_objects: bool, has_new_arrivals: bool, now: u64) -> (ManagerState, DecisionKind) {
    match s.state {
        State::Idle => if has_objects {
            active_step(now, false, false, s.last_report, has_objects, has_new_arrivals, now)
        } else {
            (s, DecisionKind::Quiet)
        },
        State::Active { started, sent_initial, sent_prolonged } => active_step(
            started,
            sent_initial,
            sent_prolonged,
            s.last_report,
            has_objects,
            has_new_arrivals,
            now,
        ),
        State::Cooldown { started, event_started } => if has_objects {
            (
                ManagerState {
                    state: State::Active { started: event_started, sent_initial: true, sent_prolonged: true },
                    last_report: s.last_report,
                },
                DecisionKind::Quiet,
            )
        } else if since(now, started) >= DEPARTURE_GRACE_NS {
            (ManagerState { state: State::Idle, last_report: s.last_report }, DecisionKind::Complete(since(now, event_started)))
        } else {
            (s, DecisionKind::Quiet)
        },
    }
}

/// When the current event began, if one is under way.
pub open spec fn event_started(s: State) -> Option<u64> {
    match s {
        State::Active { started, .. } => Some(started),
        State::Cooldown { event_started, .. } => Some(event_started),
        State::Idle => None,
    }
}


/// The states a manager can reach: an Active event has always sent its
/// initial alert.
pub open spec fn reachable(s: ManagerState) -> bool {
    s.state matches State::Active { sent_initial, .. } ==> sent_initial
}

/// A new manager is in a reachable state, and evaluation keeps it so.
pub proof fn evaluation_stays_reachable(s: ManagerState, has_objects: bool, has_new_arrivals: bool, now: u64)
    requires
        reachable(s),
    ensures
        reachable(ManagerState { state: State::Idle, last_report: None }),
        reachable(evaluate_step(s, has_objects, has_new_arrivals, now).0),
{
}

/// An event opens with exactly one initial alert: the alert comes exactly
/// when an idle manager sees objects, and starts the event at that time.
pub proof fn initial_alert_opens_event(s: ManagerState, has_objects: bool, has_new_arrivals: bool, now: u64)
    requires
        reachable(s),
    ensures
        ({
            let (t, d) = evaluate_step(s, has_objects, has_new_arrivals, now);
            &&& d is InitialAlert <==> (s.state is Idle && has_objects)
            &&& d is InitialAlert ==> event_started(t.state) == Some(now) && t.last_report == Some(now)
        }),
{
}

/// An event closes exactly when, in cooldown, no objects have been seen for
/// the departure grace; the final report carries the time since the event
/// began, and the manager goes back to idle.
pub proof fn completion_closes_event(s: ManagerState, has_objects: bool, has_new_arrivals: bool, now: u64)
    ensures
        ({
            let (t, d) = evaluate_step(s, has_objects, has_new_arrivals, now);
            &&& d is Complete <==> (s.state matches State::Cooldown { started, .. } && !has_objects && since(now, started)
                >= DEPARTURE_GRACE_NS)
            &&& d is Complete ==> t.state is Idle && d == DecisionKind::Complete(since(now, event_started(s.state)->0))
        }),
{
}

/// Updates are rate limited: an update only goes out when the minimum gap
/// since the last report has passed; every alert or update records its time
/// as the last report, and nothing else changes that time.
pub proof fn updates_are_rate_limited(s: ManagerState, has_objects: bool, has_new_arrivals: bool, now: u64)
    ensures
        ({
            let (t, d) = evaluate_step(s, has_objects, has_new_arrivals, now);
            &&& d is Update ==> report_gap_ok(s.last_report, now) && has_objects
            &&& (d is Update || d is InitialAlert) ==> t.last_report == Some(now)
            &&& (d is Quiet || d is Complete) ==> t.last_report == s.last_report
        }),
{
}

/// Whether the active event has already sent its "prolonged" update.
pub open spec fn prolonged_sent(s: State) -> bool {
    match s {
        State::Active { sent_prolonged, .. } => sent_prolonged,
        _ => false,
    }
}

/// At most one "prolonged" update per event: it needs an active event that
/// has lasted the threshold and has not sent one; once sent (or once the
/// event has been through a cooldown) none follows until the event completes.
pub proof fn prolonged_update_once(s: ManagerState, has_objects: bool, has_new_arrivals: bool, now: u64)
    ensures
        ({
            let (t, d) = evaluate_step(s, has_objects, has_new_arrivals, now);
            &&& d == DecisionKind::Update(UpdateReason::Prolonged) ==> (s.state is Active && !prolonged_sent(s.state)
                && since(now, s.state->Active_started) >= PROLONGED_THRESHOLD_NS && prolonged_sent(t.state))
            &&& (prolonged_sent(s.state) || s.state is Cooldown) ==> (d != DecisionKind::Update(
                UpdateReason::Prolonged) && (t.state is Active ==> prolonged_sent(t.state)))
        }),
{
}

/// An update names a cause that holds: a "new arrival" update needs a new
/// arrival, and a "prolonged" one an event that has lasted the prolonged
/// threshold; every update needs objects present and the report gap kept.
/// When objects reappear during cooldown the event resumes silently, and
/// an idle manager that sees nothing stays silent.
pub proof fn updates_have_their_cause(s: ManagerState, has_objects: bool, has_new_arrivals: bool, now: u64)
    requires
        reachable(s),
    ensures
        ({
            let (t, d) = evaluate_step(s, has_objects, has_new_arrivals, now);
            &&& d == DecisionKind::Update(UpdateReason::NewArrival) ==> has_new_arrivals && has_objects
                && report_gap_ok(s.last_report, now) && s.state is Active
            &&& d == DecisionKind::Update(UpdateReason::Prolonged) ==> has_objects && s.state is Active
                && now >= PROLONGED_THRESHOLD_NS + s.state->Active_started
            &&& (s.state is Cooldown && has_objects) ==> d is Quiet && t.state is Active && t.last_report
                == s.last_report && event_started(t.state) == event_started(s.state)
            &&& (s.state is Idle && !has_objects) ==> d is Quiet && t == s
            &&& (d is Quiet || d is Complete) ==> t.last_report == s.last_report
        }),
{
}

/// An event keeps its start time until it completes.
pub proof fn event_start_is_stable(s: ManagerState, has_objects: bool, has_new_arrivals: bool, now: u64)
    requires
        event_started(s.state) is Some,
        !(evaluate_step(s, has_objects, has_new_arrivals, now).1 is Complete),
    ensures
        event_started(evaluate_step(s, has_objects, has_new_arrivals, now).0.state) == event_started(s.state),
{
}

/// A run of evaluations from `s`: each frame is (objects present, new
/// arrivals, time). Gives the final state and each decision.
pub open spec fn run_evaluations(s: ManagerState, frames: Seq<(bool, bool, u64)>) -> (ManagerState, Seq<DecisionKind>)
    decreases frames.len(),
{
    if frames.len() == 0 {
        (s, Seq::empty())
    } else {
        let (t, kinds) = run_evaluations(s, frames.drop_last());
        let f = frames.last();
        let (u, k) = evaluate_step(t, f.0, f.1, f.2);
        (u, kinds.push(k))
    }
}

/// The last initial alert or final report among the first `i` decisions.
pub open spec fn last_bookend(kinds: Seq<DecisionKind>, i: int) -> Option<DecisionKind>
    decreases i,
{
    if i <= 0 {
        None
    } else if kinds[i - 1] is InitialAlert || kinds[i - 1] is Complete {
        Some(kinds[i - 1])
    } else {
        last_bookend(kinds, i - 1)
    }
}

proof fn lemma_last_bookend_prefix(kinds: Seq<DecisionKind>, k: DecisionKind, i: int)
    requires
        0 <= i <= kinds.len(),
    ensures
        last_bookend(kinds.push(k), i) == last_bookend(kinds, i),
    decreases i,
{
    if i > 0 {
        assert(kinds.push(k)[i - 1] == kinds[i - 1]);
        lemma_last_bookend_prefix(kinds, k, i - 1);
    }
}

/// Over any run from an idle manager, each event goes initial alert →
/// updates → final report: initial alerts and final reports alternate,
/// beginning with an initial alert, and updates come only while an event is
/// open (after an initial alert and before its final report). The manager is
/// idle exactly when no event is open.
pub proof fn events_run_alert_updates_report(s: ManagerState, frames: Seq<(bool, bool, u64)>)
    requires
        s.state is Idle,
    ensures
        ({
            let (t, kinds) = run_evaluations(s, frames);
            &&& kinds.len() == frames.len()
            &&& reachable(t)
            &&& (t.state is Idle <==> !(last_bookend(kinds, kinds.len() as int) matches Some(DecisionKind::InitialAlert)))
            &&& forall|i: int| 0 <= i < kinds.len() ==> (#[trigger] kinds[i] is InitialAlert ==> !(last_bookend(kinds, i) matches Some(
                DecisionKind::InitialAlert,
            ))) && ((kinds[i] is Update || kinds[i] is Complete) ==> last_bookend(kinds, i) == Some(
                DecisionKind::InitialAlert,
            ))
        }),
    decreases frames.len(),
{
    if frames.len() > 0 {
        events_run_alert_updates_report(s, frames.drop_last());
        let (t, kinds) = run_evaluations(s, frames.drop_last());
        let f = frames.last();
        let (u, k) = evaluate_step(t, f.0, f.1, f.2);
        let all = kinds.push(k);
        assert forall|i: int| 0 <= i < all.len() implies (#[trigger] all[i] is InitialAlert ==> !(last_bookend(all, i) matches Some(
            DecisionKind::InitialAlert,
        ))) && ((all[i] is Update || all[i] is Complete) ==> last_bookend(all, i) == Some(DecisionKind::InitialAlert)) by {
            lemma_last_bookend_prefix(kinds, k, i);
            if i < kinds.len() {
                assert(all[i] == kinds[i]);
            }
        }
        lemma_last_bookend_prefix(kinds, k, kinds.len() as int);
    }
}

/// A decision that reports to the webhook: an initial alert or an update.
pub open spec fn is_report(k: DecisionKind) -> bool {
    k is InitialAlert || k is Update
}

/// The frames' times never go back (a monotonic clock).
pub open spec fn times_nondecreasing(frames: Seq<(bool, bool, u64)>) -> bool {
    forall|i: int, j: int| 0 <= i < j < frames.len() ==> #[trigger] frames[i].2 <= #[trigger] frames[j].2
}

/// The time of the latest report among the first `n` decisions.
pub open spec fn latest_report(frames: Seq<(bool, bool, u64)>, kinds: Seq<DecisionKind>, n: int) -> Option<u64>
    decreases n,
{
    if n <= 0 {
        None
    } else if is_report(kinds[n - 1]) {
        Some(frames[n - 1].2)
    } else {
        latest_report(frames, kinds, n - 1)
    }
}

/// The time of the latest initial alert among the first `n` decisions.
pub open spec fn latest_alert(frames: Seq<(bool, bool, u64)>, kinds: Seq<DecisionKind>, n: int) -> Option<u64>
    decreases n,
{
    if n <= 0 {
        None
    } else if kinds[n - 1] is InitialAlert {
        Some(frames[n - 1].2)
    } else {
        latest_alert(frames, kinds, n - 1)
    }
}

/// Since the latest initial alert among the first `n` decisions, objects
/// were present in every frame and no "prolonged" update went out.
pub open spec fn steady_since_alert(frames: Seq<(bool, bool, u64)>, kinds: Seq<DecisionKind>, n: int) -> bool
    decreases n,
{
    if n <= 0 {
        true
    } else if kinds[n - 1] is InitialAlert {
        true
    } else {
        frames[n - 1].0 && kinds[n - 1] != DecisionKind::Update(UpdateReason::Prolonged) && steady_since_alert(
            frames,
            kinds,
            n - 1,
        )
    }
}

/// When the objects left: the time of the first frame without objects after
/// the last frame with them, if the latest of the first `n` frames had none.
pub open spec fn departed_at(frames: Seq<(bool, bool, u64)>, n: int) -> Option<u64>
    decreases n,
{
    if n <= 0 {
        None
    } else if frames[n - 1].0 {
        None
    } else {
        match departed_at(frames, n - 1) {
            Some(t) => Some(t),
            None => Some(frames[n - 1].2),
        }
    }
}

/// Whether an event is open after the first `n` decisions: the latest
/// initial alert or final report among them is an initial alert.
pub open spec fn event_open_after(kinds: Seq<DecisionKind>, n: int) -> bool {
    last_bookend(kinds, n) matches Some(DecisionKind::InitialAlert)
}

proof fn lemma_latest_agree(
    f1: Seq<(bool, bool, u64)>,
    k1: Seq<DecisionKind>,
    f2: Seq<(bool, bool, u64)>,
    k2: Seq<DecisionKind>,
    m: int,
)
    requires
        0 <= m <= f1.len(),
        m <= f2.len(),
        m <= k1.len(),
        m <= k2.len(),
        forall|i: int| 0 <= i < m ==> f1[i] == f2[i] && k1[i] == k2[i],
    ensures
        latest_report(f1, k1, m) == latest_report(f2, k2, m),
        latest_alert(f1, k1, m) == latest_alert(f2, k2, m),
        steady_since_alert(f1, k1, m) == steady_since_alert(f2, k2, m),
        departed_at(f1, m) == departed_at(f2, m),
        last_bookend(k1, m) == last_bookend(k2, m),
    decreases m,
{
    if m > 0 {
        lemma_latest_agree(f1, k1, f2, k2, m - 1);
    }
}

/// A run's decisions on a prefix of the frames are that prefix of its
/// decisions.
proof fn lemma_run_prefix(s: ManagerState, frames: Seq<(bool, bool, u64)>, j: int)
    requires
        0 <= j <= frames.len(),
    ensures
        run_evaluations(s, frames).1.len() == frames.len(),
        run_evaluations(s, frames.take(j)).1 == run_evaluations(s, frames).1.take(j),
    decreases frames.len(),
{
    if frames.len() > 0 {
        lemma_run_prefix(s, frames.drop_last(), if j < frames.len() { j } else { 0 });
    }
    if j == frames.len() {
        assert(frames.take(j) =~= frames);
        assert(run_evaluations(s, frames).1.take(j) =~= run_evaluations(s, frames).1);
    } else {
        assert(frames.drop_last().take(j) =~= frames.take(j));
        let k = run_evaluations(s, frames.drop_last()).1;
        let last = frames.last();
        assert(run_evaluations(s, frames).1 == k.push(evaluate_step(run_evaluations(s, frames.drop_last()).0, last.0, last.1, last.2).1));
        assert(k.push(evaluate_step(run_evaluations(s, frames.drop_last()).0, last.0, last.1, last.2).1).take(j) =~= k.take(j));
    }
}

/// What a run from a new manager keeps, on a clock that never goes back.
proof fn lemma_run_invariant(s: ManagerState, frames: Seq<(bool, bool, u64)>)
    requires
        s.state is Idle,
        s.last_report is None,
        times_nondecreasing(frames),
    ensures
        ({
            let (t, kinds) = run_evaluations(s, frames);
            let n = frames.len() as int;
            &&& kinds.len() == n
            &&& reachable(t)
            &&& t.last_report == latest_report(frames, kinds, n)
            &&& (t.state matches State::Active { started, sent_prolonged, .. } ==> latest_alert(frames, kinds, n) == Some(
                started) && (!sent_prolonged ==> steady_since_alert(frames, kinds, n)))
            &&& (t.state matches State::Cooldown { started, event_started } ==> latest_alert(frames, kinds, n) == Some(
                event_started) && event_started <= started && started <= frames[n - 1].2)
            &&& (t.state is Active ==> n > 0 && frames[n - 1].0)
            &&& (t.state matches State::Cooldown { started, .. } ==> departed_at(frames, n) == Some(started))
            &&& (t.state is Idle <==> !event_open_after(kinds, n))
            &&& (latest_alert(frames, kinds, n) matches Some(a) ==> (latest_report(frames, kinds, n) matches Some(r)
                && a <= r))
            &&& (latest_report(frames, kinds, n) matches Some(r) ==> n > 0 && r <= frames[n - 1].2)
            &&& forall|i: int| 0 <= i < n && is_report(#[trigger] kinds[i]) ==> (latest_report(frames, kinds, n) matches Some(
                r) && frames[i].2 <= r)
        }),
    decreases frames.len(),
{
    lemma_run_prefix(s, frames, frames.len() as int);
    events_run_alert_updates_report(s, frames);
    if frames.len() > 0 {
        let fr = frames.drop_last();
        assert(times_nondecreasing(fr));
        lemma_run_invariant(s, fr);
        lemma_run_prefix(s, fr, fr.len() as int);
        let (t, kinds) = run_evaluations(s, fr);
        let f = frames.last();
        let (u, k) = evaluate_step(t, f.0, f.1, f.2);
        let all = kinds.push(k);
        let m = fr.len() as int;
        assert(run_evaluations(s, frames) == (u, all));
        assert forall|i: int| 0 <= i < m implies fr[i] == frames[i] && kinds[i] == all[i] by {}
        lemma_latest_agree(fr, kinds, frames, all, m);
        assert(f == frames[m]);
        if m > 0 {
            assert(frames[m - 1].2 <= frames[m].2);
        }
        assert forall|i: int| 0 <= i < m + 1 && is_report(#[trigger] all[i]) implies (latest_report(frames, all, m + 1) matches Some(
            r) && frames[i].2 <= r) by {
            if i < m {
                assert(all[i] == kinds[i]);
                assert(frames[i] == fr[i]);
            }
        }
    }
}

/// Over any run of a new manager on a clock that never goes back, every
/// update comes at least the minimum update interval (10 s) after every
/// earlier report, initial alert or update.
pub proof fn reports_spaced_over_run(s: ManagerState, frames: Seq<(bool, bool, u64)>)
    requires
        s.state is Idle,
        s.last_report is None,
        times_nondecreasing(frames),
    ensures
        ({
            let kinds = run_evaluations(s, frames).1;
            forall|i: int, j: int|
                0 <= i < j < frames.len() && is_report(#[trigger] kinds[i]) && #[trigger] kinds[j] is Update
                    ==> frames[i].2 + MIN_UPDATE_INTERVAL_NS <= frames[j].2
        }),
{
    let kinds = run_evaluations(s, frames).1;
    lemma_run_prefix(s, frames, 0);
    assert forall|i: int, j: int|
        0 <= i < j < frames.len() && is_report(#[trigger] kinds[i]) && #[trigger] kinds[j] is Update implies frames[i].2
            + MIN_UPDATE_INTERVAL_NS <= frames[j].2 by {
        step_facts(s, frames, j);
        let pre = frames.take(j);
        let kp = run_evaluations(s, pre).1;
        assert(kp[i] == kinds[i]);
        assert(pre[i] == frames[i]);
        assert(pre[j - 1] == frames[j - 1]);
        assert(frames[j - 1].2 <= frames[j].2);
    }
}

/// Step `j` of a run: the state before it is the run of the first `j`
/// frames, whose facts hold, and decision `j` is that state's evaluation of
/// frame `j`.
proof fn step_facts(s: ManagerState, frames: Seq<(bool, bool, u64)>, j: int)
    requires
        s.state is Idle,
        s.last_report is None,
        times_nondecreasing(frames),
        0 <= j < frames.len(),
    ensures
        ({
            let pre = frames.take(j);
            let (t, kp) = run_evaluations(s, pre);
            let kinds = run_evaluations(s, frames).1;
            &&& kinds.len() == frames.len()
            &&& kp == kinds.take(j)
            &&& evaluate_step(t, frames[j].0, frames[j].1, frames[j].2).1 == kinds[j]
            &&& reachable(t)
            &&& t.last_report == latest_report(pre, kp, j)
            &&& (t.state matches State::Active { started, sent_prolonged, .. } ==> latest_alert(pre, kp, j) == Some(started)
                && (!sent_prolonged ==> steady_since_alert(pre, kp, j)))
            &&& (t.state matches State::Cooldown { started, event_started } ==> latest_alert(pre, kp, j) == Some(
                event_started) && event_started <= started && started <= pre[j - 1].2)
            &&& (t.state is Active ==> j > 0 && frames[j - 1].0)
            &&& (t.state matches State::Cooldown { started, .. } ==> departed_at(frames, j) == Some(started))
            &&& (t.state is Idle <==> !event_open_after(kinds, j))
            &&& (latest_alert(pre, kp, j) matches Some(a) ==> (latest_report(pre, kp, j) matches Some(r) && a <= r))
            &&& (latest_report(pre, kp, j) matches Some(r) ==> j > 0 && r <= frames[j - 1].2)
            &&& forall|i: int| 0 <= i < j && is_report(#[trigger] kp[i]) ==> (latest_report(pre, kp, j) matches Some(r)
                && pre[i].2 <= r)
            &&& latest_report(pre, kp, j) == latest_report(frames, kinds, j)
            &&& latest_alert(pre, kp, j) == latest_alert(frames, kinds, j)
            &&& steady_since_alert(pre, kp, j) == steady_since_alert(frames, kinds, j)
        }),
{
    let pre = frames.take(j);
    let pre1 = frames.take(j + 1);
    assert(times_nondecreasing(pre));
    lemma_run_invariant(s, pre);
    lemma_run_prefix(s, frames, j);
    lemma_run_prefix(s, frames, j + 1);
    assert(pre1.drop_last() =~= pre);
    assert(pre1.last() == frames[j]);
    let kinds = run_evaluations(s, frames).1;
    assert(run_evaluations(s, pre1).1[j] == kinds.take(j + 1)[j]);
    let kp = run_evaluations(s, pre).1;
    assert forall|i: int| 0 <= i < j implies pre[i] == frames[i] && kp[i] == kinds[i] by {}
    lemma_latest_agree(pre, kp, frames, kinds, j);
    if j > 0 {
        assert(pre[j - 1] == frames[j - 1]);
    }
}

/// Over any run of a new manager on a clock that never goes back, a
/// "prolonged" update comes at least the minimum update interval (10 s),
/// and so past the prolonged threshold (3 s), after the initial alert that
/// opened its event; since that alert objects were present in every frame
/// and no other "prolonged" update went out.
pub proof fn prolonged_update_over_run(s: ManagerState, frames: Seq<(bool, bool, u64)>)
    requires
        s.state is Idle,
        s.last_report is None,
        times_nondecreasing(frames),
    ensures
        ({
            let kinds = run_evaluations(s, frames).1;
            forall|j: int|
                0 <= j < frames.len() && #[trigger] kinds[j] == DecisionKind::Update(UpdateReason::Prolonged) ==> (
                latest_alert(frames, kinds, j) matches Some(a) && a + MIN_UPDATE_INTERVAL_NS <= frames[j].2 && a
                    + PROLONGED_THRESHOLD_NS <= frames[j].2 && frames[j].0 && steady_since_alert(frames, kinds, j))
        }),
{
    let kinds = run_evaluations(s, frames).1;
    assert forall|j: int|
        0 <= j < frames.len() && #[trigger] kinds[j] == DecisionKind::Update(UpdateReason::Prolonged) implies (latest_alert(
        frames,
        kinds,
        j,
    ) matches Some(a) && a + MIN_UPDATE_INTERVAL_NS <= frames[j].2 && a + PROLONGED_THRESHOLD_NS <= frames[j].2
        && frames[j].0 && steady_since_alert(frames, kinds, j)) by {
        step_facts(s, frames, j);
        if j > 0 {
            assert(frames[j - 1].2 <= frames[j].2);
        }
    }
}

/// Over any run of a new manager on a clock that never goes back, a final
/// report closes an event that an initial alert opened, and carries the time
/// from that alert to the report, which is at least the departure grace (3 s).
pub proof fn final_report_over_run(s: ManagerState, frames: Seq<(bool, bool, u64)>)
    requires
        s.state is Idle,
        s.last_report is None,
        times_nondecreasing(frames),
    ensures
        ({
            let kinds = run_evaluations(s, frames).1;
            forall|j: int|
                0 <= j < frames.len() && #[trigger] kinds[j] is Complete ==> (latest_alert(frames, kinds, j) matches Some(
                    a) && kinds[j] == DecisionKind::Complete((frames[j].2 - a) as u64) && a + DEPARTURE_GRACE_NS
                    <= frames[j].2)
        }),
{
    let kinds = run_evaluations(s, frames).1;
    assert forall|j: int| 0 <= j < frames.len() && #[trigger] kinds[j] is Complete implies (latest_alert(
        frames,
        kinds,
        j,
    ) matches Some(a) && kinds[j] == DecisionKind::Complete((frames[j].2 - a) as u64) && a + DEPARTURE_GRACE_NS
        <= frames[j].2) by {
        step_facts(s, frames, j);
        if j > 0 {
            assert(frames[j - 1].2 <= frames[j].2);
        }
    }
}

/// Over any run of a new manager on a clock that never goes back, the
/// manager records an event exactly while one is open (its latest initial
/// alert came after its latest final report), and the event's start is the
/// time of that initial alert; through cooldown and reappearance it stays so.
pub proof fn event_start_over_run(s: ManagerState, frames: Seq<(bool, bool, u64)>)
    requires
        s.state is Idle,
        s.last_report is None,
        times_nondecreasing(frames),
    ensures
        ({
            let (t, kinds) = run_evaluations(s, frames);
            let n = frames.len() as int;
            &&& !(t.state is Idle) <==> event_open_after(kinds, n)
            &&& event_started(t.state) == if event_open_after(kinds, n) { latest_alert(frames, kinds, n) } else { None }
        }),
{
    lemma_run_invariant(s, frames);
}

/// Over any run of a new manager on a clock that never goes back, a final
/// report comes exactly when an event is open, the frame has no objects, and
/// the objects left (the first frame without them after the last with them)
/// at least the departure grace (3 s) before.
pub proof fn final_report_after_departure_over_run(s: ManagerState, frames: Seq<(bool, bool, u64)>)
    requires
        s.state is Idle,
        s.last_report is None,
        times_nondecreasing(frames),
    ensures
        ({
            let kinds = run_evaluations(s, frames).1;
            forall|j: int|
                0 <= j < frames.len() ==> (#[trigger] kinds[j] is Complete <==> (event_open_after(kinds, j)
                    && !frames[j].0 && departed_at(frames, j) is Some && departed_at(frames, j)->0
                    + DEPARTURE_GRACE_NS <= frames[j].2))
        }),
{
    let kinds = run_evaluations(s, frames).1;
    assert forall|j: int| 0 <= j < frames.len() implies (#[trigger] kinds[j] is Complete <==> (event_open_after(kinds, j)
        && !frames[j].0 && departed_at(frames, j) is Some && departed_at(frames, j)->0 + DEPARTURE_GRACE_NS
        <= frames[j].2)) by {
        step_facts(s, frames, j);
        if j > 0 {
            assert(frames[j - 1].2 <= frames[j].2);
        }
    }
}

pub struct EventManager {
    state: State,
    last_report: Option<u64>,
}

impl EventManager {
    /// A manager is always in a reachable state.
    #[verifier::type_invariant]
    spec fn always_reachable(self) -> bool {
        reachable(ManagerState { state: self.state, last_report: self.last_report })
    }
}

impl View for EventManager {
    type V = ManagerState;

    closed spec fn view(&self) -> ManagerState {
        ManagerState { state: self.state, last_report: self.last_report }
    }
}

impl EventManager {
    /// An idle manager that has not reported yet.
    pub fn new() -> (m: EventManager)
        ensures
            m@.state == State::Idle,
            m@.last_report is None,
            reachable(m@),
    {
        EventManager { state: State::Idle, last_report: None }
    }

    /// Whether an event is under way (Active or Cooldown).
    pub fn is_recording(&self) -> (r: bool)
        ensures
            r == !(self@.state is Idle),
    {
        match self.state {
            State::Idle => false,
            _ => true,
        }
    }

    /// When the current event began, if one is under way.
    pub fn event_start(&self) -> (r: Option<u64>)
        ensures
            r == event_started(self@.state),
    {
        match self.state {
            State::Active { started, .. } => Some(started),
            State::Cooldown { event_started, .. } => Some(event_started),
            State::Idle => None,
        }
    }

    /// Decide what to report for the tracks seen at `now`.
    pub fn evaluate(&mut self, tracks: &[TrackedObject], has_new_arrivals: bool, now: u64) -> (d: EventDecision)
        ensures
            (final(self)@, d.kind()) == evaluate_step(old(self)@, tracks@.len() > 0, has_new_arrivals, now),
            d.carried() == (if d is InitialAlert || d is Update { views(tracks@) } else { Seq::empty() }),
            reachable(old(self)@),
            reachable(final(self)@),
    {
        proof {
            use_type_invariant(&*self);
        }
        let has_objects = tracks.len() > 0;
        let gap_ok = match self.last_report {
            Some(last) => (if now >= last { now - last } else { 0 }) >= MIN_UPDATE_INTERVAL_NS,
            None => true,
        };
        match self.state {
            State::Idle => {
                if has_objects {
                    self.state = State::Active { started: now, sent_initial: true, sent_prolonged: false };
                    self.last_report = Some(now);
                    EventDecision::InitialAlert { tracks: copy_tracks(tracks) }
                } else {
                    EventDecision::Quiet
                }
            },
            State::Active { started, sent_initial, sent_prolonged } => {
                if !sent_initial {
                    self.state = State::Active { started, sent_initial: true, sent_prolonged };
                    self.last_report = Some(now);
                    return EventDecision::InitialAlert { tracks: copy_tracks(tracks) };
                }
                if !has_objects {
                    self.state = State::Cooldown { started: now, event_started: started };
                    return EventDecision::Quiet;
                }
                let running = if now >= started { now - started } else { 0 };
                if !sent_prolonged && running >= PROLONGED_THRESHOLD_NS && gap_ok {
                    self.state = State::Active { started, sent_initial, sent_prolonged: true };
                    self.last_report = Some(now);
                    return EventDecision::Update { tracks: copy_tracks(tracks), reason: UpdateReason::Prolonged };
                }
                if has_new_arrivals && gap_ok {
                    self.last_report = Some(now);
                    return EventDecision::Update { tracks: copy_tracks(tracks), reason: UpdateReason::NewArrival };
                }
                EventDecision::Quiet
            },
            State::Cooldown { started, event_started } => {
                if has_objects {
                    self.state = State::Active { started: event_started, sent_initial: true, sent_prolonged: true };
                    return EventDecision::Quiet;
                }
                let away = if now >= started { now - started } else { 0 };
                if away >= DEPARTURE_GRACE_NS {
                    let total = if now >= event_started { now - event_started } else { 0 };
                    self.state = State::Idle;
                    return EventDecision::Complete { total_duration_ns: total };
                }
                EventDecision::Quiet
            },
        }
    }
}

} // verus!
