use clawcam::event::{EventDecision, EventManager, UpdateReason};
use clawcam::tracker::{BBox, TrackedObject};

const S: u64 = 1_000_000_000;

fn track(id: u64) -> TrackedObject {
    TrackedObject {
        track_id: id,
        class: "person".to_string(),
        class_id: 0,
        bbox: BBox { left: 1, top: 2, right: 30, bottom: 40 },
        score_bits: 0,
        first_seen: 0,
        last_seen: 0,
        frames_seen: 1,
    }
}

#[test]
fn idle_without_objects_is_quiet() {
    let mut m = EventManager::new();
    assert!(matches!(m.evaluate(&[], false, 5 * S), EventDecision::Quiet));
    assert!(!m.is_recording());
    assert_eq!(m.event_start(), None);
}

#[test]
fn full_event_lifecycle() {
    let tracks = vec![track(1)];
    let mut m = EventManager::new();
    match m.evaluate(&tracks, true, 100 * S) {
        EventDecision::InitialAlert { tracks } => assert_eq!(tracks[0].track_id, 1),
        _ => panic!("expected an initial alert"),
    }
    assert!(m.is_recording());
    assert_eq!(m.event_start(), Some(100 * S));
    // prolonged, but the report gap has not passed yet
    assert!(matches!(m.evaluate(&tracks, false, 104 * S), EventDecision::Quiet));
    match m.evaluate(&tracks, false, 110 * S) {
        EventDecision::Update { reason, .. } => assert_eq!(reason, UpdateReason::Prolonged),
        _ => panic!("expected a prolonged update"),
    }
    // a new arrival within the gap is held back, then let through
    assert!(matches!(m.evaluate(&tracks, true, 115 * S), EventDecision::Quiet));
    match m.evaluate(&tracks, true, 120 * S) {
        EventDecision::Update { reason, .. } => assert_eq!(reason, UpdateReason::NewArrival),
        _ => panic!("expected a new-arrival update"),
    }
    // objects leave: cooldown, then completion after the grace period
    assert!(matches!(m.evaluate(&[], false, 121 * S), EventDecision::Quiet));
    assert!(m.is_recording());
    assert_eq!(m.event_start(), Some(100 * S));
    assert!(matches!(m.evaluate(&[], false, 123 * S), EventDecision::Quiet));
    match m.evaluate(&[], false, 124 * S) {
        EventDecision::Complete { total_duration_ns } => assert_eq!(total_duration_ns, 24 * S),
        _ => panic!("expected completion"),
    }
    assert!(!m.is_recording());
}

#[test]
fn return_during_cooldown_resumes_event() {
    let tracks = vec![track(1)];
    let mut m = EventManager::new();
    assert!(matches!(m.evaluate(&tracks, false, 0), EventDecision::InitialAlert { .. }));
    assert!(matches!(m.evaluate(&[], false, S), EventDecision::Quiet));
    assert!(matches!(m.evaluate(&tracks, false, 2 * S), EventDecision::Quiet));
    assert_eq!(m.event_start(), Some(0));
    // no prolonged update after a cooldown, even once the gap has passed
    assert!(matches!(m.evaluate(&tracks, false, 30 * S), EventDecision::Quiet));
    assert!(matches!(m.evaluate(&[], false, 31 * S), EventDecision::Quiet));
    match m.evaluate(&[], false, 34 * S) {
        EventDecision::Complete { total_duration_ns } => assert_eq!(total_duration_ns, 34 * S),
        _ => panic!("expected completion"),
    }
}

#[test]
fn one_initial_alert_per_event() {
    let tracks = vec![track(1)];
    let mut m = EventManager::new();
    let mut alerts = 0;
    for t in 0..20u64 {
        if let EventDecision::InitialAlert { .. } = m.evaluate(&tracks, false, t * S) {
            alerts += 1;
        }
    }
    assert_eq!(alerts, 1);
}
