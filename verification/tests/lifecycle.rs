use clawcam::debounce::{Emit, Lifecycle, Mode};
use clawcam::webhook::Detection;

const S: u64 = 1_000_000_000;

fn person() -> Detection {
    Detection { class: "person".to_string(), class_id: 0, score_bits: 0.87f32.to_bits(), left: 120, top: 80, right: 320, bottom: 430 }
}

fn is_uuid_v4(s: &str) -> bool {
    let b = s.as_bytes();
    b.len() == 36
        && b.iter().enumerate().all(|(i, c)| {
            if i == 8 || i == 13 || i == 18 || i == 23 {
                *c == b'-'
            } else {
                c.is_ascii_digit() || (b'a'..=b'f').contains(c)
            }
        })
        && b[14] == b'4'
        && matches!(b[19], b'8' | b'9' | b'a' | b'b')
}

#[test]
fn mode_parse_words() {
    assert_eq!(Mode::parse("event"), Mode::Event);
    assert_eq!(Mode::parse("events"), Mode::Event);
    assert_eq!(Mode::parse("  EVENT\n"), Mode::Event);
    assert_eq!(Mode::parse("Events"), Mode::Event);
    assert_eq!(Mode::parse("continuous"), Mode::Continuous);
    assert_eq!(Mode::parse(""), Mode::Continuous);
    assert_eq!(Mode::parse("evented"), Mode::Continuous);
    assert_eq!(Mode::parse("ev ent"), Mode::Continuous);
    assert_eq!(Mode::parse("\u{3000}event\u{a0}"), Mode::Event);
}

#[test]
fn continuous_throttles_to_cooldown() {
    let dets = vec![person()];
    let mut l = Lifecycle::new(Mode::Continuous, 2 * S, 5 * S);
    match l.step(&dets, 10 * S) {
        Emit::Single { detections } => assert_eq!(detections.len(), 1),
        _ => panic!("expected a single-phase webhook"),
    }
    assert!(matches!(l.step(&dets, 11 * S), Emit::Silent));
    assert!(matches!(l.step(&[], 13 * S), Emit::Silent));
    assert!(matches!(l.step(&dets, 12 * S), Emit::Single { .. }));
    assert!(matches!(l.step(&dets, 13 * S), Emit::Silent));
}

#[test]
fn continuous_ignores_empty_frames() {
    let mut l = Lifecycle::new(Mode::Continuous, 0, 0);
    assert!(matches!(l.step(&[], 0), Emit::Silent));
    assert!(matches!(l.step(&[person()], 0), Emit::Single { .. }));
}

#[test]
fn event_start_and_end() {
    let dets = vec![person()];
    let mut l = Lifecycle::new(Mode::Event, 2 * S, 5 * S);
    let id = match l.step(&dets, 100 * S) {
        Emit::Start { event_id, detections } => {
            assert_eq!(detections.len(), 1);
            event_id
        }
        _ => panic!("expected a start"),
    };
    assert!(is_uuid_v4(&id), "{id}");
    assert!(matches!(l.step(&dets, 101 * S), Emit::Silent));
    assert!(matches!(l.step(&[], 103 * S), Emit::Silent));
    match l.step(&[], 106 * S) {
        Emit::End { event_id, duration_ns } => {
            assert_eq!(event_id, id);
            assert_eq!(duration_ns, 6 * S);
        }
        _ => panic!("expected an end"),
    }
    assert!(matches!(l.step(&[], 200 * S), Emit::Silent));
    match l.step(&dets, 201 * S) {
        Emit::Start { event_id, .. } => assert_ne!(event_id, id),
        _ => panic!("expected a new start"),
    }
}

#[test]
fn event_id_is_given_id() {
    let mut l = Lifecycle::new(Mode::Event, 0, S);
    match l.step_with_id(&[person()], 5, "E1".to_string()) {
        Emit::Start { event_id, .. } => assert_eq!(event_id, "E1"),
        _ => panic!("expected a start"),
    }
    assert!(matches!(l.step_with_id(&[person()], 6, "E2".to_string()), Emit::Silent));
    match l.step_with_id(&[], 6 + S, "E3".to_string()) {
        Emit::End { event_id, duration_ns } => {
            assert_eq!(event_id, "E1");
            assert_eq!(duration_ns, 1 + S);
        }
        _ => panic!("expected an end"),
    }
}

#[test]
fn event_mode_never_fires_single() {
    let mut l = Lifecycle::new(Mode::Event, 0, 0);
    let dets = vec![person()];
    for t in 0..10u64 {
        let e = if t % 3 == 0 { l.step(&[], t * S) } else { l.step(&dets, t * S) };
        assert!(!matches!(e, Emit::Single { .. }));
    }
}
