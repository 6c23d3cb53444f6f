use clawcam::watcher::{WatchAction, Watcher};
use clawcam::event::UpdateReason;
use clawcam::webhook::Detection;

const MS: u64 = 1_000_000;

fn person() -> Detection {
    Detection { class: "person".to_string(), class_id: 0, score_bits: 0.9f32.to_bits(), left: 10, top: 10, right: 110, bottom: 210 }
}

#[test]
fn alert_with_pre_frames_then_report_with_clip() {
    let mut w = Watcher::new(30);
    assert!(matches!(w.step(&[], vec![0], 0, 100), WatchAction::Quiet));
    assert!(matches!(w.step(&[], vec![1], 100 * MS, 100), WatchAction::Quiet));
    let opened = match w.step(&[person()], vec![2], 200 * MS, 100) {
        WatchAction::Alert { event_id, tracks, pre_frames } => {
            assert_eq!(event_id.len(), 36);
            assert_eq!(event_id.as_bytes()[14], b'4');
            assert_eq!(tracks.len(), 1);
            assert_eq!(tracks[0].track_id, 1);
            assert_eq!(pre_frames.len(), 2);
            assert_eq!(pre_frames[0].jpeg, vec![0]);
            assert_eq!(pre_frames[1].jpeg, vec![1]);
            event_id
        }
        _ => panic!("expected an initial alert"),
    };
    assert_eq!(w.event_start(), Some(200 * MS));
    assert_eq!(w.tracks().len(), 1);
    assert!(matches!(w.step(&[person()], vec![3], 300 * MS, 100), WatchAction::Quiet));
    // the track goes stale two seconds after it was last seen
    assert!(matches!(w.step(&[], vec![4], 2_400 * MS, 102), WatchAction::Quiet));
    match w.step(&[], vec![5], 5_400 * MS, 105) {
        WatchAction::Report { event_id, total_duration_ns, clip } => {
            assert_eq!(event_id, opened);
            assert_eq!(total_duration_ns, 5_200 * MS);
            assert_eq!(clip.len(), 6);
            assert_eq!(clip[5].jpeg, vec![5]);
            assert_eq!(clip[5].captured_at, 5_400 * MS);
        }
        _ => panic!("expected the final report"),
    }
    assert_eq!(w.event_start(), None);
}

#[test]
fn updates_wait_for_the_report_gap() {
    let mut w = Watcher::new(30);
    let opened = match w.step(&[person()], vec![0], 0, 1) {
        WatchAction::Alert { event_id, .. } => event_id,
        _ => panic!("expected an initial alert"),
    };
    let dog = Detection { class: "dog".to_string(), class_id: 16, score_bits: 0, left: 500, top: 500, right: 600, bottom: 600 };
    // a new arrival, but the 10 s report gap has not passed
    assert!(matches!(w.step(&[person(), dog.clone()], vec![1], 1_000 * MS, 1), WatchAction::Quiet));
    match w.step(&[person(), dog], vec![2], 10_000 * MS, 11) {
        WatchAction::Update { event_id, tracks, reason } => {
            assert_eq!(event_id, opened);
            assert_eq!(tracks.len(), 2);
            assert_eq!(reason, UpdateReason::Prolonged);
        }
        _ => panic!("expected an update"),
    }
}

#[test]
fn frames_out_of_range_are_not_accepted() {
    let mut w = Watcher::new(4);
    assert!(w.accepts(&[person()], 10));
    let wide = Detection { class: "person".to_string(), class_id: 0, score_bits: 0, left: 3_000_000_000, top: 0, right: 3_000_000_000, bottom: 10 };
    assert!(!w.accepts(&[wide], 10));
    assert!(matches!(w.step(&[], vec![0], 10, 1), WatchAction::Quiet));
    assert!(!w.accepts(&[], 9));
    assert!(w.accepts(&[], 10));
}
