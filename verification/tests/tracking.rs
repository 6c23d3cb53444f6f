use clawcam::tracker::{BBox, ObjectTracker};
use clawcam::webhook::Detection;

const S: u64 = 1_000_000_000;

fn det(class_id: u32, left: u32, top: u32, right: u32, bottom: u32) -> Detection {
    let class = if class_id == 0 { "person" } else { "dog" };
    Detection { class: class.to_string(), class_id, score_bits: 0.9f32.to_bits(), left, top, right, bottom }
}

#[test]
fn new_detections_get_consecutive_ids() {
    let mut t = ObjectTracker::new();
    let tracks = t.update(&[det(0, 0, 0, 100, 100), det(16, 300, 300, 400, 400)], S);
    assert_eq!(tracks.len(), 2);
    assert_eq!(tracks[0].track_id, 1);
    assert_eq!(tracks[1].track_id, 2);
    assert_eq!(tracks[1].class, "dog");
    assert_eq!(tracks[0].frames_seen, 1);
    assert_eq!(tracks[0].first_seen, S);
}

#[test]
fn moving_object_keeps_its_id() {
    let mut t = ObjectTracker::new();
    t.update(&[det(0, 0, 0, 100, 100)], S);
    let tracks = t.update(&[det(0, 10, 0, 110, 100)], 2 * S);
    assert_eq!(tracks.len(), 1);
    assert_eq!(tracks[0].track_id, 1);
    assert_eq!(tracks[0].frames_seen, 2);
    assert_eq!(tracks[0].bbox, BBox { left: 10, top: 0, right: 110, bottom: 100 });
    assert_eq!(tracks[0].first_seen, S);
    assert_eq!(tracks[0].last_seen, 2 * S);
    assert_eq!(tracks[0].duration(), S);
}

#[test]
fn other_class_does_not_continue_a_track() {
    let mut t = ObjectTracker::new();
    t.update(&[det(0, 0, 0, 100, 100)], S);
    let tracks = t.update(&[det(16, 0, 0, 100, 100)], S + 1);
    assert_eq!(tracks.len(), 2);
    assert_eq!(tracks[1].track_id, 2);
    assert_eq!(tracks[0].frames_seen, 1);
}

#[test]
fn iou_threshold_is_a_quarter() {
    let mut t = ObjectTracker::new();
    t.update(&[det(0, 0, 0, 100, 100)], S);
    // IoU = 4000 / 16000 = 1/4 exactly: continues the track
    let tracks = t.update(&[det(0, 60, 0, 160, 100)], S + 1);
    assert_eq!(tracks.len(), 1);
    assert_eq!(tracks[0].frames_seen, 2);

    let mut u = ObjectTracker::new();
    u.update(&[det(0, 0, 0, 100, 100)], S);
    // IoU = 3900 / 16100 < 1/4: a new track
    let tracks = u.update(&[det(0, 61, 0, 161, 100)], S + 1);
    assert_eq!(tracks.len(), 2);
    assert_eq!(tracks[1].track_id, 2);
}

#[test]
fn highest_iou_wins() {
    let mut t = ObjectTracker::new();
    t.update(&[det(0, 0, 0, 100, 100)], S);
    // second detection overlaps more (9000/11000 against 5000/15000)
    let tracks = t.update(&[det(0, 50, 0, 150, 100), det(0, 10, 0, 110, 100)], 2 * S);
    assert_eq!(tracks.len(), 2);
    assert_eq!(tracks[0].track_id, 1);
    assert_eq!(tracks[0].bbox.left, 10);
    assert_eq!(tracks[1].track_id, 2);
    assert_eq!(tracks[1].bbox.left, 50);
}

#[test]
fn equal_iou_prefers_first_detection() {
    let mut t = ObjectTracker::new();
    t.update(&[det(0, 100, 0, 200, 100)], S);
    let tracks = t.update(&[det(0, 90, 0, 190, 100), det(0, 110, 0, 210, 100)], 2 * S);
    assert_eq!(tracks[0].bbox.left, 90);
    assert_eq!(tracks[1].bbox.left, 110);
}

#[test]
fn a_detection_continues_one_track_only() {
    let mut t = ObjectTracker::new();
    t.update(&[det(0, 0, 0, 100, 100), det(0, 5, 0, 105, 100)], S);
    let tracks = t.update(&[det(0, 2, 0, 102, 100)], 2 * S);
    assert_eq!(tracks.len(), 2);
    assert_eq!(tracks[0].frames_seen, 2);
    assert_eq!(tracks[1].frames_seen, 1);
}

#[test]
fn stale_tracks_are_dropped_after_two_seconds() {
    let mut t = ObjectTracker::new();
    t.update(&[det(0, 0, 0, 100, 100)], S);
    assert_eq!(t.update(&[], S + 2 * S - 1).len(), 1);
    assert_eq!(t.update(&[], 3 * S).len(), 0);
    // ids are never reused
    let tracks = t.update(&[det(0, 0, 0, 100, 100)], 4 * S);
    assert_eq!(tracks[0].track_id, 2);
}

#[test]
fn arrivals_and_longest_duration() {
    let mut t = ObjectTracker::new();
    assert_eq!(t.longest_duration(), None);
    t.update(&[det(0, 0, 0, 100, 100)], S);
    t.update(&[det(0, 0, 0, 100, 100), det(16, 500, 500, 600, 600)], 2 * S);
    assert!(t.has_new_arrivals_since(S));
    assert!(!t.has_new_arrivals_since(2 * S));
    assert_eq!(t.longest_duration(), Some(S));
    assert_eq!(t.active_tracks().len(), 2);
}

#[test]
fn iou_as_a_fraction() {
    let a = BBox { left: 0, top: 0, right: 100, bottom: 100 };
    let b = BBox { left: 10, top: 0, right: 110, bottom: 100 };
    assert_eq!(a.iou(&b), (9000, 11000));
    let z = BBox { left: 5, top: 5, right: 5, bottom: 9 };
    assert_eq!(z.iou(&z), (0, 1));
    assert_eq!(a.area_exec(), 10000);
}

#[test]
fn huge_boxes_are_tracked() {
    let mut t = ObjectTracker::new();
    let tracks = t.update(&[det(0, 0, 0, 70000, 70000)], S);
    assert_eq!(tracks.len(), 1);
    let tracks = t.update(&[det(0, 0, 0, 70000, 70001)], 2 * S);
    assert_eq!(tracks.len(), 1);
    assert_eq!(tracks[0].track_id, 1);
    assert_eq!(tracks[0].frames_seen, 2);
    let big = BBox { left: 0, top: 0, right: 2_000_000_000, bottom: 2_000_000_000 };
    let half = BBox { left: 0, top: 0, right: 2_000_000_000, bottom: 1_000_000_000 };
    assert_eq!(big.iou(&half), (2_000_000_000_000_000_000, 4_000_000_000_000_000_000));
    assert_eq!(big.area_exec(), 4_000_000_000_000_000_000);
}

#[test]
fn highest_overlap_wins_between_huge_boxes() {
    let mut t = ObjectTracker::new();
    t.update(&[det(0, 0, 0, 4_000_000_000, 4_000_000_000)], S);
    let tracks = t.update(
        &[det(0, 0, 0, 4_000_000_000, 3_000_000_000), det(0, 0, 0, 4_000_000_000, 3_900_000_000)],
        2 * S,
    );
    assert_eq!(tracks.len(), 2);
    assert_eq!(tracks[0].track_id, 1);
    assert_eq!(tracks[0].bbox.bottom, 3_900_000_000);
    assert_eq!(tracks[1].track_id, 2);
}
