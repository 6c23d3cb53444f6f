use clawcam::frame_buffer::FrameBuffer;

#[test]
fn keeps_the_newest_frames() {
    let mut b = FrameBuffer::new(3);
    for i in 0..5u8 {
        b.push(vec![i], i as u64, 1_700_000_000 + i as i64);
    }
    let r = b.recent(10);
    assert_eq!(r.len(), 3);
    assert_eq!(r[0].jpeg, vec![2]);
    assert_eq!(r[2].jpeg, vec![4]);
    assert_eq!(r[2].epoch, 1_700_000_004);
    let last_two = b.recent(2);
    assert_eq!(last_two[0].captured_at, 3);
    assert_eq!(last_two[1].captured_at, 4);
    assert!(b.recent(0).is_empty());
}

#[test]
fn clone_recent_copies_frames() {
    let mut b = FrameBuffer::new(30);
    b.push(vec![1, 2, 3], 10, 100);
    b.push(vec![4], 20, 200);
    let c = b.clone_recent(3);
    assert_eq!(c.len(), 2);
    assert_eq!(c[0].jpeg, vec![1, 2, 3]);
    assert_eq!(c[1].captured_at, 20);
}

#[test]
fn zero_capacity_keeps_one_frame() {
    let mut b = FrameBuffer::new(0);
    b.push(vec![1], 1, 1);
    b.push(vec![2], 2, 2);
    let r = b.recent(5);
    assert_eq!(r.len(), 1);
    assert_eq!(r[0].jpeg, vec![2]);
}

#[test]
fn frames_stay_in_capture_order() {
    let mut b = FrameBuffer::new(4);
    for t in [5u64, 5, 7, 20, 21, 40] {
        b.push(vec![t as u8], t, 0);
    }
    let r = b.recent(10);
    assert_eq!(r.len(), 4);
    assert!(r.windows(2).all(|w| w[0].captured_at <= w[1].captured_at));
    assert_eq!(r[3].captured_at, 40);
    assert_eq!(b.clone_all().len(), 4);
}
