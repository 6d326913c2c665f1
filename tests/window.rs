use sphere_visualizer::window::SlidingWindow;

#[test]
fn starts_empty() {
    let w: SlidingWindow<i32> = SlidingWindow::new(4);
    assert_eq!(w.len(), 0);
    assert_eq!(w.capacity(), 4);
    assert!(!w.is_full());
    assert!(w.snapshot().is_empty());
}

#[test]
fn overflow_keeps_most_recent_in_order() {
    let mut w = SlidingWindow::new(4);
    w.push(&[1, 2, 3]);
    assert!(!w.is_full());
    w.push(&[4, 5]);
    assert!(w.is_full());
    assert_eq!(w.snapshot(), vec![2, 3, 4, 5]);
    w.push(&[6, 7, 8, 9, 10, 11]);
    assert_eq!(w.len(), 4);
    assert_eq!(w.snapshot(), vec![8, 9, 10, 11]);
}

#[test]
fn empty_chunk_changes_nothing() {
    let mut w = SlidingWindow::new(3);
    w.push(&[1.5f32, 2.5]);
    w.push(&[]);
    assert_eq!(w.snapshot(), vec![1.5, 2.5]);
}

#[test]
fn snapshot_does_not_consume() {
    let mut w = SlidingWindow::new(2);
    w.push(&[7u8, 8]);
    assert_eq!(w.snapshot(), vec![7, 8]);
    assert_eq!(w.snapshot(), vec![7, 8]);
}

#[test]
fn zero_capacity_holds_nothing() {
    let mut w = SlidingWindow::new(0);
    w.push(&[1, 2, 3]);
    assert!(w.is_full());
    assert!(w.snapshot().is_empty());
}

#[test]
fn many_chunks_leave_capacity_samples() {
    let mut w = SlidingWindow::new(4096);
    let mut all: Vec<u32> = Vec::new();
    for chunk in 0..40u32 {
        let samples: Vec<u32> = (0..128).map(|i| chunk * 128 + i).collect();
        all.extend_from_slice(&samples);
        w.push(&samples);
    }
    assert!(w.is_full());
    assert_eq!(w.snapshot(), all[all.len() - 4096..].to_vec());
}
