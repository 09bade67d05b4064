use fraud_detector::heap::{dist_less, BoundedMaxHeap, HeapItem, K, MAX_DIST};

fn contents(heap: &BoundedMaxHeap) -> Vec<(u32, u32)> {
    let mut v: Vec<(u32, u32)> = (0..heap.len()).map(|i| {
        let item: HeapItem = heap.get(i);
        (item.index, item.dist)
    }).collect();
    v.sort();
    v
}

#[test]
fn empty_heap() {
    let heap = BoundedMaxHeap::new();
    assert_eq!(heap.len(), 0);
    assert!(!heap.is_full());
    assert_eq!(heap.max_dist(), MAX_DIST);
    assert_eq!(MAX_DIST, f32::MAX.to_bits());
}

#[test]
fn keeps_the_nearest_candidates() {
    let mut heap = BoundedMaxHeap::new();
    let dists = [50u32, 10, 70, 30, 90, 20, 60, 40, 80, 5, 100];
    for (i, d) in dists.iter().enumerate() {
        heap.push(i as u32, *d);
        assert!(heap.len() <= K);
    }
    assert!(heap.is_full());
    assert_eq!(contents(&heap), vec![(0, 50), (1, 10), (3, 30), (5, 20), (6, 60), (7, 40), (9, 5)]);
    assert_eq!(heap.max_dist(), 60);
    assert_eq!(heap.get(0).dist, 60);
}

#[test]
fn ties_with_the_farthest_are_dropped() {
    let mut heap = BoundedMaxHeap::new();
    for i in 0..K as u32 {
        heap.push(i, 7);
    }
    heap.push(100, 7);
    assert!(contents(&heap).iter().all(|&(index, _)| index < K as u32));
    heap.push(101, 6);
    assert!(contents(&heap).contains(&(101, 6)));
    assert_eq!(heap.len(), K);
}

#[test]
fn fills_before_it_replaces() {
    let mut heap = BoundedMaxHeap::new();
    heap.push(1, 1000);
    heap.push(2, 2000);
    assert_eq!(heap.len(), 2);
    assert_eq!(heap.max_dist(), 2000);
    assert!(!heap.is_full());
}

fn order(heap: &BoundedMaxHeap) -> Vec<(u32, u32)> {
    (0..heap.len()).map(|i| {
        let item = heap.get(i);
        (item.index, item.dist)
    }).collect()
}

#[test]
fn arrangement_after_pushes() {
    let mut heap = BoundedMaxHeap::new();
    heap.push(0, 1);
    heap.push(1, 5);
    heap.push(2, 3);
    // 5 rises above 1; 3 stays below 5.
    assert_eq!(order(&heap), vec![(1, 5), (0, 1), (2, 3)]);
    for (i, d) in [(3u32, 9u32), (4, 2), (5, 7), (6, 4)] {
        heap.push(i, d);
    }
    assert_eq!(order(&heap), vec![(3, 9), (1, 5), (5, 7), (0, 1), (4, 2), (2, 3), (6, 4)]);
    // The root is replaced and sifted down through the larger child.
    heap.push(7, 6);
    assert_eq!(order(&heap), vec![(5, 7), (1, 5), (7, 6), (0, 1), (4, 2), (2, 3), (6, 4)]);
    // A candidate no nearer than the root leaves the heap as it was.
    heap.push(8, 7);
    assert_eq!(order(&heap), vec![(5, 7), (1, 5), (7, 6), (0, 1), (4, 2), (2, 3), (6, 4)]);
}

#[test]
fn sifting_an_ordered_heap_changes_nothing() {
    let mut heap = BoundedMaxHeap::new();
    for (i, d) in [(1u32, 40u32), (2, 10), (3, 30), (4, 20), (5, 50)] {
        heap.push(i, d);
    }
    let before = order(&heap);
    heap.sift_down(0);
    assert_eq!(order(&heap), before);
    heap.sift_up(4);
    assert_eq!(order(&heap), before);
    assert_eq!(heap.max_dist(), 50);
}

#[test]
fn a_run_of_pushes_keeps_the_seven_nearest() {
    let mut heap = BoundedMaxHeap::new();
    let dists = [90u32, 15, 70, 15, 3, 88, 41, 60, 2, 99, 41, 7];
    for (i, d) in dists.iter().enumerate() {
        heap.push(i as u32, *d);
    }
    assert_eq!(heap.len(), 7);
    let mut kept: Vec<u32> = contents(&heap).iter().map(|c| c.1).collect();
    kept.sort();
    assert_eq!(kept, vec![2, 3, 7, 15, 15, 41, 41]);
    assert_eq!(heap.max_dist(), 41);
}

#[test]
fn a_nan_at_the_root_keeps_out_later_candidates() {
    let nan = f32::NAN.to_bits();
    let mut heap = BoundedMaxHeap::new();
    heap.push(0, nan);
    for i in 1..7u32 {
        heap.push(i, (i as f32).to_bits());
    }
    assert!(heap.is_full());
    // A NaN is never farther than its children, so it stays at the root,
    // and no candidate is nearer than it.
    assert_eq!(heap.max_dist(), nan);
    heap.push(7, 0.5f32.to_bits());
    let kept: Vec<u32> = contents(&heap).iter().map(|c| c.0).collect();
    assert_eq!(kept, (0..7u32).collect::<Vec<_>>());
}

#[test]
fn a_nan_below_the_root_is_never_replaced_by_comparison() {
    let nan = f32::NAN.to_bits();
    let mut heap = BoundedMaxHeap::new();
    for i in 0..6u32 {
        heap.push(i, ((i + 1) as f32).to_bits());
    }
    heap.push(6, nan);
    // The NaN does not rise past its parent; the root stays the farthest
    // number.
    assert_eq!(heap.max_dist(), 6.0f32.to_bits());
    heap.push(7, 0.5f32.to_bits());
    let kept: Vec<u32> = contents(&heap).iter().map(|c| c.0).collect();
    assert_eq!(kept, vec![0, 1, 2, 3, 4, 6, 7]);
}

#[test]
fn distance_keys_compare_as_f32_values() {
    let zero = 0.0f32.to_bits();
    let neg_zero = (-0.0f32).to_bits();
    let one = 1.0f32.to_bits();
    let neg_one = (-1.0f32).to_bits();
    let nan = f32::NAN.to_bits();
    assert!(!dist_less(neg_zero, zero));
    assert!(!dist_less(zero, neg_zero));
    assert!(dist_less(neg_one, zero));
    assert!(dist_less(zero, one));
    assert!(!dist_less(one, zero));
    assert!(dist_less(zero, f32::INFINITY.to_bits()));
    assert!(!dist_less(nan, one));
    assert!(!dist_less(one, nan));
    assert!(!dist_less(nan, nan));
}
