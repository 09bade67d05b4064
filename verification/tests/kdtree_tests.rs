use fraud_detector::kdtree::{KdTree, LEAF_SIZE};
use fraud_detector::repository::FraudRepository;
use fraud_detector::select::{median_of_three, nth_element};
use fraud_detector::vector::{Label, VECTOR_DIM};

struct Lcg(u64);

impl Lcg {
    fn next(&mut self) -> f64 {
        self.0 = self.0.wrapping_mul(6364136223846793005).wrapping_add(1442695040888963407);
        ((self.0 >> 11) as f64 / (1u64 << 53) as f64) * 2.0 - 0.5
    }
}

fn random_records(n: usize, seed: u64) -> Vec<([f64; VECTOR_DIM], u8)> {
    let mut rng = Lcg(seed);
    (0..n)
        .map(|i| {
            let mut v = [0.0; VECTOR_DIM];
            for x in v.iter_mut() {
                *x = rng.next();
            }
            // A few repeated values, to exercise ties.
            if i % 7 == 0 {
                v[0] = 0.25;
            }
            (v, (i % 3 == 0) as u8)
        })
        .collect()
}

fn repository(records: &[([f64; VECTOR_DIM], u8)]) -> FraudRepository {
    let mut bytes = Vec::new();
    bytes.extend_from_slice(&(records.len() as u32).to_le_bytes());
    bytes.extend_from_slice(&(VECTOR_DIM as u16).to_le_bytes());
    for (vector, label) in records {
        for x in vector {
            bytes.extend_from_slice(&x.to_le_bytes());
        }
        bytes.push(*label);
    }
    FraudRepository::new(bytes)
}

fn check_node(records: &[([f64; VECTOR_DIM], u8)], idx: &[u32], start: usize, end: usize, depth: usize) {
    if end - start <= LEAF_SIZE {
        return;
    }
    let dim = depth % VECTOR_DIM;
    let mid = (start + end) / 2;
    let pivot = records[idx[mid] as usize].0[dim];
    for i in start..mid {
        assert!(records[idx[i] as usize].0[dim] <= pivot);
    }
    for i in mid + 1..end {
        assert!(records[idx[i] as usize].0[dim] >= pivot);
    }
    check_node(records, idx, start, mid, depth + 1);
    check_node(records, idx, mid + 1, end, depth + 1);
}

#[test]
fn tree_is_split_at_medians() {
    let records = random_records(500, 7);
    let tree = KdTree::new(repository(&records));
    let idx = tree.indices().clone();
    let mut sorted = idx.clone();
    sorted.sort();
    assert_eq!(sorted, (0..500u32).collect::<Vec<_>>());
    check_node(&records, &idx, 0, idx.len(), 0);
}

#[test]
fn small_and_empty_trees() {
    let records = random_records(20, 3);
    let tree = KdTree::new(repository(&records));
    assert_eq!(tree.indices().clone(), (0..20u32).collect::<Vec<_>>());
    let tree = KdTree::new(repository(&[]));
    assert!(tree.indices().is_empty());
}

#[test]
fn nth_element_selects() {
    let records = random_records(60, 11);
    let repo = repository(&records);
    for k in [0usize, 1, 17, 30, 59] {
        let mut slice: Vec<u32> = (0..60).collect();
        nth_element(&repo, &mut slice, 0, 60, k, 2);
        let pivot = records[slice[k] as usize].0[2];
        let mut values: Vec<f64> = records.iter().map(|r| r.0[2]).collect();
        values.sort_by(|a, b| a.partial_cmp(b).unwrap());
        assert_eq!(pivot, values[k]);
        for i in 0..k {
            assert!(records[slice[i] as usize].0[2] <= pivot);
        }
        for i in k + 1..60 {
            assert!(records[slice[i] as usize].0[2] >= pivot);
        }
    }
}

#[test]
fn nth_element_keeps_the_rest() {
    let records = random_records(40, 5);
    let repo = repository(&records);
    let mut slice: Vec<u32> = (0..40).rev().collect();
    nth_element(&repo, &mut slice, 10, 30, 20, 4);
    assert_eq!(&slice[..10], &(30..40u32).rev().collect::<Vec<_>>()[..]);
    assert_eq!(&slice[30..], &(0..10u32).rev().collect::<Vec<_>>()[..]);
    let mut middle = slice[10..30].to_vec();
    middle.sort();
    assert_eq!(middle, (10..30u32).collect::<Vec<_>>());
}

#[test]
fn median_of_three_picks_the_median() {
    let mut records = random_records(3, 1);
    records[0].0[0] = 3.0;
    records[1].0[0] = 1.0;
    records[2].0[0] = 2.0;
    let repo = repository(&records);
    // Positions 0, 1, 2 hold records 0, 2, 1 (values 3, 2, 1): the middle wins.
    assert_eq!(median_of_three(&repo, &vec![0, 2, 1], 0, 2, 0), 1);
    // Values 1, 3, 2 at left, middle, right: the right one is the median.
    assert_eq!(median_of_three(&repo, &vec![1, 0, 2], 0, 2, 0), 2);
    // Values 2, 1, 3: the left one is the median.
    assert_eq!(median_of_three(&repo, &vec![2, 1, 0], 0, 2, 0), 0);
}

fn exact_dist(records: &[([f64; VECTOR_DIM], u8)], query: &[f64; VECTOR_DIM], r: u32) -> f64 {
    let v = &records[r as usize].0;
    (0..VECTOR_DIM).map(|i| (query[i] - v[i]) * (query[i] - v[i])).sum()
}

#[test]
fn knn_finds_the_nearest_records() {
    let records = random_records(400, 21);
    let tree = KdTree::new(repository(&records));
    let mut rng = Lcg(99);
    for _ in 0..20 {
        let mut query = [0.0; VECTOR_DIM];
        for x in query.iter_mut() {
            *x = rng.next();
        }
        let dist = |r: u32| -> u32 { (exact_dist(&records, &query, r) as f32).to_bits() };
        let split = |r: u32, dim: usize| -> (bool, u32) {
            let diff = query[dim] - records[r as usize].0[dim];
            // A bound rounded down keeps the pruning sound.
            let bound = ((diff * diff) as f32).to_bits().saturating_sub(1);
            (diff <= 0.0, bound)
        };
        let (fraud, n) = tree.knn(&dist, &split);
        assert_eq!(n, 7);

        let mut all: Vec<(u32, u32)> = (0..400u32).map(|r| (dist(r), r)).collect();
        all.sort();
        let nearest: Vec<u32> = all[..7].iter().map(|&(_, r)| r).collect();
        assert!(all[6].0 < all[7].0, "distinct distances at the boundary");
        let expected = nearest.iter().filter(|&&r| tree.repository().get_label(r as usize) == Label::Fraud).count();
        assert_eq!(fraud as usize, expected);
    }
}

#[test]
fn knn_on_few_records() {
    let records = random_records(4, 8);
    let tree = KdTree::new(repository(&records));
    let dist = |r: u32| -> u32 { r };
    let split = |_r: u32, _dim: usize| -> (bool, u32) { (true, 0) };
    let (fraud, n) = tree.knn(&dist, &split);
    assert_eq!(n, 4);
    // Records 0 and 3 are labelled fraud.
    assert_eq!(fraud, 2);
}

#[test]
fn nth_element_past_the_range_only_rearranges() {
    let records = random_records(50, 13);
    let repo = repository(&records);
    for k in [50usize, 51, 1000] {
        let mut slice: Vec<u32> = (0..50).collect();
        nth_element(&repo, &mut slice, 0, 50, k, 1);
        let mut sorted = slice.clone();
        sorted.sort();
        assert_eq!(sorted, (0..50u32).collect::<Vec<_>>());
    }
}

#[test]
fn small_tree_over_an_incomplete_file() {
    // The header announces 20 records but the file holds none: a single
    // leaf is built without reading them.
    let mut bytes = Vec::new();
    bytes.extend_from_slice(&20u32.to_le_bytes());
    bytes.extend_from_slice(&(VECTOR_DIM as u16).to_le_bytes());
    let repo = FraudRepository::new(bytes);
    assert!(!repo.is_complete());
    let tree = KdTree::new(repo);
    assert_eq!(tree.indices().clone(), (0..20u32).collect::<Vec<_>>());
}

#[test]
fn nan_components_are_compared_as_ieee_does() {
    let mut records = random_records(3, 2);
    records[0].0[0] = f64::NAN;
    records[1].0[0] = 1.0;
    records[2].0[0] = 2.0;
    let repo = repository(&records);
    // A NaN fails every comparison, so the right position is picked.
    assert_eq!(median_of_three(&repo, &vec![0, 1, 2], 0, 2, 0), 2);
    assert_eq!(median_of_three(&repo, &vec![1, 0, 2], 0, 2, 0), 2);
}

#[test]
fn trees_over_nan_components_are_still_permutations() {
    let mut records = random_records(300, 17);
    for i in (0..300).step_by(5) {
        records[i].0[i % VECTOR_DIM] = f64::NAN;
    }
    let tree = KdTree::new(repository(&records));
    let mut sorted = tree.indices().clone();
    sorted.sort();
    assert_eq!(sorted, (0..300u32).collect::<Vec<_>>());
    let mut slice: Vec<u32> = (0..300).collect();
    nth_element(tree.repository(), &mut slice, 0, 300, 150, 0);
    slice.sort();
    assert_eq!(slice, (0..300u32).collect::<Vec<_>>());
}

#[test]
fn median_of_three_reads_only_its_three_records() {
    let mut records = random_records(3, 2);
    records[0].0[1] = 5.0;
    records[1].0[1] = -1.0;
    records[2].0[1] = 0.5;
    let repo = repository(&records);
    // Positions 1 and 3 name records far beyond the file; only positions
    // 0, 2 and 4 (records 0, 2, 1: values 5, 0.5, -1) are read.
    let slice = vec![0, 9_000_000, 2, 9_000_001, 1];
    assert_eq!(median_of_three(&repo, &slice, 0, 4, 1), 2);
}

#[test]
fn knn_with_nan_distances_keeps_the_first_records_offered() {
    // Ten records make a single leaf, offered in index order. Every distance
    // is a NaN, which is never nearer than a kept one: the first seven stay.
    let records = random_records(10, 4);
    let tree = KdTree::new(repository(&records));
    let dist = |_r: u32| -> u32 { f32::NAN.to_bits() };
    let split = |_r: u32, _dim: usize| -> (bool, u32) { (true, f32::NAN.to_bits()) };
    let (fraud, n) = tree.knn(&dist, &split);
    assert_eq!(n, 7);
    // Records 0, 3 and 6 are labelled fraud.
    assert_eq!(fraud, 3);
}
