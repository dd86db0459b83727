use spring_layout::partition::{partition, worker_count};

#[test]
fn one_thread_is_left_free() {
    assert_eq!(worker_count(8), 7);
    assert_eq!(worker_count(2), 1);
}

#[test]
fn at_least_one_worker_runs() {
    assert_eq!(worker_count(1), 1);
    assert_eq!(worker_count(0), 1);
}

#[test]
fn worker_count_at_the_largest_machine() {
    assert_eq!(worker_count(usize::MAX), usize::MAX - 1);
}

#[test]
fn last_slice_takes_the_remainder() {
    assert_eq!(partition(10, 4), vec![0..2, 2..4, 4..6, 6..10]);
}

#[test]
fn even_split() {
    assert_eq!(partition(12, 3), vec![0..4, 4..8, 8..12]);
}

#[test]
fn single_worker_takes_everything() {
    assert_eq!(partition(3, 1), vec![0..3]);
    assert_eq!(partition(0, 1), vec![0..0]);
}

#[test]
fn two_workers() {
    assert_eq!(partition(5, 2), vec![0..2, 2..5]);
}

#[test]
fn more_workers_than_nodes() {
    assert_eq!(partition(2, 5), vec![0..0, 0..0, 0..0, 0..0, 0..2]);
}

#[test]
fn no_nodes() {
    assert_eq!(partition(0, 3), vec![0..0, 0..0, 0..0]);
}

#[test]
fn one_node_per_worker() {
    assert_eq!(partition(4, 4), vec![0..1, 1..2, 2..3, 3..4]);
}

#[test]
fn every_node_is_covered_exactly_once() {
    for len in 1..=40usize {
        for workers in 1..=len {
            let ranges = partition(len, workers);
            assert_eq!(ranges.len(), workers);
            let mut seen = vec![0usize; len];
            for range in &ranges {
                for i in range.clone() {
                    seen[i] += 1;
                }
            }
            assert!(seen.iter().all(|&count| count == 1));
        }
    }
}

#[test]
fn slices_follow_one_another() {
    for len in 0..=30usize {
        for workers in 1..=12usize {
            let ranges = partition(len, workers);
            assert_eq!(ranges[0].start, 0);
            assert_eq!(ranges[workers - 1].end, len);
            for e in 1..workers {
                assert_eq!(ranges[e - 1].end, ranges[e].start);
            }
            for e in 0..workers - 1 {
                assert_eq!(ranges[e].end - ranges[e].start, len / workers);
            }
        }
    }
}
