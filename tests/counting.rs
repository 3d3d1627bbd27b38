use particles_collide::counting::count_pair_hits;
use particles_collide::pair_index::{get_particle_pair_idx, num_particle_pairs};
use particles_collide::partition::collision_job_ranges;

fn collide(a: (f32, f32), b: (f32, f32), radius: f32) -> bool {
    let dx = a.0 - b.0;
    let dy = a.1 - b.1;
    dx * dx + dy * dy <= (radius + radius) * (radius + radius)
}

fn sharded_count(points: &[(f32, f32)], radius: f32, threads: usize) -> usize {
    let total = num_particle_pairs(points.len());
    let mut count: usize = 0;
    let hit = |i: usize, j: usize| collide(points[i], points[j], radius);
    for (start, end) in collision_job_ranges(total, threads).unwrap() {
        count += count_pair_hits(&hit, start, end);
    }
    count
}

fn naive_count(points: &[(f32, f32)], radius: f32) -> usize {
    let mut count: usize = 0;
    for i in 0..points.len() {
        for j in (i + 1)..points.len() {
            if collide(points[i], points[j], radius) {
                count += 1;
            }
        }
    }
    count
}

fn random_points(n: usize) -> Vec<(f32, f32)> {
    (0..n)
        .map(|_| (rand::random_range(0.0..=3.0f32), rand::random_range(0.0..=3.0f32)))
        .collect()
}

#[test]
fn sharded_count_matches_double_loop() {
    for n in [0usize, 1, 2, 3, 17, 60, 150] {
        let points = random_points(n);
        assert_eq!(sharded_count(&points, 0.1, 1), naive_count(&points, 0.1));
    }
}

#[test]
fn sharded_count_independent_of_threads() {
    for n in [0usize, 1, 5, 40, 123] {
        let points = random_points(n);
        let one = sharded_count(&points, 0.2, 1);
        for t in [2usize, 3, 8] {
            assert_eq!(sharded_count(&points, 0.2, t), one);
        }
    }
}

#[test]
fn degenerate_counts_are_zero() {
    assert_eq!(sharded_count(&[], 0.1, 4), 0);
    assert_eq!(sharded_count(&[(1.0, 1.0)], 0.1, 4), 0);
}

#[test]
fn close_pair_counts_once() {
    let points = [(0.0f32, 0.0f32), (0.05, 0.0), (5.0, 5.0)];
    for t in [1usize, 2, 3, 8] {
        assert_eq!(sharded_count(&points, 0.1, t), 1);
    }
}

#[test]
fn count_pair_hits_asks_each_pair_once() {
    let asked = std::cell::RefCell::new(Vec::new());
    let record = |i: usize, j: usize| {
        asked.borrow_mut().push((i, j));
        j == i + 1
    };
    // indices 2..7 are the pairs (1,2) (0,3) (1,3) (2,3) (0,4)
    assert_eq!(count_pair_hits(&record, 2, 7), 2);
    assert_eq!(*asked.borrow(), vec![(1, 2), (0, 3), (1, 3), (2, 3), (0, 4)]);
    for k in 2..7usize {
        assert_eq!(asked.borrow()[k - 2], get_particle_pair_idx(k));
    }
}

#[test]
fn count_pair_hits_empty_range() {
    let always = |_: usize, _: usize| true;
    assert_eq!(count_pair_hits(&always, 4, 4), 0);
    assert_eq!(count_pair_hits(&always, 0, 10), 10);
}
