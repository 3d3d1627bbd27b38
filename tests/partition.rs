use particles_collide::partition::{chunk_size, collision_job_ranges, movement_chunks, ConfigError};
use particles_collide::plan::{collision_plan, movement_plan};

#[test]
fn chunk_size_rounds_up() {
    assert_eq!(chunk_size(100, 4), Ok(25));
    assert_eq!(chunk_size(10, 3), Ok(4));
    assert_eq!(chunk_size(0, 3), Ok(0));
    assert_eq!(chunk_size(1, 8), Ok(1));
}

#[test]
fn zero_threads_is_rejected() {
    assert_eq!(chunk_size(10, 0), Err(ConfigError::ZeroThreads));
    assert_eq!(movement_chunks(10, 0), Err(ConfigError::ZeroThreads));
    assert_eq!(collision_job_ranges(10, 0), Err(ConfigError::ZeroThreads));
}

#[test]
fn movement_chunks_values() {
    assert_eq!(movement_chunks(10, 3), Ok(vec![(0, 4), (4, 8), (8, 10)]));
    assert_eq!(movement_chunks(10, 4), Ok(vec![(0, 3), (3, 6), (6, 9), (9, 10)]));
    assert_eq!(movement_chunks(3, 8), Ok(vec![(0, 1), (1, 2), (2, 3)]));
    assert_eq!(movement_chunks(0, 4), Ok(vec![]));
    assert_eq!(movement_chunks(7, 1), Ok(vec![(0, 7)]));
}

#[test]
fn movement_chunks_cover_each_particle_once() {
    for n in 0..60usize {
        for t in 1..12usize {
            let chunks = movement_chunks(n, t).unwrap();
            let size = chunk_size(n, t).unwrap();
            assert!(chunks.len() <= t);
            let mut updates = vec![0u32; n];
            for (k, (start, end)) in chunks.iter().enumerate() {
                if k + 1 < chunks.len() {
                    assert_eq!(end - start, size);
                } else {
                    assert!(end - start >= 1 && end - start <= size);
                }
                for p in *start..*end {
                    updates[p] += 1;
                }
            }
            assert!(updates.iter().all(|u| *u == 1));
        }
    }
}

#[test]
fn collision_job_ranges_values() {
    assert_eq!(collision_job_ranges(10, 3), Ok(vec![(0, 4), (4, 8), (8, 10)]));
    assert_eq!(collision_job_ranges(10, 4), Ok(vec![(0, 3), (3, 6), (6, 9), (9, 10)]));
    assert_eq!(collision_job_ranges(1, 3), Ok(vec![(0, 1), (1, 1), (1, 1)]));
    assert_eq!(collision_job_ranges(0, 2), Ok(vec![(0, 0), (0, 0)]));
}

#[test]
fn plans_follow_pool_size() {
    let pool = scoped_threadpool::Pool::new(3);
    assert_eq!(movement_plan(&pool, 10), vec![(0, 4), (4, 8), (8, 10)]);
    assert_eq!(movement_plan(&pool, 0), vec![]);
    // five particles make ten pairs
    assert_eq!(collision_plan(&pool, 5), vec![(0, 4), (4, 8), (8, 10)]);
    assert_eq!(collision_plan(&pool, 1), vec![(0, 0), (0, 0), (0, 0)]);
}
