use particles_collide::pair_index::{get_particle_pair_idx, num_particle_pairs, pair_to_index};

#[test]
fn pair_idx_at_row_boundaries() {
    let expected: [(usize, (usize, usize)); 8] = [
        (0, (0, 1)),
        (1, (0, 2)),
        (2, (1, 2)),
        (3, (0, 3)),
        (5, (2, 3)),
        (6, (0, 4)),
        (9, (3, 4)),
        (10, (0, 5)),
    ];
    for (k, pair) in expected.iter() {
        assert_eq!(get_particle_pair_idx(*k), *pair);
        assert_eq!(pair_to_index(pair.0, pair.1), *k);
    }
}

#[test]
fn pair_idx_round_trip_small_counts() {
    for n in 2..80usize {
        let total = num_particle_pairs(n);
        for k in 0..total {
            let (i, j) = get_particle_pair_idx(k);
            assert!(i < j && j < n);
            assert_eq!(pair_to_index(i, j), k);
        }
    }
}

#[test]
fn pair_idx_enumerates_rows_in_order() {
    let n: usize = 40;
    let mut k: usize = 0;
    for j in 1..n {
        for i in 0..j {
            assert_eq!(get_particle_pair_idx(k), (i, j));
            k += 1;
        }
    }
    assert_eq!(k, num_particle_pairs(n));
}

#[test]
fn pair_idx_near_perfect_squares() {
    // 8k + 1 is a perfect square exactly at the start of a row
    for j in [1000usize, 65_536, 1_000_000, 1_000_000_000] {
        let start = pair_to_index(0, j);
        assert_eq!(start, j * (j - 1) / 2);
        assert_eq!(get_particle_pair_idx(start), (0, j));
        assert_eq!(get_particle_pair_idx(start - 1), (j - 2, j - 1));
        assert_eq!(get_particle_pair_idx(start + j - 1), (j - 1, j));
    }
}

#[test]
fn num_particle_pairs_values() {
    assert_eq!(num_particle_pairs(0), 0);
    assert_eq!(num_particle_pairs(1), 0);
    assert_eq!(num_particle_pairs(2), 1);
    assert_eq!(num_particle_pairs(3), 3);
    assert_eq!(num_particle_pairs(100), 4950);
}
