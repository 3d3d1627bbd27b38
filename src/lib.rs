//! Index arithmetic behind a parallel two-dimensional particle simulator:
//! the mapping between flat pair indices and unordered particle pairs, and the
//! contiguous partitions of particles and pair indices handed to workers, and
//! the per-range collision count whose sum over workers equals a plain double
//! loop over all pairs.

pub mod pair_index;
pub mod partition;
pub mod counting;
pub mod plan;

pub use pair_index::{get_particle_pair_idx, num_particle_pairs, pair_to_index};
