//! Work plans for a `scoped_threadpool::Pool`: the ranges that each of the
//! pool's threads is handed.

use vstd::prelude::*;
use scoped_threadpool::Pool;
use crate::pair_index::{num_pairs, num_particle_pairs};
use crate::partition::{
    collision_job_ranges, job_range_spec, movement_chunk_spec, movement_chunks, ranges_view,
};

verus! {

#[verifier::external_type_specification]
#[verifier::external_body]
pub struct ExPool(Pool);

/// Relies on `Pool::thread_count`, the length of the pool's thread list:
/// `Pool::new` asserts that it makes at least one thread, and nothing removes one.
pub assume_specification[ Pool::thread_count ](pool: &Pool) -> (r: u32)
    ensures
        r >= 1,
;

/// The chunks of `num_particles` particles that the threads of `pool` move,
/// as `[start, end)` ranges.
pub fn movement_plan(pool: &Pool, num_particles: usize) -> (r: Vec<(usize, usize)>)
    ensures
        exists|t: nat|
            1 <= t <= u32::MAX && ranges_view(r@) == #[trigger] movement_chunk_spec(
                num_particles as nat,
                t,
            ),
{
    let t = pool.thread_count() as usize;
    match movement_chunks(num_particles, t) {
        Ok(v) => {
            assert(ranges_view(v@) == movement_chunk_spec(num_particles as nat, t as nat));
            v
        },
        Err(_) => {
            proof {
                assert(false);
            }
            Vec::new()
        },
    }
}

/// The pair-index ranges that the threads of `pool` scan for collisions
/// among `num_particles` particles, one range per thread.
pub fn collision_plan(pool: &Pool, num_particles: usize) -> (r: Vec<(usize, usize)>)
    requires
        num_pairs(num_particles as nat) <= usize::MAX,
    ensures
        exists|t: nat|
            1 <= t <= u32::MAX && ranges_view(r@) == #[trigger] job_range_spec(
                num_pairs(num_particles as nat),
                t,
            ),
{
    let total = num_particle_pairs(num_particles);
    let t = pool.thread_count() as usize;
    match collision_job_ranges(total, t) {
        Ok(v) => {
            assert(ranges_view(v@) == job_range_spec(total as nat, t as nat));
            v
        },
        Err(_) => {
            proof {
                assert(false);
            }
            Vec::new()
        },
    }
}

} // verus!
