//! What a sharded collision count adds up to.
//!
//! For any collision predicate `hit(i, j)` over pairs `i < j`, summing the hits
//! of each worker's pair-index range gives the count of a plain double loop
//! over all pairs, whatever the number of workers.

use vstd::prelude::*;
use crate::pair_index::{
    get_particle_pair_idx, index_to_pair, lemma_index_to_pair_shape, lemma_index_to_pair_unique,
    num_pairs, pair_index_of, tri,
};
use crate::partition::{
    ceil_div, job_range_spec, lemma_ceil_div, min_nat, span, spans,
};

verus! {

/// The hits among the pairs with flat indices in `[lo, hi)`.
pub open spec fn flat_count(hit: spec_fn(nat, nat) -> bool, lo: nat, hi: nat) -> nat
    decreases hi,
{
    if hi <= lo {
        0
    } else {
        let p = index_to_pair((hi - 1) as nat);
        flat_count(hit, lo, (hi - 1) as nat) + if hit(p.0, p.1) {
            1nat
        } else {
            0nat
        }
    }
}

/// The hits among the pairs `(i, j)` with `i < m`.
pub open spec fn row_count(hit: spec_fn(nat, nat) -> bool, j: nat, m: nat) -> nat
    decreases m,
{
    if m == 0 {
        0
    } else {
        row_count(hit, j, (m - 1) as nat) + if hit((m - 1) as nat, j) {
            1nat
        } else {
            0nat
        }
    }
}

/// The hits among all pairs `i < j < n`, by a double loop over `j` and `i < j`.
pub open spec fn naive_count(hit: spec_fn(nat, nat) -> bool, n: nat) -> nat
    decreases n,
{
    if n == 0 {
        0
    } else {
        naive_count(hit, (n - 1) as nat) + row_count(hit, (n - 1) as nat, (n - 1) as nat)
    }
}

/// The hits of each range of flat indices, added up.
pub open spec fn ranges_count(hit: spec_fn(nat, nat) -> bool, rs: Seq<(nat, nat)>) -> nat
    decreases rs.len(),
{
    if rs.len() == 0 {
        0
    } else {
        ranges_count(hit, rs.drop_last()) + flat_count(hit, rs.last().0, rs.last().1)
    }
}

pub proof fn lemma_flat_split(hit: spec_fn(nat, nat) -> bool, lo: nat, mid: nat, hi: nat)
    requires
        lo <= mid <= hi,
    ensures
        flat_count(hit, lo, mid) + flat_count(hit, mid, hi) == flat_count(hit, lo, hi),
    decreases hi,
{
    if hi > mid {
        lemma_flat_split(hit, lo, mid, (hi - 1) as nat);
    }
}

/// The indices of row `j` hold exactly the pairs `(i, j)`.
proof fn lemma_row(hit: spec_fn(nat, nat) -> bool, j: nat, q: nat)
    requires
        j >= 1,
        q <= j,
    ensures
        flat_count(hit, tri((j - 1) as nat), tri((j - 1) as nat) + q) == row_count(hit, j, q),
    decreases q,
{
    if q > 0 {
        lemma_row(hit, j, (q - 1) as nat);
        lemma_index_to_pair_unique(pair_index_of((q - 1) as nat, j), (q - 1) as nat, j);
    }
}

/// The flat indices of the pairs of `n` particles hold as many hits as the
/// double loop finds.
pub proof fn lemma_flat_count_all_pairs(hit: spec_fn(nat, nat) -> bool, n: nat)
    ensures
        flat_count(hit, 0, num_pairs(n)) == naive_count(hit, n),
    decreases n,
{
    if n >= 2 {
        lemma_flat_count_all_pairs(hit, (n - 1) as nat);
        let base = tri((n - 2) as nat);
        assert(tri((n - 1) as nat) == base + (n - 1));
        lemma_flat_split(hit, 0, base, (base + n - 1) as nat);
        lemma_row(hit, (n - 1) as nat, (n - 1) as nat);
    } else if n == 1 {
        assert(naive_count(hit, 1) == naive_count(hit, 0) + row_count(hit, 0, 0));
    }
}

/// The first `k` blocks of `c` indices, cut to `[0, total)`, hold the hits of
/// the indices below `min(k * c, total)`.
proof fn lemma_spans_count(hit: spec_fn(nat, nat) -> bool, k: nat, c: nat, total: nat)
    ensures
        ranges_count(hit, spans(k, c, total)) == flat_count(hit, 0, min_nat(k * c, total)),
    decreases k,
{
    if k == 0 {
        assert(0 * c == 0) by (nonlinear_arith);
    } else {
        let p = (k - 1) as nat;
        lemma_spans_count(hit, p, c, total);
        assert(spans(k, c, total).drop_last() =~= spans(p, c, total));
        assert(spans(k, c, total).last() == span(p, c, total));
        assert(p * c <= k * c) by (nonlinear_arith)
            requires
                p + 1 == k,
        ;
        assert((p + 1) * c == k * c);
        lemma_flat_split(hit, 0, min_nat(p * c, total), min_nat(k * c, total));
    }
}

/// A sharded count over `t >= 1` workers, each scanning its range of pair
/// indices, finds exactly the hits of the double loop over all pairs.
pub proof fn lemma_job_ranges_count_all_pairs(hit: spec_fn(nat, nat) -> bool, n: nat, t: nat)
    requires
        t >= 1,
    ensures
        ranges_count(hit, job_range_spec(num_pairs(n), t)) == naive_count(hit, n),
{
    let total = num_pairs(n);
    let c = ceil_div(total, t);
    lemma_ceil_div(total, t);
    assert(t * c == c * t) by (nonlinear_arith);
    lemma_spans_count(hit, t, c, total);
    lemma_flat_count_all_pairs(hit, n);
}

/// The sharded count does not depend on the number of workers.
pub proof fn lemma_count_independent_of_threads(
    hit: spec_fn(nat, nat) -> bool,
    n: nat,
    t1: nat,
    t2: nat,
)
    requires
        t1 >= 1,
        t2 >= 1,
    ensures
        ranges_count(hit, job_range_spec(num_pairs(n), t1)) == ranges_count(
            hit,
            job_range_spec(num_pairs(n), t2),
        ),
{
    lemma_job_ranges_count_all_pairs(hit, n, t1);
    lemma_job_ranges_count_all_pairs(hit, n, t2);
}

/// Two predicates that agree on the pairs of `[lo, hi)` find as many hits there.
pub proof fn lemma_flat_count_agree(
    h1: spec_fn(nat, nat) -> bool,
    h2: spec_fn(nat, nat) -> bool,
    lo: nat,
    hi: nat,
)
    requires
        forall|k: nat|
            lo <= k < hi ==> h1(index_to_pair(k).0, index_to_pair(k).1) == h2(
                #[trigger] index_to_pair(k).0,
                index_to_pair(k).1,
            ),
    ensures
        flat_count(h1, lo, hi) == flat_count(h2, lo, hi),
    decreases hi,
{
    if hi > lo {
        lemma_flat_count_agree(h1, h2, lo, (hi - 1) as nat);
        assert(index_to_pair((hi - 1) as nat).0 == index_to_pair((hi - 1) as nat).0);
    }
}

/// Whether `collide` reported `hit` for each pair with a flat index in `[lo, hi)`.
pub open spec fn reports<F: Fn(usize, usize) -> bool>(
    collide: F,
    hit: spec_fn(nat, nat) -> bool,
    lo: nat,
    hi: nat,
) -> bool {
    forall|k: nat|
        lo <= k < hi ==> collide.ensures(
            (#[trigger] index_to_pair(k).0 as usize, index_to_pair(k).1 as usize),
            hit(index_to_pair(k).0, index_to_pair(k).1),
        )
}

/// Counts the pairs with flat index in `[start, end)` on which `collide`
/// reports a collision, each pair asked once.
pub fn count_pair_hits<F: Fn(usize, usize) -> bool>(collide: &F, start: usize, end: usize) -> (r: usize)
    requires
        start <= end,
        8 * (end - 1) + 1 <= usize::MAX,
        forall|k: nat|
            start <= k < end ==> collide.requires(
                (#[trigger] index_to_pair(k).0 as usize, index_to_pair(k).1 as usize),
            ),
    ensures
        exists|hit: spec_fn(nat, nat) -> bool|
            #[trigger] reports(*collide, hit, start as nat, end as nat) && r == flat_count(
                hit,
                start as nat,
                end as nat,
            ),
{
    let ghost mut hit: spec_fn(nat, nat) -> bool = |i: nat, j: nat| false;
    let mut count: usize = 0;
    let mut k: usize = start;
    while k < end
        invariant
            start <= k <= end,
            8 * (end - 1) + 1 <= usize::MAX,
            forall|q: nat|
                start <= q < end ==> collide.requires(
                    (#[trigger] index_to_pair(q).0 as usize, index_to_pair(q).1 as usize),
                ),
            reports(*collide, hit, start as nat, k as nat),
            count == flat_count(hit, start as nat, k as nat),
            count <= k - start,
        decreases end - k,
    {
        let (i, j) = get_particle_pair_idx(k);
        let b = collide(i, j);
        let ghost old_hit = hit;
        proof {
            hit = |a: nat, c: nat| if a == i && c == j { b } else { old_hit(a, c) };
            assert forall|q: nat| start <= q < k implies old_hit(
                index_to_pair(q).0,
                index_to_pair(q).1,
            ) == hit(#[trigger] index_to_pair(q).0, index_to_pair(q).1) by {
                lemma_index_to_pair_shape(q);
            }
            lemma_flat_count_agree(old_hit, hit, start as nat, k as nat);
            assert forall|q: nat| start <= q < k + 1 implies collide.ensures(
                (#[trigger] index_to_pair(q).0 as usize, index_to_pair(q).1 as usize),
                hit(index_to_pair(q).0, index_to_pair(q).1),
            ) by {
                lemma_index_to_pair_shape(q);
                if q < k {
                    assert(old_hit(index_to_pair(q).0, index_to_pair(q).1) == hit(
                        index_to_pair(q).0,
                        index_to_pair(q).1,
                    ));
                }
            }
        }
        if b {
            count = count + 1;
        }
        k = k + 1;
    }
    count
}

} // verus!
