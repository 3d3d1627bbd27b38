//! Flat numbering of the unordered pairs `(i, j)`, `i < j`, of `n` particles.
//!
//! Pairs are enumerated row by row on the larger index `j = 1, 2, ...`; row `j`
//! holds the `j` pairs `(0, j), (1, j), ..., (j - 1, j)`. Row `j` therefore
//! starts at the triangular number `tri(j - 1)`, and the pairs of `n` particles
//! are exactly the indices below `tri(n - 1) = n * (n - 1) / 2`.

use vstd::prelude::*;

verus! {

/// The triangular number `0 + 1 + ... + m`.
pub open spec fn tri(m: nat) -> nat
    decreases m,
{
    if m == 0 {
        0
    } else {
        tri((m - 1) as nat) + m
    }
}

/// The pair with flat index `k`: the enumeration itself, one step at a time.
/// After `(i, j)` comes `(i + 1, j)` while `i + 1 < j`, then `(0, j + 1)`.
pub open spec fn index_to_pair(k: nat) -> (nat, nat)
    decreases k,
{
    if k == 0 {
        (0, 1)
    } else {
        let p = index_to_pair((k - 1) as nat);
        if p.0 + 1 < p.1 {
            (p.0 + 1, p.1)
        } else {
            (0, p.1 + 1)
        }
    }
}

/// The flat index of the pair `(i, j)`, `i < j`.
pub open spec fn pair_index_of(i: nat, j: nat) -> nat {
    tri((j - 1) as nat) + i
}

/// The number of unordered pairs among `n` particles.
pub open spec fn num_pairs(n: nat) -> nat {
    if n == 0 {
        0
    } else {
        tri((n - 1) as nat)
    }
}

pub proof fn lemma_tri_closed(m: nat)
    ensures
        2 * tri(m) == m * (m + 1),
    decreases m,
{
    if m > 0 {
        lemma_tri_closed((m - 1) as nat);
        let p = (m - 1) as nat;
        assert(tri(m) == tri(p) + m);
        assert(p * (p + 1) + 2 * m == m * (m + 1)) by (nonlinear_arith)
            requires
                p + 1 == m,
        ;
    } else {
        assert(m * (m + 1) == 0) by (nonlinear_arith)
            requires
                m == 0,
        ;
    }
}

pub proof fn lemma_tri_monotone(a: nat, b: nat)
    requires
        a <= b,
    ensures
        tri(a) <= tri(b),
    decreases b - a,
{
    if a < b {
        lemma_tri_monotone(a, (b - 1) as nat);
    }
}

/// Every index names a pair `(i, j)` with `i < j` that sits at offset `i` of row `j`.
pub proof fn lemma_index_to_pair_shape(k: nat)
    ensures
        index_to_pair(k).0 < index_to_pair(k).1,
        pair_index_of(index_to_pair(k).0, index_to_pair(k).1) == k,
    decreases k,
{
    if k > 0 {
        lemma_index_to_pair_shape((k - 1) as nat);
        let p = index_to_pair((k - 1) as nat);
        assert(tri(p.1) == tri((p.1 - 1) as nat) + p.1);
    }
}

/// A pair placed at index `k` by the row layout is the pair that the
/// enumeration reaches at `k`.
pub proof fn lemma_index_to_pair_unique(k: nat, i: nat, j: nat)
    requires
        i < j,
        pair_index_of(i, j) == k,
    ensures
        index_to_pair(k) == (i, j),
{
    lemma_index_to_pair_shape(k);
    let p = index_to_pair(k);
    if p.1 < j {
        assert(tri(p.1) == tri((p.1 - 1) as nat) + p.1);
        lemma_tri_monotone(p.1, (j - 1) as nat);
    } else if j < p.1 {
        assert(tri(j) == tri((j - 1) as nat) + j);
        lemma_tri_monotone(j, (p.1 - 1) as nat);
    }
}

/// Round trip from indices: for `n >= 2` particles, every index below
/// `num_pairs(n)` names a pair `i < j < n`, and that pair's index is the
/// index it came from.
pub proof fn lemma_index_round_trip(n: nat, k: nat)
    requires
        n >= 2,
        k < num_pairs(n),
    ensures
        index_to_pair(k).0 < index_to_pair(k).1,
        index_to_pair(k).1 < n,
        pair_index_of(index_to_pair(k).0, index_to_pair(k).1) == k,
{
    lemma_index_to_pair_shape(k);
    let p = index_to_pair(k);
    if p.1 >= n {
        lemma_tri_monotone((n - 1) as nat, (p.1 - 1) as nat);
    }
}

/// Round trip from pairs: every pair `i < j < n` has an index below
/// `num_pairs(n)`, and that index names the pair again.
pub proof fn lemma_pair_round_trip(n: nat, i: nat, j: nat)
    requires
        i < j,
        j < n,
    ensures
        pair_index_of(i, j) < num_pairs(n),
        index_to_pair(pair_index_of(i, j)) == (i, j),
{
    assert(tri(j) == tri((j - 1) as nat) + j);
    lemma_tri_monotone(j, (n - 1) as nat);
    lemma_index_to_pair_unique(pair_index_of(i, j), i, j);
}

/// Relies on `usize::isqrt`: the square root rounded down.
#[verifier::external_body]
fn floor_sqrt(x: usize) -> (r: usize)
    ensures
        r * r <= x,
        x < (r + 1) * (r + 1),
{
    x.isqrt()
}

/// `tri(m)`, computed without an intermediate product that could overflow.
fn triangle(m: usize) -> (r: usize)
    requires
        tri(m as nat) <= usize::MAX,
    ensures
        r == tri(m as nat),
{
    proof {
        lemma_tri_closed(m as nat);
    }
    if m % 2 == 0 {
        let h: usize = m / 2;
        assert(h * (m + 1) == m * (m + 1) / 2) by (nonlinear_arith)
            requires
                m == 2 * h,
        ;
        assert(h * (m + 1) <= usize::MAX);
        h * (m + 1)
    } else {
        let h: usize = m / 2 + 1;
        assert(m * h == m * (m + 1) / 2) by (nonlinear_arith)
            requires
                m + 1 == 2 * h,
        ;
        m * h
    }
}

/// The pair of particles `(i, j)`, `i < j`, with flat index `idx`.
pub fn get_particle_pair_idx(idx: usize) -> (r: (usize, usize))
    requires
        8 * idx + 1 <= usize::MAX,
    ensures
        (r.0 as nat, r.1 as nat) == index_to_pair(idx as nat),
        r.0 < r.1,
        pair_index_of(r.0 as nat, r.1 as nat) == idx,
{
    let x: usize = 8 * idx + 1;
    let s = floor_sqrt(x);
    assert(s >= 1) by (nonlinear_arith)
        requires
            x >= 1,
            x < (s + 1) * (s + 1),
    ;
    let n: usize = (s - 1) / 2;
    proof {
        lemma_tri_closed(n as nat);
        lemma_tri_closed((n + 1) as nat);
        assert(2 * n + 1 <= s && s <= 2 * n + 2);
        assert(n * (n + 1) <= 2 * idx) by (nonlinear_arith)
            requires
                2 * n + 1 <= s,
                s * s <= 8 * idx + 1,
        ;
        assert(2 * idx < (n + 1) * (n + 2)) by (nonlinear_arith)
            requires
                s <= 2 * n + 2,
                8 * idx + 1 < (s + 1) * (s + 1),
        ;
        assert(tri((n + 1) as nat) == tri(n as nat) + n + 1);
    }
    let row_start = triangle(n);
    let i = idx - row_start;
    let j = n + 1;
    proof {
        lemma_index_to_pair_unique(idx as nat, i as nat, j as nat);
    }
    (i, j)
}

/// The flat index of the pair `(i, j)`, `i < j`.
pub fn pair_to_index(i: usize, j: usize) -> (r: usize)
    requires
        i < j,
        pair_index_of(i as nat, j as nat) <= usize::MAX,
    ensures
        r == pair_index_of(i as nat, j as nat),
        index_to_pair(r as nat) == (i as nat, j as nat),
{
    proof {
        lemma_index_to_pair_unique(pair_index_of(i as nat, j as nat), i as nat, j as nat);
    }
    triangle(j - 1) + i
}

/// The number of unordered pairs among `n` particles, `n * (n - 1) / 2`;
/// zero when there are fewer than two.
pub fn num_particle_pairs(n: usize) -> (r: usize)
    requires
        num_pairs(n as nat) <= usize::MAX,
    ensures
        r == num_pairs(n as nat),
        r == n * (n - 1) / 2,
{
    if n < 2 {
        assert(n * (n - 1) == 0) by (nonlinear_arith)
            requires
                n < 2,
        ;
        0
    } else {
        proof {
            lemma_tri_closed((n - 1) as nat);
            let p = (n - 1) as nat;
            assert(p * (p + 1) == n * (n - 1)) by (nonlinear_arith)
                requires
                    p + 1 == n,
            ;
        }
        triangle(n - 1)
    }
}

} // verus!
