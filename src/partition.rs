//! Contiguous partitions of work among the threads of a pool.
//!
//! Movement splits the particles into chunks of `ceil(n / t)` particles, as
//! `chunks_mut` would, so that no more than `t` chunks exist. Collision
//! counting splits the flat pair indices `[0, total)` into exactly `t` ranges
//! of `ceil(total / t)` indices each, the trailing ones cut short or empty.

use vstd::arithmetic::div_mod::lemma_fundamental_div_mod;
use vstd::prelude::*;

verus! {

/// A worker-pool configuration that cannot be used.
#[derive(Debug, Clone, Copy, PartialEq, Eq, Structural)]
pub enum ConfigError {
    /// A pool of zero threads.
    ZeroThreads,
}

/// `a / b` rounded up.
pub open spec fn ceil_div(a: nat, b: nat) -> nat
    recommends
        b > 0,
{
    a / b + if a % b == 0 {
        0nat
    } else {
        1nat
    }
}

pub open spec fn min_nat(a: nat, b: nat) -> nat {
    if a <= b {
        a
    } else {
        b
    }
}

/// The `i`-th block of `size` consecutive indices, cut to `[0, total)`.
pub open spec fn span(i: nat, size: nat, total: nat) -> (nat, nat) {
    (min_nat(i * size, total), min_nat((i + 1) * size, total))
}

/// The first `count` blocks of `size` consecutive indices, cut to `[0, total)`.
pub open spec fn spans(count: nat, size: nat, total: nat) -> Seq<(nat, nat)> {
    Seq::new(count, |i: int| span(i as nat, size, total))
}

/// The chunks of a slice of `n` particles split among `t` threads: blocks of
/// `ceil(n / t)`, as many as it takes to cover the slice.
pub open spec fn movement_chunk_spec(n: nat, t: nat) -> Seq<(nat, nat)> {
    let c = ceil_div(n, t);
    spans(if c == 0 { 0 } else { ceil_div(n, c) }, c, n)
}

/// The pair-index ranges of `total` pairs split among `t` threads: one block of
/// `ceil(total / t)` per thread.
pub open spec fn job_range_spec(total: nat, t: nat) -> Seq<(nat, nat)> {
    spans(t, ceil_div(total, t), total)
}

/// Executable ranges read as pairs of naturals.
pub open spec fn ranges_view(v: Seq<(usize, usize)>) -> Seq<(nat, nat)> {
    v.map_values(|p: (usize, usize)| (p.0 as nat, p.1 as nat))
}

pub proof fn lemma_ceil_div(a: nat, b: nat)
    requires
        b > 0,
    ensures
        ceil_div(a, b) * b >= a,
        ceil_div(a, b) * b < a + b,
{
    lemma_fundamental_div_mod(a as int, b as int);
    let q = a / b;
    let r = a % b;
    assert(ceil_div(a, b) * b == q * b + if r == 0 { 0 } else { b }) by (nonlinear_arith)
        requires
            ceil_div(a, b) == q + if r == 0 { 0nat } else { 1nat },
    ;
    assert(q * b == b * q) by (nonlinear_arith);
}

/// `ceil_div(a, b)` is the least `k` with `k * b >= a`.
pub proof fn lemma_ceil_div_least(a: nat, b: nat, k: nat)
    requires
        b > 0,
    ensures
        k * b >= a <==> k >= ceil_div(a, b),
{
    lemma_ceil_div(a, b);
    let c = ceil_div(a, b);
    if k < c {
        assert(k * b <= (c - 1) * b) by (nonlinear_arith)
            requires
                k + 1 <= c,
        ;
        assert((c - 1) * b == c * b - b) by (nonlinear_arith);
    } else {
        assert(k * b >= c * b) by (nonlinear_arith)
            requires
                k >= c,
        ;
    }
}

pub proof fn lemma_ceil_div_positive(a: nat, b: nat)
    requires
        a > 0,
        b > 0,
    ensures
        ceil_div(a, b) >= 1,
{
    lemma_ceil_div(a, b);
    if ceil_div(a, b) == 0 {
        assert(ceil_div(a, b) * b == 0) by (nonlinear_arith)
            requires
                ceil_div(a, b) == 0,
        ;
    }
}

/// Whether the range `r` holds the index `p`.
pub open spec fn in_range(r: (nat, nat), p: nat) -> bool {
    r.0 <= p && p < r.1
}

/// Whether one of the ranges `s` holds the index `p`.
pub open spec fn covers(s: Seq<(nat, nat)>, p: nat) -> bool {
    exists|i: int| 0 <= i < s.len() && in_range(#[trigger] s[i], p)
}

/// Block `i` of the first `ceil_div(n, c)` blocks starts inside `[0, n)`.
proof fn lemma_block_starts_inside(n: nat, c: nat, i: nat)
    requires
        c >= 1,
        i < ceil_div(n, c),
    ensures
        i * c < n,
        (i + 1) * c == i * c + c,
        span(i, c, n) == (i * c, min_nat(i * c + c, n)),
        i + 1 < ceil_div(n, c) ==> span(i, c, n) == (i * c, i * c + c),
{
    lemma_ceil_div_least(n, c, i);
    lemma_ceil_div_least(n, c, i + 1);
    assert((i + 1) * c == i * c + c) by (nonlinear_arith);
}

/// The movement chunks of `n` particles among `t >= 1` threads: at most `t`
/// of them, none empty, each of `ceil(n / t)` particles but the last, which
/// holds at most that many, each one starting where the one before ended, and
/// every particle in exactly one chunk.
pub proof fn lemma_movement_chunks_partition(n: nat, t: nat)
    requires
        t >= 1,
    ensures
        movement_chunk_spec(n, t).len() <= t,
        forall|i: int|
            0 <= i < movement_chunk_spec(n, t).len() ==> {
                let r = #[trigger] movement_chunk_spec(n, t)[i];
                r.0 < r.1 && r.1 <= n && r.1 - r.0 <= ceil_div(n, t)
            },
        forall|i: int|
            0 <= i < movement_chunk_spec(n, t).len() - 1 ==> {
                let r = #[trigger] movement_chunk_spec(n, t)[i];
                r.1 - r.0 == ceil_div(n, t) && r.1 == movement_chunk_spec(n, t)[i + 1].0
            },
        n > 0 ==> movement_chunk_spec(n, t).len() > 0 && movement_chunk_spec(n, t)[0].0 == 0
            && movement_chunk_spec(n, t).last().1 == n,
        forall|p: nat| p < n ==> #[trigger] covers(movement_chunk_spec(n, t), p),
        forall|p: nat, i1: int, i2: int|
            0 <= i1 < movement_chunk_spec(n, t).len() && 0 <= i2 < movement_chunk_spec(n, t).len()
                && #[trigger] in_range(movement_chunk_spec(n, t)[i1], p) && #[trigger] in_range(
                movement_chunk_spec(n, t)[i2],
                p,
            ) ==> i1 == i2,
{
    let c = ceil_div(n, t);
    let ch = movement_chunk_spec(n, t);
    if n == 0 {
        assert(n / t == 0 && n % t == 0) by (nonlinear_arith)
            requires
                n == 0,
                t >= 1,
        ;
        assert(ch.len() == 0);
    } else {
        lemma_ceil_div_positive(n, t);
        lemma_ceil_div(n, t);
        let count = ceil_div(n, c);
        assert(ch.len() == count);
        assert(t * c == c * t) by (nonlinear_arith);
        lemma_ceil_div_least(n, c, t);
        lemma_ceil_div_positive(n, c);
        assert forall|i: int| 0 <= i < ch.len() implies {
            let r = #[trigger] ch[i];
            r.0 < r.1 && r.1 <= n && r.1 - r.0 <= c
        } by {
            lemma_block_starts_inside(n, c, i as nat);
        }
        assert forall|i: int| 0 <= i < ch.len() - 1 implies {
            let r = #[trigger] ch[i];
            r.1 - r.0 == c && r.1 == ch[i + 1].0
        } by {
            lemma_block_starts_inside(n, c, i as nat);
            lemma_block_starts_inside(n, c, (i + 1) as nat);
        }
        lemma_block_starts_inside(n, c, 0);
        lemma_block_starts_inside(n, c, (count - 1) as nat);
        lemma_ceil_div_least(n, c, count);
        assert(ch[0].0 == 0) by (nonlinear_arith)
            requires
                ch[0].0 == 0 * c,
        ;
        assert forall|p: nat| p < n implies #[trigger] covers(ch, p) by {
            let i = p / c;
            lemma_fundamental_div_mod(p as int, c as int);
            assert(i * c <= p && p < i * c + c) by (nonlinear_arith)
                requires
                    p == c * i + p % c,
                    0 <= p % c < c,
            ;
            lemma_ceil_div_least(n, c, i);
            lemma_block_starts_inside(n, c, i);
            assert(i < ch.len());
            assert(in_range(ch[i as int], p));
        }
        assert forall|p: nat, i1: int, i2: int|
            0 <= i1 < ch.len() && 0 <= i2 < ch.len() && #[trigger] in_range(ch[i1], p)
                && #[trigger] in_range(ch[i2], p) implies i1 == i2 by {
            lemma_block_starts_inside(n, c, i1 as nat);
            lemma_block_starts_inside(n, c, i2 as nat);
            assert(i1 == i2) by (nonlinear_arith)
                requires
                    i1 * c <= p < i1 * c + c,
                    i2 * c <= p < i2 * c + c,
                    c >= 1,
            ;
        }
    }
}

/// The `ceil_div(a, b)` computed without overflow.
fn ceil_div_exec(a: usize, b: usize) -> (r: usize)
    requires
        b > 0,
    ensures
        r == ceil_div(a as nat, b as nat),
{
    proof {
        lemma_ceil_div(a as nat, b as nat);
        assert(ceil_div(a as nat, b as nat) <= a) by (nonlinear_arith)
            requires
                b >= 1,
                ceil_div(a as nat, b as nat) * b < a + b,
        ;
    }
    if a % b == 0 {
        a / b
    } else {
        a / b + 1
    }
}

/// The number of particles each thread moves: `ceil(num_particles / thread_count)`.
pub fn chunk_size(num_particles: usize, thread_count: usize) -> (r: Result<usize, ConfigError>)
    ensures
        thread_count == 0 <==> r == Err::<usize, ConfigError>(ConfigError::ZeroThreads),
        r matches Ok(c) ==> c == ceil_div(num_particles as nat, thread_count as nat),
{
    if thread_count == 0 {
        Err(ConfigError::ZeroThreads)
    } else {
        Ok(ceil_div_exec(num_particles, thread_count))
    }
}

/// The first `count` blocks of `size` indices, cut to `[0, total)`.
fn fill_spans(count: usize, size: usize, total: usize) -> (r: Vec<(usize, usize)>)
    ensures
        ranges_view(r@) == spans(count as nat, size as nat, total as nat),
{
    let mut out: Vec<(usize, usize)> = Vec::new();
    let mut start: usize = 0;
    let mut k: usize = 0;
    while k < count
        invariant
            k <= count,
            start as nat == min_nat(k as nat * size as nat, total as nat),
            ranges_view(out@) == spans(k as nat, size as nat, total as nat),
        decreases count - k,
    {
        let end: usize = if total - start < size {
            total
        } else {
            start + size
        };
        assert((k + 1) as nat * size as nat == k as nat * size as nat + size) by (nonlinear_arith);
        assert(k as nat * size as nat <= (k + 1) as nat * size as nat) by (nonlinear_arith);
        proof {
            assert((start as nat, end as nat) == span(k as nat, size as nat, total as nat));
            assert(ranges_view(out@.push((start, end))) =~= ranges_view(out@).push((start as nat, end as nat)));
            assert(spans((k + 1) as nat, size as nat, total as nat) =~= spans(k as nat, size as nat, total as nat).push(
                span(k as nat, size as nat, total as nat),
            ));
            assert(ranges_view(out@.push((start, end))) =~= spans((k + 1) as nat, size as nat, total as nat));
        }
        out.push((start, end));
        start = end;
        k = k + 1;
    }
    out
}

/// The chunks of `num_particles` particles that `thread_count` threads move,
/// as `[start, end)` ranges.
pub fn movement_chunks(num_particles: usize, thread_count: usize) -> (r: Result<Vec<(usize, usize)>, ConfigError>)
    ensures
        thread_count == 0 <==> r is Err,
        r matches Err(e) ==> e == ConfigError::ZeroThreads,
        r matches Ok(v) ==> ranges_view(v@) == movement_chunk_spec(num_particles as nat, thread_count as nat),
{
    match chunk_size(num_particles, thread_count) {
        Err(e) => Err(e),
        Ok(c) => {
            let count: usize = if c == 0 {
                0
            } else {
                ceil_div_exec(num_particles, c)
            };
            Ok(fill_spans(count, c, num_particles))
        },
    }
}

/// The pair-index ranges that `thread_count` threads scan among `total_pairs` pairs.
pub fn collision_job_ranges(total_pairs: usize, thread_count: usize) -> (r: Result<Vec<(usize, usize)>, ConfigError>)
    ensures
        thread_count == 0 <==> r is Err,
        r matches Err(e) ==> e == ConfigError::ZeroThreads,
        r matches Ok(v) ==> ranges_view(v@) == job_range_spec(total_pairs as nat, thread_count as nat),
{
    match chunk_size(total_pairs, thread_count) {
        Err(e) => Err(e),
        Ok(c) => Ok(fill_spans(thread_count, c, total_pairs)),
    }
}

} // verus!
