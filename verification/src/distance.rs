//! The distance kernel: squared Euclidean distance over integer vectors.
//!
//! The kernel is exact: scalars are `i32`, squared distances fit easily in
//! `u128`, and no rounding ever occurs. For the cosine metric the store holds
//! caller-normalised vectors, under which squared Euclidean distance induces
//! the cosine ordering, so both metrics share this one kernel.

use vstd::prelude::*;
use crate::Metric;

verus! {

/// Largest value a single squared difference of two `i32` scalars can take:
/// `(u32::MAX)^2`.
pub const MAX_SQ_DIFF: u128 = 0xFFFF_FFFE_0000_0001;

/// Largest value any distance in this crate can take: the largest row
/// length times the largest term.
pub const MAX_DIST: u128 = 1048576 * 0xFFFF_FFFE_0000_0001;

/// Sum of squared differences over the first `n` coordinates.
pub open spec fn l2_prefix(a: Seq<i32>, b: Seq<i32>, n: nat) -> int
    decreases n,
{
    if n == 0 {
        0
    } else {
        l2_prefix(a, b, (n - 1) as nat) + (a[n - 1] - b[n - 1]) * (a[n - 1] - b[n - 1])
    }
}

/// Squared Euclidean distance of two equal-length vectors.
pub open spec fn l2_dist(a: Seq<i32>, b: Seq<i32>) -> int {
    l2_prefix(a, b, a.len())
}

/// Every prefix sum is non-negative and at most `n` times the largest
/// possible term.
pub proof fn lemma_l2_prefix_bounds(a: Seq<i32>, b: Seq<i32>, n: nat)
    requires
        n <= a.len(),
        n <= b.len(),
    ensures
        0 <= l2_prefix(a, b, n) <= n * MAX_SQ_DIFF,
    decreases n,
{
    if n > 0 {
        lemma_l2_prefix_bounds(a, b, (n - 1) as nat);
        let d = a[n - 1] - b[n - 1];
        assert(0 <= d * d <= MAX_SQ_DIFF) by (nonlinear_arith)
            requires -0xFFFF_FFFFint <= d <= 0xFFFF_FFFFint;
        assert((n - 1) * MAX_SQ_DIFF + MAX_SQ_DIFF == n * MAX_SQ_DIFF) by (nonlinear_arith);
    } else {
        assert(n * MAX_SQ_DIFF == 0) by (nonlinear_arith)
            requires n == 0;
    }
}

/// The distance is symmetric in its two arguments.
pub proof fn lemma_l2_prefix_symmetric(a: Seq<i32>, b: Seq<i32>, n: nat)
    ensures
        l2_prefix(a, b, n) == l2_prefix(b, a, n),
    decreases n,
{
    if n > 0 {
        lemma_l2_prefix_symmetric(a, b, (n - 1) as nat);
        let x = a[n - 1] - b[n - 1];
        let y = b[n - 1] - a[n - 1];
        assert(x * x == y * y) by (nonlinear_arith)
            requires x == -y;
    }
}

/// The distance of a vector to itself is zero.
pub proof fn lemma_l2_prefix_reflexive(a: Seq<i32>, n: nat)
    ensures
        l2_prefix(a, a, n) == 0,
    decreases n,
{
    if n > 0 {
        lemma_l2_prefix_reflexive(a, (n - 1) as nat);
    }
}

/// Computes the distance between two vectors of equal length. Both supported
/// metrics reduce to the squared Euclidean sum; see the module description.
pub fn distance_compare(a: &[i32], b: &[i32], _metric: Metric) -> (r: u128)
    requires
        a@.len() == b@.len(),
        a@.len() <= crate::config::MAX_DIM,
    ensures
        r == l2_dist(a@, b@),
        r <= a@.len() * MAX_SQ_DIFF,
{
    let n = a.len();
    let mut acc: u128 = 0;
    let mut i: usize = 0;
    proof {
        lemma_l2_prefix_bounds(a@, b@, 0);
    }
    while i < n
        invariant
            i <= n,
            n == a@.len(),
            n == b@.len(),
            n <= crate::config::MAX_DIM,
            acc == l2_prefix(a@, b@, i as nat),
            acc <= i * MAX_SQ_DIFF,
        decreases n - i,
    {
        let d: i64 = a[i] as i64 - b[i] as i64;
        proof {
            assert(0 <= (d as int) * (d as int) <= MAX_SQ_DIFF) by (nonlinear_arith)
                requires -0xFFFF_FFFFint <= d as int <= 0xFFFF_FFFFint;
            lemma_l2_prefix_bounds(a@, b@, (i + 1) as nat);
            assert(i * MAX_SQ_DIFF + MAX_SQ_DIFF == (i + 1) * MAX_SQ_DIFF) by (nonlinear_arith);
            assert((i + 1) * MAX_SQ_DIFF <= n * MAX_SQ_DIFF) by (nonlinear_arith)
                requires i + 1 <= n;
            assert(n * MAX_SQ_DIFF <= 0x100000000000000000000000000 as int) by (nonlinear_arith)
                requires n <= crate::config::MAX_DIM;
        }
        let sq: i128 = (d as i128) * (d as i128);
        acc = acc + (sq as u128);
        i = i + 1;
    }
    acc
}

} // verus!
