//! An in-memory approximate nearest neighbor index in the Vamana / DiskANN
//! family: a directed proximity graph over fixed-dimension integer vectors,
//! built by greedy search plus alpha-robust pruning, queried by best-first
//! traversal, with soft deletion, consolidation and a byte-level persistence
//! format.

use vstd::prelude::*;

pub mod builder;
pub mod codec;
pub mod config;
pub mod delete;
pub mod distance;
pub mod errors;
pub mod graph;
pub mod index;
pub mod insert;
pub mod laws;
pub mod prune;
pub mod queue;
pub mod rng;
pub mod search;
pub mod timer;

verus! {

/// Distance metric selector. Vectors meant for the cosine metric are
/// normalised by the caller before they enter the store, after which the
/// squared Euclidean distance orders candidates the same way; the kernel
/// therefore computes the same sum of squared differences for both.
#[derive(Clone, Copy, Debug, PartialEq, Eq, Structural)]
pub enum Metric {
    L2,
    Cosine,
}

/// Dimension rounded up to the next multiple of 8, the row stride of the
/// vector store.
pub open spec fn aligned_dim_spec(dim: nat) -> nat {
    ((dim + 7) / 8) * 8
}

/// Rounds `dim` up to a multiple of 8.
pub fn aligned_dim(dim: usize) -> (r: usize)
    requires
        dim + 7 <= usize::MAX,
    ensures
        r == aligned_dim_spec(dim as nat),
        r >= dim,
        r % 8 == 0,
        r <= dim + 7,
{
    let r = ((dim + 7) / 8) * 8;
    proof {
        assert(r >= dim && r % 8 == 0 && r <= dim + 7) by (nonlinear_arith)
            requires r == ((dim + 7) / 8) * 8;
    }
    r
}

/// Alignment keeps the stride within the supported dimension range.
pub proof fn lemma_aligned_dim_in_range(dim: nat)
    requires
        1 <= dim <= crate::config::MAX_DIM,
    ensures
        dim <= aligned_dim_spec(dim) <= crate::config::MAX_DIM,
{
    assert(dim <= ((dim + 7) / 8) * 8 <= 1048576) by (nonlinear_arith)
        requires 1 <= dim <= 1048576;
}

/// How many flags in the sequence are set.
pub open spec fn count_true(s: Seq<bool>) -> int
    decreases s.len(),
{
    if s.len() == 0 {
        0
    } else {
        count_true(s.drop_last()) + if s.last() {
            1int
        } else {
            0int
        }
    }
}

/// The count is between 0 and the length.
pub proof fn lemma_count_true_bound(s: Seq<bool>)
    ensures
        0 <= count_true(s) <= s.len(),
    decreases s.len(),
{
    if s.len() > 0 {
        lemma_count_true_bound(s.drop_last());
    }
}

/// Setting one flag changes the count by exactly its old complement.
pub proof fn lemma_count_true_update(s: Seq<bool>, i: int, v: bool)
    requires
        0 <= i < s.len(),
    ensures
        count_true(s.update(i, v)) == count_true(s) + (if v && !s[i] {
            1int
        } else if !v && s[i] {
            -1int
        } else {
            0int
        }),
    decreases s.len(),
{
    let t = s.update(i, v);
    if i == s.len() - 1 {
        assert(t.drop_last() =~= s.drop_last());
    } else {
        assert(t.drop_last() =~= s.drop_last().update(i, v));
        lemma_count_true_update(s.drop_last(), i, v);
    }
}

/// Appending a flag adds its value to the count.
pub proof fn lemma_count_true_push(s: Seq<bool>, b: bool)
    ensures
        count_true(s.push(b)) == count_true(s) + (if b {
            1int
        } else {
            0int
        }),
{
    assert(s.push(b).drop_last() =~= s);
    assert(s.push(b).last() == b);
}

/// A sequence of clear flags counts zero.
pub proof fn lemma_count_all_false(s: Seq<bool>)
    requires
        forall|i: int| 0 <= i < s.len() ==> !(#[trigger] s[i]),
    ensures
        count_true(s) == 0,
    decreases s.len(),
{
    if s.len() > 0 {
        lemma_count_all_false(s.drop_last());
    }
}

/// A zero count means every flag is clear.
pub proof fn lemma_count_zero_all_false(s: Seq<bool>)
    requires
        count_true(s) == 0,
    ensures
        forall|i: int| 0 <= i < s.len() ==> !(#[trigger] s[i]),
    decreases s.len(),
{
    if s.len() > 0 {
        lemma_count_true_bound(s.drop_last());
        lemma_count_zero_all_false(s.drop_last());
        assert forall|i: int| 0 <= i < s.len() implies !(#[trigger] s[i]) by {
            if i < s.len() - 1 {
                assert(!s.drop_last()[i]);
            }
        }
    }
}

/// An unset flag leaves the count strictly under the length.
pub proof fn lemma_count_true_partial(s: Seq<bool>, i: int)
    requires
        0 <= i < s.len(),
        !s[i],
    ensures
        count_true(s) < s.len(),
    decreases s.len(),
{
    if i == s.len() - 1 {
        lemma_count_true_bound(s.drop_last());
    } else {
        lemma_count_true_partial(s.drop_last(), i);
    }
}

/// Over two equal-length, pointwise-disjoint flag sequences, the counts sum
/// to at most the length, and fall short of it exactly when some position
/// is clear in both.
pub proof fn lemma_count_disjoint(a: Seq<bool>, b: Seq<bool>)
    requires
        a.len() == b.len(),
        forall|i: int| 0 <= i < a.len() ==> !((#[trigger] a[i]) && b[i]),
    ensures
        count_true(a) + count_true(b) <= a.len(),
        (count_true(a) + count_true(b) < a.len()) <==> (exists|i: int|
            0 <= i < a.len() && !(#[trigger] a[i]) && !b[i]),
    decreases a.len(),
{
    if a.len() > 0 {
        let n = a.len() - 1;
        lemma_count_disjoint(a.drop_last(), b.drop_last());
        if !a[n] && !b[n] {
            assert(count_true(a) + count_true(b) < a.len());
        } else {
            assert(count_true(a) + count_true(b) == count_true(a.drop_last()) + count_true(
                b.drop_last(),
            ) + 1);
            assert forall|i: int|
                0 <= i < a.len() && !(#[trigger] a[i]) && !b[i] implies count_true(a) + count_true(
                b,
            ) < a.len() by {
                assert(i < n);
                assert(!a.drop_last()[i] && !b.drop_last()[i]);
            }
            if count_true(a) + count_true(b) < a.len() {
                let i = choose|i: int|
                    0 <= i < n && !(#[trigger] a.drop_last()[i]) && !b.drop_last()[i];
                assert(!a[i] && !b[i]);
            }
        }
    }
}

/// The vector extended with zeros to length `n` (vectors are stored this
/// way, padded to the aligned dimension).
pub open spec fn pad_to(s: Seq<i32>, n: nat) -> Seq<i32> {
    Seq::new(n, |i: int| if i < s.len() { s[i] } else { 0i32 })
}

} // verus!
