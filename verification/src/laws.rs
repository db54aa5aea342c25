//! The index's standing guarantees, stated on their own. Each follows
//! from the well-formedness invariant that every operation of this crate
//! establishes and preserves; stating them here makes the guarantees
//! readable without unfolding that invariant.

use vstd::prelude::*;
use crate::index::{adj_ok, Index};

verus! {

/// Every allocated vertex respects the structural rules: its out-degree
/// is at most the configured bound, it never points at itself, never
/// lists a neighbor twice, and every neighbor id names an allocated,
/// unretired vertex.
pub proof fn lemma_structural_invariants(idx: Index)
    requires
        idx.wf(),
    ensures
        forall|u: int|
            0 <= u < idx.nv() ==> (#[trigger] idx.adjs()[u]).len() <= idx.cfg().max_degree,
        forall|u: int, i: int|
            0 <= u < idx.nv() && 0 <= i < idx.adjs()[u].len() ==> (#[trigger] idx.adjs()[u][i])
                < idx.nv() && idx.adjs()[u][i] != u && !idx.retireds()[idx.adjs()[u][i] as int],
        forall|u: int, i: int, j: int|
            0 <= u < idx.nv() && 0 <= i < j < idx.adjs()[u].len() ==> (#[trigger] idx.adjs()[u][i])
                != (#[trigger] idx.adjs()[u][j]),
{
    assert forall|u: int| 0 <= u < idx.nv() implies (#[trigger] idx.adjs()[u]).len()
        <= idx.cfg().max_degree by {
        assert(adj_ok(
            idx.adjs()[u],
            u,
            idx.nv(),
            idx.cfg().max_degree as int,
            idx.retireds(),
        ));
    }
    assert forall|u: int, i: int|
        0 <= u < idx.nv() && 0 <= i < idx.adjs()[u].len() implies (#[trigger] idx.adjs()[u][i])
        < idx.nv() && idx.adjs()[u][i] != u && !idx.retireds()[idx.adjs()[u][i] as int] by {
        assert(adj_ok(
            idx.adjs()[u],
            u,
            idx.nv(),
            idx.cfg().max_degree as int,
            idx.retireds(),
        ));
    }
    assert forall|u: int, i: int, j: int|
        0 <= u < idx.nv() && 0 <= i < j < idx.adjs()[u].len() implies (
    #[trigger] idx.adjs()[u][i]) != (#[trigger] idx.adjs()[u][j]) by {
        assert(adj_ok(
            idx.adjs()[u],
            u,
            idx.nv(),
            idx.cfg().max_degree as int,
            idx.retireds(),
        ));
    }
}

/// Whenever any queryable vertex exists, the medoid is one: allocated,
/// not tombstoned, not retired.
pub proof fn lemma_medoid_live(idx: Index)
    requires
        idx.wf(),
        idx.has_queryable(),
    ensures
        idx.is_queryable(idx.medoid_spec() as int),
{
    let w = choose|u: int| idx.is_queryable(u);
    assert(0 <= w < idx.nv());
}

} // verus!
