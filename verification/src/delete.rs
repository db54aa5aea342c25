//! Soft deletion and consolidation.
//!
//! `soft_delete` tombstones vertices: hidden from results, still routing
//! traversal. When the entry vertex itself is being tombstoned, a fresh
//! queryable one is designated before the deletion commits. `consolidate`
//! rewrites every queryable adjacency to bypass tombstoned vertices —
//! each tombstoned neighbor is replaced by its live out-neighbors and the
//! pool re-pruned — then retires the tombstoned slots: their lists are
//! emptied, nothing points at them again, and their ids stay allocated.

use vstd::prelude::*;
use crate::errors::{AnnError, AnnErrorKind};
use crate::index::Index;
use crate::prune::pruned_from_candidates;

verus! {

/// `w` stands in the first `bound` adjacency slots of `u` as a live
/// neighbor, or as a live out-neighbor of a tombstoned neighbor there.
pub open spec fn in_bypass_prefix(pre: Index, u: int, bound: int, w: u32) -> bool {
    ||| (exists|i: int|
        0 <= i < bound && (#[trigger] pre.adjs()[u][i]) == w && !pre.tombs()[w as int])
    ||| (exists|i: int, k: int|
        {
            &&& 0 <= i < bound
            &&& pre.tombs()[(#[trigger] pre.adjs()[u][i]) as int]
            &&& 0 <= k < pre.adjs()[pre.adjs()[u][i] as int].len()
            &&& (#[trigger] pre.adjs()[pre.adjs()[u][i] as int][k]) == w
            &&& !pre.tombs()[w as int]
        })
}

/// `w` belongs to the bypass pool of `u`: a live neighbor, or a live
/// out-neighbor of a tombstoned neighbor.
pub open spec fn in_bypass_pool(pre: Index, u: int, w: u32) -> bool {
    in_bypass_prefix(pre, u, pre.adjs()[u].len() as int, w)
}

/// What consolidation installs at a queryable vertex: robust pruning over
/// the annotated pool of exactly its bypass candidates.
pub open spec fn consolidated_adjacency(pre: Index, u: int, out: Seq<u32>) -> bool {
    exists|cand: Seq<u32>|
        #![trigger pruned_from_candidates(pre.vecs(), pre.cfg().alpha_x100 as int, pre.cfg().max_degree as int, pre.cfg().saturate_graph, u as u32, cand, out)]
        {
            &&& (forall|w: u32| #[trigger] cand.contains(w) <==> in_bypass_pool(pre, u, w))
            &&& pruned_from_candidates(
                pre.vecs(),
                pre.cfg().alpha_x100 as int,
                pre.cfg().max_degree as int,
                pre.cfg().saturate_graph,
                u as u32,
                cand,
                out,
            )
        }
}

impl Index {
    /// Tombstones the given vertices; an id already tombstoned stays so.
    /// Every id must name an allocated, unretired vertex, or the call
    /// fails with `Internal` and changes nothing. If the entry vertex is
    /// among the ids and another queryable vertex survives the deletion,
    /// that vertex becomes the entry point before the flags commit.
    pub fn soft_delete(&mut self, ids: &Vec<u32>) -> (r: Result<(), AnnError>)
        requires
            old(self).wf(),
        ensures
            r is Ok <==> (forall|k: int|
                0 <= k < ids@.len() ==> (#[trigger] ids@[k]) < old(self).nv() && !old(
                    self,
                ).retireds()[ids@[k] as int]),
            r matches Err(e) ==> *final(self) == *old(self) && e.kind_spec()
                == AnnErrorKind::Internal,
            r is Ok ==> ({
                &&& final(self).wf()
                &&& final(self).cfg() == old(self).cfg()
                &&& final(self).nv() == old(self).nv()
                &&& final(self).vecs() == old(self).vecs()
                &&& final(self).adjs() == old(self).adjs()
                &&& final(self).retireds() == old(self).retireds()
                &&& forall|u: int|
                    0 <= u < old(self).nv() ==> ((#[trigger] final(self).tombs()[u]) <==> (old(
                        self,
                    ).tombs()[u] || ids@.contains(u as u32)))
                &&& (!ids@.contains(old(self).medoid_spec()) ==> final(self).medoid_spec() == old(
                    self,
                ).medoid_spec())
            }),
    {
        proof {
            self.lemma_repr();
        }
        let nv = self.vectors.len();
        let m = ids.len();
        let mut k: usize = 0;
        while k < m
            invariant
                k <= m,
                m == ids@.len(),
                nv == old(self).nv(),
                self == old(self),
                old(self).wf(),
                self.repr_eq(),
                forall|j: int|
                    0 <= j < k ==> (#[trigger] ids@[j]) < nv && !old(self).retireds()[ids@[j] as int],
            decreases m - k,
        {
            let id = ids[k];
            if id as usize >= nv || self.retired[id as usize] {
                return Err(
                    AnnError::Internal {
                        detail: String::from_str(
                            "soft delete names a vertex that is not allocated and live",
                        ),
                    },
                );
            }
            k = k + 1;
        }
        // New tombstone flags, with their count kept alongside.
        let mut nt: Vec<bool> = Vec::new();
        let mut u: usize = 0;
        while u < nv
            invariant
                u <= nv,
                nv == self.nv(),
                self == old(self),
                old(self).wf(),
                self.repr_eq(),
                nt@.len() == u,
                forall|w: int| 0 <= w < u ==> (#[trigger] nt@[w]) == self.tombs()[w],
            decreases nv - u,
        {
            nt.push(self.tombstoned[u]);
            u = u + 1;
        }
        let mut nd: usize = self.num_deleted;
        proof {
            assert(nt@ =~= old(self).tombs());
        }
        let mut k2: usize = 0;
        while k2 < m
            invariant
                k2 <= m,
                m == ids@.len(),
                nv == self.nv(),
                self == old(self),
                old(self).wf(),
                self.repr_eq(),
                forall|j: int|
                    0 <= j < m ==> (#[trigger] ids@[j]) < nv && !old(self).retireds()[ids@[j] as int],
                nt@.len() == nv,
                nd == crate::count_true(nt@),
                forall|w: int|
                    0 <= w < nv ==> ((#[trigger] nt@[w]) <==> (old(self).tombs()[w] || (
                    exists|j: int| 0 <= j < k2 && (#[trigger] ids@[j]) == w))),
            decreases m - k2,
        {
            let id = ids[k2];
            if !nt[id as usize] {
                proof {
                    crate::lemma_count_true_partial(nt@, id as int);
                    crate::lemma_count_true_update(nt@, id as int, true);
                }
                nt.set(id as usize, true);
                nd = nd + 1;
            }
            proof {
                assert forall|w: int|
                    0 <= w < nv implies ((#[trigger] nt@[w]) <==> (old(self).tombs()[w] || (
                exists|j: int| 0 <= j < k2 + 1 && (#[trigger] ids@[j]) == w))) by {
                    if nt@[w] {
                        if !old(self).tombs()[w] {
                            if w == id {
                                assert(ids@[k2 as int] == w);
                            }
                        }
                    } else {
                        assert(w != id);
                    }
                }
            }
            k2 = k2 + 1;
        }
        // Entry vertex: reselect when the current one is being tombstoned
        // and a queryable vertex survives.
        let med = self.medoid;
        let mut new_med = med;
        if nv > 0 && nt[med as usize] {
            let mut found = false;
            let mut s: usize = 0;
            while s < nv
                invariant
                    s <= nv,
                    nv == self.nv(),
                    self == old(self),
                    old(self).wf(),
                    self.repr_eq(),
                    nt@.len() == nv,
                    found ==> (new_med as int) < nv && !nt@[new_med as int] && !old(
                        self,
                    ).retireds()[new_med as int],
                    !found ==> new_med == med && (forall|w: int|
                        0 <= w < s ==> (#[trigger] nt@[w]) || old(self).retireds()[w]),
                decreases nv - s,
            {
                if !found && !nt[s] && !self.retired[s] {
                    new_med = s as u32;
                    found = true;
                }
                s = s + 1;
            }
        }
        // Retired flags stay as they are.
        let mut nr: Vec<bool> = Vec::new();
        let mut u2: usize = 0;
        while u2 < nv
            invariant
                u2 <= nv,
                nv == self.nv(),
                self == old(self),
                old(self).wf(),
                self.repr_eq(),
                nr@.len() == u2,
                forall|w: int| 0 <= w < u2 ==> (#[trigger] nr@[w]) == self.retireds()[w],
            decreases nv - u2,
        {
            nr.push(self.retired[u2]);
            u2 = u2 + 1;
        }
        proof {
            assert(nr@ =~= old(self).retireds());
        }
        let nrc = self.num_retired;
        let ghost ntv = nt@;
        proof {
            if nv > 0 {
                if !old(self).tombs()[med as int] && !ntv[med as int] {
                }
                assert(new_med < nv as u32 && !old(self).retireds()[new_med as int]);
            }
            if (exists|w: int| 0 <= w < nv && !(#[trigger] ntv[w]) && !nr@[w]) {
                let w = choose|w: int| 0 <= w < nv && !(#[trigger] ntv[w]) && !nr@[w];
                assert(!ntv[new_med as int]);
            }
        }
        self.install_flags(nt, nd, nr, nrc, new_med);
        proof {
            let medv = old(self).medoid_spec();
            if !ids@.contains(medv) && old(self).nv() > 0 && ntv[medv as int] {
                if !old(self).tombs()[medv as int] {
                    let j = choose|j: int| 0 <= j < m && (#[trigger] ids@[j]) == medv as int;
                    assert(ids@[j] == medv);
                    assert(false);
                }
                if new_med != med {
                    assert(!ntv[new_med as int] && !old(self).retireds()[new_med as int]);
                    assert(!old(self).tombs()[new_med as int]);
                    assert(old(self).is_queryable(new_med as int));
                    assert(old(self).has_queryable());
                    assert(!old(self).tombs()[medv as int]);
                    assert(false);
                }
            }
            assert forall|u3: int|
                0 <= u3 < old(self).nv() implies ((#[trigger] self.tombs()[u3]) <==> (old(
                self,
            ).tombs()[u3] || ids@.contains(u3 as u32))) by {
                if self.tombs()[u3] && !old(self).tombs()[u3] {
                    let j = choose|j: int| 0 <= j < m && (#[trigger] ids@[j]) == u3;
                    assert(ids@[j] == u3 as u32);
                }
                if ids@.contains(u3 as u32) {
                    let j = choose|j: int| 0 <= j < ids@.len() && (#[trigger] ids@[j]) == u3 as u32;
                }
            }
        }
        Ok(())
    }

    /// Rewrites every queryable adjacency to bypass tombstoned vertices,
    /// then retires the tombstoned slots: flags cleared, lists emptied,
    /// ids left allocated and unused. The entry vertex stays. On an index
    /// whose every vertex is tombstoned or retired the pass would leave no
    /// entry point, so it fails with `Internal` and changes nothing; it
    /// succeeds on every other index.
    pub fn consolidate(&mut self) -> (r: Result<(), AnnError>)
        requires
            old(self).wf(),
        ensures
            r is Ok <==> (old(self).nv() == 0 || old(self).has_queryable()),
            r matches Err(e) ==> *final(self) == *old(self) && e.kind_spec()
                == AnnErrorKind::Internal,
            r is Ok ==> ({
                &&& final(self).wf()
                &&& final(self).cfg() == old(self).cfg()
                &&& final(self).nv() == old(self).nv()
                &&& final(self).vecs() == old(self).vecs()
                &&& final(self).medoid_spec() == old(self).medoid_spec()
                &&& final(self).deleted_spec() == 0
                &&& forall|u: int| 0 <= u < old(self).nv() ==> !(#[trigger] final(self).tombs()[u])
                &&& forall|u: int|
                    0 <= u < old(self).nv() ==> ((#[trigger] final(self).retireds()[u]) <==> (old(
                        self,
                    ).retireds()[u] || old(self).tombs()[u]))
                &&& forall|u: int|
                    0 <= u < old(self).nv() && !old(self).is_queryable(u) ==> (#[trigger] final(self).adjs()[u]).len() == 0
                &&& forall|u: int, i: int|
                    0 <= u < old(self).nv() && old(self).is_queryable(u)
                        && 0 <= i < final(self).adjs()[u].len() ==> old(self).is_queryable(
                        (#[trigger] final(self).adjs()[u][i]) as int,
                    )
                &&& forall|u: int|
                    0 <= u < old(self).nv() && old(self).is_queryable(u) ==> consolidated_adjacency(
                        *old(self),
                        u,
                        #[trigger] final(self).adjs()[u],
                    )
            }),
    {
        proof {
            self.lemma_repr();
            crate::lemma_count_true_bound(self.tombs());
            crate::lemma_count_true_bound(self.retireds());
            crate::lemma_count_disjoint(self.tombs(), self.retireds());
        }
        let nv = self.vectors.len();
        if nv == 0 {
            return Ok(());
        }
        let queryable = self.num_deleted + self.num_retired < nv;
        proof {
            if queryable {
                let w = choose|i: int|
                    0 <= i < self.tombs().len() && !(#[trigger] self.tombs()[i])
                        && !self.retireds()[i];
                assert(self.is_queryable(w));
            }
            if self.has_queryable() {
                let w = choose|u: int| self.is_queryable(u);
                assert(0 <= w < self.tombs().len() && !self.tombs()[w] && !self.retireds()[w]);
            }
        }
        if !queryable {
            return Err(
                AnnError::Internal {
                    detail: String::from_str(
                        "consolidation would leave no queryable entry vertex",
                    ),
                },
            );
        }
        let alpha = self.config.alpha_x100;
        let ghost pre = *self;
        proof {
            self.lemma_repr();
        }
        let mut u: usize = 0;
        while u < nv
            invariant
                self.wf(),
                self.repr_eq(),
                u <= nv,
                nv == self.nv(),
                nv == pre.nv(),
                1 <= nv,
                alpha == pre.cfg().alpha_x100,
                self.cfg() == pre.cfg(),
                self.vecs() == pre.vecs(),
                self.tombs() == pre.tombs(),
                self.retireds() == pre.retireds(),
                self.medoid_spec() == pre.medoid_spec(),
                self.deleted_spec() == pre.deleted_spec(),
                self.adjs().len() == nv,
                pre.adjs().len() == nv,
                forall|w: int|
                    0 <= w < nv && (w >= u || !pre.is_queryable(w)) ==> (#[trigger] self.adjs()[w])
                        == pre.adjs()[w],
                forall|w: int, i: int|
                    0 <= w < u && pre.is_queryable(w) && 0 <= i < self.adjs()[w].len()
                        ==> !pre.tombs()[(#[trigger] self.adjs()[w][i]) as int],
                forall|w: int|
                    0 <= w < u && pre.is_queryable(w) ==> consolidated_adjacency(
                        pre,
                        w,
                        #[trigger] self.adjs()[w],
                    ),
            decreases nv - u,
        {
            let ghost st = *self;
            let was_q = !self.tombstoned[u] && !self.retired[u];
            proof {
                assert(was_q <==> pre.is_queryable(u as int));
            }
            if was_q {
                let nb = self.neighbors(u as u32);
                let nblen = nb.len();
                let mut cand: Vec<u32> = Vec::new();
                let mut i: usize = 0;
                proof {
                    assert(nb@ == pre.adjs()[u as int]);
                }
                while i < nblen
                    invariant
                        self.wf(),
                        self.repr_eq(),
                        i <= nblen,
                        nv == self.nv(),
                        u < nv,
                        nv == pre.nv(),
                        nblen == nb@.len(),
                        nb@ == self.adjs()[u as int],
                        nb@ == pre.adjs()[u as int],
                        self.tombs() == pre.tombs(),
                        self.adjs().len() == nv,
                        pre.adjs().len() == nv,
                        forall|w: int|
                            0 <= w < nv && !pre.is_queryable(w) ==> (#[trigger] self.adjs()[w])
                                == pre.adjs()[w],
                        forall|w: int|
                            0 <= w < cand@.len() ==> (#[trigger] cand@[w]) < nv
                                && !self.retireds()[cand@[w] as int]
                                && !self.tombs()[cand@[w] as int],
                        forall|w: u32|
                            #[trigger] cand@.contains(w) <==> in_bypass_prefix(
                                pre,
                                u as int,
                                i as int,
                                w,
                            ),
                    decreases nblen - i,
                {
                    let v = nb[i];
                    proof {
                        assert(self.adjs()[u as int][i as int] == v);
                    }
                    if !self.tombstoned[v as usize] {
                        let ghost c0 = cand@;
                        cand.push(v);
                        proof {
                            assert forall|w: u32| #[trigger] cand@.contains(w) implies
                                in_bypass_prefix(pre, u as int, i + 1, w) by {
                                let ix = choose|ix: int|
                                    0 <= ix < cand@.len() && cand@[ix] == w;
                                if ix < c0.len() {
                                    assert(c0[ix] == w);
                                    assert(c0.contains(w));
                                } else {
                                    assert(w == v);
                                    assert(pre.adjs()[u as int][i as int] == w);
                                }
                            }
                            assert forall|w: u32| in_bypass_prefix(pre, u as int, i + 1, w)
                                implies #[trigger] cand@.contains(w) by {
                                if in_bypass_prefix(pre, u as int, i as int, w) {
                                    assert(c0.contains(w));
                                    let ix = choose|ix: int|
                                        0 <= ix < c0.len() && c0[ix] == w;
                                    assert(cand@[ix] == w);
                                } else {
                                    assert(w == v);
                                    assert(cand@[c0.len() as int] == w);
                                }
                            }
                        }
                    } else {
                        let nb2 = self.neighbors(v);
                        let nb2len = nb2.len();
                        let mut j: usize = 0;
                        proof {
                            assert(!pre.is_queryable(v as int));
                            assert(nb2@ == pre.adjs()[v as int]);
                        }
                        while j < nb2len
                            invariant
                                self.wf(),
                                self.repr_eq(),
                                j <= nb2len,
                                nv == self.nv(),
                                nv == pre.nv(),
                                u < nv,
                                v < nv,
                                i < nb@.len(),
                                v == nb@[i as int],
                                nb@ == pre.adjs()[u as int],
                                self.tombs() == pre.tombs(),
                                pre.tombs()[v as int],
                                pre.adjs().len() == nv,
                                nb2len == nb2@.len(),
                                nb2@ == self.adjs()[v as int],
                                nb2@ == pre.adjs()[v as int],
                                forall|w: int|
                                    0 <= w < cand@.len() ==> (#[trigger] cand@[w]) < nv
                                        && !self.retireds()[cand@[w] as int]
                                        && !self.tombs()[cand@[w] as int],
                                forall|w: u32|
                                    #[trigger] cand@.contains(w) <==> (in_bypass_prefix(
                                        pre,
                                        u as int,
                                        i as int,
                                        w,
                                    ) || (exists|k: int|
                                        0 <= k < j && (#[trigger] pre.adjs()[v as int][k]) == w
                                            && !pre.tombs()[w as int])),
                            decreases nb2len - j,
                        {
                            let w2 = nb2[j];
                            proof {
                                assert(self.adjs()[v as int][j as int] == w2);
                                assert(pre.adjs()[v as int][j as int] == w2);
                            }
                            if !self.tombstoned[w2 as usize] {
                                let ghost c0 = cand@;
                                cand.push(w2);
                                proof {
                                    assert forall|w: u32| #[trigger] cand@.contains(w) implies (
                                        in_bypass_prefix(pre, u as int, i as int, w) || (
                                        exists|k: int|
                                            0 <= k < j + 1 && (#[trigger] pre.adjs()[
                                                v as int
                                            ][k]) == w && !pre.tombs()[w as int])) by {
                                        let ix = choose|ix: int|
                                            0 <= ix < cand@.len() && cand@[ix] == w;
                                        if ix < c0.len() {
                                            assert(c0[ix] == w);
                                            assert(c0.contains(w));
                                        } else {
                                            assert(w == w2);
                                            assert(pre.adjs()[v as int][j as int] == w);
                                        }
                                    }
                                    assert forall|w: u32| (in_bypass_prefix(
                                        pre,
                                        u as int,
                                        i as int,
                                        w,
                                    ) || (exists|k: int|
                                        0 <= k < j + 1 && (#[trigger] pre.adjs()[v as int][k])
                                            == w && !pre.tombs()[w as int])) implies
                                        #[trigger] cand@.contains(w) by {
                                        if c0.contains(w) {
                                            let ix = choose|ix: int|
                                                0 <= ix < c0.len() && c0[ix] == w;
                                            assert(cand@[ix] == w);
                                        } else {
                                            if (exists|k: int|
                                                0 <= k < j + 1 && (#[trigger] pre.adjs()[
                                                    v as int
                                                ][k]) == w && !pre.tombs()[w as int]) {
                                                let k = choose|k: int|
                                                    0 <= k < j + 1 && (#[trigger] pre.adjs()[
                                                        v as int
                                                    ][k]) == w && !pre.tombs()[w as int];
                                                if k < j {
                                                    assert(c0.contains(w));
                                                    assert(false);
                                                } else {
                                                    assert(w == w2);
                                                    assert(cand@[c0.len() as int] == w);
                                                }
                                            } else {
                                                assert(c0.contains(w));
                                                assert(false);
                                            }
                                        }
                                    }
                                }
                            } else {
                                proof {
                                    assert forall|w: u32| (in_bypass_prefix(
                                        pre,
                                        u as int,
                                        i as int,
                                        w,
                                    ) || (exists|k: int|
                                        0 <= k < j + 1 && (#[trigger] pre.adjs()[v as int][k])
                                            == w && !pre.tombs()[w as int])) implies
                                        #[trigger] cand@.contains(w) by {
                                        if !cand@.contains(w) {
                                            let k = choose|k: int|
                                                0 <= k < j + 1 && (#[trigger] pre.adjs()[
                                                    v as int
                                                ][k]) == w && !pre.tombs()[w as int];
                                            assert(k == j);
                                            assert(w == w2);
                                            assert(false);
                                        }
                                    }
                                }
                            }
                            j = j + 1;
                        }
                        proof {
                            assert forall|w: u32| #[trigger] cand@.contains(w) implies
                                in_bypass_prefix(pre, u as int, i + 1, w) by {
                                if !in_bypass_prefix(pre, u as int, i as int, w) {
                                    let k = choose|k: int|
                                        0 <= k < nb2len && (#[trigger] pre.adjs()[v as int][k])
                                            == w && !pre.tombs()[w as int];
                                    assert(pre.adjs()[u as int][i as int] == v);
                                }
                            }
                            assert forall|w: u32| in_bypass_prefix(pre, u as int, i + 1, w)
                                implies #[trigger] cand@.contains(w) by {
                                if !in_bypass_prefix(pre, u as int, i as int, w) {
                                    if (exists|i2: int|
                                        0 <= i2 < i + 1 && (#[trigger] pre.adjs()[u as int][i2])
                                            == w && !pre.tombs()[w as int]) {
                                        let i2 = choose|i2: int|
                                            0 <= i2 < i + 1 && (#[trigger] pre.adjs()[
                                                u as int
                                            ][i2]) == w && !pre.tombs()[w as int];
                                        assert(i2 == i);
                                        assert(w == v);
                                        assert(false);
                                    } else {
                                        let (i2, k) = choose|i2: int, k: int|
                                            {
                                                &&& 0 <= i2 < i + 1
                                                &&& pre.tombs()[(#[trigger] pre.adjs()[
                                                    u as int
                                                ][i2]) as int]
                                                &&& 0 <= k < pre.adjs()[pre.adjs()[
                                                    u as int
                                                ][i2] as int].len()
                                                &&& (#[trigger] pre.adjs()[pre.adjs()[
                                                    u as int
                                                ][i2] as int][k]) == w
                                                &&& !pre.tombs()[w as int]
                                            };
                                        assert(i2 == i);
                                        assert(pre.adjs()[u as int][i2] == v);
                                    }
                                }
                            }
                        }
                    }
                    i = i + 1;
                }
                let pruned = self.prune_ids(u as u32, &cand, alpha);
                let ghost cand_view = cand@;
                let ghost pruned_view = pruned@;
                proof {
                    assert forall|i2: int|
                        0 <= i2 < pruned@.len() implies !self.tombs()[(
                    #[trigger] pruned@[i2]) as int] by {
                        assert(cand_view.contains(pruned@[i2]));
                        let w = choose|w: int|
                            0 <= w < cand_view.len() && cand_view[w] == pruned@[i2];
                    }
                }
                let ghost before = *self;
                self.set_neighbors(u as u32, pruned);
                proof {
                    self.lemma_repr();
                    assert forall|w: int, i2: int|
                        0 <= w < u + 1 && pre.is_queryable(w) && 0 <= i2 < self.adjs()[w].len()
                            implies !pre.tombs()[(#[trigger] self.adjs()[w][i2]) as int] by {
                        if w == u {
                            assert(self.adjs()[w][i2] == pruned_view[i2]);
                        } else {
                            assert(self.adjs()[w] == before.adjs()[w]);
                        }
                    }
                    assert forall|w: int|
                        0 <= w < nv && (w >= u + 1 || !pre.is_queryable(w)) implies (
                    #[trigger] self.adjs()[w]) == pre.adjs()[w] by {
                        assert(w != u);
                        assert(self.adjs()[w] == before.adjs()[w]);
                        assert(before.adjs()[w] == st.adjs()[w]);
                        assert(st.adjs()[w] == pre.adjs()[w]);
                    }
                }
            }
            proof {
                self.lemma_repr();
            }
            u = u + 1;
        }
        // Empty the adjacency of every tombstoned or retired slot.
        let ghost mid = *self;
        let mut u2: usize = 0;
        while u2 < nv
            invariant
                self.wf(),
                self.repr_eq(),
                u2 <= nv,
                nv == self.nv(),
                nv == pre.nv(),
                1 <= nv,
                self.cfg() == pre.cfg(),
                self.vecs() == pre.vecs(),
                self.tombs() == pre.tombs(),
                self.retireds() == pre.retireds(),
                self.medoid_spec() == pre.medoid_spec(),
                self.deleted_spec() == pre.deleted_spec(),
                self.adjs().len() == nv,
                forall|w: int|
                    0 <= w < nv && pre.is_queryable(w) ==> (#[trigger] self.adjs()[w])
                        == mid.adjs()[w],
                forall|w: int, i: int|
                    0 <= w < nv && pre.is_queryable(w) && 0 <= i < mid.adjs()[w].len()
                        ==> !pre.tombs()[(#[trigger] mid.adjs()[w][i]) as int],
                forall|w: int|
                    0 <= w < u2 && !pre.is_queryable(w) ==> (#[trigger] self.adjs()[w]).len()
                        == 0,
            decreases nv - u2,
        {
            let ghost st2 = *self;
            let dead = self.tombstoned[u2] || self.retired[u2];
            proof {
                assert(dead <==> !pre.is_queryable(u2 as int));
            }
            if dead {
                let ghost before = *self;
                self.set_neighbors(u2 as u32, Vec::new());
                proof {
                    self.lemma_repr();
                    assert forall|w: int|
                        0 <= w < nv && pre.is_queryable(w) implies (#[trigger] self.adjs()[w])
                            == mid.adjs()[w] by {
                        assert(w != u2);
                        assert(self.adjs()[w] == before.adjs()[w]);
                    }
                    assert forall|w: int|
                        0 <= w < u2 + 1 && !pre.is_queryable(w) implies (#[trigger] self.adjs()[
                        w]).len() == 0 by {
                        if w != u2 {
                            assert(self.adjs()[w] == before.adjs()[w]);
                            assert(before.adjs()[w] == st2.adjs()[w]);
                        }
                    }
                }
            }
            proof {
                self.lemma_repr();
            }
            u2 = u2 + 1;
        }
        // Install the new lifecycle flags: no tombstones, the formerly
        // tombstoned slots retired.
        let mut nt: Vec<bool> = Vec::new();
        let mut nr: Vec<bool> = Vec::new();
        let mut nrc: usize = 0;
        let mut w3: usize = 0;
        proof {
            crate::lemma_count_true_bound(nr@);
        }
        while w3 < nv
            invariant
                w3 <= nv,
                nv == self.nv(),
                nv == pre.nv(),
                self.repr_eq(),
                self.wf(),
                self.tombs() == pre.tombs(),
                self.retireds() == pre.retireds(),
                nt@.len() == w3,
                nr@.len() == w3,
                forall|w: int| 0 <= w < w3 ==> !(#[trigger] nt@[w]),
                forall|w: int|
                    0 <= w < w3 ==> ((#[trigger] nr@[w]) <==> (pre.retireds()[w]
                        || pre.tombs()[w])),
                nrc == crate::count_true(nr@),
            decreases nv - w3,
        {
            nt.push(false);
            let flag = self.retired[w3] || self.tombstoned[w3];
            proof {
                crate::lemma_count_true_push(nr@, flag);
                crate::lemma_count_true_bound(nr@);
            }
            nr.push(flag);
            if flag {
                nrc = nrc + 1;
            }
            w3 = w3 + 1;
        }
        let med = self.medoid;
        proof {
            crate::lemma_count_all_false(nt@);
            assert(pre.is_queryable(med as int));
            assert forall|w: int, i: int|
                0 <= w < nv && 0 <= i < self.adjs()[w].len()
                    implies !nr@[(#[trigger] self.adjs()[w][i]) as int] by {
                if pre.is_queryable(w) {
                    assert(self.adjs()[w] == mid.adjs()[w]);
                    let t = self.adjs()[w][i];
                    assert(!pre.tombs()[t as int]);
                    assert(!pre.retireds()[t as int]);
                } else {
                    assert(self.adjs()[w].len() == 0);
                }
            }
            assert forall|w: int|
                0 <= w < nv && nr@[w] implies (#[trigger] self.adjs()[w]).len() == 0 by {
                assert(!pre.is_queryable(w));
            }
        }
        self.install_flags(nt, 0, nr, nrc, med);
        Ok(())
    }
}

} // verus!
