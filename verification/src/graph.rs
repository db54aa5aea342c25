//! Graph store operations: installing an adjacency list, annotating and
//! deduplicating candidate sets, and adding back-edges with an in-place
//! prune when the degree bound would be exceeded.

use vstd::prelude::*;
use crate::index::{adj_ok, Index};
use crate::prune::{contains_id, ids_distinct, pair_lt, pool_in_range, pool_sorted, pruned_from_candidates};

verus! {

impl Index {
    /// Overwrites the adjacency of `u` with a list the caller has already
    /// brought into shape.
    pub(crate) fn set_neighbors(&mut self, u: u32, list: Vec<u32>)
        requires
            old(self).wf(),
            u < old(self).nv(),
            list@.len() == 0 || !old(self).retireds()[u as int],
            adj_ok(
                list@,
                u as int,
                old(self).nv(),
                old(self).cfg().max_degree as int,
                old(self).retireds(),
            ),
        ensures
            final(self).wf(),
            final(self).cfg() == old(self).cfg(),
            final(self).nv() == old(self).nv(),
            final(self).vecs() == old(self).vecs(),
            final(self).tombs() == old(self).tombs(),
            final(self).retireds() == old(self).retireds(),
            final(self).medoid_spec() == old(self).medoid_spec(),
            final(self).deleted_spec() == old(self).deleted_spec(),
            final(self).retired_count_spec() == old(self).retired_count_spec(),
            final(self).adjs() == old(self).adjs().update(u as int, list@),
    {
        proof {
            self.lemma_repr();
        }
        self.adj.set(u as usize, list);
        proof {
            self.lemma_repr();
            old(self).lemma_repr();
            assert(self.vecs() =~= old(self).vecs());
            assert(self.adjs() =~= old(self).adjs().update(u as int, list@));
            if self.has_queryable() {
                let w = choose|w: int| self.is_queryable(w);
                assert(old(self).is_queryable(w));
            }
            assert forall|w: int| 0 <= w < self.nv() implies adj_ok(
                #[trigger] self.adjs()[w],
                w,
                self.nv(),
                self.cfg().max_degree as int,
                self.retireds(),
            ) by {
                if w != u {
                    assert(self.adjs()[w] == old(self).adjs()[w]);
                    assert(adj_ok(
                        old(self).adjs()[w],
                        w,
                        old(self).nv(),
                        old(self).cfg().max_degree as int,
                        old(self).retireds(),
                    ));
                }
            }
        }
    }

    /// Annotates the candidate ids with their distance to `u`, dropping
    /// `u` itself and duplicates, and returns the pool in ascending
    /// `(distance, id)` order.
    pub(crate) fn build_pool(&self, u: u32, ids: &Vec<u32>) -> (pool: Vec<(u128, u32)>)
        requires
            self.wf(),
            u < self.nv(),
            forall|i: int|
                0 <= i < ids@.len() ==> (#[trigger] ids@[i]) < self.nv()
                    && !self.retireds()[ids@[i] as int],
        ensures
            pool_sorted(pool@),
            ids_distinct(pool@),
            pool_in_range(*self, pool@),
            forall|i: int|
                0 <= i < pool@.len() ==> (#[trigger] pool@[i]).1 != u && ids@.contains(pool@[i].1)
                    && pool@[i].0 == crate::distance::l2_dist(
                    self.vecs()[u as int],
                    self.vecs()[pool@[i].1 as int],
                ),
            forall|k: int|
                0 <= k < ids@.len() && (#[trigger] ids@[k]) != u ==> contains_id(pool@, ids@[k]),
    {
        proof {
            self.lemma_repr();
            crate::lemma_aligned_dim_in_range(self.cfg().dim as nat);
        }
        let nv = self.vectors.len();
        let n = ids.len();
        let mut pool: Vec<(u128, u32)> = Vec::new();
        let mut k: usize = 0;
        while k < n
            invariant
                self.wf(),
                self.repr_eq(),
                self.cfg().aligned_dim_of() <= crate::config::MAX_DIM,
                nv == self.nv(),
                u < nv,
                n == ids@.len(),
                k <= n,
                forall|i: int|
                    0 <= i < ids@.len() ==> (#[trigger] ids@[i]) < nv
                        && !self.retireds()[ids@[i] as int],
                pool_sorted(pool@),
                ids_distinct(pool@),
                pool_in_range(*self, pool@),
                forall|i: int|
                    0 <= i < pool@.len() ==> (#[trigger] pool@[i]).1 != u && ids@.contains(
                        pool@[i].1,
                    ) && pool@[i].0 == crate::distance::l2_dist(
                        self.vecs()[u as int],
                        self.vecs()[pool@[i].1 as int],
                    ),
                forall|k2: int|
                    0 <= k2 < k && (#[trigger] ids@[k2]) != u ==> contains_id(pool@, ids@[k2]),
            decreases n - k,
        {
            let id = ids[k];
            if id != u {
                let plen = pool.len();
                let mut dup = false;
                let mut t: usize = 0;
                while t < plen
                    invariant
                        t <= plen,
                        plen == pool@.len(),
                        dup <==> exists|w: int| 0 <= w < t && (#[trigger] pool@[w]).1 == id,
                    decreases plen - t,
                {
                    if pool[t].1 == id {
                        dup = true;
                    }
                    t = t + 1;
                }
                if !dup {
                    proof {
                        assert(self.vecs()[u as int].len() == self.cfg().aligned_dim_of());
                        assert(self.vecs()[id as int].len() == self.cfg().aligned_dim_of());
                    }
                    let d = crate::distance::distance_compare(
                        self.vectors[u as usize].as_slice(),
                        self.vectors[id as usize].as_slice(),
                        self.config.metric,
                    );
                    proof {
                        assert(d <= crate::distance::MAX_DIST) by (nonlinear_arith)
                            requires
                                d <= self.cfg().aligned_dim_of() * crate::distance::MAX_SQ_DIFF,
                                self.cfg().aligned_dim_of() <= 1048576,
                        ;
                    }
                    let c = (d, id);
                    let mut pos: usize = 0;
                    while pos < plen && (pool[pos].0 < d || (pool[pos].0 == d && pool[pos].1 < id))
                        invariant
                            pos <= plen,
                            plen == pool@.len(),
                            c == (d, id),
                            forall|w: int| 0 <= w < pos ==> pair_lt(#[trigger] pool@[w], c),
                        decreases plen - pos,
                    {
                        pos = pos + 1;
                    }
                    proof {
                        if pos < plen {
                            assert(pool@[pos as int].1 != id);
                            assert(pair_lt(c, pool@[pos as int]));
                            assert forall|w: int| pos <= w < pool@.len() implies pair_lt(
                                c,
                                #[trigger] pool@[w],
                            ) by {
                                if w > pos {
                                    assert(pair_lt(pool@[pos as int], pool@[w]));
                                }
                            }
                        }
                    }
                    let ghost pool0 = pool@;
                    pool.insert(pos, c);
                    proof {
                        assert forall|k2: int|
                            0 <= k2 < k + 1 && (#[trigger] ids@[k2]) != u implies contains_id(
                            pool@,
                            ids@[k2],
                        ) by {
                            if k2 < k {
                                assert(contains_id(pool0, ids@[k2]));
                                let w = choose|w: int|
                                    0 <= w < pool0.len() && (#[trigger] pool0[w]).1 == ids@[k2];
                                if w < pos {
                                    assert(pool@[w].1 == ids@[k2]);
                                } else {
                                    assert(pool@[w + 1].1 == ids@[k2]);
                                }
                            } else {
                                assert(pool@[pos as int].1 == id);
                            }
                        }
                        assert forall|i: int, j: int|
                            0 <= i < j < pool@.len() implies pair_lt(
                            #[trigger] pool@[i],
                            #[trigger] pool@[j],
                        ) && pool@[i].1 != pool@[j].1 by {
                            if i < pos {
                                assert(pool@[i] == pool0[i]);
                            } else if i > pos {
                                assert(pool@[i] == pool0[i - 1]);
                            }
                            if j < pos {
                                assert(pool@[j] == pool0[j]);
                            } else if j > pos {
                                assert(pool@[j] == pool0[j - 1]);
                            }
                        }
                        assert forall|i: int|
                            0 <= i < pool@.len() implies (#[trigger] pool@[i]).1 != u
                                && ids@.contains(pool@[i].1) && pool@[i].1 < nv
                                && !self.retireds()[pool@[i].1 as int] && pool@[i].0
                                <= crate::distance::MAX_DIST && pool@[i].0
                                == crate::distance::l2_dist(
                                self.vecs()[u as int],
                                self.vecs()[pool@[i].1 as int],
                            ) by {
                            if i < pos {
                                assert(pool@[i] == pool0[i]);
                            } else if i > pos {
                                assert(pool@[i] == pool0[i - 1]);
                            } else {
                                assert(pool@[i] == c);
                                assert(ids@[k as int] == id);
                            }
                        }
                    }
                } else {
                    proof {
                        assert(contains_id(pool@, id));
                    }
                }
            }
            k = k + 1;
        }
        pool
    }

    /// Candidate selection for `u`: annotate, sort, robust-prune. The
    /// result respects the degree bound and draws only from the given ids.
    pub(crate) fn prune_ids(&self, u: u32, ids: &Vec<u32>, alpha_x100: u32) -> (out: Vec<u32>)
        requires
            self.wf(),
            u < self.nv(),
            forall|i: int|
                0 <= i < ids@.len() ==> (#[trigger] ids@[i]) < self.nv()
                    && !self.retireds()[ids@[i] as int],
        ensures
            adj_ok(out@, u as int, self.nv(), self.cfg().max_degree as int, self.retireds()),
            forall|i: int| 0 <= i < out@.len() ==> ids@.contains(#[trigger] out@[i]),
            pruned_from_candidates(
                self.vecs(),
                alpha_x100 as int,
                self.cfg().max_degree as int,
                self.cfg().saturate_graph,
                u,
                ids@,
                out@,
            ),
    {
        let pool = self.build_pool(u, ids);
        let r = self.config.max_degree as usize;
        proof {
            self.lemma_repr();
        }
        let pruned = self.robust_prune_sorted(&pool, r, self.config.saturate_graph, alpha_x100);
        proof {
            let a = alpha_x100 as int;
            crate::prune::lemma_prune_core_props(self.vecs(), a, r as int, pool@);
            let core = crate::prune::prune_core(self.vecs(), a, r as int, pool@);
            if self.cfg().saturate_graph {
                crate::prune::lemma_saturate_props(pool@, core, r as int);
            }
            assert forall|i: int|
                0 <= i < pruned@.len() implies (#[trigger] pruned@[i]).1 < self.nv()
                    && pruned@[i].1 != u && !self.retireds()[pruned@[i].1 as int]
                    && ids@.contains(pruned@[i].1) by {
                assert(pruned@.contains(pruned@[i]));
                assert(pool@.contains(pruned@[i]));
                let w = choose|w: int| 0 <= w < pool@.len() && pool@[w] == pruned@[i];
                assert(pool@[w].1 != u && ids@.contains(pool@[w].1));
            }
        }
        let m = pruned.len();
        let mut out: Vec<u32> = Vec::new();
        let mut i: usize = 0;
        while i < m
            invariant
                i <= m,
                m == pruned@.len(),
                out@.len() == i,
                forall|w: int| 0 <= w < i ==> (#[trigger] out@[w]) == pruned@[w].1,
            decreases m - i,
        {
            let c = pruned[i];
            out.push(c.1);
            i = i + 1;
        }
        proof {
            assert forall|i2: int, j2: int|
                0 <= i2 < j2 < out@.len() implies (#[trigger] out@[i2]) != (
            #[trigger] out@[j2]) by {
                assert(pruned@[i2].1 != pruned@[j2].1);
            }
            assert forall|id: int|
                0 <= id < 0x1_0000_0000 implies ((#[trigger] contains_id(pool@, id as u32)) <==> (
                ids@.contains(id as u32) && id as u32 != u)) by {
                if contains_id(pool@, id as u32) {
                    let w = choose|w: int|
                        0 <= w < pool@.len() && (#[trigger] pool@[w]).1 == id as u32;
                }
                if ids@.contains(id as u32) && id as u32 != u {
                    let k = choose|k: int| 0 <= k < ids@.len() && (#[trigger] ids@[k]) == id as u32;
                    assert(contains_id(pool@, ids@[k]));
                }
            }
            assert(out@ =~= crate::prune::pool_ids(
                crate::prune::prune_result(
                    self.vecs(),
                    alpha_x100 as int,
                    r as int,
                    self.cfg().saturate_graph,
                    pool@,
                ),
            ));
            assert(pruned_from_candidates(
                self.vecs(),
                alpha_x100 as int,
                self.cfg().max_degree as int,
                self.cfg().saturate_graph,
                u,
                ids@,
                out@,
            ));
        }
        out
    }

    /// Appends `u` to the adjacency of `v`; an id already present is left
    /// alone, and a list past the degree bound is re-pruned in place.
    pub(crate) fn add_back_edge(&mut self, v: u32, u: u32, alpha_x100: u32)
        requires
            old(self).wf(),
            u < old(self).nv(),
            v < old(self).nv(),
            u != v,
            !old(self).retireds()[u as int],
            !old(self).retireds()[v as int],
        ensures
            final(self).wf(),
            final(self).cfg() == old(self).cfg(),
            final(self).nv() == old(self).nv(),
            final(self).vecs() == old(self).vecs(),
            final(self).tombs() == old(self).tombs(),
            final(self).retireds() == old(self).retireds(),
            final(self).medoid_spec() == old(self).medoid_spec(),
            final(self).deleted_spec() == old(self).deleted_spec(),
            final(self).adjs().len() == old(self).adjs().len(),
            forall|w: int|
                0 <= w < final(self).adjs().len() && w != v ==> (#[trigger] final(self).adjs()[w])
                    == old(self).adjs()[w],
            old(self).adjs()[v as int].contains(u) ==> final(self).adjs()[v as int] == old(
                self,
            ).adjs()[v as int],
            (!old(self).adjs()[v as int].contains(u) && old(self).adjs()[v as int].len() < old(
                self,
            ).cfg().max_degree) ==> final(self).adjs()[v as int] == old(self).adjs()[
                v as int
            ].push(u),
            forall|i: int|
                0 <= i < final(self).adjs()[v as int].len() ==> old(self).adjs()[
                    v as int
                ].contains(#[trigger] final(self).adjs()[v as int][i]) || final(self).adjs()[
                    v as int
                ][i] == u,
    {
        proof {
            self.lemma_repr();
        }
        let mut cur = self.neighbors(v);
        let clen = cur.len();
        let mut t: usize = 0;
        let mut present = false;
        while t < clen
            invariant
                t <= clen,
                clen == cur@.len(),
                present <==> exists|w: int| 0 <= w < t && (#[trigger] cur@[w]) == u,
            decreases clen - t,
        {
            if cur[t] == u {
                present = true;
            }
            t = t + 1;
        }
        if present {
            proof {
                assert(old(self).adjs()[v as int].contains(u));
            }
            return ;
        }
        cur.push(u);
        proof {
            assert(adj_ok(
                self.adjs()[v as int],
                v as int,
                self.nv(),
                self.cfg().max_degree as int,
                self.retireds(),
            ));
            assert forall|i: int|
                0 <= i < cur@.len() implies (#[trigger] cur@[i]) < self.nv()
                    && !self.retireds()[cur@[i] as int] by {
                if i < cur@.len() - 1 {
                    assert(cur@[i] == old(self).adjs()[v as int][i]);
                }
            }
        }
        if clen < self.config.max_degree as usize {
            proof {
                assert forall|i: int, j: int|
                    0 <= i < j < cur@.len() implies (#[trigger] cur@[i]) != (
                #[trigger] cur@[j]) by {
                    if j < cur@.len() - 1 {
                        assert(cur@[i] == old(self).adjs()[v as int][i]);
                        assert(cur@[j] == old(self).adjs()[v as int][j]);
                    } else {
                        assert(cur@[i] == old(self).adjs()[v as int][i]);
                        assert(!old(self).adjs()[v as int].contains(u));
                    }
                }
                assert forall|i: int| 0 <= i < cur@.len() implies (#[trigger] cur@[i])
                    != v by {
                    if i < cur@.len() - 1 {
                        assert(cur@[i] == old(self).adjs()[v as int][i]);
                    }
                }
            }
            self.set_neighbors(v, cur);
            return ;
        }
        let pruned = self.prune_ids(v, &cur, alpha_x100);
        proof {
            assert forall|i: int|
                0 <= i < pruned@.len() implies old(self).adjs()[v as int].contains(
                #[trigger] pruned@[i],
            ) || pruned@[i] == u by {
                assert(cur@.contains(pruned@[i]));
                let w = choose|w: int| 0 <= w < cur@.len() && cur@[w] == pruned@[i];
                if w < cur@.len() - 1 {
                    assert(old(self).adjs()[v as int][w] == pruned@[i]);
                }
            }
        }
        self.set_neighbors(v, pruned);
    }
}

} // verus!
