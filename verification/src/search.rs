//! Greedy best-first traversal: the query primitive and the candidate
//! generator for insertion and build.
//!
//! The traversal keeps a best-L queue and a visited set. While the queue
//! holds an unexpanded entry, the closest one is expanded: its snapshot of
//! neighbors is scored against the query and offered to the queue, with the
//! visited set suppressing re-expansion and duplicates. Tombstoned vertices
//! route traversal but are filtered from results; retired vertices are
//! never reached, since no adjacency list points at them.

use vstd::prelude::*;
use crate::errors::{AnnError, AnnErrorKind};
use crate::index::Index;
use crate::queue::{Candidate, CandidateQueue};

verus! {

/// Every queue entry scores the stored vector of an allocated, unretired
/// vertex against `q`.
pub open spec fn entries_scored(idx: Index, q: Seq<i32>, entries: Seq<Candidate>) -> bool {
    forall|i: int|
        0 <= i < entries.len() ==> {
            let e = #[trigger] entries[i];
            &&& e.id < idx.nv()
            &&& !idx.retireds()[e.id as int]
            &&& e.dist == crate::distance::l2_dist(q, idx.vecs()[e.id as int])
        }
}

impl Index {
    /// Best-first traversal from `start`. Returns the final best-L queue,
    /// every entry of it expanded, and the expansion order, which begins at
    /// `start` and repeats no vertex.
    pub(crate) fn greedy_search(&self, q: &Vec<i32>, l: usize, start: u32) -> (r: (
        CandidateQueue,
        Vec<u32>,
    ))
        requires
            self.wf(),
            q@.len() == self.cfg().aligned_dim_of(),
            1 <= l,
            1 <= self.nv(),
            start < self.nv(),
            !self.retireds()[start as int],
        ensures
            ({
                let (queue, expanded) = r;
                &&& queue.wf()
                &&& queue.limit_spec() == l
                &&& 1 <= queue@.len() <= l
                &&& entries_scored(*self, q@, queue@)
                &&& forall|i: int| 0 <= i < queue@.len() ==> (#[trigger] queue@[i]).visited
                &&& forall|i: int|
                    0 <= i < queue@.len() ==> expanded@.contains(#[trigger] queue@[i].id)
                &&& 1 <= expanded@.len() <= self.nv()
                &&& expanded@[0] == start
                &&& forall|i: int|
                    0 <= i < expanded@.len() ==> (#[trigger] expanded@[i]) < self.nv()
                        && !self.retireds()[expanded@[i] as int]
                &&& forall|i: int, j: int|
                    0 <= i < j < expanded@.len() ==> (#[trigger] expanded@[i]) != (
                    #[trigger] expanded@[j])
            }),
    {
        let nv = self.vectors.len();
        proof {
            self.lemma_repr();
            crate::lemma_aligned_dim_in_range(self.cfg().dim as nat);
            assert(self.vecs()[start as int].len() == self.cfg().aligned_dim_of());
        }
        let mut queue = CandidateQueue::new(l);
        let dstart = crate::distance::distance_compare(
            q.as_slice(),
            self.vectors[start as usize].as_slice(),
            self.config.metric,
        );
        let ghost start_cand = Candidate { dist: dstart, id: start, visited: false };
        queue.insert(Candidate { dist: dstart, id: start, visited: false });
        let mut marks: Vec<bool> = vec![false; nv];
        let mut marked_count: usize = 0;
        let mut expanded: Vec<u32> = Vec::new();
        proof {
            assert(queue@[0] == start_cand);
            if queue@.len() >= 2 {
                assert(queue@[1] == start_cand);
                assert(queue@[0].id != queue@[1].id);
            }
            assert(queue@ =~= seq![start_cand]);
            crate::lemma_count_all_false(marks@);
        }
        while queue.has_unvisited()
            invariant
                self.wf(),
                self.repr_eq(),
                q@.len() == self.cfg().aligned_dim_of(),
                self.cfg().aligned_dim_of() <= crate::config::MAX_DIM,
                nv == self.nv(),
                1 <= nv,
                start < nv,
                queue.wf(),
                queue.limit_spec() == l,
                1 <= queue@.len(),
                marks@.len() == nv,
                marked_count == crate::count_true(marks@),
                marked_count == expanded@.len(),
                entries_scored(*self, q@, queue@),
                forall|i: int|
                    0 <= i < queue@.len() && !(#[trigger] queue@[i]).visited
                        ==> !marks@[queue@[i].id as int],
                forall|i: int|
                    0 <= i < queue@.len() && (#[trigger] queue@[i]).visited ==> expanded@.contains(
                        queue@[i].id,
                    ),
                forall|i: int|
                    0 <= i < expanded@.len() ==> (#[trigger] expanded@[i]) < nv
                        && !self.retireds()[expanded@[i] as int] && marks@[expanded@[i] as int],
                forall|i: int, j: int|
                    0 <= i < j < expanded@.len() ==> (#[trigger] expanded@[i]) != (
                    #[trigger] expanded@[j]),
                expanded@.len() == 0 ==> queue@ == seq![start_cand] && !start_cand.visited
                    && start_cand.id == start,
                expanded@.len() >= 1 ==> expanded@[0] == start,
            decreases nv - marked_count,
        {
            let ghost q0 = queue;
            let popped = queue.pop_closest_unvisited();
            match popped {
                None => {
                    proof {
                        assert(false);
                    }
                },
                Some(pair) => {
                    let u = pair.1;
                    let ghost k = choose|k: int|
                        {
                            &&& 0 <= k < q0@.len()
                            &&& !q0@[k].visited
                            &&& (forall|j: int| 0 <= j < k ==> (#[trigger] q0@[j]).visited)
                            &&& popped == Some::<(u128, u32)>((q0@[k].dist, q0@[k].id))
                            &&& queue@ == q0@.update(k, Candidate { visited: true, ..q0@[k] })
                        };
                    proof {
                        assert(u == q0@[k].id);
                        assert(u < nv && !self.retireds()[u as int] && !marks@[u as int]);
                        crate::lemma_count_true_partial(marks@, u as int);
                        crate::lemma_count_true_update(marks@, u as int, true);
                        if expanded@.len() == 0 {
                            assert(q0@ == seq![start_cand]);
                            assert(u == start);
                        }
                    }
                    let ghost e0 = expanded@;
                    marks.set(u as usize, true);
                    marked_count = marked_count + 1;
                    expanded.push(u);
                    proof {
                        assert(expanded@ == e0.push(u));
                        assert forall|i: int|
                            0 <= i < queue@.len() && (#[trigger] queue@[i]).visited
                                implies expanded@.contains(queue@[i].id) by {
                            if i != k {
                                assert(queue@[i] == q0@[i]);
                                assert(e0.contains(q0@[i].id));
                                let w = choose|w: int|
                                    0 <= w < e0.len() && e0[w] == q0@[i].id;
                                assert(expanded@[w] == q0@[i].id);
                            } else {
                                assert(queue@[i].id == u);
                                assert(expanded@[e0.len() as int] == u);
                            }
                        }
                    }
                    let deg = self.adj[u as usize].len();
                    let mut j: usize = 0;
                    while j < deg
                        invariant
                            self.wf(),
                            self.repr_eq(),
                            q@.len() == self.cfg().aligned_dim_of(),
                            self.cfg().aligned_dim_of() <= crate::config::MAX_DIM,
                            nv == self.nv(),
                            u < nv,
                            deg == self.adjs()[u as int].len(),
                            queue.wf(),
                            queue.limit_spec() == l,
                            1 <= queue@.len(),
                            marks@.len() == nv,
                            entries_scored(*self, q@, queue@),
                            forall|i: int|
                                0 <= i < queue@.len() && !(#[trigger] queue@[i]).visited
                                    ==> !marks@[queue@[i].id as int],
                            forall|i: int|
                                0 <= i < queue@.len() && (#[trigger] queue@[i]).visited
                                    ==> expanded@.contains(queue@[i].id),
                        decreases deg - j,
                    {
                        let v = self.adj[u as usize][j];
                        proof {
                            assert(self.adjs()[u as int] == self.adj@[u as int]@);
                            assert(self.adjs()[u as int][j as int] == v);
                            assert(v < nv && !self.retireds()[v as int]);
                            assert(self.vecs()[v as int].len() == self.cfg().aligned_dim_of());
                        }
                        if !marks[v as usize] {
                            let dv = crate::distance::distance_compare(
                                q.as_slice(),
                                self.vectors[v as usize].as_slice(),
                                self.config.metric,
                            );
                            let ghost qb = queue;
                            let cand = Candidate { dist: dv, id: v, visited: false };
                            queue.insert(Candidate { dist: dv, id: v, visited: false });
                            proof {
                                assert forall|i: int|
                                    0 <= i < queue@.len() implies {
                                    let e = #[trigger] queue@[i];
                                    &&& e.id < nv
                                    &&& !self.retireds()[e.id as int]
                                    &&& e.dist == crate::distance::l2_dist(
                                        q@,
                                        self.vecs()[e.id as int],
                                    )
                                    &&& (!e.visited ==> !marks@[e.id as int])
                                    &&& (e.visited ==> expanded@.contains(e.id))
                                } by {
                                    if queue@[i] != cand {
                                        assert(qb@.contains(queue@[i]));
                                        let w = choose|w: int|
                                            0 <= w < qb@.len() && qb@[w] == queue@[i];
                                        assert(queue@[i] == qb@[w]);
                                    }
                                }
                            }
                        }
                        j = j + 1;
                    }
                },
            }
        }
        proof {
            crate::lemma_count_true_bound(marks@);
        }
        (queue, expanded)
    }

    /// Answers a k-nearest-neighbor query: ids and exact squared distances,
    /// closest first, ties toward the lower id. Tombstoned and retired
    /// vertices never appear in the result. Fails with `IndexEmpty` on an
    /// index without vertices, `DimensionMismatch` when the query length is
    /// not the configured dimension, and `InvalidConfig` when the search
    /// list cannot cover `k` (`l < 1` or `k > l`); it succeeds on exactly
    /// the remaining inputs.
    pub fn search(&self, q: &Vec<i32>, k: usize, l: usize) -> (r: Result<
        (Vec<u32>, Vec<u128>),
        AnnError,
    >)
        requires
            self.wf(),
        ensures
            r is Ok <==> (self.nv() > 0 && q@.len() == self.cfg().dim && 1 <= l && k <= l),
            r matches Err(e) ==> e.kind_spec() == (if self.nv() == 0 {
                AnnErrorKind::IndexEmpty
            } else if q@.len() != self.cfg().dim {
                AnnErrorKind::DimensionMismatch
            } else {
                AnnErrorKind::InvalidConfig
            }),
            r matches Ok(p) ==> ({
                let (ids, dists) = p;
                &&& ids@.len() == dists@.len() <= k
                &&& forall|i: int|
                    0 <= i < ids@.len() ==> self.is_queryable(#[trigger] ids@[i] as int)
                &&& forall|i: int|
                    0 <= i < ids@.len() ==> (#[trigger] dists@[i]) == crate::distance::l2_dist(
                        crate::pad_to(q@, self.cfg().aligned_dim_of()),
                        self.vecs()[ids@[i] as int],
                    )
                &&& forall|a: int, b: int|
                    0 <= a < b < ids@.len() ==> ((#[trigger] dists@[a]) < (#[trigger] dists@[b])
                        || (dists@[a] == dists@[b] && ids@[a] < ids@[b]))
                &&& (k >= 1 && self.deleted_spec() == 0 && self.retired_count_spec() == 0)
                    ==> ids@.len() >= 1
            }),
    {
        proof {
            self.lemma_repr();
        }
        if self.vectors.len() == 0 {
            return Err(AnnError::IndexEmpty);
        }
        if q.len() != self.config.dim {
            return Err(AnnError::DimensionMismatch);
        }
        if l < 1 || k > l {
            return Err(
                AnnError::InvalidConfig {
                    field: String::from_str("l_search"),
                    reason: String::from_str("the search list must be positive and cover k"),
                },
            );
        }
        proof {
            self.lemma_repr();
            crate::lemma_aligned_dim_in_range(self.cfg().dim as nat);
        }
        let adim = crate::aligned_dim(self.config.dim);
        let qp = crate::index::padded_copy(q, adim);
        let start = self.medoid;
        let (queue, _expanded) = self.greedy_search(&qp, l, start);
        let qlen = queue.len();
        proof {
            if self.deleted_spec() == 0 {
                crate::lemma_count_zero_all_false(self.tombs());
            }
        }
        let mut ids: Vec<u32> = Vec::new();
        let mut dists: Vec<u128> = Vec::new();
        let ghost mut srcs: Seq<int> = Seq::empty();
        let mut i: usize = 0;
        while i < qlen && ids.len() < k
            invariant
                self.wf(),
                self.repr_eq(),
                queue.wf(),
                qlen == queue@.len(),
                entries_scored(*self, qp@, queue@),
                qp@ == crate::pad_to(q@, self.cfg().aligned_dim_of()),
                i <= qlen,
                ids@.len() == dists@.len() <= k,
                srcs.len() == ids@.len(),
                forall|a: int|
                    0 <= a < srcs.len() ==> 0 <= #[trigger] srcs[a] < i && queue@[srcs[a]].id
                        == ids@[a] && queue@[srcs[a]].dist == dists@[a],
                forall|a: int, b: int| 0 <= a < b < srcs.len() ==> srcs[a] < srcs[b],
                forall|a: int|
                    0 <= a < ids@.len() ==> self.is_queryable(#[trigger] ids@[a] as int),
                forall|a: int, b: int|
                    0 <= a < b < ids@.len() ==> ((#[trigger] dists@[a]) < (#[trigger] dists@[b])
                        || (dists@[a] == dists@[b] && ids@[a] < ids@[b])),
                1 <= qlen,
                self.deleted_spec() == 0 ==> (forall|w: int|
                    0 <= w < self.nv() ==> !(#[trigger] self.tombs()[w])),
                (self.deleted_spec() == 0 && k >= 1 && i >= 1) ==> ids@.len() >= 1,
            decreases qlen - i,
        {
            let c = queue.get(i);
            if !self.tombstoned[c.id as usize] {
                let ghost n = ids@.len() as int;
                ids.push(c.id);
                dists.push(c.dist);
                proof {
                    srcs = srcs.push(i as int);
                    assert forall|a: int, b: int|
                        0 <= a < b < ids@.len() implies ((#[trigger] dists@[a]) < (
                    #[trigger] dists@[b]) || (dists@[a] == dists@[b] && ids@[a] < ids@[b])) by {
                        if b == n {
                            assert(srcs[a] < i);
                            assert(crate::queue::cand_lt(queue@[srcs[a]], queue@[i as int]));
                        }
                    }
                }
            }
            i = i + 1;
        }
        proof {
            assert forall|a: int|
                0 <= a < ids@.len() implies (#[trigger] dists@[a])
                    == crate::distance::l2_dist(
                crate::pad_to(q@, self.cfg().aligned_dim_of()),
                self.vecs()[ids@[a] as int],
            ) by {
                assert(0 <= srcs[a] < queue@.len());
                assert(queue@[srcs[a]].id == ids@[a] && queue@[srcs[a]].dist == dists@[a]);
            }
        }
        Ok((ids, dists))
    }
}

} // verus!
