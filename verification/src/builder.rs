//! Initial construction: seed a random graph, pick the medoid near the
//! data centroid, then refine every vertex in two passes over a random
//! permutation — the first with alpha at 1.0, the second with the
//! configured alpha. Batch insertion reuses the single-vertex protocol.

use vstd::prelude::*;
use crate::errors::{AnnError, AnnErrorKind};
use crate::index::{adj_ok, Index};

verus! {

/// What a successful batch insertion of `data` into `pre` guarantees of
/// the resulting index and the returned `(first id, count)` pair.
pub open spec fn batch_inserted(
    pre: Index,
    post: Index,
    data: Seq<Vec<i32>>,
    p: (usize, usize),
) -> bool {
    &&& post.wf()
    &&& post.cfg() == pre.cfg()
    &&& p.0 == pre.nv()
    &&& p.1 == data.len()
    &&& post.nv() == pre.nv() + data.len()
    &&& forall|i: int|
        0 <= i < pre.nv() ==> (#[trigger] post.vecs()[i]) == pre.vecs()[i] && post.tombs()[i]
            == pre.tombs()[i] && post.retireds()[i] == pre.retireds()[i]
    &&& forall|a: int|
        pre.nv() <= a < pre.nv() + data.len() ==> (#[trigger] post.vecs()[a]) == crate::pad_to(
            data[a - pre.nv()]@,
            pre.cfg().aligned_dim_of(),
        ) && !post.tombs()[a] && !post.retireds()[a]
    &&& post.deleted_spec() == pre.deleted_spec()
}

/// Column sum at coordinate `j` over the first `t` stored vectors, with
/// every scalar shifted by `2^31` so the terms are non-negative.
pub open spec fn col_sum_shifted(vecs: Seq<Seq<i32>>, j: int, t: int) -> int
    decreases t,
{
    if t <= 0 {
        0
    } else {
        col_sum_shifted(vecs, j, t - 1) + (vecs[t - 1][j] + 0x8000_0000)
    }
}

/// The centroid coordinate the builder measures against: the floor mean
/// of the shifted scalars, shifted back.
pub open spec fn centroid_coord(vecs: Seq<Seq<i32>>, n: int, j: int) -> int {
    col_sum_shifted(vecs, j, n) / n - 0x8000_0000
}

/// The full centroid row, one mean per aligned coordinate.
pub open spec fn centroid_row(vecs: Seq<Seq<i32>>, n: int, adim: int) -> Seq<i32> {
    Seq::new(adim as nat, |j: int| centroid_coord(vecs, n, j) as i32)
}

/// The entry vertex is the one closest to the centroid row, ties toward
/// the lower id.
pub open spec fn medoid_is_centroid_argmin(idx: Index, n: int) -> bool {
    let c = centroid_row(idx.vecs(), n, idx.cfg().aligned_dim_of() as int);
    forall|u: int|
        0 <= u < n ==> (crate::distance::l2_dist(c, idx.vecs()[idx.medoid_spec() as int])
            < crate::distance::l2_dist(c, #[trigger] idx.vecs()[u])
            || (crate::distance::l2_dist(c, idx.vecs()[idx.medoid_spec() as int])
            == crate::distance::l2_dist(c, idx.vecs()[u]) && idx.medoid_spec() <= u))
}

impl Index {
    /// One refinement step: search for the vertex's own vector from the
    /// medoid, pool the expansion set with the current adjacency, prune,
    /// install, and back-link.
    pub(crate) fn refine_vertex(&mut self, u: u32, alpha_x100: u32)
        requires
            old(self).wf(),
            1 <= old(self).nv(),
            u < old(self).nv(),
            !old(self).retireds()[u as int],
        ensures
            final(self).wf(),
            final(self).cfg() == old(self).cfg(),
            final(self).nv() == old(self).nv(),
            final(self).vecs() == old(self).vecs(),
            final(self).tombs() == old(self).tombs(),
            final(self).retireds() == old(self).retireds(),
            final(self).medoid_spec() == old(self).medoid_spec(),
            final(self).deleted_spec() == old(self).deleted_spec(),
    {
        proof {
            self.lemma_repr();
            assert(self.vecs()[u as int].len() == self.cfg().aligned_dim_of());
        }
        let l = self.config.l_build as usize;
        let start = self.medoid;
        let (_best, expanded) = self.greedy_search(&self.vectors[u as usize], l, start);
        let mut cand = expanded;
        let nb = self.neighbors(u);
        let nblen = nb.len();
        let mut i: usize = 0;
        while i < nblen
            invariant
                self.wf(),
                i <= nblen,
                nblen == nb@.len(),
                u < self.nv(),
                forall|w: int|
                    0 <= w < nb@.len() ==> (#[trigger] nb@[w]) < self.nv()
                        && !self.retireds()[nb@[w] as int],
                forall|w: int|
                    0 <= w < cand@.len() ==> (#[trigger] cand@[w]) < self.nv()
                        && !self.retireds()[cand@[w] as int],
            decreases nblen - i,
        {
            cand.push(nb[i]);
            i = i + 1;
        }
        let pruned = self.prune_ids(u, &cand, alpha_x100);
        self.set_neighbors(u, pruned);
        let ghost mid = *self;
        let nb2 = self.neighbors(u);
        let m = nb2.len();
        let mut t: usize = 0;
        while t < m
            invariant
                self.wf(),
                t <= m,
                m == nb2@.len(),
                u < self.nv(),
                !self.retireds()[u as int],
                self.cfg() == mid.cfg(),
                self.nv() == mid.nv(),
                self.vecs() == mid.vecs(),
                self.tombs() == mid.tombs(),
                self.retireds() == mid.retireds(),
                self.medoid_spec() == mid.medoid_spec(),
                self.deleted_spec() == mid.deleted_spec(),
                forall|w: int|
                    0 <= w < nb2@.len() ==> (#[trigger] nb2@[w]) < self.nv() && nb2@[w] != u
                        && !self.retireds()[nb2@[w] as int],
            decreases m - t,
        {
            let target = nb2[t];
            self.add_back_edge(target, u, alpha_x100);
            t = t + 1;
        }
    }

    /// Builds the graph over a fresh batch of vectors: this index must be
    /// empty, the batch non-empty and within capacity, and every row of
    /// the configured dimension; it succeeds on exactly those inputs, and
    /// an error leaves the index untouched. On success the rows are stored
    /// padded, in order, with nothing tombstoned.
    pub fn build(&mut self, data: &Vec<Vec<i32>>) -> (r: Result<(), AnnError>)
        requires
            old(self).wf(),
        ensures
            r is Ok <==> (old(self).nv() == 0 && 1 <= data@.len() <= old(self).cfg().capacity
                && (forall|i: int|
                0 <= i < data@.len() ==> (#[trigger] data@[i])@.len() == old(self).cfg().dim)),
            r matches Err(e) ==> *final(self) == *old(self) && e.kind_spec() == (if old(
                self,
            ).nv() != 0 {
                AnnErrorKind::Internal
            } else if data@.len() == 0 {
                AnnErrorKind::IndexEmpty
            } else if (exists|i: int|
                0 <= i < data@.len() && (#[trigger] data@[i])@.len() != old(self).cfg().dim) {
                AnnErrorKind::DimensionMismatch
            } else {
                AnnErrorKind::Capacity
            }),
            r is Ok ==> ({
                &&& final(self).wf()
                &&& final(self).cfg() == old(self).cfg()
                &&& final(self).nv() == data@.len()
                &&& forall|i: int|
                    0 <= i < data@.len() ==> (#[trigger] final(self).vecs()[i]) == crate::pad_to(
                        data@[i]@,
                        old(self).cfg().aligned_dim_of(),
                    )
                &&& forall|i: int|
                    0 <= i < data@.len() ==> !(#[trigger] final(self).tombs()[i]) && !final(self).retireds()[i]
                &&& final(self).deleted_spec() == 0
                &&& medoid_is_centroid_argmin(*final(self), data@.len() as int)
            }),
    {
        proof {
            self.lemma_repr();
        }
        if self.vectors.len() != 0 {
            return Err(
                AnnError::Internal {
                    detail: String::from_str("build requires an empty index"),
                },
            );
        }
        let n = data.len();
        if n == 0 {
            return Err(AnnError::IndexEmpty);
        }
        let dim = self.config.dim;
        let mut ck: usize = 0;
        while ck < n
            invariant
                ck <= n,
                1 <= n,
                n == data@.len(),
                dim == old(self).cfg().dim,
                old(self).nv() == 0,
                self == old(self),
                forall|i: int| 0 <= i < ck ==> (#[trigger] data@[i])@.len() == dim,
            decreases n - ck,
        {
            if data[ck].len() != dim {
                return Err(AnnError::DimensionMismatch);
            }
            ck = ck + 1;
        }
        if n > self.config.capacity {
            return Err(AnnError::Capacity);
        }
        let ghost pre = *self;
        let mut i: usize = 0;
        while i < n
            invariant
                self.wf(),
                i <= n,
                n == data@.len(),
                n <= self.cfg().capacity,
                self.cfg() == pre.cfg(),
                dim == pre.cfg().dim,
                forall|w: int| 0 <= w < n ==> (#[trigger] data@[w])@.len() == dim,
                self.nv() == i,
                self.deleted_spec() == 0,
                forall|w: int|
                    0 <= w < i ==> (#[trigger] self.vecs()[w]) == crate::pad_to(
                        data@[w]@,
                        pre.cfg().aligned_dim_of(),
                    ),
                forall|w: int| 0 <= w < i ==> !(#[trigger] self.tombs()[w]),
                forall|w: int| 0 <= w < i ==> !(#[trigger] self.retireds()[w]),
            decreases n - i,
        {
            let ghost st = *self;
            let _ = self.append_vector(&data[i]);
            proof {
                st.lemma_repr();
                self.lemma_repr();
                assert forall|w: int|
                    0 <= w < i + 1 implies (#[trigger] self.vecs()[w]) == crate::pad_to(
                    data@[w]@,
                    pre.cfg().aligned_dim_of(),
                ) && !(#[trigger] self.tombs()[w]) && !self.retireds()[w] by {
                    if w < i {
                        assert(self.vecs()[w] == st.vecs()[w]);
                        assert(self.tombs()[w] == st.tombs()[w]);
                        assert(self.retireds()[w] == st.retireds()[w]);
                    }
                }
                assert forall|w: int| 0 <= w < i + 1 implies !(#[trigger] self.retireds()[
                    w
                ]) by {
                    if w < i {
                        assert(self.retireds()[w] == st.retireds()[w]);
                    }
                }
            }
            i = i + 1;
        }
        let ghost filled = *self;
        proof {
            self.lemma_repr();
            assert(n <= 0xFFFF_FFFFusize);
        }
        // Seed graph: up to min(R, n-1) random distinct neighbors per
        // vertex, completed deterministically when the draws collide.
        let rdeg = self.config.max_degree as usize;
        let rmax = if rdeg < n - 1 {
            rdeg
        } else {
            n - 1
        };
        let mut u: usize = 0;
        while u < n
            invariant
                self.wf(),
                u <= n,
                1 <= n <= 0xFFFF_FFFFusize,
                n == data@.len(),
                self.nv() == n,
                rmax <= self.cfg().max_degree,
                rmax <= n - 1,
                forall|w: int| 0 <= w < n ==> !(#[trigger] self.tombs()[w]),
                forall|w: int| 0 <= w < n ==> !(#[trigger] self.retireds()[w]),
                self.cfg() == filled.cfg(),
                self.vecs() == filled.vecs(),
                self.tombs() == filled.tombs(),
                self.retireds() == filled.retireds(),
                self.medoid_spec() == filled.medoid_spec(),
                self.deleted_spec() == filled.deleted_spec(),
            decreases n - u,
        {
            let mut lst: Vec<u32> = Vec::new();
            let bound: u64 = 2 * (rmax as u64);
            let mut tries: u64 = 0;
            while tries < bound
                invariant
                    self.wf(),
                    self.nv() == n,
                    1 <= n <= 0xFFFF_FFFFusize,
                    u < n,
                    tries <= bound,
                    forall|w: int| 0 <= w < n ==> !(#[trigger] self.tombs()[w]),
                    forall|w: int| 0 <= w < n ==> !(#[trigger] self.retireds()[w]),
                    lst@.len() <= rmax,
                    self.cfg() == filled.cfg(),
                    self.vecs() == filled.vecs(),
                    self.tombs() == filled.tombs(),
                    self.retireds() == filled.retireds(),
                    self.medoid_spec() == filled.medoid_spec(),
                    self.deleted_spec() == filled.deleted_spec(),
                    forall|w: int| 0 <= w < lst@.len() ==> (#[trigger] lst@[w]) < n,
                    forall|w: int| 0 <= w < lst@.len() ==> (#[trigger] lst@[w]) != u,
                    forall|a: int, b: int|
                        0 <= a < b < lst@.len() ==> (#[trigger] lst@[a]) != (#[trigger] lst@[b]),
                decreases bound - tries,
            {
                let cand = self.draw_below(n as u32);
                if cand as usize != u && lst.len() < rmax {
                    let llen = lst.len();
                    let mut seen = false;
                    let mut w: usize = 0;
                    while w < llen
                        invariant
                            w <= llen,
                            llen == lst@.len(),
                            seen <==> exists|x: int| 0 <= x < w && (#[trigger] lst@[x]) == cand,
                        decreases llen - w,
                    {
                        if lst[w] == cand {
                            seen = true;
                        }
                        w = w + 1;
                    }
                    if !seen {
                        lst.push(cand);
                    }
                }
                tries = tries + 1;
            }
            let mut off: usize = 1;
            while off < n
                invariant
                    off <= n,
                    u < n,
                    1 <= n <= 0xFFFF_FFFFusize,
                    n == self.nv(),
                    lst@.len() <= rmax,
                    forall|w: int| 0 <= w < lst@.len() ==> (#[trigger] lst@[w]) < n,
                    forall|w: int| 0 <= w < lst@.len() ==> (#[trigger] lst@[w]) != u,
                    forall|a: int, b: int|
                        0 <= a < b < lst@.len() ==> (#[trigger] lst@[a]) != (#[trigger] lst@[b]),
                decreases n - off,
            {
                if lst.len() < rmax {
                    let cand = ((u as u64 + off as u64) % (n as u64)) as u32;
                    if cand as usize != u {
                        let llen = lst.len();
                        let mut seen = false;
                        let mut w: usize = 0;
                        while w < llen
                            invariant
                                w <= llen,
                                llen == lst@.len(),
                                seen <==> exists|x: int|
                                    0 <= x < w && (#[trigger] lst@[x]) == cand,
                            decreases llen - w,
                        {
                            if lst[w] == cand {
                                seen = true;
                            }
                            w = w + 1;
                        }
                        if !seen {
                            lst.push(cand);
                        }
                    }
                }
                off = off + 1;
            }
            proof {
                assert(adj_ok(
                    lst@,
                    u as int,
                    self.nv(),
                    self.cfg().max_degree as int,
                    self.retireds(),
                ));
            }
            self.set_neighbors(u as u32, lst);
            u = u + 1;
        }
        // Medoid: the vertex closest to the per-coordinate mean.
        let adim = crate::aligned_dim(dim);
        proof {
            crate::lemma_aligned_dim_in_range(self.cfg().dim as nat);
        }
        let mut mean_row: Vec<i32> = Vec::new();
        let mut j: usize = 0;
        while j < adim
            invariant
                j <= adim,
                mean_row@.len() == j,
                forall|jj: int|
                    0 <= jj < j ==> (#[trigger] mean_row@[jj]) == centroid_coord(
                        filled.vecs(),
                        n as int,
                        jj,
                    ) as i32,
                n == self.nv(),
                1 <= n <= 0xFFFF_FFFFusize,
                adim == self.cfg().aligned_dim_of(),
                forall|w: int| 0 <= w < n ==> !(#[trigger] self.tombs()[w]),
                forall|w: int| 0 <= w < n ==> !(#[trigger] self.retireds()[w]),
                self.wf(),
                self.cfg() == filled.cfg(),
                self.vecs() == filled.vecs(),
                self.tombs() == filled.tombs(),
                self.retireds() == filled.retireds(),
                self.deleted_spec() == filled.deleted_spec(),
            decreases adim - j,
        {
            let mut acc: u64 = 0;
            let mut t: usize = 0;
            while t < n
                invariant
                    t <= n,
                    n == self.nv(),
                    1 <= n <= 0xFFFF_FFFFusize,
                    j < adim,
                    adim == self.cfg().aligned_dim_of(),
                    self.wf(),
                    self.vecs() == filled.vecs(),
                    acc as int <= (t as int) * 0xFFFF_FFFFint,
                    acc as int == col_sum_shifted(filled.vecs(), j as int, t as int),
                decreases n - t,
            {
                proof {
                    self.lemma_repr();
                    assert(self.vecs()[t as int].len() == adim);
                    assert((t as int) * 0xFFFF_FFFFint + 0xFFFF_FFFFint == ((t as int) + 1)
                        * 0xFFFF_FFFFint) by (nonlinear_arith);
                    assert(((t as int) + 1) * 0xFFFF_FFFFint <= (n as int) * 0xFFFF_FFFFint)
                        by (nonlinear_arith)
                        requires
                            (t as int) + 1 <= n as int,
                    ;
                    assert((n as int) * 0xFFFF_FFFFint < 0xFFFF_FFFF_FFFF_FFFFint)
                        by (nonlinear_arith)
                        requires
                            n as int <= 0xFFFF_FFFFint,
                    ;
                }
                let x = self.vectors[t][j];
                proof {
                    self.lemma_repr();
                    assert(x == filled.vecs()[t as int][j as int]);
                }
                let shifted: u64 = (x as i64 + 0x8000_0000i64) as u64;
                acc = acc + shifted;
                t = t + 1;
            }
            proof {
                assert(acc as int <= (n as int) * 0xFFFF_FFFFint);
                vstd::arithmetic::div_mod::lemma_div_is_ordered(
                    acc as int,
                    (n as int) * 0xFFFF_FFFFint,
                    n as int,
                );
                vstd::arithmetic::div_mod::lemma_div_multiples_vanish(0xFFFF_FFFFint, n as int);
                assert(acc as int / (n as int) <= 0xFFFF_FFFFint);
                assert((acc / (n as u64)) as int == acc as int / (n as int));
            }
            let mean_off: u64 = acc / (n as u64);
            let mean_j: i32 = ((mean_off as i64) - 0x8000_0000i64) as i32;
            proof {
                assert(mean_j as int == centroid_coord(filled.vecs(), n as int, j as int));
            }
            mean_row.push(mean_j);
            j = j + 1;
        }
        let ghost crv = centroid_row(filled.vecs(), n as int, adim as int);
        proof {
            assert(mean_row@ =~= crv);
        }
        let mut best: u32 = 0;
        proof {
            self.lemma_repr();
            crate::lemma_aligned_dim_in_range(self.cfg().dim as nat);
            assert(self.vecs()[0].len() == adim);
        }
        let mut bd = crate::distance::distance_compare(
            mean_row.as_slice(),
            self.vectors[0].as_slice(),
            self.config.metric,
        );
        let mut t: usize = 1;
        while t < n
            invariant
                1 <= t <= n,
                n == self.nv(),
                (best as int) < t,
                (best as int) < n,
                mean_row@ == crv,
                bd == crate::distance::l2_dist(crv, filled.vecs()[best as int]),
                forall|w: int|
                    0 <= w < t ==> (bd < crate::distance::l2_dist(
                        crv,
                        #[trigger] filled.vecs()[w],
                    ) || (bd == crate::distance::l2_dist(crv, filled.vecs()[w]) && (best as int)
                        <= w)),
                forall|w: int| 0 <= w < n ==> !(#[trigger] self.tombs()[w]),
                forall|w: int| 0 <= w < n ==> !(#[trigger] self.retireds()[w]),
                mean_row@.len() == adim,
                adim == self.cfg().aligned_dim_of(),
                adim <= crate::config::MAX_DIM,
                self.wf(),
                self.cfg() == filled.cfg(),
                self.vecs() == filled.vecs(),
                self.tombs() == filled.tombs(),
                self.retireds() == filled.retireds(),
                self.deleted_spec() == filled.deleted_spec(),
            decreases n - t,
        {
            proof {
                self.lemma_repr();
                assert(self.vecs()[t as int].len() == adim);
            }
            let d = crate::distance::distance_compare(
                mean_row.as_slice(),
                self.vectors[t].as_slice(),
                self.config.metric,
            );
            proof {
                assert(d == crate::distance::l2_dist(crv, filled.vecs()[t as int]));
            }
            if d < bd {
                bd = d;
                best = t as u32;
            }
            t = t + 1;
        }
        proof {
            assert(!self.retireds()[best as int]);
            assert(!self.tombs()[best as int]);
        }
        self.set_medoid(best);
        let ghost argmin_ok = forall|w: int|
            0 <= w < n ==> (crate::distance::l2_dist(crv, filled.vecs()[best as int])
                < crate::distance::l2_dist(crv, #[trigger] filled.vecs()[w])
                || (crate::distance::l2_dist(crv, filled.vecs()[best as int])
                == crate::distance::l2_dist(crv, filled.vecs()[w]) && (best as int) <= w));
        proof {
            assert(argmin_ok);
        }
        // Two refinement passes over a random permutation.
        let mut pass: usize = 0;
        while pass < 2
            invariant
                pass <= 2,
                n == self.nv(),
                1 <= n <= 0xFFFF_FFFFusize,
                self.medoid_spec() == best,
                argmin_ok,
                forall|w: int| 0 <= w < n ==> !(#[trigger] self.tombs()[w]),
                forall|w: int| 0 <= w < n ==> !(#[trigger] self.retireds()[w]),
                self.wf(),
                self.cfg() == filled.cfg(),
                self.vecs() == filled.vecs(),
                self.tombs() == filled.tombs(),
                self.retireds() == filled.retireds(),
                self.deleted_spec() == filled.deleted_spec(),
            decreases 2 - pass,
        {
            let alpha = if pass == 0 {
                100u32
            } else {
                self.config.alpha_x100
            };
            let mut perm: Vec<u32> = Vec::new();
            let mut p: usize = 0;
            while p < n
                invariant
                    p <= n,
                    n <= 0xFFFF_FFFFusize,
                    perm@.len() == p,
                    forall|w: int| 0 <= w < p ==> (#[trigger] perm@[w]) < n,
                decreases n - p,
            {
                perm.push(p as u32);
                p = p + 1;
            }
            let mut sh: usize = 0;
            while sh < n
                invariant
                    sh <= n,
                    n == self.nv(),
                    1 <= n,
                    self.medoid_spec() == best,
                    perm@.len() == n,
                    forall|w: int| 0 <= w < n ==> (#[trigger] perm@[w]) < n,
                    self.wf(),
                    self.cfg() == filled.cfg(),
                    self.vecs() == filled.vecs(),
                    self.tombs() == filled.tombs(),
                    self.retireds() == filled.retireds(),
                    self.deleted_spec() == filled.deleted_spec(),
                decreases n - sh,
            {
                let step = self.draw_below((n - sh) as u32);
                let swap_at = sh + step as usize;
                let a = perm[sh];
                let b = perm[swap_at];
                perm.set(sh, b);
                perm.set(swap_at, a);
                sh = sh + 1;
            }
            let mut t2: usize = 0;
            while t2 < n
                invariant
                    t2 <= n,
                    n == self.nv(),
                    1 <= n,
                    self.medoid_spec() == best,
                    perm@.len() == n,
                    forall|w: int| 0 <= w < n ==> (#[trigger] perm@[w]) < n,
                    forall|w: int| 0 <= w < n ==> !(#[trigger] self.tombs()[w]),
                    forall|w: int| 0 <= w < n ==> !(#[trigger] self.retireds()[w]),
                    self.wf(),
                    self.cfg() == filled.cfg(),
                    self.vecs() == filled.vecs(),
                    self.tombs() == filled.tombs(),
                    self.retireds() == filled.retireds(),
                    self.deleted_spec() == filled.deleted_spec(),
                decreases n - t2,
            {
                let uu = perm[t2];
                self.refine_vertex(uu, alpha);
                t2 = t2 + 1;
            }
            pass = pass + 1;
        }
        proof {
            assert(centroid_row(self.vecs(), n as int, self.cfg().aligned_dim_of() as int)
                == crv);
            assert(medoid_is_centroid_argmin(*self, n as int));
        }
        Ok(())
    }

    /// Inserts a batch, returning the first new id and the count. All rows
    /// must carry the configured dimension and the batch must fit in the
    /// remaining capacity; it succeeds on exactly those inputs, and an
    /// error leaves the index untouched.
    #[verifier::rlimit(60)]
    pub fn insert_batch(&mut self, data: &Vec<Vec<i32>>) -> (r: Result<(usize, usize), AnnError>)
        requires
            old(self).wf(),
        ensures
            r is Ok <==> ((forall|i: int|
                0 <= i < data@.len() ==> (#[trigger] data@[i])@.len() == old(self).cfg().dim)
                && old(self).nv() + data@.len() <= old(self).cfg().capacity),
            r matches Err(e) ==> *final(self) == *old(self) && e.kind_spec() == (if (exists|i: int|
                0 <= i < data@.len() && (#[trigger] data@[i])@.len() != old(self).cfg().dim) {
                AnnErrorKind::DimensionMismatch
            } else {
                AnnErrorKind::Capacity
            }),
            r matches Ok(p) ==> batch_inserted(*old(self), *final(self), data@, p),
    {
        proof {
            self.lemma_repr();
        }
        let n = data.len();
        let dim = self.config.dim;
        let mut ck: usize = 0;
        while ck < n
            invariant
                ck <= n,
                n == data@.len(),
                dim == old(self).cfg().dim,
                self == old(self),
                forall|i: int| 0 <= i < ck ==> (#[trigger] data@[i])@.len() == dim,
            decreases n - ck,
        {
            if data[ck].len() != dim {
                return Err(AnnError::DimensionMismatch);
            }
            ck = ck + 1;
        }
        if n > self.config.capacity - self.vectors.len() {
            return Err(AnnError::Capacity);
        }
        let start_id = self.vectors.len();
        let ghost pre = *self;
        let mut i: usize = 0;
        while i < n
            invariant
                self.wf(),
                i <= n,
                n == data@.len(),
                dim == pre.cfg().dim,
                forall|w: int| 0 <= w < n ==> (#[trigger] data@[w])@.len() == dim,
                start_id == pre.nv(),
                pre.nv() + n <= pre.cfg().capacity,
                self.cfg() == pre.cfg(),
                self.nv() == pre.nv() + i,
                self.deleted_spec() == pre.deleted_spec(),
                forall|w: int|
                    0 <= w < pre.nv() ==> (#[trigger] self.vecs()[w]) == pre.vecs()[w]
                        && self.tombs()[w] == pre.tombs()[w] && self.retireds()[w]
                        == pre.retireds()[w],
                forall|a: int|
                    pre.nv() <= a < pre.nv() + i ==> (#[trigger] self.vecs()[a]) == crate::pad_to(
                        data@[a - pre.nv()]@,
                        pre.cfg().aligned_dim_of(),
                    ) && !self.tombs()[a] && !self.retireds()[a],
            decreases n - i,
        {
            let ghost st = *self;
            let res = self.insert(&data[i]);
            match res {
                Ok(_) => {
                    proof {
                        st.lemma_repr();
                        self.lemma_repr();
                        assert forall|w: int|
                            0 <= w < pre.nv() implies (#[trigger] self.vecs()[w]) == pre.vecs()[w]
                                && self.tombs()[w] == pre.tombs()[w] && self.retireds()[w]
                                == pre.retireds()[w] by {
                            assert(self.vecs()[w] == st.vecs()[w]);
                            assert(self.tombs()[w] == st.tombs()[w]);
                            assert(self.retireds()[w] == st.retireds()[w]);
                        }
                        assert forall|a: int|
                            pre.nv() <= a < pre.nv() + i + 1 implies (#[trigger] self.vecs()[a])
                                == crate::pad_to(data@[a - pre.nv()]@, pre.cfg().aligned_dim_of())
                                && !self.tombs()[a] && !self.retireds()[a] by {
                            if a < pre.nv() + i {
                                assert(self.vecs()[a] == st.vecs()[a]);
                                assert(self.tombs()[a] == st.tombs()[a]);
                                assert(self.retireds()[a] == st.retireds()[a]);
                            } else {
                                assert(a == st.nv());
                                assert(st.vecs().len() == st.nv());
                                assert(st.tombs().len() == st.nv());
                                assert(st.retireds().len() == st.nv());
                                assert(self.vecs()[a] == crate::pad_to(
                                    data@[i as int]@,
                                    st.cfg().aligned_dim_of(),
                                ));
                                assert(st.cfg().aligned_dim_of() == pre.cfg().aligned_dim_of());
                            }
                        }
                    }
                },
                Err(_) => {
                    proof {
                        assert(false);
                    }
                },
            }
            i = i + 1;
        }
        proof {
            assert(*old(self) == pre);
            assert forall|ii: int|
                0 <= ii < pre.nv() implies (#[trigger] self.vecs()[ii]) == pre.vecs()[ii]
                    && self.tombs()[ii] == pre.tombs()[ii] && self.retireds()[ii]
                    == pre.retireds()[ii] by {}
            assert forall|a: int|
                pre.nv() <= a < pre.nv() + n implies (#[trigger] self.vecs()[a]) == crate::pad_to(
                    data@[a - pre.nv()]@,
                    pre.cfg().aligned_dim_of(),
                ) && !self.tombs()[a] && !self.retireds()[a] by {}
            assert(batch_inserted(pre, *self, data@, (start_id, n)));
        }
        Ok((start_id, n))
    }
}

} // verus!
