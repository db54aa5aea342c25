//! Single-vertex insertion: append the vector, search for neighbor
//! candidates from the medoid, robust-prune them into the new vertex's
//! adjacency, and back-link each chosen neighbor.

use vstd::prelude::*;
use crate::errors::{AnnError, AnnErrorKind};
use crate::index::Index;

verus! {

impl Index {
    /// Inserts one vector and returns its new id. Fails with
    /// `DimensionMismatch` when the vector's length is not the configured
    /// dimension and with `Capacity` on a full index; it succeeds on
    /// exactly the remaining inputs, and an error leaves the index
    /// untouched. On success the vector is stored padded under the next
    /// dense id, no existing adjacency gains anything but the new id, and
    /// the new vertex links only to older vertices.
    pub fn insert(&mut self, v: &Vec<i32>) -> (r: Result<u32, AnnError>)
        requires
            old(self).wf(),
        ensures
            r is Ok <==> (v@.len() == old(self).cfg().dim && old(self).nv() < old(
                self,
            ).cfg().capacity),
            r matches Err(e) ==> *final(self) == *old(self) && e.kind_spec() == (if v@.len()
                != old(self).cfg().dim {
                AnnErrorKind::DimensionMismatch
            } else {
                AnnErrorKind::Capacity
            }),
            r matches Ok(id) ==> ({
                &&& final(self).wf()
                &&& final(self).cfg() == old(self).cfg()
                &&& id == old(self).nv()
                &&& final(self).nv() == old(self).nv() + 1
                &&& final(self).vecs() == old(self).vecs().push(
                    crate::pad_to(v@, old(self).cfg().aligned_dim_of()),
                )
                &&& final(self).tombs() == old(self).tombs().push(false)
                &&& final(self).retireds() == old(self).retireds().push(false)
                &&& final(self).deleted_spec() == old(self).deleted_spec()
                &&& final(self).medoid_spec() == (if old(self).has_queryable() {
                    old(self).medoid_spec()
                } else {
                    id
                })
                &&& forall|w: int|
                    #![trigger final(self).adjs()[w]]
                    0 <= w < old(self).nv() ==> (forall|i: int|
                        0 <= i < final(self).adjs()[w].len()
                            ==> (#[trigger] final(self).adjs()[w][i]) == id
                            || old(self).adjs()[w].contains(final(self).adjs()[w][i]))
                &&& forall|i: int|
                    0 <= i < final(self).adjs()[id as int].len()
                        ==> (#[trigger] final(self).adjs()[id as int][i]) < old(self).nv()
            }),
    {
        proof {
            self.lemma_repr();
        }
        if v.len() != self.config.dim {
            return Err(AnnError::DimensionMismatch);
        }
        if self.vectors.len() == self.config.capacity {
            return Err(AnnError::Capacity);
        }
        let ghost pre = *self;
        if self.vectors.len() == 0 {
            let id = self.append_vector(v);
            return Ok(id);
        }
        let start = self.medoid;
        let l = self.config.l_build as usize;
        let adim = crate::aligned_dim(self.config.dim);
        proof {
            crate::lemma_aligned_dim_in_range(self.cfg().dim as nat);
        }
        let qp = crate::index::padded_copy(v, adim);
        let (_best, expanded) = self.greedy_search(&qp, l, start);
        let id = self.append_vector(v);
        proof {
            self.lemma_repr();
            assert forall|i: int|
                0 <= i < expanded@.len() implies (#[trigger] expanded@[i]) < self.nv()
                    && !self.retireds()[expanded@[i] as int] by {
                assert(expanded@[i] < pre.nv());
                assert(self.retireds()[expanded@[i] as int] == pre.retireds().push(
                    false,
                )[expanded@[i] as int]);
            }
        }
        let alpha = self.config.alpha_x100;
        let pruned = self.prune_ids(id, &expanded, alpha);
        let ghost pruned_view = pruned@;
        proof {
            assert forall|i: int|
                0 <= i < pruned@.len() implies (#[trigger] pruned@[i]) < pre.nv() by {
                assert(expanded@.contains(pruned@[i]));
                let w = choose|w: int| 0 <= w < expanded@.len() && expanded@[w] == pruned@[i];
            }
        }
        self.set_neighbors(id, pruned);
        let ghost mid = *self;
        let nb = self.neighbors(id);
        let m = nb.len();
        let mut i: usize = 0;
        while i < m
            invariant
                self.wf(),
                m == nb@.len(),
                i <= m,
                id < self.nv(),
                self.cfg() == mid.cfg(),
                self.nv() == mid.nv(),
                self.vecs() == mid.vecs(),
                self.tombs() == mid.tombs(),
                self.retireds() == mid.retireds(),
                self.deleted_spec() == mid.deleted_spec(),
                self.medoid_spec() == mid.medoid_spec(),
                self.adjs().len() == mid.adjs().len(),
                !self.retireds()[id as int],
                nb@ == mid.adjs()[id as int],
                forall|w: int|
                    0 <= w < nb@.len() ==> (#[trigger] nb@[w]) < mid.nv() && nb@[w] != id
                        && !mid.retireds()[nb@[w] as int],
                self.adjs()[id as int] == mid.adjs()[id as int],
                forall|w: int|
                    #![trigger self.adjs()[w]]
                    0 <= w < self.nv() && w != id ==> (forall|e: int|
                        0 <= e < self.adjs()[w].len() ==> (#[trigger] self.adjs()[w][e]) == id
                            || mid.adjs()[w].contains(self.adjs()[w][e])),
            decreases m - i,
        {
            let ghost before = *self;
            let target = nb[i];
            self.add_back_edge(target, id, alpha);
            proof {
                assert forall|w: int, e: int|
                    0 <= w < self.nv() && w != id && 0 <= e < (#[trigger] self.adjs()[w]).len()
                        implies (#[trigger] self.adjs()[w][e]) == id || mid.adjs()[w].contains(
                        self.adjs()[w][e],
                    ) by {
                    if w == target {
                        let x = self.adjs()[w][e];
                        if x != id {
                            assert(before.adjs()[w].contains(x) || x == id);
                            let t = choose|t: int|
                                0 <= t < before.adjs()[w].len() && before.adjs()[w][t] == x;
                            assert(before.adjs()[w][t] == id || mid.adjs()[w].contains(
                                before.adjs()[w][t],
                            ));
                        }
                    } else {
                        assert(self.adjs()[w] == before.adjs()[w]);
                    }
                }
            }
            i = i + 1;
        }
        proof {
            assert forall|w: int, e: int|
                0 <= w < pre.nv() && 0 <= e < (#[trigger] self.adjs()[w]).len() implies (
            #[trigger] self.adjs()[w][e]) == id || pre.adjs()[w].contains(self.adjs()[w][e]) by {
                assert(w != id);
                let x = self.adjs()[w][e];
                if x != id {
                    assert(mid.adjs()[w].contains(x));
                    assert(mid.adjs()[w] == pre.adjs()[w]);
                }
            }
            assert(self.adjs()[id as int] == pruned_view);
        }
        Ok(id)
    }
}

} // verus!
