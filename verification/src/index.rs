//! The index proper: vector store, graph store and vertex lifecycle state,
//! with the well-formedness invariant every operation preserves.
//!
//! Vertex slots are dense `u32` ids. A slot is *live* once appended; it may
//! be *tombstoned* (hidden from results, still routing traversal) and later
//! *retired* by consolidation (unlinked from every adjacency list and no
//! longer reachable, its id left allocated). The index is a single-writer
//! value: an embedder that shares it between workers serialises mutation
//! around it, and every transition below is the same under any such
//! schedule.

use vstd::prelude::*;
use crate::config::IndexConfig;
use crate::errors::AnnError;

verus! {

/// An adjacency list is well formed for vertex `u`: bounded by the degree
/// limit, in range, free of self-loops and duplicates, and never pointing
/// at a retired slot.
pub open spec fn adj_ok(list: Seq<u32>, u: int, nv: int, r: int, retired: Seq<bool>) -> bool {
    &&& list.len() <= r
    &&& forall|i: int| 0 <= i < list.len() ==> (#[trigger] list[i]) < nv
    &&& forall|i: int| 0 <= i < list.len() ==> (#[trigger] list[i]) != u
    &&& forall|i: int| 0 <= i < list.len() ==> !retired[#[trigger] list[i] as int]
    &&& forall|i: int, j: int| 0 <= i < j < list.len() ==> (#[trigger] list[i]) != (
    #[trigger] list[j])
}

/// A copy of `v` extended with zeros to length `n`.
pub(crate) fn padded_copy(v: &Vec<i32>, n: usize) -> (r: Vec<i32>)
    requires
        v@.len() <= n,
    ensures
        r@ == crate::pad_to(v@, n as nat),
{
    let dim = v.len();
    let mut row: Vec<i32> = Vec::with_capacity(n);
    let mut i: usize = 0;
    while i < dim
        invariant
            i <= dim,
            dim == v@.len(),
            row@.len() == i,
            forall|j: int| 0 <= j < i ==> row@[j] == v@[j],
        decreases dim - i,
    {
        row.push(v[i]);
        i = i + 1;
    }
    while row.len() < n
        invariant
            dim == v@.len(),
            dim <= row@.len() <= n,
            forall|j: int| 0 <= j < dim ==> row@[j] == v@[j],
            forall|j: int| dim <= j < row@.len() ==> row@[j] == 0i32,
        decreases n - row.len(),
    {
        row.push(0i32);
    }
    proof {
        assert(row@ =~= crate::pad_to(v@, n as nat));
    }
    row
}

/// The in-memory Vamana index.
pub struct Index {
    pub(crate) config: IndexConfig,
    pub(crate) vectors: Vec<Vec<i32>>,
    pub(crate) adj: Vec<Vec<u32>>,
    pub(crate) tombstoned: Vec<bool>,
    pub(crate) retired: Vec<bool>,
    pub(crate) num_deleted: usize,
    pub(crate) num_retired: usize,
    pub(crate) medoid: u32,
    pub(crate) rng: rand::rngs::StdRng,
}

impl Index {
    /// The configuration fixed at `open`.
    pub closed spec fn cfg(self) -> IndexConfig {
        self.config
    }

    /// Number of allocated vertex slots, tombstoned and retired included.
    pub closed spec fn nv(self) -> int {
        self.vectors@.len() as int
    }

    /// The stored vectors, each padded to the aligned dimension.
    pub closed spec fn vecs(self) -> Seq<Seq<i32>> {
        self.vectors@.map_values(|v: Vec<i32>| v@)
    }

    /// The adjacency lists.
    pub closed spec fn adjs(self) -> Seq<Seq<u32>> {
        self.adj@.map_values(|v: Vec<u32>| v@)
    }

    /// The tombstone flags.
    pub closed spec fn tombs(self) -> Seq<bool> {
        self.tombstoned@
    }

    /// The retired flags.
    pub closed spec fn retireds(self) -> Seq<bool> {
        self.retired@
    }

    /// The designated entry vertex.
    pub closed spec fn medoid_spec(self) -> u32 {
        self.medoid
    }

    /// The tombstone count.
    pub closed spec fn deleted_spec(self) -> int {
        self.num_deleted as int
    }

    /// The retired count.
    pub closed spec fn retired_count_spec(self) -> int {
        self.num_retired as int
    }

    /// A queryable vertex: allocated, not tombstoned, not retired.
    pub open spec fn is_queryable(self, u: int) -> bool {
        0 <= u < self.nv() && !self.tombs()[u] && !self.retireds()[u]
    }

    /// Some queryable vertex exists.
    pub open spec fn has_queryable(self) -> bool {
        exists|u: int| self.is_queryable(u)
    }

    /// Bridges the abstract accessors above to the concrete fields, for the
    /// sibling modules that implement the engine's passes.
    pub(crate) open spec fn repr_eq(self) -> bool {
        &&& self.nv() == self.vectors@.len()
        &&& self.vecs().len() == self.nv()
        &&& self.adj@.len() == self.adjs().len()
        &&& self.tombstoned@ == self.tombs()
        &&& self.retired@ == self.retireds()
        &&& self.config == self.cfg()
        &&& self.medoid == self.medoid_spec()
        &&& self.num_deleted as int == self.deleted_spec()
        &&& self.num_retired as int == self.retired_count_spec()
        &&& forall|u: int| 0 <= u < self.adjs().len() ==> #[trigger] self.adjs()[u] == self.adj@[u]@
        &&& forall|u: int| 0 <= u < self.nv() ==> #[trigger] self.vecs()[u] == self.vectors@[u]@
    }

    /// The bridge holds of every index value.
    pub(crate) proof fn lemma_repr(self)
        ensures
            self.repr_eq(),
    {
    }

    /// The invariant every operation preserves; the structural properties
    /// of the graph (degree bound, no self-loops, no duplicates, ids in
    /// range) and of the medoid live here.
    pub open spec fn wf(self) -> bool {
        &&& self.cfg().valid()
        &&& self.nv() <= self.cfg().capacity
        &&& self.adjs().len() == self.nv()
        &&& self.tombs().len() == self.nv()
        &&& self.retireds().len() == self.nv()
        &&& forall|u: int|
            0 <= u < self.nv() ==> (#[trigger] self.vecs()[u]).len() == self.cfg().aligned_dim_of()
        &&& forall|u: int, j: int|
            0 <= u < self.nv() && self.cfg().dim <= j < self.cfg().aligned_dim_of() ==> (
            #[trigger] self.vecs()[u][j]) == 0i32
        &&& forall|u: int|
            0 <= u < self.nv() ==> adj_ok(
                #[trigger] self.adjs()[u],
                u,
                self.nv(),
                self.cfg().max_degree as int,
                self.retireds(),
            )
        &&& forall|u: int| 0 <= u < self.nv() ==> !((#[trigger] self.tombs()[u]) && self.retireds()[u])
        &&& forall|u: int|
            0 <= u < self.nv() && self.retireds()[u] ==> (#[trigger] self.adjs()[u]).len() == 0
        &&& self.deleted_spec() == crate::count_true(self.tombs())
        &&& self.retired_count_spec() == crate::count_true(self.retireds())
        &&& self.nv() > 0 ==> self.medoid_spec() < self.nv() && !self.retireds()[self.medoid_spec() as int]
        &&& self.has_queryable() ==> !self.tombs()[self.medoid_spec() as int]
    }

    /// Opens an empty index under a validated configuration.
    pub fn open(config: IndexConfig) -> (r: Result<Index, AnnError>)
        ensures
            r is Ok <==> config.valid(),
            r matches Ok(idx) ==> idx.wf() && idx.cfg() == config && idx.nv() == 0,
    {
        config.validate()?;
        Ok(
            Index {
                config,
                vectors: Vec::new(),
                adj: Vec::new(),
                tombstoned: Vec::new(),
                retired: Vec::new(),
                num_deleted: 0,
                num_retired: 0,
                medoid: 0,
                rng: crate::rng::rng_from_seed(0x5eed_0d15_4a11_u64),
            },
        )
    }

    /// Number of allocated vertices.
    pub fn len(&self) -> (r: usize)
        ensures
            r == self.nv(),
    {
        self.vectors.len()
    }

    /// Number of tombstoned vertices.
    pub fn deleted(&self) -> (r: usize)
        ensures
            r == self.deleted_spec(),
    {
        self.num_deleted
    }

    /// The entry vertex id.
    pub fn medoid(&self) -> (r: u32)
        ensures
            r == self.medoid_spec(),
    {
        self.medoid
    }

    /// The configuration.
    pub fn config(&self) -> (r: IndexConfig)
        ensures
            r == self.cfg(),
    {
        self.config
    }

    /// Read-only borrow of a stored (padded) vector.
    pub fn get_vector(&self, id: u32) -> (r: &Vec<i32>)
        requires
            0 <= id < self.nv(),
        ensures
            r@ == self.vecs()[id as int],
    {
        &self.vectors[id as usize]
    }

    /// Whether the vertex is tombstoned.
    pub fn is_tombstoned(&self, id: u32) -> (r: bool)
        requires
            self.wf(),
            0 <= id < self.nv(),
        ensures
            r == self.tombs()[id as int],
    {
        self.tombstoned[id as usize]
    }

    /// Whether the vertex was retired by a consolidation pass.
    pub fn is_retired(&self, id: u32) -> (r: bool)
        requires
            self.wf(),
            0 <= id < self.nv(),
        ensures
            r == self.retireds()[id as int],
    {
        self.retired[id as usize]
    }

    /// A snapshot of the adjacency of `id`.
    pub fn neighbors(&self, id: u32) -> (r: Vec<u32>)
        requires
            self.wf(),
            0 <= id < self.nv(),
        ensures
            r@ == self.adjs()[id as int],
    {
        let r = self.adj[id as usize].clone();
        proof {
            assert(r@ =~= self.adjs()[id as int]);
        }
        r
    }

    /// Draws a pseudo-random number below `n`, advancing the generator and
    /// touching nothing else.
    pub(crate) fn draw_below(&mut self, n: u32) -> (r: u32)
        requires
            n >= 1,
        ensures
            r < n,
            final(self).cfg() == old(self).cfg(),
            final(self).nv() == old(self).nv(),
            final(self).vecs() == old(self).vecs(),
            final(self).adjs() == old(self).adjs(),
            final(self).tombs() == old(self).tombs(),
            final(self).retireds() == old(self).retireds(),
            final(self).medoid_spec() == old(self).medoid_spec(),
            final(self).deleted_spec() == old(self).deleted_spec(),
            final(self).retired_count_spec() == old(self).retired_count_spec(),
            old(self).wf() ==> final(self).wf(),
    {
        let r = crate::rng::rng_below(&mut self.rng, n);
        proof {
            assert(self.vectors == old(self).vectors);
            assert(self.vecs() == old(self).vecs());
            assert(self.adj == old(self).adj);
            assert(self.adjs() == old(self).adjs());
            if old(self).wf() && self.has_queryable() {
                let w = choose|w: int| self.is_queryable(w);
                assert(old(self).is_queryable(w));
            }
        }
        r
    }

    /// Builds an index directly from reconstructed stores, with clear
    /// lifecycle flags; the caller has already validated everything the
    /// invariant needs.
    pub(crate) fn assemble(
        config: IndexConfig,
        vectors: Vec<Vec<i32>>,
        adj: Vec<Vec<u32>>,
        medoid: u32,
    ) -> (r: Index)
        requires
            config.valid(),
            vectors@.len() <= config.capacity,
            adj@.len() == vectors@.len(),
            forall|u: int|
                0 <= u < vectors@.len() ==> (#[trigger] vectors@[u])@.len()
                    == config.aligned_dim_of(),
            forall|u: int, j: int|
                0 <= u < vectors@.len() && config.dim <= j < config.aligned_dim_of() ==> (
                #[trigger] vectors@[u]@[j]) == 0i32,
            forall|u: int|
                0 <= u < adj@.len() ==> (#[trigger] adj@[u])@.len() <= config.max_degree,
            forall|u: int, i: int|
                0 <= u < adj@.len() && 0 <= i < adj@[u]@.len() ==> (#[trigger] adj@[u]@[i])
                    < vectors@.len() && adj@[u]@[i] != u,
            forall|u: int, i: int, j: int|
                0 <= u < adj@.len() && 0 <= i < j < adj@[u]@.len() ==> (#[trigger] adj@[u]@[i]) != (
                #[trigger] adj@[u]@[j]),
            vectors@.len() > 0 ==> medoid < vectors@.len(),
        ensures
            r.wf(),
            r.cfg() == config,
            r.nv() == vectors@.len(),
            r.vecs() == vectors@.map_values(|v: Vec<i32>| v@),
            r.adjs() == adj@.map_values(|v: Vec<u32>| v@),
            r.medoid_spec() == medoid,
            r.deleted_spec() == 0,
            r.retired_count_spec() == 0,
            forall|u: int| 0 <= u < r.nv() ==> !(#[trigger] r.tombs()[u]) && !r.retireds()[u],
    {
        let nv = vectors.len();
        let mut tombstoned: Vec<bool> = Vec::new();
        let mut retired: Vec<bool> = Vec::new();
        let mut i: usize = 0;
        while i < nv
            invariant
                i <= nv,
                tombstoned@.len() == i,
                retired@.len() == i,
                forall|w: int| 0 <= w < i ==> !(#[trigger] tombstoned@[w]),
                forall|w: int| 0 <= w < i ==> !(#[trigger] retired@[w]),
            decreases nv - i,
        {
            tombstoned.push(false);
            retired.push(false);
            i = i + 1;
        }
        proof {
            crate::lemma_count_all_false(tombstoned@);
            crate::lemma_count_all_false(retired@);
        }
        let r = Index {
            config,
            vectors,
            adj,
            tombstoned,
            retired,
            num_deleted: 0,
            num_retired: 0,
            medoid,
            rng: crate::rng::rng_from_seed(0x5eed_0d15_4a11_u64),
        };
        proof {
            if r.nv() > 0 {
                assert(r.is_queryable(0));
            }
        }
        r
    }

    /// Installs a recomputed lifecycle state — tombstone flags, retired
    /// flags, their counts and the entry vertex — in one step. The caller
    /// supplies a configuration that is consistent with the adjacency
    /// lists as they stand.
    pub(crate) fn install_flags(
        &mut self,
        new_tombs: Vec<bool>,
        new_deleted: usize,
        new_retired: Vec<bool>,
        new_retired_count: usize,
        new_medoid: u32,
    )
        requires
            old(self).wf(),
            new_tombs@.len() == old(self).nv(),
            new_retired@.len() == old(self).nv(),
            new_deleted == crate::count_true(new_tombs@),
            new_retired_count == crate::count_true(new_retired@),
            forall|u: int|
                0 <= u < old(self).nv() ==> !((#[trigger] new_tombs@[u]) && new_retired@[u]),
            forall|u: int, i: int|
                0 <= u < old(self).nv() && 0 <= i < old(self).adjs()[u].len()
                    ==> !new_retired@[#[trigger] old(self).adjs()[u][i] as int],
            forall|u: int|
                0 <= u < old(self).nv() && new_retired@[u] ==> (#[trigger] old(
                    self,
                ).adjs()[u]).len() == 0,
            old(self).nv() > 0 ==> new_medoid < old(self).nv() && !new_retired@[new_medoid as int],
            (exists|u: int|
                0 <= u < old(self).nv() && !(#[trigger] new_tombs@[u]) && !new_retired@[u])
                ==> !new_tombs@[new_medoid as int],
        ensures
            final(self).wf(),
            final(self).cfg() == old(self).cfg(),
            final(self).nv() == old(self).nv(),
            final(self).vecs() == old(self).vecs(),
            final(self).adjs() == old(self).adjs(),
            final(self).tombs() == new_tombs@,
            final(self).retireds() == new_retired@,
            final(self).deleted_spec() == new_deleted,
            final(self).retired_count_spec() == new_retired_count,
            final(self).medoid_spec() == new_medoid,
    {
        self.tombstoned = new_tombs;
        self.retired = new_retired;
        self.num_deleted = new_deleted;
        self.num_retired = new_retired_count;
        self.medoid = new_medoid;
        proof {
            assert(self.vectors == old(self).vectors);
            assert(self.vecs() == old(self).vecs());
            assert(self.adj == old(self).adj);
            assert(self.adjs() == old(self).adjs());
            if self.has_queryable() {
                let w = choose|w: int| self.is_queryable(w);
            }
        }
    }

    /// Designates a new entry vertex.
    pub(crate) fn set_medoid(&mut self, m: u32)
        requires
            old(self).wf(),
            m < old(self).nv(),
            !old(self).retireds()[m as int],
            old(self).has_queryable() ==> !old(self).tombs()[m as int],
        ensures
            final(self).wf(),
            final(self).medoid_spec() == m,
            final(self).cfg() == old(self).cfg(),
            final(self).nv() == old(self).nv(),
            final(self).vecs() == old(self).vecs(),
            final(self).adjs() == old(self).adjs(),
            final(self).tombs() == old(self).tombs(),
            final(self).retireds() == old(self).retireds(),
            final(self).deleted_spec() == old(self).deleted_spec(),
            final(self).retired_count_spec() == old(self).retired_count_spec(),
    {
        self.medoid = m;
        proof {
            assert(self.vectors == old(self).vectors);
            assert(self.vecs() == old(self).vecs());
            if self.has_queryable() {
                let w = choose|w: int| self.is_queryable(w);
                assert(old(self).is_queryable(w));
            }
        }
    }

    /// Appends a vector, padding it to the aligned dimension; the new slot
    /// starts with an empty adjacency list and clear flags. Internal: the
    /// public entry points check dimension and capacity first.
    pub(crate) fn append_vector(&mut self, v: &Vec<i32>) -> (id: u32)
        requires
            old(self).wf(),
            v@.len() == old(self).cfg().dim,
            old(self).nv() < old(self).cfg().capacity,
        ensures
            final(self).wf(),
            final(self).cfg() == old(self).cfg(),
            id == old(self).nv(),
            final(self).nv() == old(self).nv() + 1,
            final(self).vecs() == old(self).vecs().push(
                crate::pad_to(v@, old(self).cfg().aligned_dim_of()),
            ),
            final(self).adjs() == old(self).adjs().push(Seq::<u32>::empty()),
            final(self).tombs() == old(self).tombs().push(false),
            final(self).retireds() == old(self).retireds().push(false),
            final(self).medoid_spec() == (if old(self).has_queryable() {
                old(self).medoid_spec()
            } else {
                id
            }),
            final(self).deleted_spec() == old(self).deleted_spec(),
    {
        let dim = self.config.dim;
        let adim = crate::aligned_dim(dim);
        let row = padded_copy(v, adim);
        proof {
            crate::lemma_count_true_bound(self.tombs());
            crate::lemma_count_true_bound(self.retireds());
            crate::lemma_count_disjoint(self.tombs(), self.retireds());
        }
        let queryable = self.num_deleted + self.num_retired < self.vectors.len();
        proof {
            if queryable {
                let w = choose|i: int|
                    0 <= i < self.tombs().len() && !(#[trigger] self.tombs()[i])
                        && !self.retireds()[i];
                assert(self.is_queryable(w));
            }
            if self.has_queryable() {
                let w = choose|u: int| self.is_queryable(u);
                assert(0 <= w < self.tombs().len() && !self.tombs()[w] && !self.retireds()[w]);
            }
            assert(queryable <==> self.has_queryable());
        }
        let id = self.vectors.len() as u32;
        self.vectors.push(row);
        self.adj.push(Vec::new());
        self.tombstoned.push(false);
        self.retired.push(false);
        if !queryable {
            self.medoid = id;
        }
        proof {
            assert(self.vecs() =~= old(self).vecs().push(
                crate::pad_to(v@, old(self).cfg().aligned_dim_of()),
            ));
            assert(self.adjs() =~= old(self).adjs().push(Seq::<u32>::empty()));
            assert(self.tombs() =~= old(self).tombs().push(false));
            assert(self.retireds() =~= old(self).retireds().push(false));
            crate::lemma_count_true_push(old(self).tombs(), false);
            crate::lemma_count_true_push(old(self).retireds(), false);
            assert forall|u: int| 0 <= u < self.nv() implies adj_ok(
                #[trigger] self.adjs()[u],
                u,
                self.nv(),
                self.cfg().max_degree as int,
                self.retireds(),
            ) by {
                if u < old(self).nv() {
                    assert(old(self).wf());
                    assert(adj_ok(
                        old(self).adjs()[u],
                        u,
                        old(self).nv(),
                        old(self).cfg().max_degree as int,
                        old(self).retireds(),
                    ));
                    assert(self.adjs()[u] == old(self).adjs()[u]);
                }
            }
        }
        id
    }
}

} // verus!
