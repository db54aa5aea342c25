//! The persistence format: a fixed header, the vector block, then one
//! degree-prefixed adjacency record per vertex, all in little-endian
//! 32-bit words. Scalars are carried offset-binary — a scalar `x` is
//! written as the word `x + 2^31` — so every field of the image is a plain
//! unsigned word. Tombstone flags are not persisted: callers consolidate
//! first, or accept that tombstoned vertices come back live.

use vstd::prelude::*;
use vstd::bytes::{spec_u32_from_le_bytes, spec_u32_to_le_bytes, lemma_auto_spec_u32_to_from_le_bytes, u32_from_le_bytes, u32_to_le_bytes};
use crate::errors::AnnError;
use crate::index::Index;

verus! {

/// First word of every image.
pub const MAGIC: u32 = 0x56414D31;

/// Format version.
pub const VERSION: u32 = 1;

/// A little-endian 32-bit word.
pub open spec fn word(x: u32) -> Seq<u8> {
    spec_u32_to_le_bytes(x)
}

/// The word that carries a scalar: offset-binary `x + 2^31`.
pub open spec fn scalar_word(x: i32) -> u32 {
    ((x as int) + 0x8000_0000) as u32
}

/// The wire code of a metric.
pub open spec fn metric_code(m: crate::Metric) -> u32 {
    match m {
        crate::Metric::L2 => 0,
        crate::Metric::Cosine => 1,
    }
}

/// One vector row, scalar by scalar.
pub open spec fn enc_row(row: Seq<i32>) -> Seq<u8>
    decreases row.len(),
{
    if row.len() == 0 {
        Seq::empty()
    } else {
        word(scalar_word(row[0])) + enc_row(row.subrange(1, row.len() as int))
    }
}

/// The vector block: every row in id order.
pub open spec fn enc_rows(rows: Seq<Seq<i32>>) -> Seq<u8>
    decreases rows.len(),
{
    if rows.len() == 0 {
        Seq::empty()
    } else {
        enc_row(rows[0]) + enc_rows(rows.subrange(1, rows.len() as int))
    }
}

/// Neighbor ids, word by word.
pub open spec fn enc_ids(ids: Seq<u32>) -> Seq<u8>
    decreases ids.len(),
{
    if ids.len() == 0 {
        Seq::empty()
    } else {
        word(ids[0]) + enc_ids(ids.subrange(1, ids.len() as int))
    }
}

/// One adjacency record: the degree, then the ids.
pub open spec fn enc_adj(list: Seq<u32>) -> Seq<u8> {
    word(list.len() as u32) + enc_ids(list)
}

/// The adjacency block: every record in id order.
pub open spec fn enc_adjs(lists: Seq<Seq<u32>>) -> Seq<u8>
    decreases lists.len(),
{
    if lists.len() == 0 {
        Seq::empty()
    } else {
        enc_adj(lists[0]) + enc_adjs(lists.subrange(1, lists.len() as int))
    }
}

/// The fixed 32-byte header.
pub open spec fn enc_header(
    dim: u32,
    adim: u32,
    metric: crate::Metric,
    r: u32,
    nv: u32,
    medoid: u32,
) -> Seq<u8> {
    word(MAGIC) + word(VERSION) + word(dim) + word(adim) + word(metric_code(metric)) + word(r)
        + word(nv) + word(medoid)
}

/// The full image of an index.
pub open spec fn enc_index(idx: Index) -> Seq<u8> {
    enc_header(
        idx.cfg().dim as u32,
        idx.cfg().aligned_dim_of() as u32,
        idx.cfg().metric,
        idx.cfg().max_degree,
        idx.nv() as u32,
        idx.medoid_spec(),
    ) + enc_rows(idx.vecs()) + enc_adjs(idx.adjs())
}

/// Extending a row appends one word to its encoding.
pub proof fn lemma_enc_row_snoc(row: Seq<i32>, x: i32)
    ensures
        enc_row(row.push(x)) == enc_row(row) + word(scalar_word(x)),
    decreases row.len(),
{
    let w = row.push(x);
    if row.len() == 0 {
        assert(w.subrange(1, w.len() as int) =~= Seq::<i32>::empty());
        assert(enc_row(w.subrange(1, w.len() as int)) =~= Seq::<u8>::empty());
        assert(enc_row(w) =~= enc_row(row) + word(scalar_word(x)));
    } else {
        assert(w[0] == row[0]);
        assert(w.subrange(1, w.len() as int) =~= row.subrange(1, row.len() as int).push(x));
        lemma_enc_row_snoc(row.subrange(1, row.len() as int), x);
        assert(enc_row(w) =~= enc_row(row) + word(scalar_word(x)));
    }
}

/// Extending the row set appends that row's encoding.
pub proof fn lemma_enc_rows_snoc(rows: Seq<Seq<i32>>, row: Seq<i32>)
    ensures
        enc_rows(rows.push(row)) == enc_rows(rows) + enc_row(row),
    decreases rows.len(),
{
    let w = rows.push(row);
    if rows.len() == 0 {
        assert(w.subrange(1, w.len() as int) =~= Seq::<Seq<i32>>::empty());
        assert(enc_rows(w.subrange(1, w.len() as int)) =~= Seq::<u8>::empty());
        assert(enc_rows(w) =~= enc_rows(rows) + enc_row(row));
    } else {
        assert(w[0] == rows[0]);
        assert(w.subrange(1, w.len() as int) =~= rows.subrange(1, rows.len() as int).push(row));
        lemma_enc_rows_snoc(rows.subrange(1, rows.len() as int), row);
        assert(enc_rows(w) =~= enc_rows(rows) + enc_row(row));
    }
}

/// Extending an id list appends one word to its encoding.
pub proof fn lemma_enc_ids_snoc(ids: Seq<u32>, x: u32)
    ensures
        enc_ids(ids.push(x)) == enc_ids(ids) + word(x),
    decreases ids.len(),
{
    let w = ids.push(x);
    if ids.len() == 0 {
        assert(w.subrange(1, w.len() as int) =~= Seq::<u32>::empty());
        assert(enc_ids(w.subrange(1, w.len() as int)) =~= Seq::<u8>::empty());
        assert(enc_ids(w) =~= enc_ids(ids) + word(x));
    } else {
        assert(w[0] == ids[0]);
        assert(w.subrange(1, w.len() as int) =~= ids.subrange(1, ids.len() as int).push(x));
        lemma_enc_ids_snoc(ids.subrange(1, ids.len() as int), x);
        assert(enc_ids(w) =~= enc_ids(ids) + word(x));
    }
}

/// Extending the record set appends that record's encoding.
pub proof fn lemma_enc_adjs_snoc(lists: Seq<Seq<u32>>, list: Seq<u32>)
    ensures
        enc_adjs(lists.push(list)) == enc_adjs(lists) + enc_adj(list),
    decreases lists.len(),
{
    let w = lists.push(list);
    if lists.len() == 0 {
        assert(w.subrange(1, w.len() as int) =~= Seq::<Seq<u32>>::empty());
        assert(enc_adjs(w.subrange(1, w.len() as int)) =~= Seq::<u8>::empty());
        assert(enc_adjs(w) =~= enc_adjs(lists) + enc_adj(list));
    } else {
        assert(w[0] == lists[0]);
        assert(w.subrange(1, w.len() as int) =~= lists.subrange(1, lists.len() as int).push(list));
        lemma_enc_adjs_snoc(lists.subrange(1, lists.len() as int), list);
        assert(enc_adjs(w) =~= enc_adjs(lists) + enc_adj(list));
    }
}

/// A row encodes to four bytes per scalar.
pub proof fn lemma_enc_row_len(row: Seq<i32>)
    ensures
        enc_row(row).len() == 4 * row.len(),
    decreases row.len(),
{
    lemma_auto_spec_u32_to_from_le_bytes();
    if row.len() > 0 {
        lemma_enc_row_len(row.subrange(1, row.len() as int));
    }
}

/// A block of same-length rows encodes to four bytes per scalar.
pub proof fn lemma_enc_rows_len(rows: Seq<Seq<i32>>, adim: int)
    requires
        forall|u: int| 0 <= u < rows.len() ==> (#[trigger] rows[u]).len() == adim,
        adim >= 0,
    ensures
        enc_rows(rows).len() == 4 * adim * rows.len(),
    decreases rows.len(),
{
    if rows.len() > 0 {
        lemma_enc_row_len(rows[0]);
        let sub = rows.subrange(1, rows.len() as int);
        lemma_enc_rows_len(sub, adim);
        assert(4 * adim * rows.len() == 4 * rows[0].len() + 4 * adim * sub.len())
            by (nonlinear_arith)
            requires
                rows[0].len() == adim,
                sub.len() == rows.len() - 1,
                rows.len() >= 1,
                adim >= 0,
        ;
    }
}

/// An id list encodes to four bytes per id.
pub proof fn lemma_enc_ids_len(ids: Seq<u32>)
    ensures
        enc_ids(ids).len() == 4 * ids.len(),
    decreases ids.len(),
{
    lemma_auto_spec_u32_to_from_le_bytes();
    if ids.len() > 0 {
        lemma_enc_ids_len(ids.subrange(1, ids.len() as int));
    }
}

/// Reads the little-endian word at `pos`.
fn word_at(bytes: &Vec<u8>, pos: usize) -> (r: u32)
    requires
        pos + 4 <= bytes@.len(),
    ensures
        r == spec_u32_from_le_bytes(bytes@.subrange(pos as int, pos + 4)),
{
    let total = bytes.len();
    let mut w: Vec<u8> = Vec::new();
    w.push(bytes[pos]);
    w.push(bytes[pos + 1]);
    w.push(bytes[pos + 2]);
    w.push(bytes[pos + 3]);
    proof {
        assert(w@ =~= bytes@.subrange(pos as int, pos + 4));
    }
    u32_from_le_bytes(w.as_slice())
}

impl Index {
    /// Serialises the index: header, vector block, adjacency block,
    /// exactly as `enc_index` lays it out.
    pub fn to_bytes(&self) -> (r: Vec<u8>)
        requires
            self.wf(),
        ensures
            r@ == enc_index(*self),
    {
        proof {
            self.lemma_repr();
            lemma_auto_spec_u32_to_from_le_bytes();
        }
        let nv = self.vectors.len();
        let adim = crate::aligned_dim(self.config.dim);
        let mut out: Vec<u8> = Vec::new();
        let metric_word: u32 = match self.config.metric {
            crate::Metric::L2 => 0u32,
            crate::Metric::Cosine => 1u32,
        };
        let mut b0 = u32_to_le_bytes(MAGIC);
        out.append(&mut b0);
        let mut b1 = u32_to_le_bytes(VERSION);
        out.append(&mut b1);
        let mut b2 = u32_to_le_bytes(self.config.dim as u32);
        out.append(&mut b2);
        let mut b3 = u32_to_le_bytes(adim as u32);
        out.append(&mut b3);
        let mut b4 = u32_to_le_bytes(metric_word);
        out.append(&mut b4);
        let mut b5 = u32_to_le_bytes(self.config.max_degree);
        out.append(&mut b5);
        let mut b6 = u32_to_le_bytes(nv as u32);
        out.append(&mut b6);
        let mut b7 = u32_to_le_bytes(self.medoid);
        out.append(&mut b7);
        proof {
            assert(metric_word == metric_code(self.cfg().metric));
            assert(out@ =~= enc_header(
                self.cfg().dim as u32,
                self.cfg().aligned_dim_of() as u32,
                self.cfg().metric,
                self.cfg().max_degree,
                self.nv() as u32,
                self.medoid_spec(),
            ));
        }
        let ghost header = out@;
        let mut u: usize = 0;
        while u < nv
            invariant
                u <= nv,
                nv == self.nv(),
                self.wf(),
                self.repr_eq(),
                adim == self.cfg().aligned_dim_of(),
                out@ == header + enc_rows(self.vecs().subrange(0, u as int)),
            decreases nv - u,
        {
            let row = &self.vectors[u];
            let rl = row.len();
            proof {
                assert(self.vecs()[u as int] == self.vectors@[u as int]@);
                assert(rl == adim);
            }
            let ghost rows_before = self.vecs().subrange(0, u as int);
            let ghost out_before = out@;
            let mut j: usize = 0;
            while j < rl
                invariant
                    j <= rl,
                    rl == row@.len(),
                    out@ == out_before + enc_row(row@.subrange(0, j as int)),
                decreases rl - j,
            {
                let x = row[j];
                let shifted: i64 = (x as i64) + 0x8000_0000i64;
                let wsc: u32 = shifted as u32;
                proof {
                    assert(wsc == scalar_word(row@[j as int]));
                }
                let mut wb = u32_to_le_bytes(wsc);
                out.append(&mut wb);
                proof {
                    lemma_enc_row_snoc(row@.subrange(0, j as int), row@[j as int]);
                    assert(row@.subrange(0, j + 1 as int) =~= row@.subrange(0, j as int).push(
                        row@[j as int],
                    ));
                }
                j = j + 1;
            }
            proof {
                assert(row@.subrange(0, rl as int) =~= row@);
                lemma_enc_rows_snoc(rows_before, row@);
                assert(self.vecs().subrange(0, u + 1 as int) =~= rows_before.push(
                    self.vecs()[u as int],
                ));
            }
            u = u + 1;
        }
        proof {
            assert(self.vecs().subrange(0, nv as int) =~= self.vecs());
        }
        let ghost with_rows = out@;
        let mut u2: usize = 0;
        while u2 < nv
            invariant
                u2 <= nv,
                nv == self.nv(),
                self.wf(),
                self.repr_eq(),
                out@ == with_rows + enc_adjs(self.adjs().subrange(0, u2 as int)),
            decreases nv - u2,
        {
            let list = &self.adj[u2];
            let dlen = list.len();
            proof {
                assert(self.adjs()[u2 as int] == self.adj@[u2 as int]@);
            }
            proof {
                assert(crate::index::adj_ok(
                    self.adjs()[u2 as int],
                    u2 as int,
                    self.nv(),
                    self.cfg().max_degree as int,
                    self.retireds(),
                ));
                assert(dlen <= self.cfg().max_degree);
            }
            let ghost lists_before = self.adjs().subrange(0, u2 as int);
            let ghost out_before = out@;
            let mut wb = u32_to_le_bytes(dlen as u32);
            out.append(&mut wb);
            let mut j: usize = 0;
            while j < dlen
                invariant
                    j <= dlen,
                    dlen == list@.len(),
                    out@ == out_before + word((dlen as u32)) + enc_ids(list@.subrange(0, j as int)),
                decreases dlen - j,
            {
                let id = list[j];
                let mut wb2 = u32_to_le_bytes(id);
                out.append(&mut wb2);
                proof {
                    lemma_enc_ids_snoc(list@.subrange(0, j as int), list@[j as int]);
                    assert(list@.subrange(0, j + 1 as int) =~= list@.subrange(0, j as int).push(
                        list@[j as int],
                    ));
                }
                j = j + 1;
            }
            proof {
                assert(list@.subrange(0, dlen as int) =~= list@);
                assert((dlen as u32) as int == self.adjs()[u2 as int].len());
                assert(out@ == out_before + enc_adj(self.adjs()[u2 as int]));
                lemma_enc_adjs_snoc(lists_before, self.adjs()[u2 as int]);
                assert(self.adjs().subrange(0, u2 + 1 as int) =~= lists_before.push(
                    self.adjs()[u2 as int],
                ));
            }
            u2 = u2 + 1;
        }
        proof {
            assert(self.adjs().subrange(0, nv as int) =~= self.adjs());
            assert(out@ =~= enc_index(*self));
        }
        out
    }
}

/// What a successful decode of `bytes` under `config` guarantees: a
/// well-formed index under that configuration, every vertex live, that
/// re-encodes to exactly those bytes.
pub open spec fn decoded_from(
    idx: Index,
    bytes: Seq<u8>,
    config: crate::config::IndexConfig,
) -> bool {
    &&& idx.wf()
    &&& idx.cfg() == config
    &&& bytes == enc_index(idx)
    &&& idx.deleted_spec() == 0
    &&& idx.retired_count_spec() == 0
    &&& forall|u: int| 0 <= u < idx.nv() ==> !(#[trigger] idx.tombs()[u]) && !idx.retireds()[u]
}

/// Splitting a concatenation at the left part's length recovers both
/// parts.
pub proof fn lemma_concat_parts(x: Seq<u8>, a: Seq<u8>, b: Seq<u8>)
    requires
        x == a + b,
    ensures
        a == x.subrange(0, a.len() as int),
        b == x.subrange(a.len() as int, x.len() as int),
{
    assert(a =~= x.subrange(0, a.len() as int));
    assert(b =~= x.subrange(a.len() as int, x.len() as int));
}

/// Equal-length rows with equal encodings are equal.
pub proof fn lemma_enc_row_inj(r1: Seq<i32>, r2: Seq<i32>)
    requires
        r1.len() == r2.len(),
        enc_row(r1) == enc_row(r2),
    ensures
        r1 == r2,
    decreases r1.len(),
{
    lemma_auto_spec_u32_to_from_le_bytes();
    if r1.len() == 0 {
        assert(r1 =~= r2);
    } else {
        let x = enc_row(r1);
        lemma_concat_parts(x, word(scalar_word(r1[0])), enc_row(r1.subrange(1, r1.len() as int)));
        lemma_concat_parts(x, word(scalar_word(r2[0])), enc_row(r2.subrange(1, r2.len() as int)));
        assert(word(scalar_word(r1[0])) == word(scalar_word(r2[0])));
        assert(spec_u32_from_le_bytes(word(scalar_word(r1[0]))) == scalar_word(r1[0]));
        assert(scalar_word(r1[0]) == scalar_word(r2[0]));
        assert(r1[0] == r2[0]);
        lemma_enc_row_inj(r1.subrange(1, r1.len() as int), r2.subrange(1, r2.len() as int));
        assert forall|i: int| 0 <= i < r1.len() implies r1[i] == r2[i] by {
            if i > 0 {
                assert(r1.subrange(1, r1.len() as int)[i - 1] == r2.subrange(
                    1,
                    r2.len() as int,
                )[i - 1]);
            }
        }
        assert(r1 =~= r2);
    }
}

/// Row blocks with the same shape and equal encodings are equal.
pub proof fn lemma_enc_rows_inj(rs1: Seq<Seq<i32>>, rs2: Seq<Seq<i32>>, adim: int)
    requires
        rs1.len() == rs2.len(),
        adim >= 0,
        forall|u: int| 0 <= u < rs1.len() ==> (#[trigger] rs1[u]).len() == adim,
        forall|u: int| 0 <= u < rs2.len() ==> (#[trigger] rs2[u]).len() == adim,
        enc_rows(rs1) == enc_rows(rs2),
    ensures
        rs1 == rs2,
    decreases rs1.len(),
{
    if rs1.len() == 0 {
        assert(rs1 =~= rs2);
    } else {
        let x = enc_rows(rs1);
        lemma_enc_row_len(rs1[0]);
        lemma_enc_row_len(rs2[0]);
        lemma_concat_parts(x, enc_row(rs1[0]), enc_rows(rs1.subrange(1, rs1.len() as int)));
        lemma_concat_parts(x, enc_row(rs2[0]), enc_rows(rs2.subrange(1, rs2.len() as int)));
        lemma_enc_row_inj(rs1[0], rs2[0]);
        lemma_enc_rows_inj(
            rs1.subrange(1, rs1.len() as int),
            rs2.subrange(1, rs2.len() as int),
            adim,
        );
        assert forall|i: int| 0 <= i < rs1.len() implies rs1[i] == rs2[i] by {
            if i > 0 {
                assert(rs1.subrange(1, rs1.len() as int)[i - 1] == rs2.subrange(
                    1,
                    rs2.len() as int,
                )[i - 1]);
            }
        }
        assert(rs1 =~= rs2);
    }
}

/// Equal-length id lists with equal encodings are equal.
pub proof fn lemma_enc_ids_inj(l1: Seq<u32>, l2: Seq<u32>)
    requires
        l1.len() == l2.len(),
        enc_ids(l1) == enc_ids(l2),
    ensures
        l1 == l2,
    decreases l1.len(),
{
    lemma_auto_spec_u32_to_from_le_bytes();
    if l1.len() == 0 {
        assert(l1 =~= l2);
    } else {
        let x = enc_ids(l1);
        lemma_concat_parts(x, word(l1[0]), enc_ids(l1.subrange(1, l1.len() as int)));
        lemma_concat_parts(x, word(l2[0]), enc_ids(l2.subrange(1, l2.len() as int)));
        assert(spec_u32_from_le_bytes(word(l1[0])) == l1[0]);
        assert(l1[0] == l2[0]);
        lemma_enc_ids_inj(l1.subrange(1, l1.len() as int), l2.subrange(1, l2.len() as int));
        assert forall|i: int| 0 <= i < l1.len() implies l1[i] == l2[i] by {
            if i > 0 {
                assert(l1.subrange(1, l1.len() as int)[i - 1] == l2.subrange(
                    1,
                    l2.len() as int,
                )[i - 1]);
            }
        }
        assert(l1 =~= l2);
    }
}

/// Record sets with the same count, bounded degrees and equal encodings
/// are equal.
pub proof fn lemma_enc_adjs_inj(ls1: Seq<Seq<u32>>, ls2: Seq<Seq<u32>>)
    requires
        ls1.len() == ls2.len(),
        forall|u: int| 0 <= u < ls1.len() ==> (#[trigger] ls1[u]).len() <= 0xFFFF_FFFF,
        forall|u: int| 0 <= u < ls2.len() ==> (#[trigger] ls2[u]).len() <= 0xFFFF_FFFF,
        enc_adjs(ls1) == enc_adjs(ls2),
    ensures
        ls1 == ls2,
    decreases ls1.len(),
{
    lemma_auto_spec_u32_to_from_le_bytes();
    if ls1.len() == 0 {
        assert(ls1 =~= ls2);
    } else {
        let x = enc_adjs(ls1);
        let a1 = ls1[0];
        let a2 = ls2[0];
        lemma_enc_ids_len(a1);
        lemma_enc_ids_len(a2);
        lemma_concat_parts(x, enc_adj(a1), enc_adjs(ls1.subrange(1, ls1.len() as int)));
        lemma_concat_parts(x, enc_adj(a2), enc_adjs(ls2.subrange(1, ls2.len() as int)));
        lemma_concat_parts(enc_adj(a1), word(a1.len() as u32), enc_ids(a1));
        lemma_concat_parts(enc_adj(a2), word(a2.len() as u32), enc_ids(a2));
        assert(enc_adj(a1).subrange(0, 4) == word(a1.len() as u32));
        assert(enc_adj(a1).len() == 4 + 4 * a1.len());
        assert(enc_adj(a2).len() == 4 + 4 * a2.len());
        if a1.len() <= a2.len() {
            assert(word(a1.len() as u32) =~= x.subrange(0, 4));
            assert(word(a2.len() as u32) =~= x.subrange(0, 4));
        } else {
            assert(word(a1.len() as u32) =~= x.subrange(0, 4));
            assert(word(a2.len() as u32) =~= x.subrange(0, 4));
        }
        assert(spec_u32_from_le_bytes(word(a1.len() as u32)) == a1.len() as u32);
        assert(spec_u32_from_le_bytes(word(a2.len() as u32)) == a2.len() as u32);
        assert(a1.len() == a2.len());
        assert(enc_adj(a1) =~= x.subrange(0, enc_adj(a1).len() as int));
        assert(enc_adj(a2) =~= x.subrange(0, enc_adj(a2).len() as int));
        assert(enc_adj(a1) == enc_adj(a2));
        assert(enc_ids(a1) == enc_ids(a2));
        lemma_enc_ids_inj(a1, a2);
        assert(enc_adjs(ls1.subrange(1, ls1.len() as int)) == enc_adjs(
            ls2.subrange(1, ls2.len() as int),
        ));
        lemma_enc_adjs_inj(ls1.subrange(1, ls1.len() as int), ls2.subrange(1, ls2.len() as int));
        assert forall|i: int| 0 <= i < ls1.len() implies ls1[i] == ls2[i] by {
            if i > 0 {
                assert(ls1.subrange(1, ls1.len() as int)[i - 1] == ls2.subrange(
                    1,
                    ls2.len() as int,
                )[i - 1]);
            }
        }
        assert(ls1 =~= ls2);
    }
}

/// Two well-formed indexes with the same image hold the same stores:
/// saving and loading reproduces the vectors, the adjacency lists and the
/// entry vertex exactly, byte for byte.
pub proof fn lemma_save_load_roundtrip(idx: Index, loaded: Index)
    requires
        idx.wf(),
        loaded.wf(),
        enc_index(loaded) == enc_index(idx),
    ensures
        loaded.nv() == idx.nv(),
        loaded.vecs() == idx.vecs(),
        loaded.adjs() == idx.adjs(),
        loaded.medoid_spec() == idx.medoid_spec(),
{
    lemma_auto_spec_u32_to_from_le_bytes();
    idx.lemma_repr();
    loaded.lemma_repr();
    let x = enc_index(idx);
    let h1 = enc_header(
        idx.cfg().dim as u32,
        idx.cfg().aligned_dim_of() as u32,
        idx.cfg().metric,
        idx.cfg().max_degree,
        idx.nv() as u32,
        idx.medoid_spec(),
    );
    let h2 = enc_header(
        loaded.cfg().dim as u32,
        loaded.cfg().aligned_dim_of() as u32,
        loaded.cfg().metric,
        loaded.cfg().max_degree,
        loaded.nv() as u32,
        loaded.medoid_spec(),
    );
    assert(h1.len() == 32);
    assert(h2.len() == 32);
    assert(x =~= h1 + (enc_rows(idx.vecs()) + enc_adjs(idx.adjs())));
    assert(enc_index(loaded) =~= h2 + (enc_rows(loaded.vecs()) + enc_adjs(loaded.adjs())));
    lemma_concat_parts(x, h1, enc_rows(idx.vecs()) + enc_adjs(idx.adjs()));
    lemma_concat_parts(x, h2, enc_rows(loaded.vecs()) + enc_adjs(loaded.adjs()));
    assert(h1 == h2);
    let p1 = word(MAGIC) + word(VERSION) + word(idx.cfg().dim as u32) + word(
        idx.cfg().aligned_dim_of() as u32,
    ) + word(metric_code(idx.cfg().metric)) + word(idx.cfg().max_degree);
    let p2 = word(MAGIC) + word(VERSION) + word(loaded.cfg().dim as u32) + word(
        loaded.cfg().aligned_dim_of() as u32,
    ) + word(metric_code(loaded.cfg().metric)) + word(loaded.cfg().max_degree);
    let t1 = word(idx.nv() as u32) + word(idx.medoid_spec());
    let t2 = word(loaded.nv() as u32) + word(loaded.medoid_spec());
    assert(h1 =~= p1 + t1);
    assert(h2 =~= p2 + t2);
    lemma_concat_parts(h1, p1, t1);
    lemma_concat_parts(h2, p2, t2);
    assert(t1 == t2);
    lemma_concat_parts(t1, word(idx.nv() as u32), word(idx.medoid_spec()));
    lemma_concat_parts(t2, word(loaded.nv() as u32), word(loaded.medoid_spec()));
    assert(word(idx.nv() as u32) == word(loaded.nv() as u32));
    assert(idx.nv() as u32 == loaded.nv() as u32);
    assert(idx.nv() == loaded.nv());
    assert(word(idx.medoid_spec()) == word(loaded.medoid_spec()));
    assert(idx.medoid_spec() == loaded.medoid_spec());
    // The aligned dimensions agree: they sit at the same header offset.
    assert(p1 == p2);
    assert(p1.subrange(12, 16) =~= word(idx.cfg().aligned_dim_of() as u32));
    assert(p2.subrange(12, 16) =~= word(loaded.cfg().aligned_dim_of() as u32));
    assert(idx.cfg().aligned_dim_of() as u32 == loaded.cfg().aligned_dim_of() as u32);
    crate::lemma_aligned_dim_in_range(idx.cfg().dim as nat);
    crate::lemma_aligned_dim_in_range(loaded.cfg().dim as nat);
    assert(idx.cfg().aligned_dim_of() == loaded.cfg().aligned_dim_of());
    // Split off the equal-size vector blocks.
    let adim = idx.cfg().aligned_dim_of() as int;
    lemma_enc_rows_len(idx.vecs(), adim);
    lemma_enc_rows_len(loaded.vecs(), adim);
    let body1 = enc_rows(idx.vecs()) + enc_adjs(idx.adjs());
    let body2 = enc_rows(loaded.vecs()) + enc_adjs(loaded.adjs());
    assert(body1 == body2);
    lemma_concat_parts(body1, enc_rows(idx.vecs()), enc_adjs(idx.adjs()));
    lemma_concat_parts(body2, enc_rows(loaded.vecs()), enc_adjs(loaded.adjs()));
    assert(enc_rows(idx.vecs()).len() == enc_rows(loaded.vecs()).len());
    assert(enc_rows(idx.vecs()) == enc_rows(loaded.vecs()));
    assert(enc_adjs(idx.adjs()) == enc_adjs(loaded.adjs()));
    lemma_enc_rows_inj(idx.vecs(), loaded.vecs(), adim);
    assert forall|u: int| 0 <= u < idx.nv() implies (#[trigger] idx.adjs()[u]).len()
        <= 0xFFFF_FFFF by {
        assert(crate::index::adj_ok(
            idx.adjs()[u],
            u,
            idx.nv(),
            idx.cfg().max_degree as int,
            idx.retireds(),
        ));
    }
    assert forall|u: int| 0 <= u < loaded.nv() implies (#[trigger] loaded.adjs()[u]).len()
        <= 0xFFFF_FFFF by {
        assert(crate::index::adj_ok(
            loaded.adjs()[u],
            u,
            loaded.nv(),
            loaded.cfg().max_degree as int,
            loaded.retireds(),
        ));
    }
    lemma_enc_adjs_inj(idx.adjs(), loaded.adjs());
}

/// Where each field of the header sits: the eight words at their fixed
/// offsets.
pub proof fn lemma_header_words(
    dim: u32,
    adim: u32,
    metric: crate::Metric,
    r: u32,
    nv: u32,
    medoid: u32,
)
    ensures
        ({
            let h = enc_header(dim, adim, metric, r, nv, medoid);
            &&& h.len() == 32
            &&& h.subrange(0, 4) == word(MAGIC)
            &&& h.subrange(4, 8) == word(VERSION)
            &&& h.subrange(8, 12) == word(dim)
            &&& h.subrange(12, 16) == word(adim)
            &&& h.subrange(16, 20) == word(metric_code(metric))
            &&& h.subrange(20, 24) == word(r)
            &&& h.subrange(24, 28) == word(nv)
            &&& h.subrange(28, 32) == word(medoid)
        }),
{
    lemma_auto_spec_u32_to_from_le_bytes();
    let h = enc_header(dim, adim, metric, r, nv, medoid);
    assert(h.subrange(0, 4) =~= word(MAGIC));
    assert(h.subrange(4, 8) =~= word(VERSION));
    assert(h.subrange(8, 12) =~= word(dim));
    assert(h.subrange(12, 16) =~= word(adim));
    assert(h.subrange(16, 20) =~= word(metric_code(metric)));
    assert(h.subrange(20, 24) =~= word(r));
    assert(h.subrange(24, 28) =~= word(nv));
    assert(h.subrange(28, 32) =~= word(medoid));
}

/// Packages the decode guarantees: an index with these properties is a
/// faithful decode of the bytes, and one exists.
proof fn lemma_decoded_intro(idx: Index, bytes: Seq<u8>, config: crate::config::IndexConfig)
    requires
        idx.wf(),
        idx.cfg() == config,
        bytes == enc_index(idx),
        idx.deleted_spec() == 0,
        idx.retired_count_spec() == 0,
        forall|u: int| 0 <= u < idx.nv() ==> !(#[trigger] idx.tombs()[u]) && !idx.retireds()[u],
    ensures
        decoded_from(idx, bytes, config),
        exists|i: Index| decoded_from(i, bytes, config),
{
    assert(decoded_from(idx, bytes, config));
}

/// A corruption error with the given note.
fn corrupt(note: &str) -> (r: AnnError)
    ensures
        r.kind_spec() == crate::errors::AnnErrorKind::Corrupt,
{
    AnnError::Corrupt { reason: String::from_str(note) }
}

impl Index {
    /// Reconstructs an index from an image, under a configuration whose
    /// dimension, metric and degree bound the image must match. Every
    /// vertex comes back live: tombstones are not persisted. It succeeds
    /// on exactly the well-formed images — the byte strings that some
    /// well-formed, fully live index under this configuration encodes to —
    /// and the result is such an index, re-encoding to exactly the input
    /// bytes.
    #[verifier::rlimit(100)]
    #[verifier::spinoff_prover]
    pub fn from_bytes(bytes: &Vec<u8>, config: crate::config::IndexConfig) -> (r: Result<
        Index,
        AnnError,
    >)
        ensures
            r is Ok <==> (exists|i: Index| decoded_from(i, bytes@, config)),
            r matches Ok(idx) ==> decoded_from(idx, bytes@, config),
            r matches Err(e) ==> (e.kind_spec() == crate::errors::AnnErrorKind::InvalidConfig
                <==> !config.valid()),
            r matches Err(e) ==> (e.kind_spec() == crate::errors::AnnErrorKind::InvalidConfig
                || e.kind_spec() == crate::errors::AnnErrorKind::DimensionMismatch
                || e.kind_spec() == crate::errors::AnnErrorKind::Capacity
                || e.kind_spec() == crate::errors::AnnErrorKind::Corrupt),
    {
        let ghost ex = exists|i: Index| decoded_from(i, bytes@, config);
        let ghost i0 = choose|i: Index| decoded_from(i, bytes@, config);
        proof {
            if ex {
                assert(decoded_from(i0, bytes@, config));
            }
        }
        if let Err(e) = config.validate() {
            proof {
                if ex {
                    assert(false);
                }
            }
            return Err(e);
        }
        proof {
            lemma_auto_spec_u32_to_from_le_bytes();
            if ex {
                i0.lemma_repr();
                lemma_header_words(
                    config.dim as u32,
                    config.aligned_dim_of() as u32,
                    config.metric,
                    config.max_degree,
                    i0.nv() as u32,
                    i0.medoid_spec(),
                );
                let hd = enc_header(
                    config.dim as u32,
                    config.aligned_dim_of() as u32,
                    config.metric,
                    config.max_degree,
                    i0.nv() as u32,
                    i0.medoid_spec(),
                );
                let body = enc_rows(i0.vecs()) + enc_adjs(i0.adjs());
                assert(bytes@ =~= hd + body);
                lemma_concat_parts(bytes@, hd, body);
            }
        }
        let n = bytes.len();
        if n < 32 {
            proof {
                if ex {
                    assert(false);
                }
            }
            return Err(corrupt("image shorter than the header"));
        }
        let w0 = word_at(bytes, 0);
        let w1 = word_at(bytes, 4);
        let w2 = word_at(bytes, 8);
        let w3 = word_at(bytes, 12);
        let w4 = word_at(bytes, 16);
        let w5 = word_at(bytes, 20);
        let w6 = word_at(bytes, 24);
        let w7 = word_at(bytes, 28);
        proof {
            if ex {
                let hd = enc_header(
                    config.dim as u32,
                    config.aligned_dim_of() as u32,
                    config.metric,
                    config.max_degree,
                    i0.nv() as u32,
                    i0.medoid_spec(),
                );
                assert(hd == bytes@.subrange(0, 32));
                assert(bytes@.subrange(0, 4) =~= hd.subrange(0, 4));
                assert(bytes@.subrange(4, 8) =~= hd.subrange(4, 8));
                assert(bytes@.subrange(8, 12) =~= hd.subrange(8, 12));
                assert(bytes@.subrange(12, 16) =~= hd.subrange(12, 16));
                assert(bytes@.subrange(16, 20) =~= hd.subrange(16, 20));
                assert(bytes@.subrange(20, 24) =~= hd.subrange(20, 24));
                assert(bytes@.subrange(24, 28) =~= hd.subrange(24, 28));
                assert(bytes@.subrange(28, 32) =~= hd.subrange(28, 32));
                assert(w0 == MAGIC);
                assert(w1 == VERSION);
                assert(w2 == config.dim as u32);
                assert(w3 == config.aligned_dim_of() as u32);
                assert(w4 == metric_code(config.metric));
                assert(w5 == config.max_degree);
                assert(w6 == i0.nv() as u32);
                assert(w7 == i0.medoid_spec());
                assert(i0.nv() <= config.capacity);
                assert(w6 as int == i0.nv());
            }
        }
        if w0 != MAGIC {
            proof {
                if ex {
                    assert(false);
                }
            }
            return Err(corrupt("bad magic"));
        }
        if w1 != VERSION {
            proof {
                if ex {
                    assert(false);
                }
            }
            return Err(corrupt("unsupported version"));
        }
        if w2 as usize != config.dim {
            proof {
                if ex {
                    assert(false);
                }
            }
            return Err(AnnError::DimensionMismatch);
        }
        let adim = crate::aligned_dim(config.dim);
        proof {
            crate::lemma_aligned_dim_in_range(config.dim as nat);
        }
        if w3 as usize != adim {
            proof {
                if ex {
                    assert(false);
                }
            }
            return Err(AnnError::DimensionMismatch);
        }
        let mcode: u32 = match config.metric {
            crate::Metric::L2 => 0u32,
            crate::Metric::Cosine => 1u32,
        };
        proof {
            assert(mcode == metric_code(config.metric));
        }
        if w4 != mcode {
            proof {
                if ex {
                    assert(false);
                }
            }
            return Err(corrupt("metric does not match the configuration"));
        }
        if w5 != config.max_degree {
            proof {
                if ex {
                    assert(false);
                }
            }
            return Err(corrupt("degree bound does not match the configuration"));
        }
        let nv = w6 as usize;
        if nv > config.capacity {
            proof {
                if ex {
                    assert(false);
                }
            }
            return Err(AnnError::Capacity);
        }
        let medoid = w7;
        if nv > 0 && medoid as usize >= nv {
            proof {
                if ex {
                    assert(false);
                }
            }
            return Err(corrupt("entry vertex out of range"));
        }
        proof {
            assert((nv as int) * (adim as int) * 4 < 0x1_0000_0000_0000_0000int)
                by (nonlinear_arith)
                requires
                    nv <= 0xFFFF_FFFFint,
                    0 <= adim <= 0x100000int,
            ;
            assert((nv as int) * (adim as int) >= 0) by (nonlinear_arith)
                requires
                    nv >= 0,
                    adim >= 0,
            ;
            if ex {
                i0.lemma_repr();
                lemma_enc_rows_len(i0.vecs(), adim as int);
                assert((nv as int) * (adim as int) * 4 == 4 * (adim as int) * (nv as int))
                    by (nonlinear_arith);
            }
        }
        let need: u64 = (nv as u64) * (adim as u64) * 4;
        if need > (n as u64) - 32 {
            proof {
                if ex {
                    assert(false);
                }
            }
            return Err(corrupt("vector block truncated"));
        }
        proof {
            assert(32 + 4 * (adim as int) * (nv as int) <= n) by (nonlinear_arith)
                requires
                    need as int == (nv as int) * (adim as int) * 4,
                    need as int <= (n as int) - 32,
            ;
        }
        let mut pos: usize = 32;
        let mut rows: Vec<Vec<i32>> = Vec::new();
        let ghost mut rsv: Seq<Seq<i32>> = Seq::empty();
        let mut v: usize = 0;
        proof {
            assert(bytes@.subrange(32, 32) =~= Seq::<u8>::empty());
            if ex {
                assert(i0.vecs().subrange(0, nv as int) =~= i0.vecs());
                assert(rsv =~= i0.vecs().subrange(0, 0));
            }
        }
        while v < nv
            invariant
                v <= nv,
                config.valid(),
                n == bytes@.len(),
                adim >= 1,
                dim_fits(config, adim as int),
                pos == 32 + 4 * (adim as int) * (v as int),
                32 + 4 * (adim as int) * (nv as int) <= n,
                rows@.len() == v,
                rsv.len() == v,
                forall|k: int| 0 <= k < v ==> (#[trigger] rsv[k]) == rows@[k]@,
                forall|k: int| 0 <= k < v ==> (#[trigger] rows@[k])@.len() == adim,
                forall|k: int, j: int|
                    0 <= k < v && config.dim <= j < adim ==> (#[trigger] rows@[k]@[j]) == 0i32,
                enc_rows(rsv) == bytes@.subrange(32, pos as int),
                ex == (exists|i: Index| decoded_from(i, bytes@, config)),
                ex ==> decoded_from(i0, bytes@, config),
                ex ==> nv == i0.nv() && adim == i0.cfg().aligned_dim_of(),
                ex ==> rsv == i0.vecs().subrange(0, v as int),
                ex ==> bytes@.subrange(pos as int, n as int) == enc_rows(
                    i0.vecs().subrange(v as int, nv as int),
                ) + enc_adjs(i0.adjs()),
            decreases nv - v,
        {
            proof {
                assert(4 * (adim as int) * (v as int) + 4 * (adim as int) <= 4 * (adim as int) * (
                nv as int)) by (nonlinear_arith)
                    requires
                        v < nv,
                        adim >= 1,
                ;
                assert(4 * (adim as int) * (v as int) >= 0) by (nonlinear_arith)
                    requires
                        v >= 0,
                        adim >= 1,
                ;
            }
            let mut row: Vec<i32> = Vec::new();
            let ghost row_start = pos as int;
            let ghost rest_row = enc_rows(i0.vecs().subrange(v + 1, nv as int)) + enc_adjs(
                i0.adjs(),
            );
            let mut j: usize = 0;
            proof {
                assert(bytes@.subrange(row_start, row_start) =~= Seq::<u8>::empty());
                assert(enc_row(row@) == bytes@.subrange(row_start, pos as int));
                if ex {
                    i0.lemma_repr();
                    let rowv = i0.vecs()[v as int];
                    let sfx_rows = i0.vecs().subrange(v as int, nv as int);
                    assert(rowv.len() == adim);
                    assert(sfx_rows[0] == rowv);
                    assert(sfx_rows.subrange(1, sfx_rows.len() as int) =~= i0.vecs().subrange(
                        v + 1,
                        nv as int,
                    ));
                    assert(enc_rows(sfx_rows) == enc_row(rowv) + enc_rows(
                        i0.vecs().subrange(v + 1, nv as int),
                    ));
                    assert(rowv.subrange(0, adim as int) =~= rowv);
                    assert(bytes@.subrange(pos as int, n as int) =~= enc_row(
                        rowv.subrange(0, adim as int),
                    ) + rest_row);
                    assert(row@ =~= rowv.subrange(0, 0));
                }
            }
            while j < adim
                invariant
                    j <= adim,
                    config.valid(),
                    n == bytes@.len(),
                    dim_fits(config, adim as int),
                    32 <= row_start,
                    pos == row_start + 4 * (j as int),
                    row_start + 4 * (adim as int) <= n,
                    row@.len() == j,
                    forall|jj: int| config.dim <= jj < j ==> (#[trigger] row@[jj]) == 0i32,
                    enc_row(row@) == bytes@.subrange(row_start, pos as int),
                    ex == (exists|i: Index| decoded_from(i, bytes@, config)),
                    ex ==> decoded_from(i0, bytes@, config),
                    ex ==> (v as int) < i0.nv() && adim == i0.cfg().aligned_dim_of(),
                    ex ==> row@ == i0.vecs()[v as int].subrange(0, j as int),
                    ex ==> bytes@.subrange(pos as int, n as int) == enc_row(
                        i0.vecs()[v as int].subrange(j as int, adim as int),
                    ) + rest_row,
                decreases adim - j,
            {
                let w = word_at(bytes, pos);
                proof {
                    lemma_auto_spec_u32_to_from_le_bytes();
                    if ex {
                        i0.lemma_repr();
                        let rowv = i0.vecs()[v as int];
                        assert(rowv.len() == adim);
                        let cur = rowv.subrange(j as int, adim as int);
                        assert(cur[0] == rowv[j as int]);
                        assert(cur.subrange(1, cur.len() as int) =~= rowv.subrange(
                            j + 1,
                            adim as int,
                        ));
                        assert(enc_row(cur) == word(scalar_word(rowv[j as int])) + enc_row(
                            rowv.subrange(j + 1, adim as int),
                        ));
                        let sfx = bytes@.subrange(pos as int, n as int);
                        assert(sfx =~= word(scalar_word(rowv[j as int])) + (enc_row(
                            rowv.subrange(j + 1, adim as int),
                        ) + rest_row));
                        lemma_concat_parts(
                            sfx,
                            word(scalar_word(rowv[j as int])),
                            enc_row(rowv.subrange(j + 1, adim as int)) + rest_row,
                        );
                        assert(bytes@.subrange(pos as int, pos + 4) =~= sfx.subrange(0, 4));
                        assert(bytes@.subrange(pos as int, pos + 4) == word(
                            scalar_word(rowv[j as int]),
                        ));
                        assert(w == scalar_word(rowv[j as int]));
                        assert(bytes@.subrange(pos + 4, n as int) =~= sfx.subrange(
                            4,
                            sfx.len() as int,
                        ));
                    }
                }
                let xi: i64 = (w as i64) - 0x8000_0000i64;
                let x: i32 = xi as i32;
                proof {
                    if ex {
                        assert(x == i0.vecs()[v as int][j as int]);
                    }
                }
                if j >= config.dim && x != 0 {
                    proof {
                        if ex {
                            assert(i0.vecs()[v as int][j as int] == 0i32);
                            assert(false);
                        }
                    }
                    return Err(corrupt("nonzero padding in a vector row"));
                }
                proof {
                    lemma_auto_spec_u32_to_from_le_bytes();
                    assert(scalar_word(x) == w);
                    assert(word(w) == bytes@.subrange(pos as int, pos + 4));
                    lemma_enc_row_snoc(row@, x);
                    assert(bytes@.subrange(row_start, pos + 4) =~= bytes@.subrange(
                        row_start,
                        pos as int,
                    ) + bytes@.subrange(pos as int, pos + 4));
                    if ex {
                        let rowv = i0.vecs()[v as int];
                        assert(row@.push(x) =~= rowv.subrange(0, j + 1));
                    }
                }
                row.push(x);
                pos = pos + 4;
                j = j + 1;
            }
            proof {
                lemma_enc_rows_snoc(rsv, row@);
                assert(bytes@.subrange(32, pos as int) =~= bytes@.subrange(32, row_start)
                    + bytes@.subrange(row_start, pos as int));
            }
            rows.push(row);
            proof {
                rsv = rsv.push(rows@[v as int]@);
                assert(32 + 4 * (adim as int) * (v as int) + 4 * (adim as int) == 32 + 4 * (
                adim as int) * ((v as int) + 1)) by (nonlinear_arith);
                if ex {
                    i0.lemma_repr();
                    let rowv = i0.vecs()[v as int];
                    assert(rows@[v as int]@ =~= rowv);
                    assert(i0.vecs().subrange(0, v as int).push(rowv) =~= i0.vecs().subrange(
                        0,
                        v + 1,
                    ));
                    assert(rowv.subrange(adim as int, adim as int) =~= Seq::<i32>::empty());
                    assert(enc_row(rowv.subrange(adim as int, adim as int))
                        =~= Seq::<u8>::empty());
                    assert(bytes@.subrange(pos as int, n as int) =~= rest_row);
                }
            }
            v = v + 1;
        }
        let ghost vec_end = pos as int;
        let mut lists: Vec<Vec<u32>> = Vec::new();
        let ghost mut lsv: Seq<Seq<u32>> = Seq::empty();
        let mut v2: usize = 0;
        proof {
            assert(bytes@.subrange(vec_end, vec_end) =~= Seq::<u8>::empty());
            if ex {
                i0.lemma_repr();
                assert(i0.vecs().subrange(nv as int, nv as int) =~= Seq::<Seq<i32>>::empty());
                assert(enc_rows(i0.vecs().subrange(nv as int, nv as int)) =~= Seq::<u8>::empty());
                assert(bytes@.subrange(pos as int, n as int) =~= enc_adjs(i0.adjs()));
                assert(i0.adjs().subrange(0, nv as int) =~= i0.adjs());
                assert(lsv =~= i0.adjs().subrange(0, 0));
            }
        }
        while v2 < nv
            invariant
                v2 <= nv,
                config.valid(),
                n == bytes@.len(),
                32 <= vec_end,
                pos <= n,
                vec_end <= pos,
                nv <= 0xFFFF_FFFFusize,
                lists@.len() == v2,
                lsv.len() == v2,
                forall|k: int| 0 <= k < v2 ==> (#[trigger] lsv[k]) == lists@[k]@,
                forall|k: int|
                    0 <= k < v2 ==> (#[trigger] lists@[k])@.len() <= config.max_degree,
                forall|k: int, i: int|
                    0 <= k < v2 && 0 <= i < lists@[k]@.len() ==> (#[trigger] lists@[k]@[i]) < (
                    nv as u32) && lists@[k]@[i] != k,
                forall|k: int, i: int, i2: int|
                    0 <= k < v2 && 0 <= i < i2 < lists@[k]@.len() ==> (#[trigger] lists@[k]@[i])
                        != (#[trigger] lists@[k]@[i2]),
                enc_adjs(lsv) == bytes@.subrange(vec_end, pos as int),
                ex == (exists|i: Index| decoded_from(i, bytes@, config)),
                ex ==> decoded_from(i0, bytes@, config),
                ex ==> nv == i0.nv(),
                ex ==> lsv == i0.adjs().subrange(0, v2 as int),
                ex ==> bytes@.subrange(pos as int, n as int) == enc_adjs(
                    i0.adjs().subrange(v2 as int, nv as int),
                ),
            decreases nv - v2,
        {
            proof {
                lemma_auto_spec_u32_to_from_le_bytes();
                if ex {
                    i0.lemma_repr();
                    let listv = i0.adjs()[v2 as int];
                    let sfx_lists = i0.adjs().subrange(v2 as int, nv as int);
                    assert(sfx_lists[0] == listv);
                    assert(sfx_lists.subrange(1, sfx_lists.len() as int) =~= i0.adjs().subrange(
                        v2 + 1,
                        nv as int,
                    ));
                    assert(enc_adjs(sfx_lists) == enc_adj(listv) + enc_adjs(
                        i0.adjs().subrange(v2 + 1, nv as int),
                    ));
                    lemma_enc_ids_len(listv);
                    let sfx = bytes@.subrange(pos as int, n as int);
                    assert(sfx =~= word(listv.len() as u32) + (enc_ids(listv) + enc_adjs(
                        i0.adjs().subrange(v2 + 1, nv as int),
                    )));
                    lemma_concat_parts(
                        sfx,
                        word(listv.len() as u32),
                        enc_ids(listv) + enc_adjs(i0.adjs().subrange(v2 + 1, nv as int)),
                    );
                    assert(n - pos >= 4);
                }
            }
            if n - pos < 4 {
                proof {
                    if ex {
                        assert(false);
                    }
                }
                return Err(corrupt("adjacency block truncated"));
            }
            let deg32 = word_at(bytes, pos);
            proof {
                lemma_auto_spec_u32_to_from_le_bytes();
                if ex {
                    i0.lemma_repr();
                    let listv = i0.adjs()[v2 as int];
                    let sfx = bytes@.subrange(pos as int, n as int);
                    assert(bytes@.subrange(pos as int, pos + 4) =~= sfx.subrange(0, 4));
                    assert(bytes@.subrange(pos as int, pos + 4) == word(listv.len() as u32));
                    assert(deg32 == listv.len() as u32);
                    assert(crate::index::adj_ok(
                        listv,
                        v2 as int,
                        i0.nv(),
                        i0.cfg().max_degree as int,
                        i0.retireds(),
                    ));
                    assert(deg32 as int == listv.len());
                    assert(deg32 <= config.max_degree);
                }
            }
            if deg32 > config.max_degree {
                proof {
                    if ex {
                        assert(false);
                    }
                }
                return Err(corrupt("degree above the configured bound"));
            }
            let deg = deg32 as usize;
            proof {
                if ex {
                    let listv = i0.adjs()[v2 as int];
                    lemma_enc_ids_len(listv);
                    assert((deg as int) * 4 <= (n as int) - (pos as int) - 4);
                }
            }
            if (deg as u64) * 4 > ((n - pos - 4) as u64) {
                proof {
                    if ex {
                        assert(false);
                    }
                }
                return Err(corrupt("adjacency record truncated"));
            }
            let ghost rec_start = pos as int;
            let ghost rest_ids = enc_adjs(i0.adjs().subrange(v2 + 1, nv as int));
            proof {
                lemma_auto_spec_u32_to_from_le_bytes();
                assert(word(deg32) == bytes@.subrange(pos as int, pos + 4));
                if ex {
                    let listv = i0.adjs()[v2 as int];
                    let sfx = bytes@.subrange(pos as int, n as int);
                    assert(sfx =~= word(listv.len() as u32) + (enc_ids(listv) + rest_ids));
                    lemma_concat_parts(sfx, word(listv.len() as u32), enc_ids(listv) + rest_ids);
                    assert(bytes@.subrange(pos + 4, n as int) =~= sfx.subrange(
                        4,
                        sfx.len() as int,
                    ));
                    assert(listv.subrange(0, deg as int) =~= listv);
                }
            }
            pos = pos + 4;
            let mut list: Vec<u32> = Vec::new();
            let mut j: usize = 0;
            proof {
                assert(bytes@.subrange(rec_start + 4, rec_start + 4) =~= Seq::<u8>::empty());
                if ex {
                    let listv = i0.adjs()[v2 as int];
                    assert(list@ =~= listv.subrange(0, 0));
                    assert(enc_ids(listv.subrange(0, deg as int)) == enc_ids(listv));
                }
            }
            while j < deg
                invariant
                    j <= deg,
                    config.valid(),
                    n == bytes@.len(),
                    deg <= 0xFFFF_FFFFusize,
                    v2 < nv,
                    nv <= 0xFFFF_FFFFusize,
                    32 <= rec_start,
                    pos == rec_start + 4 + 4 * (j as int),
                    rec_start + 4 + 4 * (deg as int) <= n,
                    list@.len() == j,
                    forall|i: int|
                        0 <= i < j ==> (#[trigger] list@[i]) < (nv as u32) && list@[i] != (
                        v2 as u32),
                    forall|i: int, i2: int|
                        0 <= i < i2 < j ==> (#[trigger] list@[i]) != (#[trigger] list@[i2]),
                    enc_ids(list@) == bytes@.subrange(rec_start + 4, pos as int),
                    ex == (exists|i: Index| decoded_from(i, bytes@, config)),
                    ex ==> decoded_from(i0, bytes@, config),
                    ex ==> nv == i0.nv() && (v2 as int) < i0.nv() && deg == i0.adjs()[
                        v2 as int
                    ].len(),
                    ex ==> list@ == i0.adjs()[v2 as int].subrange(0, j as int),
                    ex ==> bytes@.subrange(pos as int, n as int) == enc_ids(
                        i0.adjs()[v2 as int].subrange(j as int, deg as int),
                    ) + rest_ids,
                decreases deg - j,
            {
                let id = word_at(bytes, pos);
                proof {
                    lemma_auto_spec_u32_to_from_le_bytes();
                    if ex {
                        i0.lemma_repr();
                        let listv = i0.adjs()[v2 as int];
                        let cur = listv.subrange(j as int, deg as int);
                        assert(cur[0] == listv[j as int]);
                        assert(cur.subrange(1, cur.len() as int) =~= listv.subrange(
                            j + 1,
                            deg as int,
                        ));
                        assert(enc_ids(cur) == word(listv[j as int]) + enc_ids(
                            listv.subrange(j + 1, deg as int),
                        ));
                        let sfx = bytes@.subrange(pos as int, n as int);
                        assert(sfx =~= word(listv[j as int]) + (enc_ids(
                            listv.subrange(j + 1, deg as int),
                        ) + rest_ids));
                        lemma_concat_parts(
                            sfx,
                            word(listv[j as int]),
                            enc_ids(listv.subrange(j + 1, deg as int)) + rest_ids,
                        );
                        assert(bytes@.subrange(pos as int, pos + 4) =~= sfx.subrange(0, 4));
                        assert(bytes@.subrange(pos as int, pos + 4) == word(listv[j as int]));
                        assert(id == listv[j as int]);
                        assert(crate::index::adj_ok(
                            listv,
                            v2 as int,
                            i0.nv(),
                            i0.cfg().max_degree as int,
                            i0.retireds(),
                        ));
                        assert(bytes@.subrange(pos + 4, n as int) =~= sfx.subrange(
                            4,
                            sfx.len() as int,
                        ));
                    }
                }
                if id as usize >= nv {
                    proof {
                        if ex {
                            assert(false);
                        }
                    }
                    return Err(corrupt("neighbor id out of range"));
                }
                if id as usize == v2 {
                    proof {
                        if ex {
                            assert(false);
                        }
                    }
                    return Err(corrupt("self loop in adjacency"));
                }
                let llen = list.len();
                let mut t: usize = 0;
                let mut dup = false;
                while t < llen
                    invariant
                        t <= llen,
                        llen == list@.len(),
                        dup <==> exists|i: int| 0 <= i < t && (#[trigger] list@[i]) == id,
                    decreases llen - t,
                {
                    if list[t] == id {
                        dup = true;
                    }
                    t = t + 1;
                }
                if dup {
                    proof {
                        if ex {
                            let listv = i0.adjs()[v2 as int];
                            let i = choose|i: int| 0 <= i < llen && (#[trigger] list@[i]) == id;
                            assert(listv[i] == listv[j as int]);
                            assert(false);
                        }
                    }
                    return Err(corrupt("duplicate neighbor id"));
                }
                proof {
                    lemma_auto_spec_u32_to_from_le_bytes();
                    assert(word(id) == bytes@.subrange(pos as int, pos + 4));
                    lemma_enc_ids_snoc(list@, id);
                    assert(bytes@.subrange(rec_start + 4, pos + 4) =~= bytes@.subrange(
                        rec_start + 4,
                        pos as int,
                    ) + bytes@.subrange(pos as int, pos + 4));
                    if ex {
                        let listv = i0.adjs()[v2 as int];
                        assert(list@.push(id) =~= listv.subrange(0, j + 1));
                    }
                }
                list.push(id);
                pos = pos + 4;
                j = j + 1;
            }
            proof {
                assert((list@.len() as u32) == deg32);
                assert(enc_adj(list@) =~= bytes@.subrange(rec_start, pos as int));
                lemma_enc_adjs_snoc(lsv, list@);
                assert(bytes@.subrange(vec_end, pos as int) =~= bytes@.subrange(
                    vec_end,
                    rec_start,
                ) + bytes@.subrange(rec_start, pos as int));
            }
            lists.push(list);
            proof {
                lsv = lsv.push(lists@[v2 as int]@);
                if ex {
                    let listv = i0.adjs()[v2 as int];
                    assert(lists@[v2 as int]@ =~= listv);
                    assert(i0.adjs().subrange(0, v2 as int).push(listv) =~= i0.adjs().subrange(
                        0,
                        v2 + 1,
                    ));
                    assert(listv.subrange(deg as int, deg as int) =~= Seq::<u32>::empty());
                    assert(enc_ids(listv.subrange(deg as int, deg as int))
                        =~= Seq::<u8>::empty());
                    assert(bytes@.subrange(pos as int, n as int) =~= rest_ids);
                }
            }
            v2 = v2 + 1;
        }
        proof {
            if ex {
                assert(i0.adjs().subrange(nv as int, nv as int) =~= Seq::<Seq<u32>>::empty());
                assert(enc_adjs(i0.adjs().subrange(nv as int, nv as int)) =~= Seq::<u8>::empty());
                assert(bytes@.subrange(pos as int, n as int) =~= Seq::<u8>::empty());
                assert(pos == n);
            }
        }
        if pos != n {
            proof {
                if ex {
                    assert(false);
                }
            }
            return Err(corrupt("trailing bytes after the adjacency block"));
        }
        let idx = Index::assemble(config, rows, lists, medoid);
        proof {
            lemma_auto_spec_u32_to_from_le_bytes();
            idx.lemma_repr();
            assert(idx.vecs() =~= rsv);
            assert(idx.adjs() =~= lsv);
            assert(enc_header(
                config.dim as u32,
                config.aligned_dim_of() as u32,
                config.metric,
                config.max_degree,
                idx.nv() as u32,
                medoid,
            ) =~= bytes@.subrange(0, 32));
            assert(bytes@ =~= bytes@.subrange(0, 32) + bytes@.subrange(32, vec_end)
                + bytes@.subrange(vec_end, n as int));
            assert(bytes@ =~= enc_index(idx));
            assert(idx.wf());
            assert(idx.cfg() == config);
            assert(bytes@ == enc_index(idx));
            assert(idx.deleted_spec() == 0);
            assert(idx.retired_count_spec() == 0);
            assert(forall|u: int|
                0 <= u < idx.nv() ==> !(#[trigger] idx.tombs()[u]) && !idx.retireds()[u]);
            lemma_decoded_intro(idx, bytes@, config);
        }
        Ok(idx)
    }
}

/// The aligned dimension the configuration implies.
pub open spec fn dim_fits(config: crate::config::IndexConfig, adim: int) -> bool {
    adim == config.aligned_dim_of() && config.dim <= adim
}

} // verus!
