//! Robust pruning: reduces a candidate pool to at most R edges under the
//! alpha-diversity rule.
//!
//! A pool entry is a pair `(d, id)` of the candidate's distance to the
//! vertex being pruned and its id, and pools are kept in ascending
//! `(d, id)` order. The closest remaining candidate `p` is kept, and every
//! remaining candidate `c` that `p` occludes — `alpha * d(p, c) <= d(u, c)`,
//! carried in hundredths — is discarded; this repeats until the pool is
//! empty or R edges are kept. With `saturate_graph` set, the kept set is
//! refilled from the discarded candidates in ascending order.

use vstd::prelude::*;
use crate::index::Index;

verus! {

/// Strict pool order: by distance, then id.
pub open spec fn pair_lt(x: (u128, u32), y: (u128, u32)) -> bool {
    x.0 < y.0 || (x.0 == y.0 && x.1 < y.1)
}

/// Ascending in `(d, id)`.
pub open spec fn pool_sorted(s: Seq<(u128, u32)>) -> bool {
    forall|i: int, j: int| 0 <= i < j < s.len() ==> pair_lt(#[trigger] s[i], #[trigger] s[j])
}

/// No id twice.
pub open spec fn ids_distinct(s: Seq<(u128, u32)>) -> bool {
    forall|i: int, j: int|
        0 <= i < j < s.len() ==> (#[trigger] s[i]).1 != (#[trigger] s[j]).1
}

/// Some entry carries this id.
pub open spec fn contains_id(s: Seq<(u128, u32)>, id: u32) -> bool {
    exists|i: int| 0 <= i < s.len() && (#[trigger] s[i]).1 == id
}

/// The kept candidate `p` occludes `c`: `alpha * d(p, c) <= d(u, c)`, with
/// alpha in hundredths and `c.0` the annotated distance to `u`.
pub open spec fn occludes(vecs: Seq<Seq<i32>>, alpha_x100: int, p: u32, c: (u128, u32)) -> bool {
    alpha_x100 * crate::distance::l2_dist(vecs[p as int], vecs[c.1 as int]) <= 100 * (c.0 as int)
}

/// The pool entries that survive `p`'s occlusion cone, in order.
pub open spec fn drop_occluded(
    vecs: Seq<Seq<i32>>,
    alpha_x100: int,
    p: u32,
    rest: Seq<(u128, u32)>,
) -> Seq<(u128, u32)>
    decreases rest.len(),
{
    if rest.len() == 0 {
        Seq::empty()
    } else {
        let tail = drop_occluded(vecs, alpha_x100, p, rest.subrange(1, rest.len() as int));
        if occludes(vecs, alpha_x100, p, rest[0]) {
            tail
        } else {
            seq![rest[0]] + tail
        }
    }
}

/// The pruned edge set: repeatedly keep the closest remaining candidate and
/// discard what it occludes, until `r` edges are kept or the pool is empty.
pub open spec fn prune_core(
    vecs: Seq<Seq<i32>>,
    alpha_x100: int,
    r: int,
    pool: Seq<(u128, u32)>,
) -> Seq<(u128, u32)>
    decreases r,
{
    if pool.len() == 0 || r <= 0 {
        Seq::empty()
    } else {
        seq![pool[0]] + prune_core(
            vecs,
            alpha_x100,
            r - 1,
            drop_occluded(vecs, alpha_x100, pool[0].1, pool.subrange(1, pool.len() as int)),
        )
    }
}

/// Refills `kept` from the pool in ascending order, skipping ids already
/// kept, until `r` edges are kept or the pool is exhausted.
pub open spec fn saturate_fill(
    pool: Seq<(u128, u32)>,
    kept: Seq<(u128, u32)>,
    r: int,
) -> Seq<(u128, u32)>
    decreases pool.len(),
{
    if kept.len() >= r || pool.len() == 0 {
        kept
    } else if contains_id(kept, pool[0].1) {
        saturate_fill(pool.subrange(1, pool.len() as int), kept, r)
    } else {
        saturate_fill(pool.subrange(1, pool.len() as int), kept.push(pool[0]), r)
    }
}

/// What pruning a sorted pool yields, with or without saturation.
pub open spec fn prune_result(
    vecs: Seq<Seq<i32>>,
    alpha_x100: int,
    r: int,
    saturate: bool,
    pool: Seq<(u128, u32)>,
) -> Seq<(u128, u32)> {
    let core = prune_core(vecs, alpha_x100, r, pool);
    if saturate {
        saturate_fill(pool, core, r)
    } else {
        core
    }
}

/// What survives an occlusion cone: exactly the unoccluded entries, with
/// the pool's order, sortedness and id-distinctness intact.
pub proof fn lemma_drop_occluded_props(
    vecs: Seq<Seq<i32>>,
    alpha_x100: int,
    p: u32,
    rest: Seq<(u128, u32)>,
)
    ensures
        drop_occluded(vecs, alpha_x100, p, rest).len() <= rest.len(),
        forall|x: (u128, u32)|
            #[trigger] drop_occluded(vecs, alpha_x100, p, rest).contains(x) ==> rest.contains(x)
                && !occludes(vecs, alpha_x100, p, x),
        forall|x: (u128, u32)|
            #[trigger] rest.contains(x) && !occludes(vecs, alpha_x100, p, x) ==> drop_occluded(
                vecs,
                alpha_x100,
                p,
                rest,
            ).contains(x),
        pool_sorted(rest) ==> pool_sorted(drop_occluded(vecs, alpha_x100, p, rest)),
        ids_distinct(rest) ==> ids_distinct(drop_occluded(vecs, alpha_x100, p, rest)),
    decreases rest.len(),
{
    let out = drop_occluded(vecs, alpha_x100, p, rest);
    if rest.len() == 0 {
        assert forall|x: (u128, u32)| #[trigger] rest.contains(x)
            && !occludes(vecs, alpha_x100, p, x) implies out.contains(x) by {}
    } else {
        let sub = rest.subrange(1, rest.len() as int);
        let tail = drop_occluded(vecs, alpha_x100, p, sub);
        lemma_drop_occluded_props(vecs, alpha_x100, p, sub);
        assert forall|x: (u128, u32)| #[trigger] sub.contains(x) implies rest.contains(x) by {
            let i = choose|i: int| 0 <= i < sub.len() && sub[i] == x;
            assert(rest[i + 1] == x);
        }
        assert forall|x: (u128, u32)| #[trigger] out.contains(x) implies rest.contains(x)
            && !occludes(vecs, alpha_x100, p, x) by {
            let i = choose|i: int| 0 <= i < out.len() && out[i] == x;
            if !occludes(vecs, alpha_x100, p, rest[0]) && i == 0 {
                assert(x == rest[0]);
            } else {
                assert(tail.contains(x));
            }
        }
        assert forall|x: (u128, u32)| #[trigger] rest.contains(x)
            && !occludes(vecs, alpha_x100, p, x) implies out.contains(x) by {
            let i = choose|i: int| 0 <= i < rest.len() && rest[i] == x;
            if i == 0 {
                assert(out[0] == x);
            } else {
                assert(sub[i - 1] == x);
                assert(sub.contains(x));
                assert(tail.contains(x));
                let w = choose|w: int| 0 <= w < tail.len() && tail[w] == x;
                if occludes(vecs, alpha_x100, p, rest[0]) {
                    assert(out[w] == x);
                } else {
                    assert(out[w + 1] == x);
                }
            }
        }
        if pool_sorted(rest) {
            assert(pool_sorted(sub));
            assert forall|i: int, j: int|
                0 <= i < j < out.len() implies pair_lt(#[trigger] out[i], #[trigger] out[j]) by {
                if occludes(vecs, alpha_x100, p, rest[0]) {
                    assert(pair_lt(tail[i], tail[j]));
                } else {
                    if i == 0 {
                        assert(tail.contains(out[j]));
                        assert(sub.contains(out[j]));
                        let w = choose|w: int| 0 <= w < sub.len() && sub[w] == out[j];
                        assert(pair_lt(rest[0], rest[w + 1]));
                    } else {
                        assert(pair_lt(tail[i - 1], tail[j - 1]));
                    }
                }
            }
        }
        if ids_distinct(rest) {
            assert(ids_distinct(sub));
            assert forall|i: int, j: int|
                0 <= i < j < out.len() implies (#[trigger] out[i]).1 != (#[trigger] out[j]).1 by {
                if occludes(vecs, alpha_x100, p, rest[0]) {
                    assert(tail[i].1 != tail[j].1);
                } else {
                    if i == 0 {
                        assert(tail.contains(out[j]));
                        assert(sub.contains(out[j]));
                        let w = choose|w: int| 0 <= w < sub.len() && sub[w] == out[j];
                        assert(rest[0].1 != rest[w + 1].1);
                    } else {
                        assert(tail[i - 1].1 != tail[j - 1].1);
                    }
                }
            }
        }
    }
}

/// A cone that occludes nothing leaves the pool as it stands.
pub proof fn lemma_drop_occluded_noop(
    vecs: Seq<Seq<i32>>,
    alpha_x100: int,
    p: u32,
    rest: Seq<(u128, u32)>,
)
    requires
        forall|i: int| 0 <= i < rest.len() ==> !occludes(vecs, alpha_x100, p, #[trigger] rest[i]),
    ensures
        drop_occluded(vecs, alpha_x100, p, rest) == rest,
    decreases rest.len(),
{
    if rest.len() > 0 {
        let sub = rest.subrange(1, rest.len() as int);
        lemma_drop_occluded_noop(vecs, alpha_x100, p, sub);
        assert(drop_occluded(vecs, alpha_x100, p, rest) =~= rest);
    } else {
        assert(drop_occluded(vecs, alpha_x100, p, rest) =~= rest);
    }
}

/// What pruning keeps: at most `r` entries drawn from the pool, still
/// sorted and id-distinct, and pairwise unoccluded — no kept entry
/// occludes a kept entry farther out.
pub proof fn lemma_prune_core_props(
    vecs: Seq<Seq<i32>>,
    alpha_x100: int,
    r: int,
    pool: Seq<(u128, u32)>,
)
    requires
        pool_sorted(pool),
        ids_distinct(pool),
    ensures
        ({
            let out = prune_core(vecs, alpha_x100, r, pool);
            &&& out.len() <= (if r >= 0 { r } else { 0 })
            &&& forall|x: (u128, u32)| #[trigger] out.contains(x) ==> pool.contains(x)
            &&& pool_sorted(out)
            &&& ids_distinct(out)
            &&& forall|i: int, j: int|
                0 <= i < j < out.len() ==> !occludes(vecs, alpha_x100, (#[trigger] out[i]).1, #[trigger] out[j])
        }),
    decreases r,
{
    let out = prune_core(vecs, alpha_x100, r, pool);
    if pool.len() == 0 || r <= 0 {
    } else {
        let p = pool[0];
        let sub = pool.subrange(1, pool.len() as int);
        let rest1 = drop_occluded(vecs, alpha_x100, p.1, sub);
        let out1 = prune_core(vecs, alpha_x100, r - 1, rest1);
        lemma_drop_occluded_props(vecs, alpha_x100, p.1, sub);
        lemma_prune_core_props(vecs, alpha_x100, r - 1, rest1);
        assert forall|x: (u128, u32)| #[trigger] sub.contains(x) implies pool.contains(x) by {
            let i = choose|i: int| 0 <= i < sub.len() && sub[i] == x;
            assert(pool[i + 1] == x);
        }
        assert forall|x: (u128, u32)| #[trigger] out.contains(x) implies pool.contains(x) by {
            let i = choose|i: int| 0 <= i < out.len() && out[i] == x;
            if i == 0 {
                assert(x == p);
            } else {
                assert(out1[i - 1] == x);
                assert(out1.contains(x));
            }
        }
        assert forall|x: (u128, u32)| #[trigger] out1.contains(x) implies pair_lt(p, x)
            && p.1 != x.1 && !occludes(vecs, alpha_x100, p.1, x) by {
            assert(rest1.contains(x));
            assert(sub.contains(x));
            let w = choose|w: int| 0 <= w < sub.len() && sub[w] == x;
            assert(pool[w + 1] == x);
            assert(pair_lt(pool[0], pool[w + 1]));
            assert(pool[0].1 != pool[w + 1].1);
        }
        assert forall|i: int, j: int|
            0 <= i < j < out.len() implies pair_lt(#[trigger] out[i], #[trigger] out[j])
            && out[i].1 != out[j].1 && !occludes(vecs, alpha_x100, out[i].1, out[j]) by {
            if i == 0 {
                assert(out1.contains(out[j]));
            } else {
                assert(out[i] == out1[i - 1] && out[j] == out1[j - 1]);
            }
        }
    }
}

/// Pruning a pool that already fits — at most `r` entries, none occluding
/// a later one — keeps it unchanged.
pub proof fn lemma_prune_core_noop(
    vecs: Seq<Seq<i32>>,
    alpha_x100: int,
    r: int,
    pool: Seq<(u128, u32)>,
)
    requires
        pool.len() <= r,
        forall|i: int, j: int|
            0 <= i < j < pool.len() ==> !occludes(vecs, alpha_x100, (#[trigger] pool[i]).1, #[trigger] pool[j]),
    ensures
        prune_core(vecs, alpha_x100, r, pool) == pool,
    decreases r,
{
    if pool.len() == 0 || r <= 0 {
        assert(prune_core(vecs, alpha_x100, r, pool) =~= pool);
    } else {
        let p = pool[0];
        let sub = pool.subrange(1, pool.len() as int);
        assert forall|i: int| 0 <= i < sub.len() implies !occludes(
            vecs,
            alpha_x100,
            p.1,
            #[trigger] sub[i],
        ) by {
            assert(sub[i] == pool[i + 1]);
        }
        lemma_drop_occluded_noop(vecs, alpha_x100, p.1, sub);
        lemma_prune_core_noop(vecs, alpha_x100, r - 1, sub);
        assert(prune_core(vecs, alpha_x100, r, pool) =~= pool);
    }
}

/// Appending one candidate to the pool extends the survivors by that
/// candidate exactly when it is unoccluded.
pub proof fn lemma_drop_occluded_snoc(
    vecs: Seq<Seq<i32>>,
    alpha_x100: int,
    p: u32,
    s: Seq<(u128, u32)>,
    c: (u128, u32),
)
    ensures
        drop_occluded(vecs, alpha_x100, p, s.push(c)) == if occludes(vecs, alpha_x100, p, c) {
            drop_occluded(vecs, alpha_x100, p, s)
        } else {
            drop_occluded(vecs, alpha_x100, p, s).push(c)
        },
    decreases s.len(),
{
    let w = s.push(c);
    if s.len() == 0 {
        reveal_with_fuel(drop_occluded, 3);
        assert(w[0] == c);
        assert(w.subrange(1, w.len() as int) =~= Seq::<(u128, u32)>::empty());
        assert(drop_occluded(vecs, alpha_x100, p, s) =~= Seq::<(u128, u32)>::empty());
        if occludes(vecs, alpha_x100, p, c) {
            assert(drop_occluded(vecs, alpha_x100, p, w) =~= Seq::<(u128, u32)>::empty());
        } else {
            assert(drop_occluded(vecs, alpha_x100, p, w) =~= seq![c]);
            assert(drop_occluded(vecs, alpha_x100, p, s).push(c) =~= seq![c]);
        }
    } else {
        let ssub = s.subrange(1, s.len() as int);
        let wsub = w.subrange(1, w.len() as int);
        assert(w[0] == s[0]);
        assert(wsub =~= ssub.push(c));
        lemma_drop_occluded_snoc(vecs, alpha_x100, p, ssub, c);
        let dws = drop_occluded(vecs, alpha_x100, p, wsub);
        let dss = drop_occluded(vecs, alpha_x100, p, ssub);
        if occludes(vecs, alpha_x100, p, s[0]) {
            assert(drop_occluded(vecs, alpha_x100, p, w) == dws);
            assert(drop_occluded(vecs, alpha_x100, p, s) == dss);
        } else {
            assert(drop_occluded(vecs, alpha_x100, p, w) == seq![s[0]] + dws);
            assert(drop_occluded(vecs, alpha_x100, p, s) == seq![s[0]] + dss);
            if !occludes(vecs, alpha_x100, p, c) {
                assert(seq![s[0]] + dss.push(c) =~= (seq![s[0]] + dss).push(c));
            }
        }
    }
}

/// What saturation yields: it only appends, draws from the pool, respects
/// the bound once it is binding, and never duplicates an id.
pub proof fn lemma_saturate_props(pool: Seq<(u128, u32)>, kept: Seq<(u128, u32)>, r: int)
    requires
        ids_distinct(kept),
    ensures
        ({
            let out = saturate_fill(pool, kept, r);
            &&& kept.len() <= out.len()
            &&& out.len() <= (if kept.len() >= r {
                kept.len() as int
            } else {
                r
            })
            &&& forall|x: (u128, u32)|
                #[trigger] out.contains(x) ==> kept.contains(x) || pool.contains(x)
            &&& ids_distinct(out)
        }),
    decreases pool.len(),
{
    let out = saturate_fill(pool, kept, r);
    if kept.len() >= r || pool.len() == 0 {
    } else {
        let c = pool[0];
        let sub = pool.subrange(1, pool.len() as int);
        assert forall|x: (u128, u32)| #[trigger] sub.contains(x) implies pool.contains(x) by {
            let i = choose|i: int| 0 <= i < sub.len() && sub[i] == x;
            assert(pool[i + 1] == x);
        }
        if contains_id(kept, c.1) {
            lemma_saturate_props(sub, kept, r);
        } else {
            let kept2 = kept.push(c);
            assert forall|i: int, j: int|
                0 <= i < j < kept2.len() implies (#[trigger] kept2[i]).1 != (
            #[trigger] kept2[j]).1 by {
                if j == kept.len() {
                    assert(kept2[j] == c);
                    assert(!contains_id(kept, c.1));
                    assert(kept[i].1 != c.1);
                }
            }
            lemma_saturate_props(sub, kept2, r);
            assert forall|x: (u128, u32)| #[trigger] out.contains(x) implies kept.contains(x)
                || pool.contains(x) by {
                if kept2.contains(x) {
                    let i = choose|i: int| 0 <= i < kept2.len() && kept2[i] == x;
                    if i < kept.len() {
                        assert(kept[i] == x);
                    } else {
                        assert(x == c);
                    }
                }
            }
        }
    }
}

/// Robust pruning is idempotent: pruning its own output changes nothing.
pub proof fn lemma_prune_core_idempotent(
    vecs: Seq<Seq<i32>>,
    alpha_x100: int,
    r: int,
    pool: Seq<(u128, u32)>,
)
    requires
        pool_sorted(pool),
        ids_distinct(pool),
    ensures
        prune_core(
            vecs,
            alpha_x100,
            r,
            prune_core(vecs, alpha_x100, r, pool),
        ) == prune_core(vecs, alpha_x100, r, pool),
{
    let out = prune_core(vecs, alpha_x100, r, pool);
    lemma_prune_core_props(vecs, alpha_x100, r, pool);
    if r >= 0 {
        lemma_prune_core_noop(vecs, alpha_x100, r, out);
    } else {
        assert(out =~= Seq::<(u128, u32)>::empty());
    }
}

/// Without saturation, the pruning rule is idempotent end to end: what a
/// prune keeps, a second prune keeps unchanged. With `saturate_graph` set
/// the refill draws discarded candidates back in, and a second pass would
/// discard and refill them again in a possibly different order, so that
/// case is left out.
pub proof fn lemma_prune_result_idempotent(
    vecs: Seq<Seq<i32>>,
    alpha_x100: int,
    r: int,
    pool: Seq<(u128, u32)>,
)
    requires
        pool_sorted(pool),
        ids_distinct(pool),
    ensures
        prune_result(
            vecs,
            alpha_x100,
            r,
            false,
            prune_result(vecs, alpha_x100, r, false, pool),
        ) == prune_result(vecs, alpha_x100, r, false, pool),
{
    lemma_prune_core_idempotent(vecs, alpha_x100, r, pool);
}

/// The ids a pool carries, in pool order.
pub open spec fn pool_ids(s: Seq<(u128, u32)>) -> Seq<u32> {
    s.map_values(|e: (u128, u32)| e.1)
}

/// `out` is what robust pruning yields for vertex `u` over the sorted,
/// deduplicated pool annotating exactly the candidates other than `u` —
/// the pool a strict order and exact distances determine uniquely.
pub open spec fn pruned_from_candidates(
    vecs: Seq<Seq<i32>>,
    alpha_x100: int,
    r: int,
    saturate: bool,
    u: u32,
    cand: Seq<u32>,
    out: Seq<u32>,
) -> bool {
    exists|pool: Seq<(u128, u32)>|
        {
            &&& pool_sorted(pool)
            &&& ids_distinct(pool)
            &&& (forall|i: int|
                0 <= i < pool.len() ==> (#[trigger] pool[i]).1 != u && pool[i].0
                    == crate::distance::l2_dist(vecs[u as int], vecs[pool[i].1 as int]))
            &&& (forall|id: u32| #[trigger] contains_id(pool, id) <==> (cand.contains(id) && id != u))
            &&& out == pool_ids(prune_result(vecs, alpha_x100, r, saturate, pool))
        }
}

/// Two strictly sorted pools carrying the same pairs are the same
/// sequence.
pub proof fn lemma_sorted_pool_unique(p1: Seq<(u128, u32)>, p2: Seq<(u128, u32)>)
    requires
        pool_sorted(p1),
        pool_sorted(p2),
        forall|x: (u128, u32)| #[trigger] p1.contains(x) ==> p2.contains(x),
        forall|x: (u128, u32)| #[trigger] p2.contains(x) ==> p1.contains(x),
    ensures
        p1 == p2,
    decreases p1.len(),
{
    if p1.len() == 0 {
        if p2.len() > 0 {
            assert(p2.contains(p2[0]));
            assert(p1.contains(p2[0]));
        }
        assert(p1 =~= p2);
    } else {
        assert(p1.contains(p1[0]));
        assert(p2.contains(p1[0]));
        let k = choose|k: int| 0 <= k < p2.len() && p2[k] == p1[0];
        assert(p2.contains(p2[0]));
        assert(p1.contains(p2[0]));
        let m = choose|m: int| 0 <= m < p1.len() && p1[m] == p2[0];
        if p1[0] != p2[0] {
            assert(k > 0);
            assert(pair_lt(p2[0], p2[k]));
            assert(m > 0);
            assert(pair_lt(p1[0], p1[m]));
            assert(false);
        }
        let t1 = p1.subrange(1, p1.len() as int);
        let t2 = p2.subrange(1, p2.len() as int);
        assert forall|x: (u128, u32)| #[trigger] t1.contains(x) implies t2.contains(x) by {
            let i = choose|i: int| 0 <= i < t1.len() && t1[i] == x;
            assert(p1[i + 1] == x);
            assert(pair_lt(p1[0], x));
            assert(p1.contains(x));
            assert(p2.contains(x));
            let w = choose|w: int| 0 <= w < p2.len() && p2[w] == x;
            assert(w > 0);
            assert(t2[w - 1] == x);
        }
        assert forall|x: (u128, u32)| #[trigger] t2.contains(x) implies t1.contains(x) by {
            let i = choose|i: int| 0 <= i < t2.len() && t2[i] == x;
            assert(p2[i + 1] == x);
            assert(pair_lt(p2[0], x));
            assert(p2.contains(x));
            assert(p1.contains(x));
            let w = choose|w: int| 0 <= w < p1.len() && p1[w] == x;
            assert(w > 0);
            assert(t1[w - 1] == x);
        }
        assert(pool_sorted(t1));
        assert(pool_sorted(t2));
        lemma_sorted_pool_unique(t1, t2);
        assert(p1.len() == p2.len());
        assert forall|i: int| 0 <= i < p1.len() implies p1[i] == p2[i] by {
            if i > 0 {
                assert(t1[i - 1] == t2[i - 1]);
            }
        }
        assert(p1 =~= p2);
    }
}

/// The annotated pool behind `pruned_from_candidates` is unique: any two
/// witnesses over the same candidates are the same sequence, so the
/// predicate pins the pruned output exactly.
pub proof fn lemma_candidate_pool_unique(
    vecs: Seq<Seq<i32>>,
    u: u32,
    cand: Seq<u32>,
    p1: Seq<(u128, u32)>,
    p2: Seq<(u128, u32)>,
)
    requires
        pool_sorted(p1),
        ids_distinct(p1),
        pool_sorted(p2),
        ids_distinct(p2),
        forall|i: int|
            0 <= i < p1.len() ==> (#[trigger] p1[i]).1 != u && p1[i].0
                == crate::distance::l2_dist(vecs[u as int], vecs[p1[i].1 as int]),
        forall|i: int|
            0 <= i < p2.len() ==> (#[trigger] p2[i]).1 != u && p2[i].0
                == crate::distance::l2_dist(vecs[u as int], vecs[p2[i].1 as int]),
        forall|id: u32| #[trigger] contains_id(p1, id) <==> (cand.contains(id) && id != u),
        forall|id: u32| #[trigger] contains_id(p2, id) <==> (cand.contains(id) && id != u),
    ensures
        p1 == p2,
{
    assert forall|x: (u128, u32)| #[trigger] p1.contains(x) implies p2.contains(x) by {
        let i = choose|i: int| 0 <= i < p1.len() && p1[i] == x;
        assert(contains_id(p1, x.1));
        assert(cand.contains(x.1) && x.1 != u);
        assert(contains_id(p2, x.1));
        let w = choose|w: int| 0 <= w < p2.len() && (#[trigger] p2[w]).1 == x.1;
        assert(p2[w] == x);
    }
    assert forall|x: (u128, u32)| #[trigger] p2.contains(x) implies p1.contains(x) by {
        let i = choose|i: int| 0 <= i < p2.len() && p2[i] == x;
        assert(contains_id(p2, x.1));
        assert(cand.contains(x.1) && x.1 != u);
        assert(contains_id(p1, x.1));
        let w = choose|w: int| 0 <= w < p1.len() && (#[trigger] p1[w]).1 == x.1;
        assert(p1[w] == x);
    }
    lemma_sorted_pool_unique(p1, p2);
}

/// Every pool entry points at an allocated, unretired vertex and carries a
/// distance a real distance computation could have produced.
pub open spec fn pool_in_range(idx: Index, pool: Seq<(u128, u32)>) -> bool {
    forall|i: int|
        0 <= i < pool.len() ==> (#[trigger] pool[i]).1 < idx.nv() && !idx.retireds()[pool[i].1 as int]
            && pool[i].0 <= crate::distance::MAX_DIST
}

impl Index {
    /// Prunes a sorted, deduplicated, annotated candidate pool down to at
    /// most `r` edges, exactly as `prune_result` states.
    pub(crate) fn robust_prune_sorted(
        &self,
        pool: &Vec<(u128, u32)>,
        r: usize,
        saturate: bool,
        alpha_x100: u32,
    ) -> (out: Vec<(u128, u32)>)
        requires
            self.wf(),
            pool_sorted(pool@),
            ids_distinct(pool@),
            pool_in_range(*self, pool@),
        ensures
            out@ == prune_result(self.vecs(), alpha_x100 as int, r as int, saturate, pool@),
    {
        proof {
            self.lemma_repr();
            crate::lemma_aligned_dim_in_range(self.cfg().dim as nat);
        }
        let nv = self.vectors.len();
        let alpha: u128 = alpha_x100 as u128;
        let ghost a = alpha_x100 as int;
        let mut out: Vec<(u128, u32)> = Vec::new();
        let mut rem: Vec<(u128, u32)> = Vec::new();
        let mut ci: usize = 0;
        while ci < pool.len()
            invariant
                ci <= pool@.len(),
                rem@ == pool@.subrange(0, ci as int),
            decreases pool@.len() - ci,
        {
            rem.push(pool[ci]);
            proof {
                assert(rem@ =~= pool@.subrange(0, ci + 1 as int));
            }
            ci = ci + 1;
        }
        proof {
            assert(rem@ =~= pool@);
        }
        while out.len() < r && rem.len() > 0
            invariant
                self.wf(),
                self.repr_eq(),
                self.cfg().aligned_dim_of() <= crate::config::MAX_DIM,
                nv == self.nv(),
                alpha == alpha_x100 as u128,
                a == alpha_x100 as int,
                out@.len() <= r,
                pool_in_range(*self, rem@),
                prune_core(self.vecs(), a, r as int, pool@) == out@ + prune_core(
                    self.vecs(),
                    a,
                    r - out@.len(),
                    rem@,
                ),
            decreases rem@.len(),
        {
            let p = rem[0];
            let ghost out0 = out@;
            let ghost rem0 = rem@;
            out.push(p);
            let mut nrem: Vec<(u128, u32)> = Vec::new();
            let mut j: usize = 1;
            proof {
                assert(rem0.subrange(1, 1) =~= Seq::<(u128, u32)>::empty());
            }
            while j < rem.len()
                invariant
                    self.wf(),
                    self.repr_eq(),
                    self.cfg().aligned_dim_of() <= crate::config::MAX_DIM,
                    nv == self.nv(),
                    alpha == alpha_x100 as u128,
                    a == alpha_x100 as int,
                    rem@ == rem0,
                    1 <= j <= rem@.len(),
                    p == rem@[0],
                    pool_in_range(*self, rem@),
                    nrem@ == drop_occluded(self.vecs(), a, p.1, rem0.subrange(1, j as int)),
                decreases rem@.len() - j,
            {
                let c = rem[j];
                proof {
                    assert(self.vecs()[p.1 as int].len() == self.cfg().aligned_dim_of());
                    assert(self.vecs()[c.1 as int].len() == self.cfg().aligned_dim_of());
                }
                let dpc = crate::distance::distance_compare(
                    self.vectors[p.1 as usize].as_slice(),
                    self.vectors[c.1 as usize].as_slice(),
                    self.config.metric,
                );
                proof {
                    assert(dpc <= crate::distance::MAX_DIST) by (nonlinear_arith)
                        requires
                            dpc <= self.cfg().aligned_dim_of() * crate::distance::MAX_SQ_DIFF,
                            self.cfg().aligned_dim_of() <= 1048576,
                    ;
                    assert(alpha * dpc <= 0xFFFF_FFFFu128 * crate::distance::MAX_DIST)
                        by (nonlinear_arith)
                        requires
                            alpha <= 0xFFFF_FFFFu128,
                            dpc <= crate::distance::MAX_DIST,
                    ;
                }
                let occluded = alpha * dpc <= 100 * c.0;
                proof {
                    assert(occluded == occludes(self.vecs(), a, p.1, c));
                    lemma_drop_occluded_snoc(
                        self.vecs(),
                        a,
                        p.1,
                        rem0.subrange(1, j as int),
                        c,
                    );
                    assert(rem0.subrange(1, j + 1 as int) =~= rem0.subrange(1, j as int).push(c));
                }
                if !occluded {
                    nrem.push(c);
                }
                j = j + 1;
            }
            proof {
                assert(rem0.subrange(1, j as int) =~= rem0.subrange(1, rem0.len() as int));
                let rest1 = drop_occluded(self.vecs(), a, p.1, rem0.subrange(1, rem0.len() as int));
                assert(nrem@ == rest1);
                assert(prune_core(self.vecs(), a, r - out0.len(), rem0) == seq![p] + prune_core(
                    self.vecs(),
                    a,
                    r - out0.len() - 1,
                    rest1,
                ));
                assert(out@ =~= out0 + seq![p]);
                assert(out0 + (seq![p] + prune_core(self.vecs(), a, r - out0.len() - 1, rest1))
                    =~= (out0 + seq![p]) + prune_core(self.vecs(), a, r - out0.len() - 1, rest1));
                lemma_drop_occluded_props(self.vecs(), a, p.1, rem0.subrange(1, rem0.len() as int));
                assert forall|i: int|
                    0 <= i < nrem@.len() implies (#[trigger] nrem@[i]).1 < self.nv()
                        && !self.retireds()[nrem@[i].1 as int] && nrem@[i].0
                        <= crate::distance::MAX_DIST by {
                    assert(nrem@.contains(nrem@[i]));
                    let sub = rem0.subrange(1, rem0.len() as int);
                    assert(sub.contains(nrem@[i]));
                    let w = choose|w: int| 0 <= w < sub.len() && sub[w] == nrem@[i];
                    assert(rem0[w + 1] == nrem@[i]);
                }
            }
            rem = nrem;
        }
        proof {
            if out@.len() >= r {
                assert(prune_core(self.vecs(), a, r - out@.len(), rem@)
                    =~= Seq::<(u128, u32)>::empty());
            } else {
                assert(rem@.len() == 0);
                assert(prune_core(self.vecs(), a, r - out@.len(), rem@)
                    =~= Seq::<(u128, u32)>::empty());
            }
            assert(out@ =~= prune_core(self.vecs(), a, r as int, pool@));
        }
        if saturate {
            let ghost core = out@;
            let plen = pool.len();
            proof {
                assert(pool@.subrange(0, plen as int) =~= pool@);
            }
            let mut i: usize = 0;
            while i < plen && out.len() < r
                invariant
                    i <= plen,
                    plen == pool@.len(),
                    out@.len() <= r,
                    saturate_fill(pool@, core, r as int) == saturate_fill(
                        pool@.subrange(i as int, plen as int),
                        out@,
                        r as int,
                    ),
                decreases plen - i,
            {
                let c = pool[i];
                let olen = out.len();
                let mut seen = false;
                let mut t: usize = 0;
                while t < olen
                    invariant
                        t <= olen,
                        olen == out@.len(),
                        c == pool@[i as int],
                        seen <==> exists|w: int| 0 <= w < t && (#[trigger] out@[w]).1 == c.1,
                    decreases olen - t,
                {
                    if out[t].1 == c.1 {
                        seen = true;
                    }
                    t = t + 1;
                }
                proof {
                    assert(seen <==> contains_id(out@, c.1));
                    let sub = pool@.subrange(i as int, plen as int);
                    assert(sub[0] == c);
                    assert(sub.subrange(1, sub.len() as int) =~= pool@.subrange(
                        i + 1 as int,
                        plen as int,
                    ));
                }
                if !seen {
                    out.push(c);
                }
                i = i + 1;
            }
            proof {
                if out@.len() >= r {
                    assert(saturate_fill(pool@.subrange(i as int, plen as int), out@, r as int)
                        == out@);
                } else {
                    assert(i == plen);
                    assert(pool@.subrange(i as int, plen as int)
                        =~= Seq::<(u128, u32)>::empty());
                }
            }
        }
        out
    }
}

} // verus!
