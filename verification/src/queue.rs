//! The best-L queue: a bounded set of search candidates kept in ascending
//! distance order, with a visited mark per entry. Ties break toward the
//! lower vertex id, so the order is strict and the queue deterministic.

use vstd::prelude::*;

verus! {

/// One search candidate: a vertex id, its distance to the query, and
/// whether the search has already expanded it.
#[derive(Clone, Copy, Debug)]
pub struct Candidate {
    pub dist: u128,
    pub id: u32,
    pub visited: bool,
}

/// Strict candidate order: by distance, then by id.
pub open spec fn cand_lt(x: Candidate, y: Candidate) -> bool {
    x.dist < y.dist || (x.dist == y.dist && x.id < y.id)
}

/// Bounded best-first queue of candidates.
pub struct CandidateQueue {
    items: Vec<Candidate>,
    limit: usize,
}

impl CandidateQueue {
    /// The entries, closest first.
    pub closed spec fn view(&self) -> Seq<Candidate> {
        self.items@
    }

    /// The bound L on the number of entries.
    pub closed spec fn limit_spec(&self) -> nat {
        self.limit as nat
    }

    /// Entries are strictly ordered and carry pairwise distinct ids, and
    /// there are at most L of them.
    pub open spec fn wf(&self) -> bool {
        &&& self.view().len() <= self.limit_spec()
        &&& 1 <= self.limit_spec()
        &&& forall|i: int, j: int|
            0 <= i < j < self.view().len() ==> cand_lt(
                #[trigger] self.view()[i],
                #[trigger] self.view()[j],
            )
        &&& forall|i: int, j: int|
            0 <= i < j < self.view().len() ==> (#[trigger] self.view()[i]).id != (
            #[trigger] self.view()[j]).id
    }

    /// An entry with this id is present.
    pub open spec fn contains_id(&self, id: u32) -> bool {
        exists|i: int| 0 <= i < self.view().len() && (#[trigger] self.view()[i]).id == id
    }

    /// An empty queue bounded by `limit`.
    pub fn new(limit: usize) -> (r: CandidateQueue)
        requires
            limit >= 1,
        ensures
            r.wf(),
            r@ =~= Seq::<Candidate>::empty(),
            r.limit_spec() == limit,
    {
        CandidateQueue { items: Vec::new(), limit }
    }

    /// Number of entries.
    pub fn len(&self) -> (r: usize)
        ensures
            r == self@.len(),
    {
        self.items.len()
    }

    /// The entry at position `i`, closest first.
    pub fn get(&self, i: usize) -> (r: Candidate)
        requires
            i < self@.len(),
        ensures
            r == self@[i as int],
    {
        self.items[i]
    }

    /// Offers a candidate. An id already present is ignored; otherwise the
    /// candidate enters at its ordered position and the worst entry leaves
    /// if the bound is exceeded. The queue never shrinks and never stays
    /// empty.
    pub fn insert(&mut self, c: Candidate)
        requires
            old(self).wf(),
            !c.visited,
        ensures
            final(self).wf(),
            final(self).limit_spec() == old(self).limit_spec(),
            old(self).contains_id(c.id) ==> final(self)@ == old(self)@,
            forall|i: int|
                0 <= i < final(self)@.len() ==> (#[trigger] final(self)@[i]) == c || old(
                    self,
                )@.contains(final(self)@[i]),
            final(self)@.len() >= old(self)@.len(),
            final(self)@.len() >= 1,
            (!old(self).contains_id(c.id) && old(self)@.len() < old(self).limit_spec())
                ==> final(self)@.len() == old(self)@.len() + 1 && final(self)@.contains(c),
            (!old(self).contains_id(c.id) && old(self)@.len() == old(self).limit_spec()) ==> ({
                &&& final(self)@.len() == old(self)@.len()
                &&& (final(self)@.contains(c) <==> cand_lt(c, old(self)@.last()))
                &&& (cand_lt(c, old(self)@.last()) ==> !final(self)@.contains(
                    old(self)@.last(),
                ))
            }),
    {
        let n = self.items.len();
        let mut i: usize = 0;
        while i < n
            invariant
                i <= n,
                n == self@.len(),
                self == old(self),
                old(self).wf(),
                forall|j: int| 0 <= j < i ==> (#[trigger] self@[j]).id != c.id,
            decreases n - i,
        {
            if self.items[i].id == c.id {
                return ;
            }
            i = i + 1;
        }
        assert(!old(self).contains_id(c.id));
        let mut pos: usize = 0;
        while pos < n && (self.items[pos].dist < c.dist || (self.items[pos].dist == c.dist
            && self.items[pos].id < c.id))
            invariant
                pos <= n,
                n == self@.len(),
                self == old(self),
                forall|j: int| 0 <= j < pos ==> cand_lt(#[trigger] self@[j], c),
            decreases n - pos,
        {
            pos = pos + 1;
        }
        proof {
            if pos < n {
                let p = self@[pos as int];
                assert(p.id != c.id);
                assert(cand_lt(c, p));
                assert forall|j: int| pos <= j < self@.len() implies cand_lt(
                    c,
                    #[trigger] self@[j],
                ) by {
                    if j > pos {
                        assert(cand_lt(self@[pos as int], self@[j]));
                    }
                }
            }
        }
        self.items.insert(pos, c);
        if self.items.len() > self.limit {
            self.items.pop();
        }
        proof {
            assert forall|i: int, j: int|
                0 <= i < j < self@.len() implies cand_lt(#[trigger] self@[i], #[trigger] self@[j])
                && self@[i].id != self@[j].id by {
                if i < pos {
                    assert(self@[i] == old(self)@[i]);
                } else if i > pos {
                    assert(self@[i] == old(self)@[i - 1]);
                }
                if j < pos {
                    assert(self@[j] == old(self)@[j]);
                } else if j > pos {
                    assert(self@[j] == old(self)@[j - 1]);
                }
            }
            assert forall|i: int|
                0 <= i < self@.len() implies (#[trigger] self@[i]) == c || old(
                self,
            )@.contains(self@[i]) by {
                if i < pos {
                    assert(self@[i] == old(self)@[i]);
                } else if i > pos {
                    assert(self@[i] == old(self)@[i - 1]);
                }
            }
            if old(self)@.len() < old(self).limit_spec() {
                assert(self@[pos as int] == c);
                assert(self@.contains(c));
            } else {
                let last = old(self)@.last();
                if pos < old(self)@.len() {
                    assert(cand_lt(c, old(self)@[pos as int]));
                    if pos < old(self)@.len() - 1 {
                        assert(cand_lt(old(self)@[pos as int], last));
                    }
                    assert(cand_lt(c, last));
                    assert(self@[pos as int] == c);
                    assert(self@.contains(c));
                    assert forall|i: int| 0 <= i < self@.len() implies (#[trigger] self@[i])
                        != last by {
                        if i < pos {
                            assert(self@[i] == old(self)@[i]);
                            assert(cand_lt(old(self)@[i], last));
                        } else if i > pos {
                            assert(self@[i] == old(self)@[i - 1]);
                            assert(cand_lt(old(self)@[i - 1], last));
                        } else {
                            assert(cand_lt(c, last));
                        }
                    }
                    assert(!self@.contains(last));
                } else {
                    assert(forall|j: int|
                        0 <= j < old(self)@.len() ==> cand_lt(#[trigger] old(self)@[j], c));
                    assert(cand_lt(last, c));
                    assert(!cand_lt(c, last));
                    assert(self@ =~= old(self)@);
                    assert forall|i: int| 0 <= i < self@.len() implies (#[trigger] self@[i])
                        != c by {
                        assert(self@[i].id != c.id);
                    }
                    assert(!self@.contains(c));
                }
            }
        }
    }

    /// Whether any entry is still unexpanded.
    pub fn has_unvisited(&self) -> (r: bool)
        ensures
            r <==> exists|i: int| 0 <= i < self@.len() && !(#[trigger] self@[i]).visited,
    {
        let n = self.items.len();
        let mut i: usize = 0;
        while i < n
            invariant
                i <= n,
                n == self@.len(),
                forall|j: int| 0 <= j < i ==> (#[trigger] self@[j]).visited,
            decreases n - i,
        {
            if !self.items[i].visited {
                return true;
            }
            i = i + 1;
        }
        false
    }

    /// Marks the closest unexpanded entry visited and hands back its
    /// distance and id; `None` when every entry is already expanded.
    pub fn pop_closest_unvisited(&mut self) -> (r: Option<(u128, u32)>)
        requires
            old(self).wf(),
        ensures
            final(self).wf(),
            final(self).limit_spec() == old(self).limit_spec(),
            r is None ==> final(self)@ == old(self)@ && (forall|i: int|
                0 <= i < old(self)@.len() ==> (#[trigger] old(self)@[i]).visited),
            r is Some ==> exists|k: int|
                {
                    &&& 0 <= k < old(self)@.len()
                    &&& !(#[trigger] old(self)@[k]).visited
                    &&& (forall|j: int| 0 <= j < k ==> (#[trigger] old(self)@[j]).visited)
                    &&& r == Some((old(self)@[k].dist, old(self)@[k].id))
                    &&& final(self)@ == old(self)@.update(
                        k,
                        Candidate { visited: true, ..old(self)@[k] },
                    )
                },
    {
        let n = self.items.len();
        let mut i: usize = 0;
        while i < n
            invariant
                i <= n,
                n == self@.len(),
                self == old(self),
                old(self).wf(),
                forall|j: int| 0 <= j < i ==> (#[trigger] self@[j]).visited,
            decreases n - i,
        {
            let c = self.items[i];
            if !c.visited {
                let updated = Candidate { dist: c.dist, id: c.id, visited: true };
                self.items.set(i, updated);
                proof {
                    assert(self@ =~= old(self)@.update(
                        i as int,
                        Candidate { visited: true, ..old(self)@[i as int] },
                    ));
                }
                return Some((c.dist, c.id));
            }
            i = i + 1;
        }
        None
    }
}

} // verus!
