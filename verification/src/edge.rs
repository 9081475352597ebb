//! The edge index: a map from world-space edges to the records of the tile
//! sides that touch them.
//!
//! An edge is an unordered pair of endpoints; it is stored with the
//! lexicographically smaller point first so that equal edges compare equal.
//! Coordinates are exact, so edge identity is exact equality of the eight
//! integer coordinates of both endpoints: two placement chains that reach
//! the same physical edge produce identical keys.
//!
//! The index keeps its entries in insertion order; every key occurs at most
//! once, so a linear scan finds the unique entry for a key.

use vstd::prelude::*;
use crate::ring::{Pt, SPt};
use crate::prototile::PrototileType;

verus! {

/// A canonical unordered pair of endpoints: `a` is lexicographically no
/// greater than `b`.
#[derive(Clone, Copy, PartialEq, Eq, Structural, Debug)]
pub struct Edge {
    pub a: Pt,
    pub b: Pt,
}

/// The mathematical value of an edge key.
pub ghost struct SEdge {
    pub a: SPt,
    pub b: SPt,
}

impl View for Edge {
    type V = SEdge;

    open spec fn view(&self) -> SEdge {
        SEdge { a: self.a@, b: self.b@ }
    }
}

/// Lexicographic order on the coordinates of a point.
pub open spec fn lex_le(a: SPt, b: SPt) -> bool {
    if a.c0 != b.c0 {
        a.c0 < b.c0
    } else if a.c1 != b.c1 {
        a.c1 < b.c1
    } else if a.c2 != b.c2 {
        a.c2 < b.c2
    } else if a.c3 != b.c3 {
        a.c3 < b.c3
    } else if a.c4 != b.c4 {
        a.c4 < b.c4
    } else if a.c5 != b.c5 {
        a.c5 < b.c5
    } else if a.c6 != b.c6 {
        a.c6 < b.c6
    } else {
        a.c7 <= b.c7
    }
}

/// The canonical key of the edge with endpoints p and q.
pub open spec fn edge_key_s(p: SPt, q: SPt) -> SEdge {
    if lex_le(p, q) {
        SEdge { a: p, b: q }
    } else {
        SEdge { a: q, b: p }
    }
}

/// The key does not depend on the order of the endpoints.
pub proof fn lemma_edge_key_symmetric(p: SPt, q: SPt)
    ensures
        edge_key_s(p, q) == edge_key_s(q, p),
{
}

/// Equal keys mean the same unordered pair of endpoints.
pub proof fn lemma_edge_key_endpoints(p: SPt, q: SPt, p2: SPt, q2: SPt)
    requires
        edge_key_s(p, q) == edge_key_s(p2, q2),
    ensures
        (p == p2 && q == q2) || (p == q2 && q == p2),
{
}

impl Edge {
    /// The canonical edge with the two given endpoints.
    pub fn new(p: Pt, q: Pt) -> (r: Edge)
        ensures
            r@ == edge_key_s(p@, q@),
    {
        let le = if p.c0 != q.c0 {
            p.c0 < q.c0
        } else if p.c1 != q.c1 {
            p.c1 < q.c1
        } else if p.c2 != q.c2 {
            p.c2 < q.c2
        } else if p.c3 != q.c3 {
            p.c3 < q.c3
        } else if p.c4 != q.c4 {
            p.c4 < q.c4
        } else if p.c5 != q.c5 {
            p.c5 < q.c5
        } else if p.c6 != q.c6 {
            p.c6 < q.c6
        } else {
            p.c7 <= q.c7
        };
        if le {
            Edge { a: p, b: q }
        } else {
            Edge { a: q, b: p }
        }
    }
}

/// One tile side touching an edge: the tile's handle, the side index and
/// the tile's prototile type.
#[derive(Clone, Copy, PartialEq, Eq, Structural, Debug)]
pub struct EdgeRecord {
    pub tile: usize,
    pub side: usize,
    pub kind: PrototileType,
}

/// The edge index: parallel vectors of unique keys and their record lists,
/// in insertion order.
pub struct EdgeIndex {
    pub edges: Vec<Edge>,
    pub recs: Vec<Vec<EdgeRecord>>,
}

impl EdgeIndex {
    /// Well-formed: parallel vectors, unique keys.
    pub open spec fn inv(self) -> bool {
        &&& self.edges@.len() == self.recs@.len()
        &&& forall|i: int, j: int|
            0 <= i < j < self.edges@.len() ==> #[trigger] self.edges@[i]@ != #[trigger] self.edges@[j]@
    }

    pub open spec fn has_key(self, k: SEdge) -> bool {
        exists|i: int| 0 <= i < self.edges@.len() && #[trigger] self.edges@[i]@ == k
    }

    pub open spec fn idx_of(self, k: SEdge) -> int {
        choose|i: int| 0 <= i < self.edges@.len() && #[trigger] self.edges@[i]@ == k
    }

    /// The records stored under key k; empty when the key is absent.
    pub open spec fn recs_at(self, k: SEdge) -> Seq<EdgeRecord> {
        if self.has_key(k) {
            self.recs@[self.idx_of(k)]@
        } else {
            Seq::<EdgeRecord>::empty()
        }
    }

    /// With unique keys, any position holding k is the position of k.
    pub proof fn lemma_idx_at(self, k: SEdge, i: int)
        requires
            self.inv(),
            0 <= i < self.edges@.len(),
            self.edges@[i]@ == k,
        ensures
            self.has_key(k),
            self.idx_of(k) == i,
            self.recs_at(k) == self.recs@[i]@,
    {
        assert(self.has_key(k));
        let j = self.idx_of(k);
        if i < j {
            assert(self.edges@[i]@ != self.edges@[j]@);
        } else if j < i {
            assert(self.edges@[j]@ != self.edges@[i]@);
        }
    }

    /// An empty index.
    pub fn new() -> (r: EdgeIndex)
        ensures
            r.inv(),
            forall|k: SEdge| !(#[trigger] r.has_key(k)),
            forall|k: SEdge| #[trigger] r.recs_at(k) == Seq::<EdgeRecord>::empty(),
    {
        let r = EdgeIndex { edges: Vec::new(), recs: Vec::new() };
        proof {
            assert forall|k: SEdge| !(#[trigger] r.has_key(k)) by {}
        }
        r
    }

    /// The position of the entry with this key, if any.
    fn find_idx(&self, e: &Edge) -> (r: Option<usize>)
        ensures
            match r {
                Some(i) => i < self.edges@.len() && self.edges@[i as int]@ == e@,
                None => !self.has_key(e@),
            },
    {
        let mut i: usize = 0;
        while i < self.edges.len()
            invariant
                i <= self.edges@.len(),
                forall|i2: int| 0 <= i2 < i ==> #[trigger] self.edges@[i2]@ != e@,
            decreases self.edges@.len() - i,
        {
            let cur = self.edges[i];
            if cur.a.c0 == e.a.c0 && cur.a.c1 == e.a.c1 && cur.a.c2 == e.a.c2 && cur.a.c3 == e.a.c3
                && cur.a.c4 == e.a.c4 && cur.a.c5 == e.a.c5 && cur.a.c6 == e.a.c6 && cur.a.c7
                == e.a.c7 && cur.b.c0 == e.b.c0 && cur.b.c1 == e.b.c1 && cur.b.c2 == e.b.c2
                && cur.b.c3 == e.b.c3 && cur.b.c4 == e.b.c4 && cur.b.c5 == e.b.c5 && cur.b.c6
                == e.b.c6 && cur.b.c7 == e.b.c7 {
                return Some(i);
            }
            i = i + 1;
        }
        None
    }

    /// The records at the canonical key of `e`, or `None` when no tile
    /// side touches that edge yet.
    pub fn find(&self, e: &Edge) -> (r: Option<Vec<EdgeRecord>>)
        requires
            self.inv(),
        ensures
            match r {
                Some(v) => self.has_key(e@) && v@ == self.recs_at(e@),
                None => !self.has_key(e@),
            },
    {
        match self.find_idx(e) {
            None => None,
            Some(i) => {
                proof {
                    self.lemma_idx_at(e@, i as int);
                }
                let inner = &self.recs[i];
                let mut out: Vec<EdgeRecord> = Vec::new();
                let mut j: usize = 0;
                while j < inner.len()
                    invariant
                        j <= inner@.len(),
                        out@ == inner@.take(j as int),
                    decreases inner@.len() - j,
                {
                    out.push(inner[j]);
                    proof {
                        assert(out@ =~= inner@.take(j + 1));
                    }
                    j = j + 1;
                }
                proof {
                    assert(out@ =~= inner@);
                }
                Some(out)
            },
        }
    }

    /// The records at the key of `e`; empty when the key is absent.
    pub fn records_of(&self, e: &Edge) -> (r: Vec<EdgeRecord>)
        requires
            self.inv(),
        ensures
            r@ == self.recs_at(e@),
    {
        match self.find(e) {
            Some(v) => v,
            None => Vec::new(),
        }
    }

    /// Append a record under the key of `e`, creating the entry if the key
    /// is new.  Entries keep their insertion order.
    pub fn add_rec(&mut self, e: &Edge, rec: EdgeRecord)
        requires
            old(self).inv(),
        ensures
            final(self).inv(),
            forall|k: SEdge| #[trigger]
                final(self).recs_at(k) == if k == e@ {
                    old(self).recs_at(k).push(rec)
                } else {
                    old(self).recs_at(k)
                },
            forall|k: SEdge| #[trigger]
                final(self).has_key(k) == (old(self).has_key(k) || k == e@),
    {
        let ghost g = *old(self);
        match self.find_idx(e) {
            Some(i) => {
                proof {
                    g.lemma_idx_at(e@, i as int);
                }
                let mut inner = self.recs.remove(i);
                inner.push(rec);
                self.recs.insert(i, inner);
                proof {
                    assert(self.recs@ =~= g.recs@.update(i as int, inner));
                    assert(self.edges@ == g.edges@);
                    assert forall|k: SEdge| #[trigger]
                        self.has_key(k) == (g.has_key(k) || k == e@) by {
                        if self.has_key(k) {
                            let j = choose|j: int|
                                0 <= j < self.edges@.len() && #[trigger] self.edges@[j]@ == k;
                            assert(g.edges@[j]@ == k);
                            assert(g.has_key(k));
                        }
                        if g.has_key(k) {
                            let j = g.idx_of(k);
                            assert(self.edges@[j]@ == k);
                        }
                    }
                    assert forall|k: SEdge| #[trigger]
                        self.recs_at(k) == if k == e@ {
                            g.recs_at(k).push(rec)
                        } else {
                            g.recs_at(k)
                        } by {
                        if self.has_key(k) {
                            let j = g.idx_of(k);
                            assert(g.edges@[j]@ == k);
                            self.lemma_idx_at(k, j);
                            if k == e@ {
                                assert(j == i) by {
                                    g.lemma_idx_at(e@, i as int);
                                }
                            } else {
                                assert(j != i) by {
                                    g.lemma_idx_at(e@, i as int);
                                }
                            }
                        }
                    }
                }
            },
            None => {
                self.edges.push(*e);
                let mut inner: Vec<EdgeRecord> = Vec::new();
                inner.push(rec);
                self.recs.push(inner);
                proof {
                    let n = g.edges@.len() as int;
                    assert(self.edges@[n]@ == e@);
                    assert forall|k: SEdge| #[trigger]
                        self.has_key(k) == (g.has_key(k) || k == e@) by {
                        if self.has_key(k) {
                            let j = choose|j: int|
                                0 <= j < self.edges@.len() && #[trigger] self.edges@[j]@ == k;
                            if j < n {
                                assert(g.edges@[j]@ == k);
                            }
                        }
                        if g.has_key(k) {
                            let j = g.idx_of(k);
                            assert(self.edges@[j]@ == k);
                        }
                    }
                    assert(self.inv()) by {
                        assert forall|i2: int, j2: int|
                            0 <= i2 < j2 < self.edges@.len() implies #[trigger] self.edges@[i2]@
                            != #[trigger] self.edges@[j2]@ by {
                            if j2 == n {
                                assert(g.edges@[i2]@ == self.edges@[i2]@);
                                assert(!g.has_key(e@));
                            }
                        }
                    }
                    assert forall|k: SEdge| #[trigger]
                        self.recs_at(k) == if k == e@ {
                            g.recs_at(k).push(rec)
                        } else {
                            g.recs_at(k)
                        } by {
                        if k == e@ {
                            self.lemma_idx_at(k, n);
                            assert(self.recs@[n]@ =~= Seq::<EdgeRecord>::empty().push(rec));
                            assert(g.recs_at(k) == Seq::<EdgeRecord>::empty());
                        } else {
                            if g.has_key(k) {
                                let j = g.idx_of(k);
                                assert(g.edges@[j]@ == k);
                                self.lemma_idx_at(k, j);
                                g.lemma_idx_at(k, j);
                            }
                        }
                    }
                }
            },
        }
    }
}

} // verus!
