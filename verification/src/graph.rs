use std::collections::HashMap;
use std::collections::VecDeque;
use vstd::prelude::*;

verus! {

broadcast use vstd::std_specs::hash::group_hash_axioms;

/// The failures a graph operation can report: a rejected self-loop, or a
/// traversal requested from a vertex the graph has never seen.
#[derive(Clone, Copy, Debug, PartialEq, Eq, Structural)]
pub enum GraphError {
    InvalidEdge,
    VertexNotFound,
}

/// How vertex identifiers are to be hashed by the store. The vector-backed
/// store never hashes, so the choice is recorded at construction and has no
/// observable effect on any query.
#[derive(Clone, Copy, Debug, PartialEq, Eq, Structural)]
pub enum HashStrategy {
    Standard,
    Seeded(u64),
}

/// Capability of an edge payload: report an integer weight, 1 by default.
pub trait Edge {
    fn weight(&self) -> isize {
        1
    }
}

impl Edge for () {
}

/// One stored adjacency record. An undirected edge between `u < v` is stored
/// as the canonical record `(u, v)` carrying the payload, plus a mirror
/// record `(v, u)` with an empty payload so that both endpoints list each
/// other as neighbours. A directed edge is a single record with a payload.
pub(crate) struct EdgeRec<E> {
    pub(crate) from: u64,
    pub(crate) to: u64,
    pub(crate) payload: Option<E>,
}

/// The storage key for an endpoint pair: an undirected edge is keyed
/// (min, max); a directed edge is keyed exactly as given.
pub open spec fn canon_pair(directed: bool, u: u64, v: u64) -> (u64, u64) {
    if !directed && u > v {
        (v, u)
    } else {
        (u, v)
    }
}

/// An in-memory graph over `u64` vertex identifiers with caller-supplied
/// edge payloads, directed or undirected as fixed at construction.
pub struct Graph<E: Edge> {
    pub(crate) verts: Vec<u64>,
    pub(crate) recs: Vec<EdgeRec<E>>,
    pub(crate) directed: bool,
    pub(crate) strategy: HashStrategy,
}

impl<E: Edge> Graph<E> {
    pub closed spec fn spec_directed(self) -> bool {
        self.directed
    }

    pub closed spec fn spec_strategy(self) -> HashStrategy {
        self.strategy
    }

    /// How many vertices have been registered.
    pub closed spec fn spec_vertex_count(self) -> nat {
        self.verts@.len()
    }

    pub closed spec fn has_vertex(self, v: u64) -> bool {
        self.verts@.contains(v)
    }

    pub closed spec fn spec_canon(self, u: u64, v: u64) -> (u64, u64) {
        canon_pair(self.directed, u, v)
    }

    /// The first stored record keyed by the ordered pair (u, v), if any.
    pub(crate) closed spec fn find_rec(recs: Seq<EdgeRec<E>>, u: u64, v: u64) -> Option<EdgeRec<E>>
        decreases recs.len(),
    {
        if recs.len() == 0 {
            None
        } else if recs[0].from == u && recs[0].to == v {
            Some(recs[0])
        } else {
            Self::find_rec(recs.drop_first(), u, v)
        }
    }

    /// The stored slot for the ordered pair (u, v): `None` when no record is
    /// keyed by it, `Some(payload)` otherwise. A mirror record's slot is
    /// `Some(None)`.
    pub closed spec fn spec_slot(self, u: u64, v: u64) -> Option<Option<E>> {
        match Self::find_rec(self.recs@, u, v) {
            Some(r) => Some(r.payload),
            None => None,
        }
    }

    /// Whether the ordered pair (u, v) is keyed at all, payload or mirror:
    /// v appears in u's adjacency.
    pub closed spec fn has_slot(self, u: u64, v: u64) -> bool {
        self.spec_slot(u, v) is Some
    }

    /// The payload an edge query for (u, v) observes, after canonicalization.
    pub closed spec fn edge_of(self, u: u64, v: u64) -> Option<E> {
        let c = self.spec_canon(u, v);
        match self.spec_slot(c.0, c.1) {
            Some(p) => p,
            None => None,
        }
    }

    /// Two distinct vertices joined by an edge, in the direction the graph's
    /// directedness admits.
    pub open spec fn adjacent(self, u: u64, v: u64) -> bool {
        u != v && self.edge_of(u, v) is Some
    }

    /// A non-empty vertex sequence whose consecutive pairs are all edges.
    pub open spec fn is_path(self, p: Seq<u64>) -> bool {
        p.len() >= 1 && forall|i: int|
            #![trigger p[i]]
            0 <= i < p.len() - 1 ==> self.adjacent(p[i], p[i + 1])
    }

    /// t can be reached from s by following edges (trivially, t == s).
    pub open spec fn reachable(self, s: u64, t: u64) -> bool {
        exists|p: Seq<u64>| self.is_path(p) && p.first() == s && p.last() == t
    }

    /// Every record joins two distinct registered vertices; a directed graph
    /// stores payloads everywhere, an undirected one exactly at (min, max).
    pub(crate) closed spec fn recs_wf(self) -> bool {
        forall|j: int| 0 <= j < self.recs@.len() ==> {
            let r = #[trigger] self.recs@[j];
            &&& r.from != r.to
            &&& self.verts@.contains(r.from)
            &&& self.verts@.contains(r.to)
            &&& (self.directed ==> r.payload is Some)
            &&& (!self.directed ==> (r.payload is Some <==> r.from < r.to))
        }
    }

    /// No ordered pair is keyed twice.
    pub(crate) closed spec fn recs_distinct(self) -> bool {
        forall|i: int, j: int|
            #![trigger self.recs@[i], self.recs@[j]]
            0 <= i < j < self.recs@.len() ==> !(self.recs@[i].from == self.recs@[j].from
                && self.recs@[i].to == self.recs@[j].to)
    }

    /// In an undirected graph every record has its reverse record.
    pub(crate) closed spec fn mirrors_wf(self) -> bool {
        !self.directed ==> forall|j: int| 0 <= j < self.recs@.len() ==> self.has_slot(
            (#[trigger] self.recs@[j]).to,
            self.recs@[j].from,
        )
    }

    /// The store's invariant: constructors establish it, every operation
    /// preserves it.
    pub closed spec fn wf(self) -> bool {
        &&& self.verts@.no_duplicates()
        &&& self.recs_wf()
        &&& self.recs_distinct()
        &&& self.mirrors_wf()
    }

    proof fn lemma_find_rec_exists(recs: Seq<EdgeRec<E>>, u: u64, v: u64)
        ensures
            (Self::find_rec(recs, u, v) is Some) <==> (exists|j: int|
                0 <= j < recs.len() && (#[trigger] recs[j]).from == u && recs[j].to == v),
            Self::find_rec(recs, u, v) matches Some(r) ==> exists|j: int|
                0 <= j < recs.len() && #[trigger] recs[j] == r && r.from == u && r.to == v,
        decreases recs.len(),
    {
        if recs.len() > 0 {
            if recs[0].from == u && recs[0].to == v {
                assert(recs[0].from == u && recs[0].to == v);
            } else {
                Self::lemma_find_rec_exists(recs.drop_first(), u, v);
                if exists|j: int| 0 <= j < recs.len() && (#[trigger] recs[j]).from == u
                    && recs[j].to == v {
                    let j = choose|j: int|
                        0 <= j < recs.len() && (#[trigger] recs[j]).from == u && recs[j].to == v;
                    assert(recs.drop_first()[j - 1] == recs[j]);
                }
                if Self::find_rec(recs, u, v) is Some {
                    let r = Self::find_rec(recs, u, v).unwrap();
                    let j = choose|j: int|
                        0 <= j < recs.drop_first().len() && #[trigger] recs.drop_first()[j] == r
                            && r.from == u && r.to == v;
                    assert(recs[j + 1] == recs.drop_first()[j]);
                }
            }
        }
    }

    proof fn lemma_find_rec_at(recs: Seq<EdgeRec<E>>, u: u64, v: u64, j: int)
        requires
            0 <= j < recs.len(),
            recs[j].from == u && recs[j].to == v,
            forall|k: int| 0 <= k < j ==> !((#[trigger] recs[k]).from == u && recs[k].to == v),
        ensures
            Self::find_rec(recs, u, v) == Some(recs[j]),
        decreases recs.len(),
    {
        if j == 0 {
        } else {
            assert(!(recs[0].from == u && recs[0].to == v));
            assert(recs.drop_first()[j - 1] == recs[j]);
            assert forall|k: int| 0 <= k < j - 1 implies !((#[trigger] recs.drop_first()[k]).from
                == u && recs.drop_first()[k].to == v) by {
                assert(recs.drop_first()[k] == recs[k + 1]);
            }
            Self::lemma_find_rec_at(recs.drop_first(), u, v, j - 1);
        }
    }

    proof fn lemma_find_rec_push(recs: Seq<EdgeRec<E>>, r: EdgeRec<E>, u: u64, v: u64)
        ensures
            Self::find_rec(recs.push(r), u, v) == (if Self::find_rec(recs, u, v) is Some {
                Self::find_rec(recs, u, v)
            } else if r.from == u && r.to == v {
                Some(r)
            } else {
                None::<EdgeRec<E>>
            }),
        decreases recs.len(),
    {
        if recs.len() == 0 {
            assert(recs.push(r)[0] == r);
            assert(recs.push(r).drop_first() =~= Seq::<EdgeRec<E>>::empty());
            assert(Self::find_rec(recs, u, v) is None);
            if r.from == u && r.to == v {
                assert(Self::find_rec(recs.push(r), u, v) == Some(r));
            } else {
                assert(Self::find_rec(recs.push(r), u, v) == Self::find_rec(
                    recs.push(r).drop_first(),
                    u,
                    v,
                ));
            }
        } else {
            assert(recs.push(r)[0] == recs[0]);
            assert(recs.push(r).drop_first() =~= recs.drop_first().push(r));
            Self::lemma_find_rec_push(recs.drop_first(), r, u, v);
            if recs[0].from == u && recs[0].to == v {
                assert(Self::find_rec(recs.push(r), u, v) == Some(recs[0]));
                assert(Self::find_rec(recs, u, v) == Some(recs[0]));
            } else {
                assert(Self::find_rec(recs.push(r), u, v) == Self::find_rec(
                    recs.drop_first().push(r),
                    u,
                    v,
                ));
                assert(Self::find_rec(recs, u, v) == Self::find_rec(recs.drop_first(), u, v));
            }
        }
    }

    /// Creates an empty graph with the given directedness and the standard
    /// hashing strategy.
    pub fn new(directed: bool) -> (g: Graph<E>)
        ensures
            g.wf(),
            g.spec_directed() == directed,
            g.spec_strategy() == HashStrategy::Standard,
            g.spec_vertex_count() == 0,
            forall|v: u64| !g.has_vertex(v),
            forall|u: u64, v: u64| g.edge_of(u, v) is None,
    {
        Self::new_with_hasher(directed, HashStrategy::Standard)
    }

    /// Creates an empty graph carrying an explicit hashing strategy, for
    /// callers that tune how vertex identifiers would be hashed. The strategy
    /// does not affect behaviour.
    pub fn new_with_hasher(directed: bool, strategy: HashStrategy) -> (g: Graph<E>)
        ensures
            g.wf(),
            g.spec_directed() == directed,
            g.spec_strategy() == strategy,
            g.spec_vertex_count() == 0,
            forall|v: u64| !g.has_vertex(v),
            forall|u: u64, v: u64| g.edge_of(u, v) is None,
    {
        let g = Graph { verts: Vec::new(), recs: Vec::new(), directed, strategy };
        proof {
            assert(forall|v: u64| !g.verts@.contains(v));
            assert(forall|u: u64, v: u64| Self::find_rec(g.recs@, u, v) is None);
        }
        g
    }

    fn contains_vertex(&self, v: u64) -> (r: bool)
        ensures
            r == self.has_vertex(v),
    {
        let n: usize = self.verts.len();
        let mut i: usize = 0;
        while i < n
            invariant
                i <= n,
                n == self.verts@.len(),
                forall|k: int| 0 <= k < i ==> self.verts@[k] != v,
            decreases n - i,
    {
            if self.verts[i] == v {
                return true;
            }
            i += 1;
        }
        false
    }

    fn ensure_vertex(&mut self, v: u64)
        requires
            old(self).wf(),
        ensures
            final(self).wf(),
            final(self).recs@ == old(self).recs@,
            final(self).directed == old(self).directed,
            final(self).strategy == old(self).strategy,
            old(self).has_vertex(v) ==> final(self).verts@ == old(self).verts@,
            !old(self).has_vertex(v) ==> final(self).verts@ == old(self).verts@.push(v),
            forall|w: u64| final(self).has_vertex(w) <==> (old(self).has_vertex(w) || w == v),
    {
        if !self.contains_vertex(v) {
            self.verts.push(v);
            proof {
                let nv = self.verts@;
                let ov = old(self).verts@;
                assert forall|w: u64| nv.contains(w) <==> (ov.contains(w) || w == v) by {
                    if ov.contains(w) {
                        let k = choose|k: int| 0 <= k < ov.len() && ov[k] == w;
                        assert(nv[k] == w);
                    }
                    if w == v {
                        assert(nv[nv.len() - 1] == w);
                    }
                    if nv.contains(w) {
                        let k = choose|k: int| 0 <= k < nv.len() && nv[k] == w;
                        if k < ov.len() {
                            assert(ov[k] == w);
                        }
                    }
                }
                assert(nv.no_duplicates()) by {
                    assert forall|i: int, j: int|
                        0 <= i < j < nv.len() implies nv[i] != nv[j] by {
                        if j < ov.len() {
                            assert(ov[i] == nv[i] && ov[j] == nv[j]);
                        } else {
                            assert(nv[j] == v);
                            assert(ov[i] == nv[i]);
                            assert(!ov.contains(v));
                        }
                    }
                }
            }
        }
    }

    /// Registers v, creating its (empty) adjacency lazily; idempotent.
    pub fn add_vertex(&mut self, v: u64)
        requires
            old(self).wf(),
        ensures
            final(self).wf(),
            final(self).spec_directed() == old(self).spec_directed(),
            final(self).spec_strategy() == old(self).spec_strategy(),
            forall|w: u64| final(self).has_vertex(w) <==> (old(self).has_vertex(w) || w == v),
            final(self).spec_vertex_count() == old(self).spec_vertex_count() + (if old(
                self,
            ).has_vertex(v) {
                0int
            } else {
                1int
            }),
            forall|x: u64, y: u64| final(self).spec_slot(x, y) == old(self).spec_slot(x, y),
            forall|x: u64, y: u64| final(self).edge_of(x, y) == old(self).edge_of(x, y),
    {
        self.ensure_vertex(v);
    }

    fn find_slot_idx(&self, u: u64, v: u64) -> (r: Option<usize>)
        ensures
            match r {
                Some(j) => j < self.recs@.len() && self.recs@[j as int].from == u
                    && self.recs@[j as int].to == v && Self::find_rec(self.recs@, u, v) == Some(
                    self.recs@[j as int],
                ),
                None => Self::find_rec(self.recs@, u, v) is None,
            },
    {
        let n: usize = self.recs.len();
        let mut i: usize = 0;
        while i < n
            invariant
                i <= n,
                n == self.recs@.len(),
                forall|k: int| 0 <= k < i ==> !((#[trigger] self.recs@[k]).from == u
                    && self.recs@[k].to == v),
            decreases n - i,
        {
            if self.recs[i].from == u && self.recs[i].to == v {
                proof {
                    Self::lemma_find_rec_at(self.recs@, u, v, i as int);
                }
                return Some(i);
            }
            i += 1;
        }
        proof {
            Self::lemma_find_rec_exists(self.recs@, u, v);
        }
        None
    }

    /// How one appended record moves every slot: only its own key changes,
    /// and only when that key was free.
    proof fn lemma_push_slot(pre: Graph<E>, post: Graph<E>, r: EdgeRec<E>)
        requires
            post.recs@ == pre.recs@.push(r),
        ensures
            forall|x: u64, y: u64|
                #![trigger post.spec_slot(x, y)]
                !(x == r.from && y == r.to) ==> post.spec_slot(x, y) == pre.spec_slot(x, y),
            pre.spec_slot(r.from, r.to) is Some ==> post.spec_slot(r.from, r.to) == pre.spec_slot(
                r.from,
                r.to,
            ),
            pre.spec_slot(r.from, r.to) is None ==> post.spec_slot(r.from, r.to) == Some(r.payload),
    {
        assert forall|x: u64, y: u64| #![trigger post.spec_slot(x, y)] true implies {
            &&& (!(x == r.from && y == r.to) ==> post.spec_slot(x, y) == pre.spec_slot(x, y))
            &&& (pre.spec_slot(x, y) is Some ==> post.spec_slot(x, y) == pre.spec_slot(x, y))
            &&& ((x == r.from && y == r.to && pre.spec_slot(x, y) is None) ==> post.spec_slot(x, y)
                == Some(r.payload))
        } by {
            Self::lemma_find_rec_push(pre.recs@, r, x, y);
        }
    }

    /// A keyed slot is between distinct registered vertices, and carries a
    /// payload exactly where the storage scheme places one.
    proof fn lemma_slot_payload(self, u: u64, v: u64)
        requires
            self.wf(),
            self.has_slot(u, v),
        ensures
            u != v,
            self.has_vertex(u),
            self.has_vertex(v),
            self.directed ==> self.spec_slot(u, v) == Some(self.spec_slot(u, v).unwrap())
                && self.spec_slot(u, v).unwrap() is Some,
            !self.directed ==> (self.spec_slot(u, v).unwrap() is Some <==> u < v),
    {
        Self::lemma_find_rec_exists(self.recs@, u, v);
        let r = Self::find_rec(self.recs@, u, v).unwrap();
        let j = choose|j: int|
            0 <= j < self.recs@.len() && #[trigger] self.recs@[j] == r && r.from == u && r.to == v;
        assert(self.recs@[j].from != self.recs@[j].to);
    }

    /// Inserts an edge between distinct vertices, registering both endpoints;
    /// a repeated insertion of the same canonical edge keeps the payload
    /// already stored. A self-loop is rejected with no effect at all.
    pub fn add_edge(&mut self, uv: (u64, u64), e: E) -> (r: Result<(), GraphError>)
        requires
            old(self).wf(),
        ensures
            final(self).wf(),
            final(self).spec_directed() == old(self).spec_directed(),
            final(self).spec_strategy() == old(self).spec_strategy(),
            (r is Err) <==> uv.0 == uv.1,
            r is Err ==> r == Err::<(), GraphError>(GraphError::InvalidEdge) && *final(self)
                == *old(self),
            r is Ok ==> forall|w: u64|
                final(self).has_vertex(w) <==> (old(self).has_vertex(w) || w == uv.0 || w == uv.1),
            r is Ok ==> final(self).spec_vertex_count() == old(self).spec_vertex_count() + (if old(
                self,
            ).has_vertex(uv.0) {
                0int
            } else {
                1int
            }) + (if old(self).has_vertex(uv.1) {
                0int
            } else {
                1int
            }),
            r is Ok ==> final(self).edge_of(uv.0, uv.1) == (if old(self).edge_of(uv.0, uv.1)
                is Some {
                old(self).edge_of(uv.0, uv.1)
            } else {
                Some(e)
            }),
            r is Ok ==> forall|x: u64, y: u64|
                #![trigger final(self).edge_of(x, y)]
                final(self).spec_canon(x, y) != final(self).spec_canon(uv.0, uv.1)
                    ==> final(self).edge_of(x, y) == old(self).edge_of(x, y),
            r is Ok && final(self).spec_directed() ==> final(self).edge_of(uv.1, uv.0)
                == old(self).edge_of(uv.1, uv.0),
            !final(self).spec_directed() ==> final(self).edge_of(uv.1, uv.0)
                == final(self).edge_of(uv.0, uv.1),
    {
        let (u, v) = uv;
        if u == v {
            return Err(GraphError::InvalidEdge);
        }
        let a: u64;
        let b: u64;
        if !self.directed && u > v {
            a = v;
            b = u;
        } else {
            a = u;
            b = v;
        }
        proof {
            assert(old(self).spec_canon(u, v) == (a, b));
            assert(!old(self).directed ==> a < b);
        }
        self.ensure_vertex(a);
        self.ensure_vertex(b);
        let ghost s0 = *old(self);
        let ghost s2 = *self;
        let ghost mrec = EdgeRec { from: b, to: a, payload: None::<E> };
        let ghost e0 = e;
        let canon_present: bool = self.find_slot_idx(a, b).is_some();
        if !self.directed {
            let mirror_present: bool = self.find_slot_idx(b, a).is_some();
            if !mirror_present {
                self.recs.push(EdgeRec { from: b, to: a, payload: None });
            }
        }
        let ghost s3 = *self;
        proof {
            assert(s3.recs@ == s2.recs@ || (s3.recs@ == s2.recs@.push(mrec) && s2.spec_slot(b, a)
                is None && !s2.directed));
            assert(!s2.directed ==> (s2.spec_slot(b, a) is Some || s3.recs@ == s2.recs@.push(
                mrec,
            )));
            if s3.recs@ == s2.recs@ {
                assert(forall|x: u64, y: u64| #[trigger]
                    s3.spec_slot(x, y) == s2.spec_slot(x, y));
            } else {
                Self::lemma_push_slot(s2, s3, mrec);
            }
            // in every case the (a, b) slot is untouched so far
            assert(s3.spec_slot(a, b) == s2.spec_slot(a, b));
            assert(canon_present == (s2.spec_slot(a, b) is Some));
        }
        if !canon_present {
            self.recs.push(EdgeRec { from: a, to: b, payload: Some(e) });
        }
        let ghost s4 = *self;
        let ghost crec = EdgeRec { from: a, to: b, payload: Some(e0) };
        proof {
            if s4.recs@ == s3.recs@ {
                assert(forall|x: u64, y: u64| #[trigger]
                    s4.spec_slot(x, y) == s3.spec_slot(x, y));
            } else {
                assert(s4.recs@ == s3.recs@.push(crec));
                Self::lemma_push_slot(s3, s4, crec);
            }
            // the canonical slot now holds the first payload stored
            assert(s4.spec_slot(a, b) == (if s2.spec_slot(a, b) is Some {
                s2.spec_slot(a, b)
            } else {
                Some(Some(e0))
            }));
            // every key but (a, b) and (b, a) is untouched
            assert forall|x: u64, y: u64|
                #![trigger s4.spec_slot(x, y)]
                !(x == a && y == b) && !(x == b && y == a) implies s4.spec_slot(x, y)
                == s2.spec_slot(x, y) by {}
            // slots only ever grow
            assert forall|x: u64, y: u64|
                #![trigger s2.spec_slot(x, y)]
                s2.spec_slot(x, y) is Some implies s4.spec_slot(x, y) == s2.spec_slot(x, y) by {}
            assert(!s4.directed ==> s4.spec_slot(b, a) is Some);

            // the invariant holds again
            assert(s4.verts@ == s2.verts@);
            assert(s4.recs_wf()) by {
                assert forall|j: int| 0 <= j < s4.recs@.len() implies {
                    let r = #[trigger] s4.recs@[j];
                    &&& r.from != r.to
                    &&& s4.verts@.contains(r.from)
                    &&& s4.verts@.contains(r.to)
                    &&& (s4.directed ==> r.payload is Some)
                    &&& (!s4.directed ==> (r.payload is Some <==> r.from < r.to))
                } by {
                    if j < s2.recs@.len() {
                        assert(s4.recs@[j] == s2.recs@[j]);
                        assert(s2.verts@.contains(s2.recs@[j].from));
                    } else {
                        assert(s4.recs@[j] == mrec || s4.recs@[j] == crec);
                        assert(s2.has_vertex(a) && s2.has_vertex(b));
                    }
                }
            }
            assert(s4.recs_distinct()) by {
                assert forall|i: int, j: int|
                    #![trigger s4.recs@[i], s4.recs@[j]]
                    0 <= i < j < s4.recs@.len() implies !(s4.recs@[i].from == s4.recs@[j].from
                    && s4.recs@[i].to == s4.recs@[j].to) by {
                    if j < s2.recs@.len() {
                        assert(s4.recs@[i] == s2.recs@[i] && s4.recs@[j] == s2.recs@[j]);
                    } else {
                        if s4.recs@[j] == mrec && s3.recs@ != s2.recs@ {
                            // the mirror key was free in s2
                            Self::lemma_find_rec_exists(s2.recs@, b, a);
                            if i < s2.recs@.len() {
                                assert(s4.recs@[i] == s2.recs@[i]);
                            }
                        }
                        if s4.recs@[j] == crec && s4.recs@ != s3.recs@ {
                            // the canonical key was free in s3
                            Self::lemma_find_rec_exists(s3.recs@, a, b);
                            assert(s3.spec_slot(a, b) is None);
                            if i < s3.recs@.len() {
                                assert(s4.recs@[i] == s3.recs@[i]);
                            }
                        }
                    }
                }
            }
            assert(s4.mirrors_wf()) by {
                if !s4.directed {
                    assert forall|j: int| 0 <= j < s4.recs@.len() implies s4.has_slot(
                        (#[trigger] s4.recs@[j]).to,
                        s4.recs@[j].from,
                    ) by {
                        if j < s2.recs@.len() {
                            assert(s4.recs@[j] == s2.recs@[j]);
                            assert(s2.has_slot(s2.recs@[j].to, s2.recs@[j].from));
                        } else if s4.recs@[j] == mrec {
                            assert(s4.spec_slot(a, b) is Some);
                        } else {
                            assert(s4.recs@[j] == crec);
                            assert(s4.spec_slot(b, a) is Some);
                        }
                    }
                }
            }
            assert(s4.wf());

            // the stated edge results
            assert(s4.spec_canon(u, v) == (a, b));
            assert(s2.spec_slot(a, b) == s0.spec_slot(a, b));
            if s0.spec_slot(a, b) is Some {
                s0.lemma_slot_payload(a, b);
                assert(s0.edge_of(u, v) == s0.spec_slot(a, b).unwrap());
                assert(s0.edge_of(u, v) is Some);
            } else {
                assert(s0.edge_of(u, v) is None);
                assert(s4.edge_of(u, v) == Some(e0));
            }
            assert forall|x: u64, y: u64|
                #![trigger s4.edge_of(x, y)]
                s4.spec_canon(x, y) != s4.spec_canon(u, v) implies s4.edge_of(x, y) == s0.edge_of(
                x,
                y,
            ) by {
                let c = s4.spec_canon(x, y);
                assert(c == s0.spec_canon(x, y));
                if !s4.directed {
                    assert(c.0 <= c.1);
                    assert(!(c.0 == b && c.1 == a));
                } else {
                    assert(s3.recs@ == s2.recs@);
                    assert(s4.spec_slot(c.0, c.1) == s2.spec_slot(c.0, c.1));
                }
                assert(s4.spec_slot(c.0, c.1) == s2.spec_slot(c.0, c.1));
            }
            if s4.directed {
                assert(s4.spec_canon(v, u) == (v, u));
                assert(s4.spec_canon(v, u) != s4.spec_canon(u, v));
            } else {
                assert(s4.spec_canon(v, u) == s4.spec_canon(u, v));
            }
        }
        Ok(())
    }

    /// Looks the edge (u, v) up, canonicalizing exactly as insertion does;
    /// a mirror record never reports a payload.
    pub fn find_edge(&self, uv: (u64, u64)) -> (r: Option<&E>)
        ensures
            match r {
                Some(p) => self.edge_of(uv.0, uv.1) == Some(*p),
                None => self.edge_of(uv.0, uv.1) is None,
            },
    {
        let (a, b) = if !self.directed && uv.0 > uv.1 {
            (uv.1, uv.0)
        } else {
            (uv.0, uv.1)
        };
        proof {
            assert(self.spec_canon(uv.0, uv.1) == (a, b));
        }
        match self.find_slot_idx(a, b) {
            Some(j) => {
                match &self.recs[j].payload {
                    Some(p) => Some(p),
                    None => None,
                }
            },
            None => None,
        }
    }
}

/// The payload that the earliest applicable item of an edge list stores at
/// the canonical key of (x, y): the first non-self-loop item whose endpoint
/// pair canonicalizes the same way, if any.
pub open spec fn first_payload<E>(
    items: Seq<((u64, u64), E)>,
    directed: bool,
    x: u64,
    y: u64,
) -> Option<E>
    decreases items.len(),
{
    if items.len() == 0 {
        None
    } else if items[0].0.0 != items[0].0.1 && canon_pair(directed, items[0].0.0, items[0].0.1)
        == canon_pair(directed, x, y) {
        Some(items[0].1)
    } else {
        first_payload(items.drop_first(), directed, x, y)
    }
}

/// Whether some non-self-loop item of an edge list names x as an endpoint.
pub open spec fn list_mentions<E>(items: Seq<((u64, u64), E)>, x: u64) -> bool {
    exists|i: int|
        0 <= i < items.len() && (#[trigger] items[i]).0.0 != items[i].0.1 && (items[i].0.0 == x
            || items[i].0.1 == x)
}

proof fn lemma_first_payload_push<E>(
    items: Seq<((u64, u64), E)>,
    it: ((u64, u64), E),
    directed: bool,
    x: u64,
    y: u64,
)
    ensures
        first_payload(items.push(it), directed, x, y) == (if first_payload(items, directed, x, y)
            is Some {
            first_payload(items, directed, x, y)
        } else if it.0.0 != it.0.1 && canon_pair(directed, it.0.0, it.0.1) == canon_pair(
            directed,
            x,
            y,
        ) {
            Some(it.1)
        } else {
            None::<E>
        }),
    decreases items.len(),
{
    if items.len() == 0 {
        assert(items.push(it)[0] == it);
        assert(items.push(it).drop_first() =~= Seq::<((u64, u64), E)>::empty());
        assert(first_payload(items, directed, x, y) == None::<E>);
        if it.0.0 != it.0.1 && canon_pair(directed, it.0.0, it.0.1) == canon_pair(directed, x, y) {
            assert(first_payload(items.push(it), directed, x, y) == Some(it.1));
        } else {
            assert(first_payload(items.push(it), directed, x, y) == first_payload(
                items.push(it).drop_first(),
                directed,
                x,
                y,
            ));
        }
    } else {
        assert(items.push(it)[0] == items[0]);
        assert(items.push(it).drop_first() =~= items.drop_first().push(it));
        lemma_first_payload_push(items.drop_first(), it, directed, x, y);
        if items[0].0.0 != items[0].0.1 && canon_pair(directed, items[0].0.0, items[0].0.1)
            == canon_pair(directed, x, y) {
            assert(first_payload(items.push(it), directed, x, y) == Some(items[0].1));
            assert(first_payload(items, directed, x, y) == Some(items[0].1));
        } else {
            assert(first_payload(items.push(it), directed, x, y) == first_payload(
                items.drop_first().push(it),
                directed,
                x,
                y,
            ));
            assert(first_payload(items, directed, x, y) == first_payload(
                items.drop_first(),
                directed,
                x,
                y,
            ));
        }
    }
}

proof fn lemma_list_mentions_push<E>(items: Seq<((u64, u64), E)>, it: ((u64, u64), E), x: u64)
    ensures
        list_mentions(items.push(it), x) <==> (list_mentions(items, x) || (it.0.0 != it.0.1 && (
        it.0.0 == x || it.0.1 == x))),
{
    let ext = items.push(it);
    if list_mentions(items, x) {
        let i = choose|i: int|
            0 <= i < items.len() && (#[trigger] items[i]).0.0 != items[i].0.1 && (items[i].0.0 == x
                || items[i].0.1 == x);
        assert(ext[i] == items[i]);
    }
    if it.0.0 != it.0.1 && (it.0.0 == x || it.0.1 == x) {
        assert(ext[items.len() as int] == it);
    }
    if list_mentions(ext, x) {
        let i = choose|i: int|
            0 <= i < ext.len() && (#[trigger] ext[i]).0.0 != ext[i].0.1 && (ext[i].0.0 == x
                || ext[i].0.1 == x);
        if i < items.len() {
            assert(items[i] == ext[i]);
        } else {
            assert(ext[i] == it);
        }
    }
}

impl<E: Edge> Graph<E> {
    /// Applies `add_edge` to each item in order; a later duplicate of the
    /// same canonical edge is a no-op and a self-loop item is skipped, each
    /// endpoint pair keeping the first payload the list gave it.
    pub fn add_edge_list(&mut self, list: Vec<((u64, u64), E)>)
        requires
            old(self).wf(),
        ensures
            final(self).wf(),
            final(self).spec_directed() == old(self).spec_directed(),
            final(self).spec_strategy() == old(self).spec_strategy(),
            forall|w: u64|
                final(self).has_vertex(w) <==> (old(self).has_vertex(w) || list_mentions(
                    list@,
                    w,
                )),
            forall|x: u64, y: u64|
                #![trigger final(self).edge_of(x, y)]
                final(self).edge_of(x, y) == (if old(self).edge_of(x, y) is Some {
                    old(self).edge_of(x, y)
                } else {
                    first_payload(list@, old(self).spec_directed(), x, y)
                }),
    {
        let ghost orig = list@;
        let ghost s0 = *old(self);
        let ghost dir = s0.spec_directed();
        let mut items = list;
        while items.len() > 0
            invariant
                self.wf(),
                self.spec_directed() == dir,
                self.spec_strategy() == s0.spec_strategy(),
                items@.len() <= orig.len(),
                items@ == orig.skip(orig.len() - items@.len()),
                forall|w: u64|
                    #![trigger self.has_vertex(w)]
                    self.has_vertex(w) <==> (s0.has_vertex(w) || list_mentions(
                        orig.take(orig.len() - items@.len()),
                        w,
                    )),
                forall|x: u64, y: u64|
                    #![trigger self.edge_of(x, y)]
                    self.edge_of(x, y) == (if s0.edge_of(x, y) is Some {
                        s0.edge_of(x, y)
                    } else {
                        first_payload(orig.take(orig.len() - items@.len()), dir, x, y)
                    }),
            decreases items@.len(),
        {
            let ghost k = orig.len() - items@.len();
            proof {
                assert(items@[0] == orig[k as int]);
            }
            let (pair, e) = items.remove(0);
            proof {
                assert(items@ =~= orig.skip(k as int + 1));
            }
            let ghost prev = *self;
            let ghost it = orig[k as int];
            let _r = self.add_edge(pair, e);
            proof {
                assert(orig.len() - items@.len() == k + 1);
                assert(orig.take(k as int + 1) =~= orig.take(k as int).push(it));
                assert forall|w: u64| self.has_vertex(w) <==> (s0.has_vertex(w) || list_mentions(
                    orig.take(orig.len() - items@.len()),
                    w,
                )) by {
                    assert(orig.take(orig.len() - items@.len()) == orig.take(k as int + 1));
                    lemma_list_mentions_push(orig.take(k as int), it, w);
                    assert(prev.has_vertex(w) <==> (s0.has_vertex(w) || list_mentions(
                        orig.take(k as int),
                        w,
                    )));
                    if it.0.0 != it.0.1 {
                        assert(self.has_vertex(w) <==> (prev.has_vertex(w) || w == it.0.0 || w
                            == it.0.1));
                    } else {
                        assert(*self == prev);
                    }
                }
                assert forall|x: u64, y: u64| #![trigger self.edge_of(x, y)] true implies self
                    .edge_of(x, y) == (if s0.edge_of(x, y) is Some {
                    s0.edge_of(x, y)
                } else {
                    first_payload(orig.take(k as int + 1), dir, x, y)
                }) by {
                    lemma_first_payload_push(orig.take(k as int), it, dir, x, y);
                    if it.0.0 != it.0.1 {
                        // the applied insertion touched exactly the canonical key of `it`
                        if self.spec_canon(x, y) == self.spec_canon(it.0.0, it.0.1) {
                            assert(self.edge_of(x, y) == self.edge_of(it.0.0, it.0.1));
                            assert(prev.edge_of(x, y) == prev.edge_of(it.0.0, it.0.1));
                            assert(canon_pair(dir, it.0.0, it.0.1) == canon_pair(dir, x, y));
                        } else {
                            assert(self.edge_of(x, y) == prev.edge_of(x, y));
                            assert(canon_pair(dir, it.0.0, it.0.1) != canon_pair(dir, x, y));
                        }
                    }
                }
            }
        }
        proof {
            assert(orig.take(orig.len() - items@.len()) =~= orig);
        }
    }
}

/// An undirected graph reports the same payload for (u, v) and (v, u):
/// both queries read the one canonical (min, max) slot.
pub proof fn lemma_undirected_symmetric<E: Edge>(g: Graph<E>, u: u64, v: u64)
    requires
        !g.spec_directed(),
    ensures
        g.edge_of(u, v) == g.edge_of(v, u),
{
    assert(g.spec_canon(u, v) == g.spec_canon(v, u));
}

/// A stored edge joins two distinct registered vertices: a lookup can only
/// succeed between endpoints the graph has seen, so a query toward a
/// never-registered vertex finds nothing.
pub proof fn lemma_edge_endpoints<E: Edge>(g: Graph<E>, u: u64, v: u64)
    requires
        g.wf(),
        g.edge_of(u, v) is Some,
    ensures
        u != v,
        g.has_vertex(u),
        g.has_vertex(v),
{
    let c = g.spec_canon(u, v);
    assert(g.has_slot(c.0, c.1));
    g.lemma_slot_payload(c.0, c.1);
}

/// A directed graph never canonicalizes: the lookup key for (u, v) is the
/// ordered pair itself, so the reverse pair names a different slot whenever
/// the endpoints differ.
pub proof fn lemma_directed_exact<E: Edge>(g: Graph<E>, u: u64, v: u64)
    requires
        g.spec_directed(),
    ensures
        g.spec_canon(u, v) == (u, v),
        u != v ==> g.spec_canon(u, v) != g.spec_canon(v, u),
{
}

impl<E: Edge> Graph<E> {
    /// The batch of vertices a traversal step appends is exactly the set of
    /// neighbours of the popped vertex that had not been discovered before
    /// the step: each appended vertex is a fresh neighbour, every fresh
    /// neighbour was appended, and discovery before the step means having
    /// been yielded or pending.
    proof fn lemma_batch_members(
        gg: Graph<E>,
        bpf: Map<u64, u64>,
        bp0: Map<u64, u64>,
        y0: Seq<u64>,
        q0: Seq<u64>,
        v: u64,
        batch: Seq<u64>,
    )
        requires
            gg.wf(),
            forall|u: u64| #[trigger] batch.contains(u) ==> gg.adjacent(v, u) && !bp0.contains_key(u),
            forall|w: u64|
                #[trigger] bpf.contains_key(w) <==> (bp0.contains_key(w) || batch.contains(w)),
            forall|j: int|
                0 <= j < gg.recs@.len() && (#[trigger] gg.recs@[j]).from == v ==> bpf.contains_key(
                    gg.recs@[j].to,
                ),
            forall|k: int| 0 <= k < y0.len() ==> bp0.contains_key(#[trigger] y0[k]),
            forall|k: int| 0 <= k < q0.len() ==> bp0.contains_key(#[trigger] q0[k]),
            forall|w: u64| #[trigger] bp0.contains_key(w) ==> y0.contains(w) || q0.contains(w),
        ensures
            forall|u: u64|
                #[trigger] batch.contains(u) <==> (gg.adjacent(v, u) && !y0.contains(u)
                    && !q0.contains(u)),
    {
        assert forall|u: u64|
            #[trigger] batch.contains(u) <==> (gg.adjacent(v, u) && !y0.contains(u) && !q0.contains(
            u,
        )) by {
            if batch.contains(u) {
                assert(gg.adjacent(v, u) && !bp0.contains_key(u));
                if y0.contains(u) {
                    let k = choose|k: int| 0 <= k < y0.len() && y0[k] == u;
                    assert(bp0.contains_key(y0[k]));
                }
                if q0.contains(u) {
                    let k = choose|k: int| 0 <= k < q0.len() && q0[k] == u;
                    assert(bp0.contains_key(q0[k]));
                }
            }
            if gg.adjacent(v, u) && !y0.contains(u) && !q0.contains(u) {
                assert(!bp0.contains_key(u));
                gg.lemma_adjacent_rec(v, u);
                let j = choose|j: int|
                    0 <= j < gg.recs@.len() && (#[trigger] gg.recs@[j]).from == v && gg.recs@[j].to
                        == u;
                assert(bpf.contains_key(gg.recs@[j].to));
                assert(batch.contains(u));
            }
        }
    }

    proof fn lemma_reachable_refl(self, s: u64)
        ensures
            self.reachable(s, s),
    {
        let p = seq![s];
        assert(p.first() == s && p.last() == s);
        assert(self.is_path(p));
    }

    proof fn lemma_reachable_step(self, s: u64, v: u64, u: u64)
        requires
            self.reachable(s, v),
            self.adjacent(v, u),
        ensures
            self.reachable(s, u),
    {
        let p = choose|p: Seq<u64>| self.is_path(p) && p.first() == s && p.last() == v;
        let q = p.push(u);
        assert forall|i: int| #![trigger q[i]] 0 <= i < q.len() - 1 implies self.adjacent(
            q[i],
            q[i + 1],
        ) by {
            if i < p.len() - 1 {
                assert(q[i] == p[i] && q[i + 1] == p[i + 1]);
            } else {
                assert(q[i] == p.last() && q[i + 1] == u);
            }
        }
        assert(self.is_path(q) && q.first() == s && q.last() == u);
    }

    /// A set that holds the head of a path and is closed under adjacency
    /// holds the path's last vertex too.
    proof fn lemma_path_in_closed(self, dom: Set<u64>, p: Seq<u64>)
        requires
            self.is_path(p),
            dom.contains(p.first()),
            forall|a: u64, b: u64|
                #![trigger dom.contains(a), self.adjacent(a, b)]
                dom.contains(a) && self.adjacent(a, b) ==> dom.contains(b),
        ensures
            dom.contains(p.last()),
        decreases p.len(),
    {
        if p.len() > 1 {
            assert(self.adjacent(p[0], p[1]));
            let q = p.drop_first();
            assert forall|i: int| #![trigger q[i]] 0 <= i < q.len() - 1 implies self.adjacent(
                q[i],
                q[i + 1],
            ) by {
                assert(q[i] == p[i + 1] && q[i + 1] == p[i + 2]);
            }
            assert(dom.contains(q.first()));
            self.lemma_path_in_closed(dom, q);
            assert(q.last() == p.last());
        }
    }

    /// A keyed slot in either direction means the two vertices are adjacent.
    proof fn lemma_slot_adjacent(self, u: u64, v: u64)
        requires
            self.wf(),
            self.has_slot(u, v),
        ensures
            self.adjacent(u, v),
    {
        self.lemma_slot_payload(u, v);
        if self.directed {
            assert(self.spec_canon(u, v) == (u, v));
        } else {
            if u < v {
                assert(self.spec_canon(u, v) == (u, v));
            } else {
                Self::lemma_find_rec_exists(self.recs@, u, v);
                let r = Self::find_rec(self.recs@, u, v).unwrap();
                let j = choose|j: int|
                    0 <= j < self.recs@.len() && #[trigger] self.recs@[j] == r && r.from == u
                        && r.to == v;
                assert(self.has_slot(self.recs@[j].to, self.recs@[j].from));
                self.lemma_slot_payload(v, u);
                assert(self.spec_canon(u, v) == (v, u));
            }
        }
    }

    /// Every stored record joins adjacent registered vertices.
    proof fn lemma_rec_adjacent(self, j: int)
        requires
            self.wf(),
            0 <= j < self.recs@.len(),
        ensures
            self.adjacent(self.recs@[j].from, self.recs@[j].to),
            self.has_vertex(self.recs@[j].from),
            self.has_vertex(self.recs@[j].to),
    {
        let r = self.recs@[j];
        Self::lemma_find_rec_exists(self.recs@, r.from, r.to);
        assert((#[trigger] self.recs@[j]).from == r.from && self.recs@[j].to == r.to);
        assert(self.has_slot(r.from, r.to));
        self.lemma_slot_adjacent(r.from, r.to);
    }

    /// Adjacent vertices are joined by a stored record in that direction.
    proof fn lemma_adjacent_rec(self, u: u64, v: u64)
        requires
            self.wf(),
            self.adjacent(u, v),
        ensures
            self.has_slot(u, v),
            exists|j: int|
                0 <= j < self.recs@.len() && (#[trigger] self.recs@[j]).from == u
                    && self.recs@[j].to == v,
    {
        let c = self.spec_canon(u, v);
        assert(self.has_slot(c.0, c.1));
        if !(c.0 == u && c.1 == v) {
            // undirected, u > v: the canonical record's mirror is the slot asked for
            Self::lemma_find_rec_exists(self.recs@, c.0, c.1);
            let r = Self::find_rec(self.recs@, c.0, c.1).unwrap();
            let j = choose|j: int|
                0 <= j < self.recs@.len() && #[trigger] self.recs@[j] == r && r.from == c.0
                    && r.to == c.1;
            assert(self.has_slot(self.recs@[j].to, self.recs@[j].from));
        }
        Self::lemma_find_rec_exists(self.recs@, u, v);
    }
}

/// Removing the front (or back) element of a duplicate-free sequence
/// removes exactly that element and keeps the rest in order.
proof fn lemma_pop_shrink(q0: Seq<u64>, q: Seq<u64>, v: u64, front: bool)
    requires
        q0.no_duplicates(),
        q0.len() > 0,
        front ==> v == q0[0] && q == q0.subrange(1, q0.len() as int),
        !front ==> v == q0[q0.len() - 1] && q == q0.subrange(0, q0.len() - 1),
    ensures
        q.no_duplicates(),
        !q.contains(v),
        forall|i: int| 0 <= i < q.len() ==> q0.contains(#[trigger] q[i]),
        forall|w: u64| #[trigger] q0.contains(w) && w != v ==> q.contains(w),
        q == (if front {
            q0.drop_first()
        } else {
            q0.drop_last()
        }),
        v == (if front {
            q0.first()
        } else {
            q0.last()
        }),
        q0.contains(v),
{
    if front {
        assert(q =~= q0.drop_first());
        assert forall|i: int| 0 <= i < q.len() implies q0.contains(#[trigger] q[i]) by {
            assert(q[i] == q0[i + 1]);
        }
        assert(q.no_duplicates()) by {
            assert forall|i: int, j: int| 0 <= i < j < q.len() implies q[i] != q[j] by {
                assert(q[i] == q0[i + 1] && q[j] == q0[j + 1]);
            }
        }
        assert(!q.contains(v)) by {
            if q.contains(v) {
                let i = choose|i: int| 0 <= i < q.len() && q[i] == v;
                assert(q0[i + 1] == v && q0[0] == v);
            }
        }
        assert forall|w: u64| #[trigger] q0.contains(w) && w != v implies q.contains(w) by {
            let i = choose|i: int| 0 <= i < q0.len() && q0[i] == w;
            assert(i >= 1);
            assert(q[i - 1] == w);
        }
    } else {
        assert(q =~= q0.drop_last());
        assert forall|i: int| 0 <= i < q.len() implies q0.contains(#[trigger] q[i]) by {
            assert(q[i] == q0[i]);
        }
        assert(q.no_duplicates()) by {
            assert forall|i: int, j: int| 0 <= i < j < q.len() implies q[i] != q[j] by {
                assert(q[i] == q0[i] && q[j] == q0[j]);
            }
        }
        assert(!q.contains(v)) by {
            if q.contains(v) {
                let i = choose|i: int| 0 <= i < q.len() && q[i] == v;
                assert(q0[i] == v && q0[q0.len() - 1] == v);
            }
        }
        assert forall|w: u64| #[trigger] q0.contains(w) && w != v implies q.contains(w) by {
            let i = choose|i: int| 0 <= i < q0.len() && q0[i] == w;
            assert(i < q0.len() - 1);
            assert(q[i] == w);
        }
    }
    assert(q0.contains(v)) by {
        if front {
            assert(q0[0] == v);
        } else {
            assert(q0[q0.len() - 1] == v);
        }
    }
}

/// Whether a traversal pops its frontier as a queue or as a stack.
#[derive(Clone, Copy)]
enum TraverseMethod {
    Bfs,
    Dfs,
}

/// A stateful cursor over one breadth-first or depth-first walk of a graph,
/// holding the frontier of pending vertices and, for every vertex discovered
/// so far, a back pointer to the vertex that discovered it (the start vertex
/// points to itself). A vertex is marked discovered the moment it enters the
/// frontier, so each reachable vertex is yielded exactly once.
pub struct Traverse<'a, E: Edge> {
    back_ptr: HashMap<u64, u64>,
    search_queue: VecDeque<u64>,
    graph: &'a Graph<E>,
    method: TraverseMethod,
    start: Ghost<u64>,
    visited: Ghost<Seq<u64>>,
    depth: Ghost<Map<u64, nat>>,
}

impl<'a, E: Edge> Traverse<'a, E> {
    pub closed spec fn spec_graph(self) -> Graph<E> {
        *self.graph
    }

    pub closed spec fn spec_start(self) -> u64 {
        self.start@
    }

    /// The vertices yielded so far, in order.
    pub closed spec fn spec_visited(self) -> Seq<u64> {
        self.visited@
    }

    /// The frontier of discovered, not yet yielded vertices.
    pub closed spec fn spec_pending(self) -> Seq<u64> {
        self.search_queue@
    }

    pub closed spec fn is_bfs(self) -> bool {
        self.method is Bfs
    }

    /// The traversal invariant: every discovered vertex is reachable from
    /// the start; all but the start carry a back pointer to an adjacent,
    /// already-yielded discoverer, one step shallower; the frontier and the
    /// yielded sequence partition the discovered set without repetition; and
    /// every neighbour of a yielded vertex has been discovered.
    pub closed spec fn wf(self) -> bool {
        let g = *self.graph;
        let bp = self.back_ptr@;
        let q = self.search_queue@;
        let y = self.visited@;
        let s = self.start@;
        let d = self.depth@;
        &&& g.wf()
        &&& g.has_vertex(s)
        &&& bp.contains_key(s) && bp[s] == s
        &&& d.contains_key(s) && d[s] == 0
        &&& forall|w: u64|
            #[trigger] bp.contains_key(w) ==> g.has_vertex(w) && g.reachable(s, w)
                && d.contains_key(w)
        &&& forall|w: u64|
            #[trigger] bp.contains_key(w) && w != s ==> bp.contains_key(bp[w]) && g.adjacent(
                bp[w],
                w,
            ) && y.contains(bp[w]) && d[w] == d[bp[w]] + 1
        &&& forall|i: int| 0 <= i < q.len() ==> bp.contains_key(#[trigger] q[i])
        &&& q.no_duplicates()
        &&& y.no_duplicates()
        &&& forall|i: int| 0 <= i < y.len() ==> bp.contains_key(#[trigger] y[i])
        &&& forall|i: int| 0 <= i < y.len() ==> !q.contains(#[trigger] y[i])
        &&& forall|w: u64| #[trigger] bp.contains_key(w) ==> y.contains(w) || q.contains(w)
        &&& forall|i: int, u: u64|
            #![trigger g.adjacent(y[i], u)]
            0 <= i < y.len() && g.adjacent(y[i], u) ==> bp.contains_key(u)
    }

    /// Whether another call to `next` would yield a vertex.
    pub fn has_next(&self) -> (r: bool)
        ensures
            r == (self.spec_pending().len() > 0),
    {
        self.search_queue.len() > 0
    }

    /// A traversal yields at most as many vertices as the graph has
    /// registered: the yielded sequence has no repetitions and every entry
    /// is a vertex, so a caller's collect loop is bounded by the vertex
    /// count.
    pub proof fn lemma_visited_bound(self)
        requires
            self.wf(),
        ensures
            self.spec_visited().len() <= self.spec_graph().spec_vertex_count(),
    {
        broadcast use vstd::seq_lib::seq_to_set_is_finite;

        let y = self.visited@;
        let vs = (*self.graph).verts@;
        y.unique_seq_to_set();
        assert forall|e: u64| y.to_set().contains(e) implies vs.to_set().contains(e) by {
            let i = choose|i: int| 0 <= i < y.len() && y[i] == e;
            assert(self.back_ptr@.contains_key(y[i]));
            assert(vs.contains(e));
        }
        assert(y.to_set().subset_of(vs.to_set()));
        vstd::set_lib::lemma_len_subset(y.to_set(), vs.to_set());
        vs.lemma_cardinality_of_set();
    }

    /// Once the frontier has drained, the vertices yielded are exactly those
    /// reachable from the start: the yielded set is closed under adjacency
    /// and every discovered vertex was reachable.
    proof fn lemma_exhausted_complete(self)
        requires
            self.wf(),
            self.spec_pending().len() == 0,
        ensures
            forall|t: u64|
                self.spec_graph().reachable(self.spec_start(), t) <==> self.spec_visited().contains(
                    t,
                ),
    {
        let g = *self.graph;
        let s = self.start@;
        let y = self.visited@;
        let bp = self.back_ptr@;
        assert forall|t: u64| g.reachable(s, t) implies y.contains(t) by {
            let dom = bp.dom();
            assert(bp.contains_key(s));
            assert forall|a: u64, b: u64|
                #![trigger dom.contains(a), g.adjacent(a, b)]
                dom.contains(a) && g.adjacent(a, b) implies dom.contains(b) by {
                assert(bp.contains_key(a));
                assert(y.contains(a) || self.search_queue@.contains(a));
                assert(y.contains(a));
                let i = choose|i: int| 0 <= i < y.len() && y[i] == a;
                assert(g.adjacent(y[i], b));
                assert(bp.contains_key(b));
            }
            let p = choose|p: Seq<u64>| g.is_path(p) && p.first() == s && p.last() == t;
            g.lemma_path_in_closed(dom, p);
            assert(bp.contains_key(t));
            assert(y.contains(t) || self.search_queue@.contains(t));
        }
        assert forall|t: u64| y.contains(t) implies g.reachable(s, t) by {
            let i = choose|i: int| 0 <= i < y.len() && y[i] == t;
            assert(bp.contains_key(y[i]));
        }
    }

    /// Pops one vertex off the frontier — front for breadth-first, back for
    /// depth-first — discovers its not yet discovered neighbours, and yields
    /// it. Yields nothing once the frontier is empty, which happens exactly
    /// when every vertex reachable from the start has been yielded once.
    #[verifier::rlimit(50)]
    #[verifier::spinoff_prover]
    pub fn next(&mut self) -> (r: Option<u64>)
        requires
            old(self).wf(),
        ensures
            final(self).wf(),
            final(self).spec_graph() == old(self).spec_graph(),
            final(self).spec_start() == old(self).spec_start(),
            final(self).is_bfs() == old(self).is_bfs(),
            match r {
                Some(v) => {
                    &&& final(self).spec_visited() == old(self).spec_visited().push(v)
                    &&& !old(self).spec_visited().contains(v)
                    &&& old(self).spec_graph().reachable(old(self).spec_start(), v)
                    &&& old(self).spec_pending().len() > 0
                    &&& (old(self).spec_visited().len() == 0 ==> v == old(self).spec_start())
                    &&& v == (if old(self).is_bfs() {
                        old(self).spec_pending().first()
                    } else {
                        old(self).spec_pending().last()
                    })
                    &&& exists|batch: Seq<u64>|
                        #![trigger batch.no_duplicates()]
                        {
                            &&& final(self).spec_pending() == (if old(self).is_bfs() {
                                old(self).spec_pending().drop_first()
                            } else {
                                old(self).spec_pending().drop_last()
                            }) + batch
                            &&& batch.no_duplicates()
                            &&& forall|u: u64|
                                #[trigger] batch.contains(u) <==> (old(self).spec_graph().adjacent(
                                    v,
                                    u,
                                ) && !old(self).spec_visited().contains(u) && !old(
                                    self,
                                ).spec_pending().contains(u))
                        }
                },
                None => {
                    &&& final(self).spec_visited() == old(self).spec_visited()
                    &&& old(self).spec_pending().len() == 0
                    &&& final(self).spec_pending().len() == 0
                    &&& forall|t: u64|
                        old(self).spec_graph().reachable(old(self).spec_start(), t)
                            <==> final(self).spec_visited().contains(t)
                },
            },
    {
        let popped: Option<u64> = match self.method {
            TraverseMethod::Bfs => self.search_queue.pop_front(),
            TraverseMethod::Dfs => self.search_queue.pop_back(),
        };
        match popped {
            None => {
                proof {
                    self.lemma_exhausted_complete();
                }
                None
            },
            Some(v) => {
                let ghost y0 = old(self).visited@;
                let ghost q0 = old(self).search_queue@;
                let ghost s = self.start@;
                let ghost bp0 = old(self).back_ptr@;
                let ghost q_rest = self.search_queue@;
                proof {
                    assert(self.back_ptr@.contains_key(v));
                    if self.method is Bfs {
                        lemma_pop_shrink(q0, q_rest, v, true);
                    } else {
                        lemma_pop_shrink(q0, q_rest, v, false);
                    }
                    assert(!y0.contains(v)) by {
                        if y0.contains(v) {
                            let i = choose|i: int| 0 <= i < y0.len() && y0[i] == v;
                            assert(!q0.contains(y0[i]));
                        }
                    }
                    if y0.len() == 0 {
                        // nothing yielded yet: only the start can be discovered
                        assert forall|w: u64| #[trigger]
                            self.back_ptr@.contains_key(w) implies w == s by {
                            if w != s {
                                assert(y0.contains(self.back_ptr@[w]));
                            }
                        }
                        assert(v == s);
                    }
                }
                self.visited = Ghost(self.visited@.push(v));
                proof {
                    // the frontier shrank by exactly this one occurrence of v;
                    // the yielded sequence gained it
                    assert forall|k: int|
                        0 <= k < q_rest.len() implies self.back_ptr@.contains_key(
                        #[trigger] q_rest[k],
                    ) by {
                        let a = choose|a: int| 0 <= a < q0.len() && q0[a] == q_rest[k];
                        assert(self.back_ptr@.contains_key(q0[a]));
                    }
                    assert forall|w: u64| #[trigger] self.back_ptr@.contains_key(w) implies self
                        .visited@.contains(w) || q_rest.contains(w) by {
                        assert(y0.contains(w) || q0.contains(w));
                        if w == v {
                            assert(self.visited@[self.visited@.len() - 1] == v);
                        } else if q0.contains(w) {
                            assert(q_rest.contains(w));
                        } else {
                            let i = choose|i: int| 0 <= i < y0.len() && y0[i] == w;
                            assert(self.visited@[i] == w);
                        }
                    }
                    assert forall|k: int|
                        0 <= k < self.visited@.len() implies self.back_ptr@.contains_key(
                        #[trigger] self.visited@[k],
                    ) by {
                        if k < self.visited@.len() - 1 {
                            assert(self.visited@[k] == y0[k]);
                        } else {
                            assert(self.visited@[k] == v);
                        }
                    }
                    assert forall|k: int|
                        0 <= k < self.visited@.len() implies !q_rest.contains(
                        #[trigger] self.visited@[k],
                    ) by {
                        if q_rest.contains(self.visited@[k]) {
                            let a = choose|a: int|
                                0 <= a < q_rest.len() && q_rest[a] == self.visited@[k];
                            assert(q0.contains(q_rest[a]));
                            if k < self.visited@.len() - 1 {
                                assert(self.visited@[k] == y0[k]);
                                assert(!q0.contains(y0[k]));
                            } else {
                                assert(self.visited@[k] == v);
                                assert(!q_rest.contains(v));
                            }
                        }
                    }
                    assert(self.visited@.no_duplicates()) by {
                        assert forall|a: int, b: int|
                            0 <= a < b < self.visited@.len() implies self.visited@[a] != self
                            .visited@[b] by {
                            assert(self.visited@[a] == y0[a]);
                            if b < self.visited@.len() - 1 {
                                assert(self.visited@[b] == y0[b]);
                            } else {
                                assert(self.visited@[b] == v);
                            }
                        }
                    }
                    // nothing has been appended yet
                    assert(self.search_queue@.take(q_rest.len() as int) =~= q_rest);
                    assert(self.search_queue@.skip(q_rest.len() as int) =~= Seq::<u64>::empty());
                    assert(forall|w: u64| #[trigger]
                        self.back_ptr@.contains_key(w) <==> bp0.contains_key(w));
                }
                let g: &Graph<E> = self.graph;
                let ghost gg = *self.graph;
                let n: usize = g.recs.len();
                let mut i: usize = 0;
                while i < n
                    invariant
                        i <= n,
                        n == gg.recs@.len(),
                        self.graph == g,
                        *g == gg,
                        gg.wf(),
                        self.method == old(self).method,
                        self.start@ == s,
                        self.visited@ == y0.push(v),
                        self.visited@.no_duplicates(),
                        self.back_ptr@.contains_key(v),
                        self.back_ptr@.contains_key(s) && self.back_ptr@[s] == s,
                        self.depth@.contains_key(s) && self.depth@[s] == 0,
                        gg.has_vertex(s),
                        forall|w: u64|
                            #[trigger] self.back_ptr@.contains_key(w) ==> gg.has_vertex(w)
                                && gg.reachable(s, w) && self.depth@.contains_key(w),
                        forall|w: u64|
                            #[trigger] self.back_ptr@.contains_key(w) && w != s
                                ==> self.back_ptr@.contains_key(self.back_ptr@[w]) && gg.adjacent(
                                self.back_ptr@[w],
                                w,
                            ) && self.visited@.contains(self.back_ptr@[w]) && self.depth@[w]
                                == self.depth@[self.back_ptr@[w]] + 1,
                        forall|k: int|
                            0 <= k < self.search_queue@.len() ==> self.back_ptr@.contains_key(
                                #[trigger] self.search_queue@[k],
                            ),
                        self.search_queue@.no_duplicates(),
                        !self.search_queue@.contains(v),
                        q_rest.len() <= self.search_queue@.len(),
                        self.search_queue@.take(q_rest.len() as int) == q_rest,
                        forall|u: u64|
                            #[trigger] self.search_queue@.skip(q_rest.len() as int).contains(u)
                                ==> gg.adjacent(v, u) && !bp0.contains_key(u),
                        forall|w: u64|
                            #[trigger] self.back_ptr@.contains_key(w) <==> (bp0.contains_key(w)
                                || self.search_queue@.skip(q_rest.len() as int).contains(w)),
                        forall|k: int|
                            0 <= k < self.visited@.len() ==> self.back_ptr@.contains_key(
                                #[trigger] self.visited@[k],
                            ),
                        forall|k: int|
                            0 <= k < self.visited@.len() ==> !self.search_queue@.contains(
                                #[trigger] self.visited@[k],
                            ),
                        forall|w: u64|
                            #[trigger] self.back_ptr@.contains_key(w) ==> self.visited@.contains(w)
                                || self.search_queue@.contains(w),
                        forall|k: int, u: u64|
                            #![trigger gg.adjacent(self.visited@[k], u)]
                            0 <= k < self.visited@.len() - 1 && gg.adjacent(self.visited@[k], u)
                                ==> self.back_ptr@.contains_key(u),
                        forall|j: int|
                            0 <= j < i && (#[trigger] gg.recs@[j]).from == v
                                ==> self.back_ptr@.contains_key(gg.recs@[j].to),
                    decreases n - i,
                {
                    let from: u64 = g.recs[i].from;
                    if from == v {
                        let to: u64 = g.recs[i].to;
                        if !self.back_ptr.contains_key(&to) {
                            proof {
                                gg.lemma_rec_adjacent(i as int);
                                gg.lemma_reachable_step(s, v, to);
                                assert(to != s);
                                assert(to != v);
                            }
                            let ghost bp_prev = self.back_ptr@;
                            let ghost q_prev = self.search_queue@;
                            self.back_ptr.insert(to, v);
                            self.search_queue.push_back(to);
                            self.depth = Ghost(
                                self.depth@.insert(to, (self.depth@[v] + 1) as nat),
                            );
                            proof {
                                let q1 = self.search_queue@;
                                assert(q1 == q_prev.push(to));
                                assert(q1[q1.len() - 1] == to);
                                assert forall|a: int, b: int|
                                    0 <= a < b < q1.len() implies q1[a] != q1[b] by {
                                    if b < q1.len() - 1 {
                                        assert(q1[a] == q_prev[a] && q1[b] == q_prev[b]);
                                    } else {
                                        assert(q1[a] == q_prev[a]);
                                        assert(bp_prev.contains_key(q_prev[a]));
                                        assert(q1[b] == to);
                                    }
                                }
                                assert(!q1.contains(v)) by {
                                    if q1.contains(v) {
                                        let a = choose|a: int| 0 <= a < q1.len() && q1[a] == v;
                                        assert(a < q1.len() - 1);
                                        assert(q_prev[a] == v);
                                    }
                                }
                                assert forall|w: u64| #[trigger]
                                    self.back_ptr@.contains_key(w) implies self.visited@.contains(
                                    w,
                                ) || q1.contains(w) by {
                                    if w == to {
                                        assert(q1[q1.len() - 1] == to);
                                    } else {
                                        assert(bp_prev.contains_key(w));
                                        assert(self.visited@.contains(w) || q_prev.contains(w));
                                        if q_prev.contains(w) {
                                            let a = choose|a: int|
                                                0 <= a < q_prev.len() && q_prev[a] == w;
                                            assert(q1[a] == w);
                                        }
                                    }
                                }
                                assert forall|k: int|
                                    0 <= k < self.visited@.len() implies !q1.contains(
                                    #[trigger] self.visited@[k],
                                ) by {
                                    if q1.contains(self.visited@[k]) {
                                        let a = choose|a: int|
                                            0 <= a < q1.len() && q1[a] == self.visited@[k];
                                        if a < q1.len() - 1 {
                                            assert(q_prev[a] == self.visited@[k]);
                                        } else {
                                            assert(self.visited@[k] == to);
                                            assert(bp_prev.contains_key(self.visited@[k]));
                                        }
                                    }
                                }
                                // the discovered batch grew by exactly `to`
                                let rl = q_rest.len() as int;
                                let batch0 = q_prev.skip(rl);
                                let batch1 = q1.skip(rl);
                                assert(q1.take(rl) =~= q_prev.take(rl));
                                assert(batch1 =~= batch0.push(to));
                                assert(!bp0.contains_key(to)) by {
                                    assert(!bp_prev.contains_key(to));
                                }
                                assert forall|u: u64| #[trigger]
                                    batch1.contains(u) implies gg.adjacent(v, u)
                                    && !bp0.contains_key(u) by {
                                    let a = choose|a: int| 0 <= a < batch1.len() && batch1[a] == u;
                                    if a < batch1.len() - 1 {
                                        assert(batch0[a] == u);
                                        assert(batch0.contains(u));
                                    } else {
                                        assert(u == to);
                                    }
                                }
                                assert forall|w: u64| #[trigger]
                                    self.back_ptr@.contains_key(w) <==> (bp0.contains_key(w)
                                    || batch1.contains(w)) by {
                                    if self.back_ptr@.contains_key(w) {
                                        if w == to {
                                            assert(batch1[batch1.len() - 1] == to);
                                        } else {
                                            assert(bp_prev.contains_key(w));
                                            if batch0.contains(w) {
                                                let a = choose|a: int|
                                                    0 <= a < batch0.len() && batch0[a] == w;
                                                assert(batch1[a] == w);
                                            }
                                        }
                                    }
                                    if batch1.contains(w) {
                                        let a = choose|a: int|
                                            0 <= a < batch1.len() && batch1[a] == w;
                                        assert(q1[rl + a] == w);
                                    }
                                    if bp0.contains_key(w) {
                                        assert(bp_prev.contains_key(w));
                                    }
                                }
                            }
                        }
                    }
                    i += 1;
                }
                proof {
                    // the popped vertex's whole neighbourhood is now discovered
                    assert forall|k: int, u: u64|
                        #![trigger gg.adjacent(self.visited@[k], u)]
                        0 <= k < self.visited@.len() && gg.adjacent(self.visited@[k], u) implies
                        self.back_ptr@.contains_key(u) by {
                        if k == self.visited@.len() - 1 {
                            assert(self.visited@[k] == v);
                            gg.lemma_adjacent_rec(v, u);
                            let j = choose|j: int|
                                0 <= j < gg.recs@.len() && (#[trigger] gg.recs@[j]).from == v
                                    && gg.recs@[j].to == u;
                            assert(self.back_ptr@.contains_key(gg.recs@[j].to));
                        }
                    }
                    assert(final(self).wf());
                    // the frontier is the remainder of the old one plus the
                    // batch of vertices discovered from v
                    let rl = q_rest.len() as int;
                    let batch = self.search_queue@.skip(rl);
                    assert(self.search_queue@ =~= q_rest + batch);
                    assert(batch.no_duplicates()) by {
                        assert forall|a: int, b: int|
                            0 <= a < b < batch.len() implies batch[a] != batch[b] by {
                            assert(batch[a] == self.search_queue@[rl + a]);
                            assert(batch[b] == self.search_queue@[rl + b]);
                        }
                    }
                    Graph::<E>::lemma_batch_members(
                        gg,
                        self.back_ptr@,
                        bp0,
                        y0,
                        q0,
                        v,
                        batch,
                    );
                    assert(q_rest == (if old(self).is_bfs() {
                        q0.drop_first()
                    } else {
                        q0.drop_last()
                    }));
                    assert(exists|batch2: Seq<u64>|
                        #![trigger batch2.no_duplicates()]
                        {
                            &&& final(self).spec_pending() == (if old(self).is_bfs() {
                                old(self).spec_pending().drop_first()
                            } else {
                                old(self).spec_pending().drop_last()
                            }) + batch2
                            &&& batch2.no_duplicates()
                            &&& forall|u: u64|
                                #[trigger] batch2.contains(u) <==> (old(self).spec_graph().adjacent(
                                    v,
                                    u,
                                ) && !old(self).spec_visited().contains(u) && !old(
                                    self,
                                ).spec_pending().contains(u))
                        });
                }
                Some(v)
            },
        }
    }
}

impl<E: Edge> Graph<E> {
    fn create_trav<'a>(&'a self, v: u64, method: TraverseMethod) -> (t: Traverse<'a, E>)
        requires
            self.wf(),
            self.has_vertex(v),
        ensures
            t.wf(),
            t.spec_graph() == *self,
            t.spec_start() == v,
            t.spec_visited() == Seq::<u64>::empty(),
            t.spec_pending() == seq![v],
            t.is_bfs() == (method is Bfs),
    {
        let mut back_ptr: HashMap<u64, u64> = HashMap::new();
        back_ptr.insert(v, v);
        let mut search_queue: VecDeque<u64> = VecDeque::new();
        search_queue.push_back(v);
        let t = Traverse {
            back_ptr,
            search_queue,
            graph: self,
            method,
            start: Ghost(v),
            visited: Ghost(Seq::empty()),
            depth: Ghost(Map::empty().insert(v, 0)),
        };
        proof {
            self.lemma_reachable_refl(v);
            assert(t.search_queue@ =~= seq![v]);
            assert(t.search_queue@[0] == v);
            assert(t.wf());
        }
        t
    }

    /// Begins a depth-first traversal from v, or reports that v is not a
    /// vertex of this graph.
    pub fn dfs<'a>(&'a self, v: u64) -> (r: Result<Traverse<'a, E>, GraphError>)
        requires
            self.wf(),
        ensures
            (r is Ok) <==> self.has_vertex(v),
            r matches Err(e) ==> e == GraphError::VertexNotFound,
            r matches Ok(t) ==> t.wf() && t.spec_graph() == *self && t.spec_start() == v
                && t.spec_visited() == Seq::<u64>::empty() && t.spec_pending() == seq![v]
                && !t.is_bfs(),
    {
        if self.contains_vertex(v) {
            Ok(self.create_trav(v, TraverseMethod::Dfs))
        } else {
            Err(GraphError::VertexNotFound)
        }
    }

    /// Begins a breadth-first traversal from v, or reports that v is not a
    /// vertex of this graph.
    pub fn bfs<'a>(&'a self, v: u64) -> (r: Result<Traverse<'a, E>, GraphError>)
        requires
            self.wf(),
        ensures
            (r is Ok) <==> self.has_vertex(v),
            r matches Err(e) ==> e == GraphError::VertexNotFound,
            r matches Ok(t) ==> t.wf() && t.spec_graph() == *self && t.spec_start() == v
                && t.spec_visited() == Seq::<u64>::empty() && t.spec_pending() == seq![v]
                && t.is_bfs(),
    {
        if self.contains_vertex(v) {
            Ok(self.create_trav(v, TraverseMethod::Bfs))
        } else {
            Err(GraphError::VertexNotFound)
        }
    }

    /// Searches depth-first for an s-t path. On success the returned
    /// vertices run from t back towards s, excluding s itself (so the path
    /// from s to itself is empty); each consecutive pair is joined by an
    /// edge pointing towards t. Returns nothing exactly when t is
    /// unreachable from s.
    pub fn find_path(&self, s: u64, t: u64) -> (r: Option<Vec<u64>>)
        requires
            self.wf(),
            self.has_vertex(s),
        ensures
            (r is Some) <==> self.reachable(s, t),
            r matches Some(p) ==> ({
                let f = p@.push(s);
                &&& f.first() == t
                &&& !p@.contains(s)
                &&& p@.no_duplicates()
                &&& forall|i: int|
                    #![trigger f[i]]
                    0 <= i < f.len() - 1 ==> self.adjacent(f[i + 1], f[i])
            }),
    {
        let r0 = self.dfs(s);
        let mut it = match r0 {
            Ok(x) => x,
            Err(_) => {
                proof {
                    assert(false);
                }
                return None;
            },
        };
        loop
            invariant_except_break
                it.wf(),
                it.spec_graph() == *self,
                it.spec_start() == s,
                !it.spec_visited().contains(t),
                it.spec_visited().len() <= self.verts@.len(),
                self.wf(),
                self.has_vertex(s),
            ensures
                it.wf(),
                it.spec_graph() == *self,
                it.spec_start() == s,
                it.spec_visited().contains(t),
            decreases self.verts@.len() - it.spec_visited().len(),
        {
            match it.next() {
                None => {
                    proof {
                        assert(!it.spec_visited().contains(t));
                        assert(!self.reachable(s, t));
                    }
                    return None;
                },
                Some(v) => {
                    proof {
                        it.lemma_visited_bound();
                    }
                    if v == t {
                        proof {
                            assert(it.spec_visited()[it.spec_visited().len() - 1] == t);
                        }
                        break;
                    }
                    proof {
                        assert(!it.spec_visited().contains(t)) by {
                            if it.spec_visited().contains(t) {
                                let i = choose|i: int|
                                    0 <= i < it.spec_visited().len() && it.spec_visited()[i] == t;
                                assert(i < it.spec_visited().len() - 1);
                            }
                        }
                    }
                },
            }
        }
        proof {
            let y = it.spec_visited();
            let i = choose|i: int| 0 <= i < y.len() && y[i] == t;
            assert(it.back_ptr@.contains_key(y[i]));
            assert(self.reachable(s, t));
        }
        let mut path: Vec<u64> = Vec::new();
        let mut node: u64 = t;
        loop
            invariant_except_break
                it.wf(),
                it.spec_graph() == *self,
                it.spec_start() == s,
                self.wf(),
                it.back_ptr@.contains_key(node),
                forall|k: int| 0 <= k < path@.len() ==> (#[trigger] path@[k]) != s,
                forall|k: int|
                    0 <= k < path@.len() ==> it.back_ptr@.contains_key(#[trigger] path@[k]),
                forall|k: int|
                    0 <= k < path@.len() ==> it.depth@[#[trigger] path@[k]] > it.depth@[node],
                path@.no_duplicates(),
                ({
                    let f = path@.push(node);
                    &&& f.first() == t
                    &&& forall|i: int|
                        #![trigger f[i]]
                        0 <= i < f.len() - 1 ==> self.adjacent(f[i + 1], f[i])
                }),
            ensures
                node == s,
                forall|k: int| 0 <= k < path@.len() ==> (#[trigger] path@[k]) != s,
                path@.no_duplicates(),
                ({
                    let f = path@.push(node);
                    &&& f.first() == t
                    &&& forall|i: int|
                        #![trigger f[i]]
                        0 <= i < f.len() - 1 ==> self.adjacent(f[i + 1], f[i])
                }),
            decreases it.depth@[node],
        {
            let parent: u64 = *it.back_ptr.get(&node).unwrap();
            proof {
                assert(parent == it.back_ptr@[node]);
            }
            if parent == node {
                proof {
                    if node != s {
                        assert(it.depth@[node] == it.depth@[node] + 1);
                    }
                }
                break;
            }
            proof {
                assert(node != s);
                assert(it.spec_graph().adjacent(parent, node));
                assert(it.depth@[parent] + 1 == it.depth@[node]);
            }
            let ghost path_old = path@;
            path.push(node);
            proof {
                let f_old = path_old.push(node);
                let f_new = path@.push(parent);
                assert(path@ == path_old.push(node));
                assert(!path_old.contains(node)) by {
                    if path_old.contains(node) {
                        let k = choose|k: int| 0 <= k < path_old.len() && path_old[k] == node;
                        assert(it.depth@[path_old[k]] > it.depth@[node]);
                    }
                }
                assert(path@.no_duplicates()) by {
                    assert forall|a: int, b: int|
                        0 <= a < b < path@.len() implies path@[a] != path@[b] by {
                        if b < path@.len() - 1 {
                            assert(path@[a] == path_old[a] && path@[b] == path_old[b]);
                        } else {
                            assert(path@[b] == node);
                            assert(path@[a] == path_old[a]);
                        }
                    }
                }
                assert forall|k: int|
                    0 <= k < path@.len() implies it.depth@[#[trigger] path@[k]] > it.depth@[parent]
                    by {
                    if k < path@.len() - 1 {
                        assert(path@[k] == path_old[k]);
                        assert(it.depth@[path_old[k]] > it.depth@[node]);
                    } else {
                        assert(path@[k] == node);
                    }
                }
                assert forall|i: int|
                    #![trigger f_new[i]]
                    0 <= i < f_new.len() - 1 implies self.adjacent(f_new[i + 1], f_new[i]) by {
                    if i < f_old.len() - 1 {
                        assert(f_new[i] == f_old[i] && f_new[i + 1] == f_old[i + 1]);
                    } else {
                        assert(f_new[i] == node && f_new[i + 1] == parent);
                    }
                }
                assert(f_new.first() == f_old.first());
            }
            node = parent;
        }
        proof {
            assert(!path@.contains(s)) by {
                if path@.contains(s) {
                    let k = choose|k: int| 0 <= k < path@.len() && path@[k] == s;
                    assert(path@[k] != s);
                }
            }
        }
        Some(path)
    }
}

} // verus!
