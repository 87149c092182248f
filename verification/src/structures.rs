use vstd::prelude::*;

use crate::base::BaseGraph;
use crate::text;

verus! {

/// One vertex of the editor's graph.
///
/// The structural part (identity and flags) is plain data; everything visual —
/// position, velocity, a transient drag offset — is floating-point state owned
/// by the embedding layer and is carried through the model as the opaque
/// payload `P`.  The model never looks inside a payload; it only moves payloads
/// around, so `P` is required to be plain copyable data.
#[derive(Debug, Clone, Copy)]
pub struct Vertex<P> {
    /// Dense index; reassigned by `restore_graph`.
    pub id: usize,
    /// The embedding layer's per-vertex visual state.
    pub payload: P,
    pub is_pressed: bool,
    pub is_selected: bool,
    /// Draw order only; never read by the model.
    pub z_index: u32,
    /// Soft-delete flag; honoured by the next `restore_graph` pass.
    pub is_deleted: bool,
}

/// One edge, by vertex ids.  Directedness is a graph-level flag, not stored here.
#[derive(Debug, Clone, Copy, PartialEq)]
pub struct Edge {
    pub from: usize,
    pub to: usize,
    pub is_pressed: bool,
    pub is_deleted: bool,
}

impl Edge {
    pub fn new(from: usize, to: usize) -> (r: Self)
        ensures
            r == (Edge { from, to, is_pressed: false, is_deleted: false }),
    {
        Self { from, to, is_pressed: false, is_deleted: false }
    }
}

/// The graph being edited: an ordered vertex list, an ordered edge list, and
/// one directedness flag consulted by every operation that cares.
#[derive(Debug, Clone)]
pub struct Graph<P> {
    pub is_directed: bool,
    pub vertices: Vec<Vertex<P>>,
    pub edges: Vec<Edge>,
}

/// Survivors of a compaction pass: the vertices not marked deleted, in their
/// original relative order, with ids rewritten to their new dense index.
pub open spec fn spec_compact_vertices<P>(vs: Seq<Vertex<P>>) -> Seq<Vertex<P>>
    decreases vs.len(),
{
    if vs.len() == 0 {
        Seq::empty()
    } else {
        let rest = spec_compact_vertices(vs.drop_last());
        let v = vs.last();
        if v.is_deleted {
            rest
        } else {
            rest.push(
                Vertex {
                    id: rest.len() as usize,
                    payload: v.payload,
                    is_pressed: v.is_pressed,
                    is_selected: v.is_selected,
                    z_index: v.z_index,
                    is_deleted: false,
                },
            )
        }
    }
}

/// The old ids of the survivors, in order; position `i` holds the old id of
/// the vertex whose new id is `i`.
pub open spec fn spec_survivor_ids<P>(vs: Seq<Vertex<P>>) -> Seq<usize>
    decreases vs.len(),
{
    if vs.len() == 0 {
        Seq::empty()
    } else {
        let rest = spec_survivor_ids(vs.drop_last());
        let v = vs.last();
        if v.is_deleted {
            rest
        } else {
            rest.push(v.id)
        }
    }
}

/// The index of the last occurrence of `id` in `ids`, if any.  The last one
/// wins, matching a left-to-right id-to-index map built with overwriting
/// inserts.
pub open spec fn spec_last_index(ids: Seq<usize>, id: usize) -> Option<usize>
    decreases ids.len(),
{
    if ids.len() == 0 {
        None
    } else if ids.last() == id {
        Some((ids.len() - 1) as usize)
    } else {
        spec_last_index(ids.drop_last(), id)
    }
}

/// The edges surviving a compaction pass over vertices whose surviving old ids
/// are `ids`: edges not marked deleted whose endpoints both still exist, with
/// endpoints rewritten to the new dense ids.
pub open spec fn spec_compact_edges(ids: Seq<usize>, es: Seq<Edge>) -> Seq<Edge>
    decreases es.len(),
{
    if es.len() == 0 {
        Seq::empty()
    } else {
        let rest = spec_compact_edges(ids, es.drop_last());
        let e = es.last();
        if !e.is_deleted && spec_last_index(ids, e.from) is Some && spec_last_index(
            ids,
            e.to,
        ) is Some {
            rest.push(
                Edge {
                    from: spec_last_index(ids, e.from)->Some_0,
                    to: spec_last_index(ids, e.to)->Some_0,
                    is_pressed: e.is_pressed,
                    is_deleted: false,
                },
            )
        } else {
            rest
        }
    }
}

/// Does an edge equal `(from, to)` under the directedness rule?  An undirected
/// graph also matches the reversed pair.
pub open spec fn spec_edge_matches(e: Edge, is_directed: bool, from: usize, to: usize) -> bool {
    (e.from == from && e.to == to) || (!is_directed && e.from == to && e.to == from)
}

/// Is some edge of `es` a duplicate of `(from, to)` under the directedness rule?
pub open spec fn spec_has_same_edge(is_directed: bool, es: Seq<Edge>, from: usize, to: usize) -> bool {
    exists|k: int| 0 <= k < es.len() && spec_edge_matches(es[k], is_directed, from, to)
}

/// The first index of a vertex with id `id`, if any.
pub open spec fn spec_first_vertex<P>(vs: Seq<Vertex<P>>, id: usize) -> Option<usize>
    decreases vs.len(),
{
    if vs.len() == 0 {
        None
    } else if vs[0].id == id {
        Some(0usize)
    } else {
        match spec_first_vertex(vs.drop_first(), id) {
            None => None,
            Some(j) => Some((j + 1) as usize),
        }
    }
}

/// Indices (into the vertex list) of the neighbors of the vertex with id `id`,
/// in edge order, both directions, skipping endpoints that no vertex carries.
pub open spec fn spec_neighbor_indices<P>(vs: Seq<Vertex<P>>, es: Seq<Edge>, id: usize) -> Seq<
    usize,
>
    decreases es.len(),
{
    if es.len() == 0 {
        Seq::empty()
    } else {
        let rest = spec_neighbor_indices(vs, es.drop_last(), id);
        let e = es.last();
        let other = if e.from == id {
            Some(e.to)
        } else if e.to == id {
            Some(e.from)
        } else {
            None::<usize>
        };
        match other {
            None => rest,
            Some(o) => match spec_first_vertex(vs, o) {
                None => rest,
                Some(j) => rest.push(j),
            },
        }
    }
}


/// The set of pairs already emitted.
pub open spec fn spec_pairs_set(ps: Seq<(usize, usize)>) -> Set<(usize, usize)> {
    Set::new(|p: (usize, usize)| ps.contains(p))
}

/// The edge pairs emitted by a left-to-right sweep that, on an undirected
/// graph, suppresses an edge whose reversed pair was already emitted.  The
/// first-seen orientation is kept; a directed graph emits every edge as-is.
pub open spec fn spec_unique_edges_rec(
    is_directed: bool,
    es: Seq<Edge>,
    seen: Set<(usize, usize)>,
) -> Seq<(usize, usize)>
    decreases es.len(),
{
    if es.len() == 0 {
        Seq::empty()
    } else {
        let e = es[0];
        if !is_directed && seen.contains((e.to, e.from)) {
            spec_unique_edges_rec(is_directed, es.drop_first(), seen)
        } else {
            seq![(e.from, e.to)] + spec_unique_edges_rec(
                is_directed,
                es.drop_first(),
                seen.insert((e.from, e.to)),
            )
        }
    }
}

pub open spec fn spec_unique_edges(is_directed: bool, es: Seq<Edge>) -> Seq<(usize, usize)> {
    spec_unique_edges_rec(is_directed, es, Set::empty())
}

/// Whether `ps` holds the pair `(a, b)`.
pub fn contains_pair(ps: &Vec<(usize, usize)>, a: usize, b: usize) -> (r: bool)
    ensures
        r == ps@.contains((a, b)),
{
    let m = ps.len();
    for i in 0..m
        invariant
            m == ps@.len(),
            forall|l: int| 0 <= l < i ==> ps@[l] != (a, b),
    {
        let p = ps[i];
        if p.0 == a && p.1 == b {
            proof {
                assert(ps@[i as int] == (a, b));
            }
            return true;
        }
    }
    false
}

/// Every emitted pair is the `(from, to)` of some edge, so its endpoints obey
/// any bound the edges obey.
pub proof fn lemma_unique_edges_bounded(
    is_directed: bool,
    es: Seq<Edge>,
    seen: Set<(usize, usize)>,
    bound: usize,
)
    requires
        forall|k: int|
            0 <= k < es.len() ==> (#[trigger] es[k]).from < bound && es[k].to < bound,
    ensures
        forall|i: int|
            0 <= i < spec_unique_edges_rec(is_directed, es, seen).len()
                ==> (#[trigger] spec_unique_edges_rec(is_directed, es, seen)[i]).0 < bound
                && spec_unique_edges_rec(is_directed, es, seen)[i].1 < bound,
    decreases es.len(),
{
    if es.len() > 0 {
        let e = es[0];
        assert(forall|k: int|
            0 <= k < es.len() - 1 ==> es.drop_first()[k] == es[k + 1]);
        let out = spec_unique_edges_rec(is_directed, es, seen);
        if !is_directed && seen.contains((e.to, e.from)) {
            lemma_unique_edges_bounded(is_directed, es.drop_first(), seen, bound);
            let rest = spec_unique_edges_rec(is_directed, es.drop_first(), seen);
            assert forall|i: int| 0 <= i < out.len() implies (#[trigger] out[i]).0 < bound
                && out[i].1 < bound by {
                assert(out[i] == rest[i]);
            }
        } else {
            lemma_unique_edges_bounded(
                is_directed,
                es.drop_first(),
                seen.insert((e.from, e.to)),
                bound,
            );
            let rest = spec_unique_edges_rec(
                is_directed,
                es.drop_first(),
                seen.insert((e.from, e.to)),
            );
            assert forall|i: int| 0 <= i < out.len() implies (#[trigger] out[i]).0 < bound
                && out[i].1 < bound by {
                if i == 0 {
                    assert(out[0] == (e.from, e.to));
                } else {
                    assert(out[i] == rest[i - 1]);
                }
            }
        }
    }
}


/// The `(from, to)` pairs of an edge list, in order.
pub open spec fn spec_edge_pairs(es: Seq<Edge>) -> Seq<(usize, usize)> {
    es.map_values(|e: Edge| (e.from, e.to))
}

/// No edge duplicates an earlier one under the directedness rule — the
/// invariant `add_unique_edge` maintains.
pub open spec fn spec_no_duplicate_edges(is_directed: bool, es: Seq<Edge>) -> bool {
    forall|i: int, j: int|
        #![trigger es[i], es[j]]
        0 <= i < j < es.len() ==> !spec_edge_matches(es[j], is_directed, es[i].from, es[i].to)
}

proof fn lemma_unique_edges_of_unique_rec(es: Seq<Edge>, seen: Set<(usize, usize)>)
    requires
        spec_no_duplicate_edges(false, es),
        forall|k: int| 0 <= k < es.len() ==> !seen.contains(((#[trigger] es[k]).to, es[k].from)),
    ensures
        spec_unique_edges_rec(false, es, seen) == spec_edge_pairs(es),
    decreases es.len(),
{
    if es.len() > 0 {
        let e = es[0];
        let rest = es.drop_first();
        assert(!seen.contains((e.to, e.from)));
        let seen2 = seen.insert((e.from, e.to));
        assert(forall|k: int| 0 <= k < rest.len() ==> #[trigger] rest[k] == es[k + 1]);
        assert forall|i: int, j: int|
            #![trigger rest[i], rest[j]]
            0 <= i < j < rest.len() implies !spec_edge_matches(
            rest[j],
            false,
            rest[i].from,
            rest[i].to,
        ) by {
            assert(rest[i] == es[i + 1]);
            assert(rest[j] == es[j + 1]);
        }
        assert forall|k: int| 0 <= k < rest.len() implies !seen2.contains(
            ((#[trigger] rest[k]).to, rest[k].from),
        ) by {
            assert(rest[k] == es[k + 1]);
            if (rest[k].to, rest[k].from) == (e.from, e.to) {
                assert(spec_edge_matches(es[k + 1], false, es[0].from, es[0].to));
            }
        }
        lemma_unique_edges_of_unique_rec(rest, seen2);
        assert(spec_unique_edges_rec(false, es, seen) =~= spec_edge_pairs(es));
    } else {
        assert(spec_unique_edges_rec(false, es, seen) =~= spec_edge_pairs(es));
    }
}

/// Law: on an undirected graph with no duplicate edges, the logical edge list
/// is the plain edge list — nothing is suppressed, every pair and its
/// orientation are kept.  Together with the text round trip this says that
/// encoding and re-parsing such a graph reproduces its edge set exactly.
pub proof fn lemma_unique_edges_of_unique(es: Seq<Edge>)
    requires
        spec_no_duplicate_edges(false, es),
    ensures
        spec_unique_edges(false, es) == spec_edge_pairs(es),
{
    lemma_unique_edges_of_unique_rec(es, Set::empty());
}


/// Law: a successful `add_unique_edge` keeps the no-duplicate invariant —
/// appending a pair with no match under the directedness rule cannot create
/// a duplicate.
pub proof fn lemma_add_unique_preserves_no_duplicates(
    is_directed: bool,
    es: Seq<Edge>,
    from: usize,
    to: usize,
)
    requires
        spec_no_duplicate_edges(is_directed, es),
        !spec_has_same_edge(is_directed, es, from, to),
    ensures
        spec_no_duplicate_edges(
            is_directed,
            es.push(Edge { from, to, is_pressed: false, is_deleted: false }),
        ),
{
    let out = es.push(Edge { from, to, is_pressed: false, is_deleted: false });
    assert forall|i: int, j: int|
        #![trigger out[i], out[j]]
        0 <= i < j < out.len() implies !spec_edge_matches(
        out[j],
        is_directed,
        out[i].from,
        out[i].to,
    ) by {
        if j < es.len() {
            assert(out[i] == es[i] && out[j] == es[j]);
        } else {
            assert(out[i] == es[i]);
            if spec_edge_matches(out[j], is_directed, es[i].from, es[i].to) {
                assert(spec_edge_matches(es[i], is_directed, from, to));
                assert(spec_has_same_edge(is_directed, es, from, to));
            }
        }
    }
}


/// Law: full round trip at the graph level.  For an undirected graph whose
/// edges are in range and free of duplicates, parsing the text that `encode`
/// writes for it — under the same indexing base — returns exactly its vertex
/// count and its edge pairs.
pub proof fn lemma_encode_parse_round_trip(n: usize, es: Seq<Edge>, zero_indexed: bool)
    requires
        es.len() <= usize::MAX,
        forall|k: int| 0 <= k < es.len() ==> (#[trigger] es[k]).from < n && es[k].to < n,
        spec_no_duplicate_edges(false, es),
    ensures
        text::spec_parse(
            vstd::utf8::encode_utf8(text::spec_encode(n, spec_unique_edges(false, es), zero_indexed)),
            zero_indexed,
        ) == Ok::<_, crate::error::GraphError>((n, spec_edge_pairs(es))),
{
    lemma_unique_edges_of_unique(es);
    let pairs = spec_edge_pairs(es);
    assert(forall|k: int|
        0 <= k < pairs.len() ==> (#[trigger] pairs[k]).0 < n && pairs[k].1 < n);
    text::lemma_parse_round_trip(n, pairs, zero_indexed);
}

impl<P: Copy> Graph<P> {
    /// An empty graph with the given directedness.
    pub fn new(is_directed: bool) -> (r: Self)
        ensures
            r.is_directed == is_directed,
            r.vertices@ == Seq::<Vertex<P>>::empty(),
            r.edges@ == Seq::<Edge>::empty(),
    {
        Self { is_directed, vertices: Vec::new(), edges: Vec::new() }
    }

    pub fn edges(&self) -> (r: &Vec<Edge>)
        ensures
            r == &self.edges,
    {
        &self.edges
    }

    /// Removes every soft-deleted vertex and edge, renumbers the surviving
    /// vertices to the dense range `0..n'` in their original relative order,
    /// rewrites every edge through the old-id-to-new-id map, and drops each
    /// edge that lost an endpoint.
    pub fn restore_graph(&mut self)
        ensures
            final(self).is_directed == old(self).is_directed,
            final(self).vertices@ == spec_compact_vertices(old(self).vertices@),
            final(self).edges@ == spec_compact_edges(
                spec_survivor_ids(old(self).vertices@),
                old(self).edges@,
            ),
    {
        let n = self.vertices.len();
        let mut survivors: Vec<Vertex<P>> = Vec::new();
        let mut old_ids: Vec<usize> = Vec::new();
        for i in 0..n
            invariant
                n == self.vertices.len(),
                self == old(self),
                survivors@ == spec_compact_vertices(self.vertices@.take(i as int)),
                old_ids@ == spec_survivor_ids(self.vertices@.take(i as int)),
        {
            let v = self.vertices[i];
            proof {
                assert(self.vertices@.take(i + 1).drop_last() =~= self.vertices@.take(i as int));
                assert(self.vertices@.take(i + 1).last() == v);
            }
            if !v.is_deleted {
                old_ids.push(v.id);
                let mut w = v;
                w.id = survivors.len();
                survivors.push(w);
            }
        }
        proof {
            assert(self.vertices@.take(n as int) =~= self.vertices@);
        }

        let m = self.edges.len();
        let mut kept: Vec<Edge> = Vec::new();
        for j in 0..m
            invariant
                m == self.edges.len(),
                self == old(self),
                old_ids@ == spec_survivor_ids(self.vertices@),
                kept@ == spec_compact_edges(old_ids@, self.edges@.take(j as int)),
        {
            let e = self.edges[j];
            proof {
                assert(self.edges@.take(j + 1).drop_last() =~= self.edges@.take(j as int));
                assert(self.edges@.take(j + 1).last() == e);
            }
            if !e.is_deleted {
                let nf = find_last_index(&old_ids, e.from);
                let nt = find_last_index(&old_ids, e.to);
                if let (Some(f), Some(t)) = (nf, nt) {
                    kept.push(Edge { from: f, to: t, is_pressed: e.is_pressed, is_deleted: false });
                }
            }
        }
        proof {
            assert(self.edges@.take(m as int) =~= self.edges@);
        }
        self.vertices = survivors;
        self.edges = kept;
    }

    /// Appends a fresh vertex whose id is the current vertex count.
    pub fn add_vertex(&mut self, payload: P, z_index: u32)
        ensures
            final(self).is_directed == old(self).is_directed,
            final(self).edges@ == old(self).edges@,
            final(self).vertices@ == old(self).vertices@.push(
                Vertex {
                    id: old(self).vertices@.len() as usize,
                    payload,
                    is_pressed: false,
                    is_selected: false,
                    z_index,
                    is_deleted: false,
                },
            ),
    {
        let id = self.vertices.len();
        self.vertices.push(
            Vertex { id, payload, is_pressed: false, is_selected: false, z_index, is_deleted: false },
        );
    }

    /// Is there already an edge equal to `(from, to)` under the directedness rule?
    pub fn has_same_edge(is_directed: bool, edges: &[Edge], from: usize, to: usize) -> (r: bool)
        ensures
            r == spec_has_same_edge(is_directed, edges@, from, to),
    {
        let m = edges.len();
        for k in 0..m
            invariant
                m == edges@.len(),
                forall|l: int|
                    0 <= l < k ==> !spec_edge_matches(edges@[l], is_directed, from, to),
        {
            let e = edges[k];
            if (e.from == from && e.to == to) || (!is_directed && e.from == to && e.to == from) {
                return true;
            }
        }
        false
    }

    /// Appends `(from, to)` unless an equal edge (or, undirected, its reverse)
    /// is already present; returns whether the edge was added.  On `false` the
    /// edge list is left exactly as it was.
    pub fn add_unique_edge(is_directed: bool, edges: &mut Vec<Edge>, from: usize, to: usize) -> (r:
        bool)
        ensures
            r == !spec_has_same_edge(is_directed, old(edges)@, from, to),
            !r ==> final(edges)@ == old(edges)@,
            r ==> final(edges)@ == old(edges)@.push(
                Edge { from, to, is_pressed: false, is_deleted: false },
            ),
    {
        if Self::has_same_edge(is_directed, edges.as_slice(), from, to) {
            false
        } else {
            edges.push(Edge::new(from, to));
            true
        }
    }

    /// The index of the first vertex with id `id`, if any.
    pub fn find_vertex(&self, id: usize) -> (r: Option<usize>)
        ensures
            r == spec_first_vertex(self.vertices@, id),
    {
        let n = self.vertices.len();
        for i in 0..n
            invariant
                n == self.vertices@.len(),
                forall|l: int| 0 <= l < i ==> self.vertices@[l].id != id,
        {
            if self.vertices[i].id == id {
                proof {
                    lemma_first_vertex_found(self.vertices@, id, i);
                }
                return Some(i);
            }
        }
        proof {
            lemma_first_vertex_missing(self.vertices@, id);
        }
        None
    }

    /// Indices of the vertices adjacent to id `id`, in edge order, ignoring
    /// edge direction.  Used for the spring term of the physics step, which
    /// treats every edge as attractive.
    pub fn neighbor_vertices(&self, id: usize) -> (r: Vec<usize>)
        ensures
            r@ == spec_neighbor_indices(self.vertices@, self.edges@, id),
            forall|k: int| 0 <= k < r@.len() ==> r@[k] < self.vertices@.len(),
    {
        let m = self.edges.len();
        let nv = self.vertices.len();
        let mut acc: Vec<usize> = Vec::new();
        for j in 0..m
            invariant
                m == self.edges@.len(),
                nv == self.vertices@.len(),
                acc@ == spec_neighbor_indices(self.vertices@, self.edges@.take(j as int), id),
                forall|k: int| 0 <= k < acc@.len() ==> acc@[k] < self.vertices@.len(),
        {
            let e = self.edges[j];
            proof {
                assert(self.edges@.take(j + 1).drop_last() =~= self.edges@.take(j as int));
                assert(self.edges@.take(j + 1).last() == e);
            }
            let other = if e.from == id {
                Some(e.to)
            } else if e.to == id {
                Some(e.from)
            } else {
                None
            };
            if let Some(o) = other {
                if let Some(ix) = self.find_vertex(o) {
                    proof {
                        lemma_first_vertex_in_range(self.vertices@, o);
                    }
                    acc.push(ix);
                }
            }
        }
        proof {
            assert(self.edges@.take(m as int) =~= self.edges@);
        }
        acc
    }


    /// Each logical edge once: for an undirected graph an edge whose reverse
    /// was already listed is suppressed, keeping the first-seen orientation;
    /// a directed graph lists every edge as stored.
    pub fn list_unique_edges(&self) -> (r: Vec<(usize, usize)>)
        ensures
            r@ == spec_unique_edges(self.is_directed, self.edges@),
    {
        let m = self.edges.len();
        let mut res: Vec<(usize, usize)> = Vec::new();
        proof {
            assert(self.edges@.skip(0) =~= self.edges@);
            assert(spec_pairs_set(res@) =~= Set::<(usize, usize)>::empty());
        }
        for k in 0..m
            invariant
                m == self.edges@.len(),
                spec_unique_edges(self.is_directed, self.edges@) == res@ + spec_unique_edges_rec(
                    self.is_directed,
                    self.edges@.skip(k as int),
                    spec_pairs_set(res@),
                ),
        {
            let e = self.edges[k];
            proof {
                assert(self.edges@.skip(k as int)[0] == e);
                assert(self.edges@.skip(k as int).drop_first() =~= self.edges@.skip(k + 1));
            }
            if !self.is_directed && contains_pair(&res, e.to, e.from) {
            } else {
                proof {
                    broadcast use vstd::seq_lib::lemma_seq_contains_after_push;

                    let tail = spec_unique_edges_rec(
                        self.is_directed,
                        self.edges@.skip(k + 1),
                        spec_pairs_set(res@).insert((e.from, e.to)),
                    );
                    assert(spec_pairs_set(res@.push((e.from, e.to))) =~= spec_pairs_set(
                        res@,
                    ).insert((e.from, e.to)));
                    assert(res@ + (seq![(e.from, e.to)] + tail) =~= res@.push((e.from, e.to))
                        + tail);
                }
                res.push((e.from, e.to));
            }
        }
        proof {
            assert(self.edges@.skip(m as int) =~= Seq::<Edge>::empty());
            assert(res@ + Seq::<(usize, usize)>::empty() =~= res@);
        }
        res
    }

    /// Compacts the graph, then writes its plain-text form: the vertex count,
    /// the count of logical edges, and one line per logical edge, 0-based or
    /// 1-based as requested.
    pub fn encode(&mut self, zero_indexed: bool) -> (r: String)
        ensures
            final(self).is_directed == old(self).is_directed,
            final(self).vertices@ == spec_compact_vertices(old(self).vertices@),
            final(self).edges@ == spec_compact_edges(
                spec_survivor_ids(old(self).vertices@),
                old(self).edges@,
            ),
            r@ == text::spec_encode(
                spec_compact_vertices(old(self).vertices@).len() as usize,
                spec_unique_edges(old(self).is_directed, final(self).edges@),
                zero_indexed,
            ),
    {
        let n0 = self.vertices.len();
        self.restore_graph();
        let unique = self.list_unique_edges();
        let n = self.vertices.len();
        proof {
            assert(old(self).vertices@.len() == n0);
            lemma_compact_well_formed(old(self).vertices@, old(self).edges@);
            lemma_unique_edges_bounded(
                self.is_directed,
                self.edges@,
                Set::empty(),
                n,
            );
        }
        text::encode_graph_text(n, &unique, zero_indexed)
    }

    /// Replaces the whole graph by `base`, one payload per vertex, as a bulk
    /// import does after a successful parse.  All validation happens before
    /// this is called, so it cannot fail and the previous graph is gone only
    /// once the input is known good.  The directedness flag is kept.
    pub fn apply_input(&mut self, base: &BaseGraph, payloads: Vec<P>)
        requires
            payloads@.len() == base.n,
        ensures
            final(self).is_directed == old(self).is_directed,
            final(self).vertices@.len() == base.n,
            forall|i: int|
                0 <= i < base.n ==> final(self).vertices@[i] == (Vertex {
                    id: i as usize,
                    payload: payloads@[i],
                    is_pressed: false,
                    is_selected: false,
                    z_index: 0,
                    is_deleted: false,
                }),
            final(self).edges@ == base.edges@.map_values(
                |p: (usize, usize)| Edge { from: p.0, to: p.1, is_pressed: false, is_deleted: false },
            ),
    {
        self.clear();
        let n = base.n;
        let mut i: usize = 0;
        while i < n
            invariant
                i <= n,
                payloads@.len() == n,
                self.is_directed == old(self).is_directed,
                self.edges@ == Seq::<Edge>::empty(),
                self.vertices@.len() == i,
                forall|j: int|
                    0 <= j < i ==> self.vertices@[j] == (Vertex {
                        id: j as usize,
                        payload: payloads@[j],
                        is_pressed: false,
                        is_selected: false,
                        z_index: 0,
                        is_deleted: false,
                    }),
            decreases n - i,
        {
            self.add_vertex(payloads[i], 0);
            i = i + 1;
        }
        let m = base.edges.len();
        let ghost em = base.edges@.map_values(
            |p: (usize, usize)| Edge { from: p.0, to: p.1, is_pressed: false, is_deleted: false },
        );
        let mut j: usize = 0;
        while j < m
            invariant
                j <= m,
                m == base.edges@.len(),
                em == base.edges@.map_values(
                    |p: (usize, usize)| Edge {
                        from: p.0,
                        to: p.1,
                        is_pressed: false,
                        is_deleted: false,
                    },
                ),
                self.is_directed == old(self).is_directed,
                self.vertices@.len() == n,
                payloads@.len() == n,
                forall|l: int|
                    0 <= l < n ==> self.vertices@[l] == (Vertex {
                        id: l as usize,
                        payload: payloads@[l],
                        is_pressed: false,
                        is_selected: false,
                        z_index: 0,
                        is_deleted: false,
                    }),
                self.edges@ == em.take(j as int),
            decreases m - j,
        {
            let p = base.edges[j];
            self.edges.push(Edge::new(p.0, p.1));
            proof {
                assert(em.take(j + 1) =~= em.take(j as int).push(em[j as int]));
            }
            j = j + 1;
        }
        proof {
            assert(em.take(m as int) =~= em);
        }
    }

    /// Drops every vertex and edge; the directedness flag is kept.
    pub fn clear(&mut self)
        ensures
            final(self).is_directed == old(self).is_directed,
            final(self).vertices@ == Seq::<Vertex<P>>::empty(),
            final(self).edges@ == Seq::<Edge>::empty(),
    {
        self.vertices = Vec::new();
        self.edges = Vec::new();
    }
}

/// The index of the last occurrence of `id` in `ids`, if any.
pub fn find_last_index(ids: &Vec<usize>, id: usize) -> (r: Option<usize>)
    ensures
        r == spec_last_index(ids@, id),
{
    let mut k = ids.len();
    proof {
        assert(ids@.take(ids@.len() as int) =~= ids@);
    }
    while k > 0
        invariant
            k <= ids@.len(),
            spec_last_index(ids@, id) == spec_last_index(ids@.take(k as int), id),
        decreases k,
    {
        k = k - 1;
        proof {
            assert(ids@.take(k + 1).drop_last() =~= ids@.take(k as int));
            assert(ids@.take(k + 1).last() == ids@[k as int]);
        }
        if ids[k] == id {
            proof {
                assert(spec_last_index(ids@.take(k + 1), id) == Some(k));
            }
            return Some(k);
        }
    }
    proof {
        assert(ids@.take(0) =~= Seq::<usize>::empty());
    }
    None
}

proof fn lemma_first_vertex_found<P>(vs: Seq<Vertex<P>>, id: usize, k: usize)
    requires
        vs.len() <= usize::MAX,
        k < vs.len(),
        vs[k as int].id == id,
        forall|l: int| 0 <= l < k ==> vs[l].id != id,
    ensures
        spec_first_vertex(vs, id) == Some(k),
    decreases k,
{
    if k == 0 {
    } else {
        assert(forall|l: int| 0 <= l < k - 1 ==> vs.drop_first()[l] == vs[l + 1]);
        assert(vs.drop_first()[k - 1] == vs[k as int]);
        lemma_first_vertex_found(vs.drop_first(), id, (k - 1) as usize);
    }
}

proof fn lemma_first_vertex_missing<P>(vs: Seq<Vertex<P>>, id: usize)
    requires
        forall|l: int| 0 <= l < vs.len() ==> vs[l].id != id,
    ensures
        spec_first_vertex(vs, id) is None,
    decreases vs.len(),
{
    if vs.len() > 0 {
        lemma_first_vertex_missing(vs.drop_first(), id);
    }
}

/// A found first-vertex index is a valid index.
pub proof fn lemma_first_vertex_in_range<P>(vs: Seq<Vertex<P>>, id: usize)
    requires
        vs.len() <= usize::MAX,
    ensures
        spec_first_vertex(vs, id) matches Some(j) ==> j < vs.len() && vs[j as int].id == id,
    decreases vs.len(),
{
    if vs.len() > 0 && vs[0].id != id {
        lemma_first_vertex_in_range(vs.drop_first(), id);
        match spec_first_vertex(vs.drop_first(), id) {
            Some(j) => {
                assert(vs.drop_first()[j as int] == vs[j + 1]);
            },
            None => {},
        }
    }
}

/// A found last-occurrence index is a valid index holding the id.
pub proof fn lemma_last_index_in_range(ids: Seq<usize>, id: usize)
    requires
        ids.len() <= usize::MAX,
    ensures
        spec_last_index(ids, id) matches Some(j) ==> j < ids.len() && ids[j as int] == id,
    decreases ids.len(),
{
    if ids.len() > 0 && ids.last() != id {
        lemma_last_index_in_range(ids.drop_last(), id);
        match spec_last_index(ids.drop_last(), id) {
            Some(j) => {
                assert(ids.drop_last()[j as int] == ids[j as int]);
            },
            None => {},
        }
    }
}

/// Law: compaction renumbers the survivors to exactly `0..n'`, keeping their
/// payloads, flags and relative order, and every surviving edge points at a
/// live vertex.
pub proof fn lemma_compact_well_formed<P>(vs: Seq<Vertex<P>>, es: Seq<Edge>)
    requires
        vs.len() <= usize::MAX,
    ensures
        spec_compact_vertices(vs).len() == spec_survivor_ids(vs).len(),
        forall|i: int|
            0 <= i < spec_compact_vertices(vs).len() ==> (#[trigger] spec_compact_vertices(
                vs,
            )[i]).id == i && !spec_compact_vertices(vs)[i].is_deleted,
        forall|k: int|
            0 <= k < spec_compact_edges(spec_survivor_ids(vs), es).len()
                ==> (#[trigger] spec_compact_edges(spec_survivor_ids(vs), es)[k]).from
                < spec_compact_vertices(vs).len() && spec_compact_edges(
                spec_survivor_ids(vs),
                es,
            )[k].to < spec_compact_vertices(vs).len() && !spec_compact_edges(
                spec_survivor_ids(vs),
                es,
            )[k].is_deleted,
    decreases es.len(),
{
    lemma_compact_vertices_shape(vs);
    let ids = spec_survivor_ids(vs);
    let out = spec_compact_edges(ids, es);
    if es.len() > 0 {
        lemma_compact_well_formed(vs, es.drop_last());
        lemma_last_index_in_range(ids, es.last().from);
        lemma_last_index_in_range(ids, es.last().to);
        let rest = spec_compact_edges(ids, es.drop_last());
        assert forall|k: int| 0 <= k < out.len() implies (#[trigger] out[k]).from
            < spec_compact_vertices(vs).len() && out[k].to < spec_compact_vertices(vs).len()
            && !out[k].is_deleted by {
            if k < rest.len() {
                assert(out[k] == rest[k]);
            }
        }
    }
}

proof fn lemma_compact_vertices_shape<P>(vs: Seq<Vertex<P>>)
    requires
        vs.len() <= usize::MAX,
    ensures
        spec_compact_vertices(vs).len() == spec_survivor_ids(vs).len(),
        spec_compact_vertices(vs).len() <= vs.len(),
        forall|i: int|
            0 <= i < spec_compact_vertices(vs).len() ==> (#[trigger] spec_compact_vertices(
                vs,
            )[i]).id == i && !spec_compact_vertices(vs)[i].is_deleted,
    decreases vs.len(),
{
    if vs.len() > 0 {
        lemma_compact_vertices_shape(vs.drop_last());
        let rest = spec_compact_vertices(vs.drop_last());
        if !vs.last().is_deleted {
            assert forall|i: int| 0 <= i < spec_compact_vertices(vs).len() implies (
            #[trigger] spec_compact_vertices(vs)[i]).id == i && !spec_compact_vertices(
                vs,
            )[i].is_deleted by {
                if i < rest.len() {
                    assert(spec_compact_vertices(vs)[i] == rest[i]);
                }
            }
        }
    }
}

/// Law: compaction is idempotent — running the pass again on an already
/// compacted graph changes nothing.
pub proof fn lemma_compact_idempotent<P>(vs: Seq<Vertex<P>>, es: Seq<Edge>)
    requires
        vs.len() <= usize::MAX,
    ensures
        spec_compact_vertices(spec_compact_vertices(vs)) == spec_compact_vertices(vs),
        spec_compact_edges(
            spec_survivor_ids(spec_compact_vertices(vs)),
            spec_compact_edges(spec_survivor_ids(vs), es),
        ) == spec_compact_edges(spec_survivor_ids(vs), es),
{
    let vs1 = spec_compact_vertices(vs);
    let es1 = spec_compact_edges(spec_survivor_ids(vs), es);
    lemma_compact_vertices_shape(vs);
    lemma_compact_of_clean(vs1);
    lemma_survivor_ids_of_clean(vs1);
    lemma_compact_edges_of_clean(vs, es, vs1.len() as int);
}

/// On a vertex list that is already dense (`v[i].id == i`, nothing deleted),
/// compaction is the identity.
proof fn lemma_compact_of_clean<P>(vs: Seq<Vertex<P>>)
    requires
        vs.len() <= usize::MAX,
        forall|i: int| 0 <= i < vs.len() ==> (#[trigger] vs[i]).id == i && !vs[i].is_deleted,
    ensures
        spec_compact_vertices(vs) == vs,
    decreases vs.len(),
{
    if vs.len() > 0 {
        lemma_compact_of_clean(vs.drop_last());
        lemma_compact_vertices_shape(vs.drop_last());
        assert(spec_compact_vertices(vs) =~= vs);
    } else {
        assert(spec_compact_vertices(vs) =~= vs);
    }
}

/// On a dense vertex list the surviving-ids list is `0, 1, ..., n-1`.
proof fn lemma_survivor_ids_of_clean<P>(vs: Seq<Vertex<P>>)
    requires
        vs.len() <= usize::MAX,
        forall|i: int| 0 <= i < vs.len() ==> (#[trigger] vs[i]).id == i && !vs[i].is_deleted,
    ensures
        spec_survivor_ids(vs).len() == vs.len(),
        forall|i: int| 0 <= i < vs.len() ==> #[trigger] spec_survivor_ids(vs)[i] == i,
    decreases vs.len(),
{
    if vs.len() > 0 {
        lemma_survivor_ids_of_clean(vs.drop_last());
    }
}

/// In the list `0, 1, ..., n-1` the last occurrence of `x < n` is at `x`.
proof fn lemma_last_index_identity(ids: Seq<usize>, x: usize)
    requires
        ids.len() <= usize::MAX,
        forall|i: int| 0 <= i < ids.len() ==> #[trigger] ids[i] == i,
        x < ids.len(),
    ensures
        spec_last_index(ids, x) == Some(x),
    decreases ids.len(),
{
    if ids.len() > 0 && ids.last() != x {
        lemma_last_index_identity(ids.drop_last(), x);
    }
}

/// Compacting the already-compacted edge list over the dense id list changes
/// nothing: every kept edge is live and already carries its final endpoints.
proof fn lemma_compact_edges_of_clean<P>(vs: Seq<Vertex<P>>, es: Seq<Edge>, n1: int)
    requires
        vs.len() <= usize::MAX,
        n1 == spec_compact_vertices(vs).len(),
    ensures
        spec_compact_edges(
            spec_survivor_ids(spec_compact_vertices(vs)),
            spec_compact_edges(spec_survivor_ids(vs), es),
        ) == spec_compact_edges(spec_survivor_ids(vs), es),
    decreases es.len(),
{
    let vs1 = spec_compact_vertices(vs);
    let ids1 = spec_survivor_ids(vs1);
    lemma_compact_vertices_shape(vs);
    lemma_compact_of_clean(vs1);
    lemma_survivor_ids_of_clean(vs1);
    let es1 = spec_compact_edges(spec_survivor_ids(vs), es);
    lemma_compact_edges_identity(ids1, es1, vs, es);
}

proof fn lemma_compact_edges_identity<P>(ids1: Seq<usize>, es1: Seq<Edge>, vs: Seq<Vertex<P>>, es: Seq<Edge>)
    requires
        vs.len() <= usize::MAX,
        forall|i: int| 0 <= i < ids1.len() ==> #[trigger] ids1[i] == i,
        ids1.len() == spec_compact_vertices(vs).len(),
        es1 == spec_compact_edges(spec_survivor_ids(vs), es),
    ensures
        spec_compact_edges(ids1, es1) == es1,
    decreases es.len(),
{
    lemma_compact_vertices_shape(vs);
    lemma_compact_well_formed(vs, es);
    lemma_compact_edges_all_clean(ids1, es1);
}

/// Compacting an edge list whose every edge is live with endpoints below the
/// dense id range is the identity.
proof fn lemma_compact_edges_all_clean(ids1: Seq<usize>, es1: Seq<Edge>)
    requires
        ids1.len() <= usize::MAX,
        forall|i: int| 0 <= i < ids1.len() ==> #[trigger] ids1[i] == i,
        forall|k: int|
            0 <= k < es1.len() ==> (#[trigger] es1[k]).from < ids1.len() && es1[k].to < ids1.len()
                && !es1[k].is_deleted,
    ensures
        spec_compact_edges(ids1, es1) == es1,
    decreases es1.len(),
{
    if es1.len() > 0 {
        lemma_compact_edges_all_clean(ids1, es1.drop_last());
        let e = es1.last();
        lemma_last_index_identity(ids1, e.from);
        lemma_last_index_identity(ids1, e.to);
        assert(spec_compact_edges(ids1, es1) =~= es1);
    } else {
        assert(spec_compact_edges(ids1, es1) =~= es1);
    }
}

} // verus!
