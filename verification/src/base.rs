use vstd::prelude::*;
use vstd::string::*;

use crate::error::GraphError;
use crate::text;

verus! {

/// The transform-free, visual-state-free graph: directedness, a vertex count
/// and an edge list.  This is the representation the two text serializations
/// read and write.
#[derive(Debug, Clone, PartialEq)]
pub struct BaseGraph {
    pub is_directed: bool,
    pub n: usize,
    pub edges: Vec<(usize, usize)>,
}

/// Whether the adjacency matrix has a 1 at row `i`, column `j`: some edge is
/// `(i, j)`, or `(j, i)` when the graph is undirected.
pub open spec fn spec_adj_bit(
    is_directed: bool,
    edges: Seq<(usize, usize)>,
    i: int,
    j: int,
) -> bool {
    exists|k: int|
        0 <= k < edges.len() && ((#[trigger] edges[k]).0 == i && edges[k].1 == j || (!is_directed
            && edges[k].0 == j && edges[k].1 == i))
}

/// The edges read off a flattened `n` by `n` bit matrix from cell `c` on, in
/// row-major order: every 1-cell of a directed graph, and only the cells above
/// the diagonal of an undirected one, so that each symmetric pair is reported
/// once.
pub open spec fn spec_bits_edges(
    is_directed: bool,
    n: usize,
    bits: Seq<usize>,
    c: int,
) -> Seq<(usize, usize)>
    decreases n * n - c,
{
    if c < 0 || c >= n * n {
        Seq::empty()
    } else {
        let i = c / (n as int);
        let j = c % (n as int);
        let rest = spec_bits_edges(is_directed, n, bits, c + 1);
        if bits[c] == 1 && (is_directed || i < j) {
            seq![(i as usize, j as usize)] + rest
        } else {
            rest
        }
    }
}

impl BaseGraph {
    /// Parses the plain-text graph format (see `text::spec_parse` for the
    /// grammar and its error assignment), returning an undirected base graph.
    pub fn parse(input_text: &str, zero_indexed: bool) -> (r: Result<Self, GraphError>)
        ensures
            r matches Ok(g) ==> text::spec_parse(input_text.spec_bytes(), zero_indexed) == Ok::<
                _,
                GraphError,
            >((g.n, g.edges@)) && g.is_directed == false,
            r matches Err(e) ==> text::spec_parse(input_text.spec_bytes(), zero_indexed) == Err::<
                (usize, Seq<(usize, usize)>),
                _,
            >(e),
    {
        let bytes = input_text.as_bytes();
        match text::parse_graph_bytes(bytes, zero_indexed) {
            Ok((n, edges)) => Ok(BaseGraph { is_directed: false, n, edges }),
            Err(e) => Err(e),
        }
    }

    /// The flattened `n` by `n` adjacency matrix of this graph, row-major,
    /// 1 for an edge and 0 otherwise; symmetric when the graph is undirected.
    pub fn to_adj_matrix(&self) -> (r: Vec<usize>)
        requires
            self.n * self.n <= usize::MAX,
            forall|k: int|
                0 <= k < self.edges@.len() ==> (#[trigger] self.edges@[k]).0 < self.n
                    && self.edges@[k].1 < self.n,
        ensures
            r@.len() == self.n * self.n,
            forall|c: int|
                0 <= c < r@.len() ==> #[trigger] r@[c] == (
                if spec_adj_bit(
                    self.is_directed,
                    self.edges@,
                    c / (self.n as int),
                    c % (self.n as int),
                ) {
                    1usize
                } else {
                    0usize
                }),
    {
        let n = self.n;
        let total = n * n;
        let mut bits: Vec<usize> = Vec::new();
        while bits.len() < total
            invariant
                total == n * n,
                bits@.len() <= total,
                forall|c: int| 0 <= c < bits@.len() ==> bits@[c] == 0usize,
            decreases total - bits.len(),
        {
            bits.push(0);
        }
        let m = self.edges.len();
        for k in 0..m
            invariant
                m == self.edges@.len(),
                n == self.n,
                total == n * n,
                bits@.len() == total,
                forall|k2: int|
                    0 <= k2 < m ==> (#[trigger] self.edges@[k2]).0 < n && self.edges@[k2].1 < n,
                forall|c: int|
                    0 <= c < total ==> #[trigger] bits@[c] == (
                    if spec_adj_bit(
                        self.is_directed,
                        self.edges@.take(k as int),
                        c / (n as int),
                        c % (n as int),
                    ) {
                        1usize
                    } else {
                        0usize
                    }),
        {
            let ghost prev = bits@;
            let ghost ek = self.edges@.take(k as int);
            let (u, v) = self.edges[k];
            proof {
                lemma_cell_in_range(u as int, v as int, n as int);
            }
            bits.set(u * n + v, 1);
            if !self.is_directed {
                proof {
                    lemma_cell_in_range(v as int, u as int, n as int);
                }
                bits.set(v * n + u, 1);
            }
            proof {
                assert(self.edges@.take(k + 1).drop_last() =~= ek);
                assert(self.edges@.take(k + 1).last() == (u, v));
                assert forall|c: int| 0 <= c < total implies #[trigger] bits@[c] == (
                if spec_adj_bit(
                    self.is_directed,
                    self.edges@.take(k + 1),
                    c / (n as int),
                    c % (n as int),
                ) {
                    1usize
                } else {
                    0usize
                }) by {
                    lemma_cell_decompose(c, n as int);
                    let i = c / (n as int);
                    let j = c % (n as int);
                    lemma_cell_unique(i, j, u as int, v as int, n as int);
                    lemma_cell_unique(i, j, v as int, u as int, n as int);
                    if i == u && j == v {
                        assert(self.edges@.take(k + 1)[k as int] == (u, v));
                        assert(spec_adj_bit(self.is_directed, self.edges@.take(k + 1), i, j));
                    } else if !self.is_directed && i == v && j == u {
                        assert(self.edges@.take(k + 1)[k as int] == (u, v));
                        assert(spec_adj_bit(self.is_directed, self.edges@.take(k + 1), i, j));
                    } else {
                        assert(c != u * n + v && (self.is_directed || c != v * n + u));
                        assert(bits@[c] == prev[c]);
                        assert(forall|k2: int|
                            0 <= k2 < k ==> self.edges@.take(k + 1)[k2] == ek[k2]);
                        if spec_adj_bit(self.is_directed, self.edges@.take(k + 1), i, j) {
                            let w = choose|w: int|
                                0 <= w < k + 1 && ((#[trigger] self.edges@.take(k + 1)[w]).0 == i
                                    && self.edges@.take(k + 1)[w].1 == j || (!self.is_directed
                                    && self.edges@.take(k + 1)[w].0 == j && self.edges@.take(
                                    k + 1,
                                )[w].1 == i));
                            assert(w < k);
                            assert(ek[w] == self.edges@.take(k + 1)[w]);
                            assert(spec_adj_bit(self.is_directed, ek, i, j));
                        }
                        if spec_adj_bit(self.is_directed, ek, i, j) {
                            let w = choose|w: int|
                                0 <= w < ek.len() && ((#[trigger] ek[w]).0 == i && ek[w].1 == j || (
                                !self.is_directed && ek[w].0 == j && ek[w].1 == i));
                            assert(self.edges@.take(k + 1)[w] == ek[w]);
                            assert(spec_adj_bit(self.is_directed, self.edges@.take(k + 1), i, j));
                        }
                    }
                }
            }
        }
        proof {
            assert(self.edges@.take(m as int) =~= self.edges@);
        }
        bits
    }

    /// The graph read off a flattened `n` by `n` bit matrix: each 1-cell of a
    /// directed matrix in row-major order; for an undirected matrix only the
    /// cells above the diagonal, each symmetric pair reported once.
    pub fn from_adj_matrix(is_directed: bool, n: usize, bits: &Vec<usize>) -> (r: Self)
        requires
            bits@.len() == n * n,
        ensures
            r.is_directed == is_directed,
            r.n == n,
            r.edges@ == spec_bits_edges(is_directed, n, bits@, 0),
    {
        let mut edges: Vec<(usize, usize)> = Vec::new();
        let total = bits.len();
        let mut c: usize = 0;
        let mut i: usize = 0;
        let mut j: usize = 0;
        proof {
            if 0 < total {
                assert(0 < n) by (nonlinear_arith)
                    requires
                        total == n * n,
                        0 < total,
                ;
            }
            assert(Seq::<(usize, usize)>::empty() + spec_bits_edges(is_directed, n, bits@, 0)
                =~= spec_bits_edges(is_directed, n, bits@, 0));
        }
        while c < total
            invariant
                total == n * n,
                bits@.len() == total,
                c <= total,
                c < total ==> (i < n && j < n && c as int == i * n + j),
                c == total ==> j == 0,
                spec_bits_edges(is_directed, n, bits@, 0) == edges@ + spec_bits_edges(
                    is_directed,
                    n,
                    bits@,
                    c as int,
                ),
            decreases total - c,
        {
            proof {
                lemma_cell_in_range(i as int, j as int, n as int);
                assert(c as int / n as int == i && c as int % n as int == j) by (nonlinear_arith)
                    requires
                        c as int == i * n + j,
                        0 <= j < n,
                        0 <= i,
                ;
            }
            let ghost e0 = edges@;
            if bits[c] == 1 && (is_directed || i < j) {
                edges.push((i, j));
                proof {
                    assert(e0 + (seq![(i, j)] + spec_bits_edges(is_directed, n, bits@, c + 1))
                        =~= edges@ + spec_bits_edges(is_directed, n, bits@, c + 1));
                }
            }
            c = c + 1;
            if j + 1 == n {
                j = 0;
                i = i + 1;
                proof {
                    assert(c as int == (i as int) * (n as int)) by (nonlinear_arith)
                        requires
                            c as int - 1 == (i as int - 1) * n + (n - 1),
                            n >= 1,
                    ;
                    if c < total {
                        assert(i < n) by (nonlinear_arith)
                            requires
                                c as int == i * n,
                                c < n * n,
                                0 <= i,
                                0 < n,
                        ;
                    }
                }
            } else {
                j = j + 1;
                proof {
                    assert(c < total) by (nonlinear_arith)
                        requires
                            c as int == i * n + j,
                            0 <= j < n,
                            0 <= i < n,
                            total == n * n,
                    ;
                }
            }
        }
        proof {
            assert(spec_bits_edges(is_directed, n, bits@, total as int) =~= Seq::<
                (usize, usize),
            >::empty());
            assert(edges@ + Seq::<(usize, usize)>::empty() =~= edges@);
        }
        BaseGraph { is_directed, n, edges }
    }
}

/// An in-range flat cell index splits into a row below `n` and a column below
/// `n`, and is rebuilt from them.
proof fn lemma_cell_decompose(c: int, n: int)
    requires
        0 <= n,
        0 <= c < n * n,
    ensures
        0 < n,
        0 <= c / n < n,
        0 <= c % n < n,
        c == (c / n) * n + c % n,
{
    assert(0 < n) by (nonlinear_arith)
        requires
            0 <= n,
            0 <= c < n * n,
    ;
    vstd::arithmetic::div_mod::lemma_fundamental_div_mod(c, n);
    vstd::arithmetic::div_mod::lemma_mod_bound(c, n);
    assert(0 <= c / n < n && c == (c / n) * n + c % n) by (nonlinear_arith)
        requires
            c == n * (c / n) + c % n,
            0 <= c % n < n,
            0 <= c < n * n,
            0 < n,
    ;
}

/// A cell index `i * n + j` with `i, j < n` lies inside the flattened matrix.
proof fn lemma_cell_in_range(i: int, j: int, n: int)
    requires
        0 <= i < n,
        0 <= j < n,
    ensures
        0 <= i * n + j < n * n,
{
    assert(0 <= i * n + j < n * n) by (nonlinear_arith)
        requires
            0 <= i < n,
            0 <= j < n,
    ;
}

/// Two in-range cells coincide only for the same row and column.
proof fn lemma_cell_unique(i: int, j: int, u: int, v: int, n: int)
    requires
        0 <= i < n,
        0 <= j < n,
        0 <= u < n,
        0 <= v < n,
    ensures
        i * n + j == u * n + v ==> i == u && j == v,
{
    assert(i * n + j == u * n + v ==> i == u && j == v) by (nonlinear_arith)
        requires
            0 <= i < n,
            0 <= j < n,
            0 <= u < n,
            0 <= v < n,
    ;
}

} // verus!
