//! Initial vertex placement.
//!
//! Positions are sampled on a square grid: a grid point `(x, y)` with both
//! coordinates below `GRID_SIDE` stands for the unit-square point
//! `(x / GRID_SIDE, y / GRID_SIDE)`, which the embedding layer maps into its
//! viewport.  Working on the grid keeps the crossing test exact: the segment
//! intersection predicate is a strict sign test on integer cross products.

use vstd::prelude::*;

verus! {

/// Grid resolution per axis of the unit square.
pub const GRID_SIDE: u32 = 65536;

/// Relies on rand::random: an arbitrary value of the type; nothing is assumed
/// about which one.
pub assume_specification<T>[ rand::random::<T> ]() -> (r: T)
    where
        rand::distributions::Standard: rand::distributions::Distribution<T>,
;

/// The z-component of the cross product of `(ax, ay)` and `(bx, by)`.
pub open spec fn spec_cross(ax: int, ay: int, bx: int, by: int) -> int {
    ax * by - ay * bx
}

/// Strict proper intersection of segments `p1 q1` and `p2 q2`: each segment's
/// endpoints lie strictly on opposite sides of the other's line.  Touching
/// configurations — shared endpoints included — never count.
pub open spec fn spec_is_crossing(
    p1: (u32, u32),
    q1: (u32, u32),
    p2: (u32, u32),
    q2: (u32, u32),
) -> bool {
    let d1 = spec_cross(
        q1.0 - p1.0,
        q1.1 - p1.1,
        p2.0 - p1.0,
        p2.1 - p1.1,
    );
    let d2 = spec_cross(
        q1.0 - p1.0,
        q1.1 - p1.1,
        q2.0 - p1.0,
        q2.1 - p1.1,
    );
    let d3 = spec_cross(
        q2.0 - p2.0,
        q2.1 - p2.1,
        p1.0 - p2.0,
        p1.1 - p2.1,
    );
    let d4 = spec_cross(
        q2.0 - p2.0,
        q2.1 - p2.1,
        q1.0 - p2.0,
        q1.1 - p2.1,
    );
    d1 * d2 < 0 && d3 * d4 < 0
}

/// 1 when the segments of edges `i` and `j` cross, else 0.
pub open spec fn spec_cross_pair(
    ps: Seq<(u32, u32)>,
    es: Seq<(usize, usize)>,
    i: int,
    j: int,
) -> nat {
    if spec_is_crossing(
        ps[es[i].0 as int],
        ps[es[i].1 as int],
        ps[es[j].0 as int],
        ps[es[j].1 as int],
    ) {
        1
    } else {
        0
    }
}

pub open spec fn spec_row_count(ps: Seq<(u32, u32)>, es: Seq<(usize, usize)>, i: int, j: int) -> nat
    decreases es.len() - j,
{
    if j >= es.len() {
        0
    } else {
        spec_cross_pair(ps, es, i, j) + spec_row_count(ps, es, i, j + 1)
    }
}

pub open spec fn spec_count_from(ps: Seq<(u32, u32)>, es: Seq<(usize, usize)>, i: int) -> nat
    decreases es.len() - i,
{
    if i >= es.len() {
        0
    } else {
        spec_row_count(ps, es, i, i + 1) + spec_count_from(ps, es, i + 1)
    }
}

/// How many unordered pairs of edges cross, under the strict sign test.
pub open spec fn spec_crossing_count(ps: Seq<(u32, u32)>, es: Seq<(usize, usize)>) -> nat {
    spec_count_from(ps, es, 0)
}

/// All grid positions lie in the grid square.
pub open spec fn spec_on_grid(ps: Seq<(u32, u32)>) -> bool {
    forall|i: int| 0 <= i < ps.len() ==> (#[trigger] ps[i]).0 < GRID_SIDE && ps[i].1 < GRID_SIDE
}

/// All edges reference positions below `n`.
pub open spec fn spec_edges_below(es: Seq<(usize, usize)>, n: int) -> bool {
    forall|k: int| 0 <= k < es.len() ==> (#[trigger] es[k]).0 < n && es[k].1 < n
}

/// The strict segment intersection test, by the signs of the four integer
/// cross products.
fn is_crossing(p1: (u32, u32), q1: (u32, u32), p2: (u32, u32), q2: (u32, u32)) -> (r: bool)
    requires
        p1.0 < GRID_SIDE && p1.1 < GRID_SIDE,
        q1.0 < GRID_SIDE && q1.1 < GRID_SIDE,
        p2.0 < GRID_SIDE && p2.1 < GRID_SIDE,
        q2.0 < GRID_SIDE && q2.1 < GRID_SIDE,
    ensures
        r == spec_is_crossing(p1, q1, p2, q2),
{
    let d1 = cross_of(p1, q1, p2);
    let d2 = cross_of(p1, q1, q2);
    let d3 = cross_of(p2, q2, p1);
    let d4 = cross_of(p2, q2, q1);
    proof {
        lemma_sign_product(d1 as int, d2 as int);
        lemma_sign_product(d3 as int, d4 as int);
    }
    ((d1 < 0 && d2 > 0) || (d1 > 0 && d2 < 0)) && ((d3 < 0 && d4 > 0) || (d3 > 0 && d4 < 0))
}

/// The cross product of `b - a` and `c - a`.
fn cross_of(a: (u32, u32), b: (u32, u32), c: (u32, u32)) -> (r: i64)
    requires
        a.0 < GRID_SIDE && a.1 < GRID_SIDE,
        b.0 < GRID_SIDE && b.1 < GRID_SIDE,
        c.0 < GRID_SIDE && c.1 < GRID_SIDE,
    ensures
        r as int == spec_cross(b.0 - a.0, b.1 - a.1, c.0 - a.0, c.1 - a.1),
{
    let ux = b.0 as i64 - a.0 as i64;
    let uy = b.1 as i64 - a.1 as i64;
    let vx = c.0 as i64 - a.0 as i64;
    let vy = c.1 as i64 - a.1 as i64;
    proof {
        assert(ux * vy - uy * vx == spec_cross(b.0 - a.0, b.1 - a.1, c.0 - a.0, c.1 - a.1)
            && -0x2_0000_0000_i64 as int <= ux * vy - uy * vx <= 0x2_0000_0000_i64 as int)
            by (nonlinear_arith)
            requires
                -0x1_0000 <= ux <= 0x1_0000,
                -0x1_0000 <= uy <= 0x1_0000,
                -0x1_0000 <= vx <= 0x1_0000,
                -0x1_0000 <= vy <= 0x1_0000,
                ux == b.0 - a.0,
                uy == b.1 - a.1,
                vx == c.0 - a.0,
                vy == c.1 - a.1,
        ;
        assert(ux * vy <= 0x1_0000_0000_i64 as int && ux * vy >= -0x1_0000_0000_i64 as int)
            by (nonlinear_arith)
            requires
                -0x1_0000 <= ux <= 0x1_0000,
                -0x1_0000 <= vy <= 0x1_0000,
        ;
        assert(uy * vx <= 0x1_0000_0000_i64 as int && uy * vx >= -0x1_0000_0000_i64 as int)
            by (nonlinear_arith)
            requires
                -0x1_0000 <= uy <= 0x1_0000,
                -0x1_0000 <= vx <= 0x1_0000,
        ;
    }
    ux * vy - uy * vx
}

/// A product is negative exactly when the factors have strictly opposite signs.
proof fn lemma_sign_product(a: int, b: int)
    ensures
        (a * b < 0) == ((a < 0 && b > 0) || (a > 0 && b < 0)),
{
    assert((a * b < 0) == ((a < 0 && b > 0) || (a > 0 && b < 0))) by (nonlinear_arith);
}

/// Counts crossing pairs of edges with an exact pairwise sweep.
pub fn count_edge_crossing(positions: &Vec<(u32, u32)>, edges: &Vec<(usize, usize)>) -> (r: usize)
    requires
        spec_on_grid(positions@),
        spec_edges_below(edges@, positions@.len() as int),
        edges@.len() * edges@.len() <= usize::MAX,
    ensures
        r == spec_crossing_count(positions@, edges@),
{
    let m = edges.len();
    let mut count: usize = 0;
    for i in 0..m
        invariant
            m == edges@.len(),
            spec_on_grid(positions@),
            spec_edges_below(edges@, positions@.len() as int),
            m * m <= usize::MAX,
            count + spec_count_from(positions@, edges@, i as int) == spec_crossing_count(
                positions@,
                edges@,
            ),
            count <= i * m,
    {
        let a = edges[i];
        let pa = positions[a.0];
        let qa = positions[a.1];
        let mut j = i + 1;
        proof {
            assert(i * m + (i + 1) <= m * m) by (nonlinear_arith)
                requires
                    0 <= i < m,
            ;
        }
        while j < m
            invariant
                i < m,
                i < j <= m,
                m == edges@.len(),
                spec_on_grid(positions@),
                spec_edges_below(edges@, positions@.len() as int),
                m * m <= usize::MAX,
                a == edges@[i as int],
                pa == positions@[a.0 as int],
                qa == positions@[a.1 as int],
                count + spec_row_count(positions@, edges@, i as int, j as int) + spec_count_from(
                    positions@,
                    edges@,
                    i as int + 1,
                ) == spec_crossing_count(positions@, edges@),
                count <= i * m + j,
            decreases m - j,
        {
            let b = edges[j];
            let pb = positions[b.0];
            let qb = positions[b.1];
            proof {
                assert(i * m + j + 1 <= m * m) by (nonlinear_arith)
                    requires
                        0 <= i < m,
                        0 <= j < m,
                ;
            }
            if is_crossing(pa, qa, pb, qb) {
                count = count + 1;
            }
            j = j + 1;
        }
        proof {
            assert(i * m + m == (i + 1) * m) by (nonlinear_arith);
        }
    }
    count
}

fn copy_positions(src: &Vec<(u32, u32)>) -> (r: Vec<(u32, u32)>)
    ensures
        r@ == src@,
{
    let n = src.len();
    let mut out: Vec<(u32, u32)> = Vec::new();
    for i in 0..n
        invariant
            n == src@.len(),
            out@ == src@.take(i as int),
    {
        out.push(src[i]);
        proof {
            assert(src@.take(i + 1) =~= src@.take(i as int).push(src@[i as int]));
        }
    }
    proof {
        assert(src@.take(n as int) =~= src@);
    }
    out
}

/// A uniformly random grid point of the unit square.
pub fn sample_point() -> (r: (u32, u32))
    ensures
        r.0 < GRID_SIDE && r.1 < GRID_SIDE,
{
    let x = rand::random::<u32>() % GRID_SIDE;
    let y = rand::random::<u32>() % GRID_SIDE;
    (x, y)
}

/// Hill climbing from a given placement: `iterations` times, re-sample one
/// random vertex and keep the change only if the crossing count strictly
/// decreased.  The crossing count of the result never exceeds that of the
/// start, whatever the random source does.
pub fn hill_climb_from(
    initial: Vec<(u32, u32)>,
    edges: &Vec<(usize, usize)>,
    iterations: usize,
) -> (r: Vec<(u32, u32)>)
    requires
        spec_on_grid(initial@),
        spec_edges_below(edges@, initial@.len() as int),
        edges@.len() * edges@.len() <= usize::MAX,
    ensures
        r@.len() == initial@.len(),
        spec_on_grid(r@),
        spec_crossing_count(r@, edges@) <= spec_crossing_count(initial@, edges@),
{
    let n = initial.len();
    if n == 0 {
        return initial;
    }
    let mut best = initial;
    let mut best_count = count_edge_crossing(&best, edges);
    for _it in 0..iterations
        invariant
            0 < n,
            best@.len() == n,
            spec_on_grid(best@),
            spec_edges_below(edges@, n as int),
            edges@.len() * edges@.len() <= usize::MAX,
            best_count == spec_crossing_count(best@, edges@),
            spec_crossing_count(best@, edges@) <= spec_crossing_count(initial@, edges@),
    {
        let mut cand = copy_positions(&best);
        let vi = rand::random::<usize>() % n;
        cand.set(vi, sample_point());
        let cand_count = count_edge_crossing(&cand, edges);
        if cand_count < best_count {
            best = cand;
            best_count = cand_count;
        }
    }
    best
}

/// A placement strategy: a map from a graph to one grid position per vertex.
pub trait Visualize {
    /// Positions for the `n` vertices of a graph with the given edges, on the
    /// unit-square grid.
    fn resolve_vertex_position(&self, n: usize, edges: &Vec<(usize, usize)>) -> (r: Vec<(u32, u32)>)
        requires
            spec_edges_below(edges@, n as int),
            edges@.len() * edges@.len() <= usize::MAX,
        ensures
            r@.len() == n,
            spec_on_grid(r@),
    ;
}

/// Independent uniform placement.
pub struct Naive;

impl Visualize for Naive {
    fn resolve_vertex_position(&self, n: usize, edges: &Vec<(usize, usize)>) -> (r: Vec<(u32, u32)>)
    {
        let mut out: Vec<(u32, u32)> = Vec::new();
        for _i in 0..n
            invariant
                out@.len() == _i,
                spec_on_grid(out@),
        {
            out.push(sample_point());
        }
        out
    }
}

/// Crossing-minimizing placement: a random start refined by hill climbing for
/// the given number of iterations.
pub struct HillClimbing(pub usize);

impl Visualize for HillClimbing {
    fn resolve_vertex_position(&self, n: usize, edges: &Vec<(usize, usize)>) -> (r: Vec<(u32, u32)>)
    {
        let naive = Naive;
        let start = naive.resolve_vertex_position(n, edges);
        hill_climb_from(start, edges, self.0)
    }
}

} // verus!
