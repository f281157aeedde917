//! Clearance between a building footprint and the classified edges of its lot.
//!
//! A distance is kept exactly, as its square in the form `num / den` (in square
//! hundredths of a foot), so that no rounding enters a comparison.
use vstd::prelude::*;
use crate::edges::{Edge, EdgeClassification};
use crate::geometry::{MultiPolygon, Pt, cross, dist2, dot, exterior_vertices, lemma_prod_bound};
use crate::index::GeometryError;

verus! {

/// The clearance measured for one lot edge.
#[derive(Clone, Copy, Debug, PartialEq, Eq, Structural)]
pub struct SetbackMeasurement {
    pub classification: EdgeClassification,
    /// Numerator of the squared distance.
    pub dist2_num: u128,
    /// Denominator of the squared distance, never zero.
    pub dist2_den: u128,
}

/// Denominator shared by the squared distances from every point to the segment
/// `(a, b)`: its squared length, or 1 for a segment of no length.
pub open spec fn seg_den(a: Pt, b: Pt) -> int {
    if dist2(a, b) == 0 { 1 } else { dist2(a, b) }
}

/// Numerator of the squared distance from `p` to the segment `(a, b)`, over
/// `seg_den(a, b)`. Where the foot of the perpendicular from `p` falls before `a`
/// or after `b` the nearest point is that end; in between the distance is the
/// cross product over the segment's length.
pub open spec fn seg_num(a: Pt, b: Pt, p: Pt) -> int {
    let l = dist2(a, b);
    if l == 0 {
        dist2(p, a)
    } else {
        let t = dot(a, p, b);
        if t <= 0 {
            dist2(p, a) * l
        } else if t >= l {
            dist2(p, b) * l
        } else {
            cross(a, b, p) * cross(a, b, p)
        }
    }
}

/// `num` is the least numerator over the points of `vs`, measured to the edge.
pub open spec fn is_min_setback(e: Edge, vs: Seq<Pt>, num: int) -> bool {
    &&& forall|j: int| 0 <= j < vs.len() ==> num <= #[trigger] seg_num(e.start, e.end, vs[j])
    &&& exists|j: int| 0 <= j < vs.len() && num == #[trigger] seg_num(e.start, e.end, vs[j])
}

/// The measurement of edge `e` against the footprint vertices `vs`.
pub open spec fn measures(m: SetbackMeasurement, e: Edge, vs: Seq<Pt>) -> bool {
    &&& m.classification == e.classification
    &&& m.dist2_den == seg_den(e.start, e.end)
    &&& is_min_setback(e, vs, m.dist2_num as int)
}

/// `r` holds one measurement per edge, in order, against the exterior vertices
/// of the footprint.
pub open spec fn setbacks_of(edges: Seq<Edge>, footprint: MultiPolygon, r: Seq<SetbackMeasurement>) -> bool {
    &&& r.len() == edges.len()
    &&& forall|k: int|
        0 <= k < edges.len() ==> measures(#[trigger] r[k], edges[k], footprint.exterior_vertices())
}

/// The point lies on the segment `(a, b)`, ends included.
pub open spec fn on_segment(a: Pt, b: Pt, p: Pt) -> bool {
    if a == b {
        p == a
    } else {
        cross(a, b, p) == 0 && 0 <= dot(a, p, b) <= dist2(a, b)
    }
}

/// The endpoints of every edge lie within the frame's limit.
pub open spec fn edges_wf(edges: Seq<Edge>) -> bool {
    forall|k: int| 0 <= k < edges.len() ==> (#[trigger] edges[k]).start.wf() && edges[k].end.wf()
}

/// Squares and products of coordinate differences stay far below the range
/// of 128-bit integers.
proof fn lemma_diff_products(u: int, v: int)
    requires
        -0x800_0000 <= u <= 0x800_0000,
        -0x800_0000 <= v <= 0x800_0000,
    ensures
        -0x40_0000_0000_0000 <= u * v <= 0x40_0000_0000_0000,
        u * u >= 0,
{
    lemma_prod_bound(u, v, 0x800_0000, 0x800_0000);
    assert(u * u >= 0) by (nonlinear_arith);
}

proof fn lemma_seg_bounds(a: Pt, b: Pt, p: Pt)
    requires
        a.wf(),
        b.wf(),
        p.wf(),
    ensures
        0 <= seg_num(a, b, p) <= 0x4000_0000_0000_0000_0000_0000_0000,
        1 <= seg_den(a, b) <= 0x80_0000_0000_0000,
{
    lemma_diff_products(a.x - b.x, a.x - b.x);
    lemma_diff_products(a.y - b.y, a.y - b.y);
    lemma_diff_products(p.x - a.x, p.x - a.x);
    lemma_diff_products(p.y - a.y, p.y - a.y);
    lemma_diff_products(p.x - b.x, p.x - b.x);
    lemma_diff_products(p.y - b.y, p.y - b.y);
    lemma_diff_products(b.x - a.x, p.y - a.y);
    lemma_diff_products(b.y - a.y, p.x - a.x);
    let d = dist2(a, b);
    let m: int = 0x80_0000_0000_0000;
    assert(0 <= d <= m);
    assert(0 <= dist2(p, a) <= m);
    assert(0 <= dist2(p, b) <= m);
    lemma_prod_bound(dist2(p, a), d, m, m);
    lemma_prod_bound(dist2(p, b), d, m, m);
    assert(dist2(p, a) * d >= 0 && dist2(p, b) * d >= 0) by (nonlinear_arith)
        requires dist2(p, a) >= 0, dist2(p, b) >= 0, d >= 0;
    let c = cross(a, b, p);
    assert(-m <= c <= m);
    lemma_prod_bound(c, c, m, m);
    assert(c * c >= 0) by (nonlinear_arith);
}

/// Numerator and denominator of the squared distance from `p` to `(a, b)`.
fn seg_dist2(a: Pt, b: Pt, p: Pt) -> (r: (u128, u128))
    requires
        a.wf(),
        b.wf(),
        p.wf(),
    ensures
        r.0 == seg_num(a, b, p),
        r.1 == seg_den(a, b),
{
    let abx = b.x as i128 - a.x as i128;
    let aby = b.y as i128 - a.y as i128;
    let apx = p.x as i128 - a.x as i128;
    let apy = p.y as i128 - a.y as i128;
    let bpx = p.x as i128 - b.x as i128;
    let bpy = p.y as i128 - b.y as i128;
    proof {
        lemma_seg_bounds(a, b, p);
        lemma_diff_products(abx as int, abx as int);
        lemma_diff_products(aby as int, aby as int);
        lemma_diff_products(apx as int, apx as int);
        lemma_diff_products(apy as int, apy as int);
        lemma_diff_products(bpx as int, bpx as int);
        lemma_diff_products(bpy as int, bpy as int);
        lemma_diff_products(apx as int, abx as int);
        lemma_diff_products(apy as int, aby as int);
        lemma_diff_products(abx as int, apy as int);
        lemma_diff_products(aby as int, apx as int);
        assert(abx * abx == (a.x - b.x) * (a.x - b.x)) by (nonlinear_arith)
            requires abx == b.x - a.x;
        assert(aby * aby == (a.y - b.y) * (a.y - b.y)) by (nonlinear_arith)
            requires aby == b.y - a.y;
    }
    let l: i128 = abx * abx + aby * aby;
    let da: i128 = apx * apx + apy * apy;
    if l == 0 {
        return (da as u128, 1);
    }
    let t: i128 = apx * abx + apy * aby;
    if t <= 0 {
        (da as u128 * l as u128, l as u128)
    } else if t >= l {
        let db: i128 = bpx * bpx + bpy * bpy;
        (db as u128 * l as u128, l as u128)
    } else {
        let c: i128 = abx * apy - aby * apx;
        let c2: u128 = if c >= 0 { c as u128 } else { (-c) as u128 };
        proof {
            assert(c2 * c2 == c * c) by (nonlinear_arith)
                requires c2 == c || c2 == -c;
        }
        (c2 * c2, l as u128)
    }
}

/// For each lot edge, the least distance from the edge's segment to a vertex of
/// an exterior ring of the footprint, with the edge's label. Fails on a footprint
/// without vertices.
pub fn compute(edges: &Vec<Edge>, footprint: &MultiPolygon) -> (r: Result<
    Vec<SetbackMeasurement>,
    GeometryError,
>)
    requires
        edges_wf(edges@),
        footprint.wf(),
    ensures
        r is Err <==> footprint.exterior_vertices().len() == 0,
        r matches Err(e) ==> e == GeometryError::DegenerateGeometry,
        r matches Ok(m) ==> setbacks_of(edges@, *footprint, m@),
{
    let vs = exterior_vertices(footprint);
    if vs.len() == 0 {
        return Err(GeometryError::DegenerateGeometry);
    }
    let n = edges.len();
    let mut r: Vec<SetbackMeasurement> = Vec::with_capacity(n);
    let mut k: usize = 0;
    while k < n
        invariant
            n == edges@.len(),
            edges_wf(edges@),
            vs@ == footprint.exterior_vertices(),
            vs@.len() > 0,
            forall|j: int| 0 <= j < vs@.len() ==> (#[trigger] vs@[j]).wf(),
            0 <= k <= n,
            r@.len() == k,
            forall|q: int| 0 <= q < k ==> measures(#[trigger] r@[q], edges@[q], vs@),
        decreases n - k,
    {
        let e = edges[k];
        assert(e.start.wf() && e.end.wf());
        let first = seg_dist2(e.start, e.end, vs[0]);
        let den = first.1;
        let mut best = first.0;
        let m = vs.len();
        let mut j: usize = 1;
        while j < m
            invariant
                m == vs@.len(),
                m > 0,
                forall|q: int| 0 <= q < vs@.len() ==> (#[trigger] vs@[q]).wf(),
                e.start.wf() && e.end.wf(),
                1 <= j <= m,
                forall|q: int| 0 <= q < j ==> best <= #[trigger] seg_num(e.start, e.end, vs@[q]),
                exists|q: int| 0 <= q < j && best == #[trigger] seg_num(e.start, e.end, vs@[q]),
            decreases m - j,
        {
            let d = seg_dist2(e.start, e.end, vs[j]);
            if d.0 < best {
                best = d.0;
            }
            j = j + 1;
        }
        r.push(SetbackMeasurement { classification: e.classification, dist2_num: best, dist2_den: den });
        k = k + 1;
    }
    Ok(r)
}

/// Lagrange's identity in the plane: the squared cross and dot products of two
/// vectors sum to the product of their squared lengths.
proof fn lemma_lagrange(ux: int, uy: int, vx: int, vy: int)
    ensures
        (ux * vy - uy * vx) * (ux * vy - uy * vx) + (ux * vx + uy * vy) * (ux * vx + uy * vy) == (
        ux * ux + uy * uy) * (vx * vx + vy * vy),
{
    let a = ux * vy;
    let b = uy * vx;
    let c = ux * vx;
    let d = uy * vy;
    assert((a - b) * (a - b) == a * a - 2 * (a * b) + b * b) by (nonlinear_arith);
    assert((c + d) * (c + d) == c * c + 2 * (c * d) + d * d) by (nonlinear_arith);
    assert(a * b == c * d) by (nonlinear_arith)
        requires a == ux * vy, b == uy * vx, c == ux * vx, d == uy * vy;
    let xx = ux * ux;
    let yy = uy * uy;
    let pp = vx * vx;
    let qq = vy * vy;
    assert(a * a == xx * qq) by (nonlinear_arith)
        requires a == ux * vy, xx == ux * ux, qq == vy * vy;
    assert(b * b == yy * pp) by (nonlinear_arith)
        requires b == uy * vx, yy == uy * uy, pp == vx * vx;
    assert(c * c == xx * pp) by (nonlinear_arith)
        requires c == ux * vx, xx == ux * ux, pp == vx * vx;
    assert(d * d == yy * qq) by (nonlinear_arith)
        requires d == uy * vy, yy == uy * uy, qq == vy * vy;
    assert((xx + yy) * (pp + qq) == xx * pp + xx * qq + yy * pp + yy * qq) by (nonlinear_arith);
}

/// A footprint vertex that lies on a lot edge gives that edge a setback of zero,
/// and no setback is negative.
pub proof fn lemma_vertex_on_edge_zero_setback(
    edges: Seq<Edge>,
    footprint: MultiPolygon,
    r: Seq<SetbackMeasurement>,
    k: int,
    j: int,
)
    requires
        setbacks_of(edges, footprint, r),
        0 <= k < edges.len(),
        0 <= j < footprint.exterior_vertices().len(),
        on_segment(edges[k].start, edges[k].end, footprint.exterior_vertices()[j]),
    ensures
        r[k].dist2_num == 0,
        forall|q: int| 0 <= q < r.len() ==> #[trigger] r[q].dist2_num >= 0 && r[q].dist2_den > 0,
{
    let vs = footprint.exterior_vertices();
    let a = edges[k].start;
    let b = edges[k].end;
    let p = vs[j];
    assert(measures(r[k], edges[k], vs));
    let l = dist2(a, b);
    if a != b {
        let ux = b.x - a.x;
        let uy = b.y - a.y;
        assert(l == ux * ux + uy * uy) by (nonlinear_arith)
            requires l == (a.x - b.x) * (a.x - b.x) + (a.y - b.y) * (a.y - b.y), ux == b.x - a.x,
                uy == b.y - a.y;
        assert(l > 0) by {
            assert(ux * ux >= 0 && uy * uy >= 0) by (nonlinear_arith);
            if l == 0 {
                assert(ux == 0 && uy == 0) by (nonlinear_arith)
                    requires ux * ux + uy * uy == 0;
            }
        }
        let t = dot(a, p, b);
        let vx = p.x - a.x;
        let vy = p.y - a.y;
        assert(t == ux * vx + uy * vy) by (nonlinear_arith)
            requires t == (p.x - a.x) * (b.x - a.x) + (p.y - a.y) * (b.y - a.y), ux == b.x - a.x,
                uy == b.y - a.y, vx == p.x - a.x, vy == p.y - a.y;
        assert(cross(a, b, p) == ux * vy - uy * vx);
        if t <= 0 {
            lemma_lagrange(ux, uy, vx, vy);
            assert(dist2(p, a) == vx * vx + vy * vy) by (nonlinear_arith)
                requires dist2(p, a) == (p.x - a.x) * (p.x - a.x) + (p.y - a.y) * (p.y - a.y),
                    vx == p.x - a.x, vy == p.y - a.y;
            assert(l * dist2(p, a) == 0) by (nonlinear_arith)
                requires (ux * vy - uy * vx) == 0, ux * vx + uy * vy == 0,
                    (ux * vy - uy * vx) * (ux * vy - uy * vx) + (ux * vx + uy * vy) * (ux * vx + uy
                        * vy) == (ux * ux + uy * uy) * (vx * vx + vy * vy),
                    l == ux * ux + uy * uy, dist2(p, a) == vx * vx + vy * vy;
            assert(dist2(p, a) * l == 0) by (nonlinear_arith)
                requires l * dist2(p, a) == 0;
        } else if t >= l {
            let wx = p.x - b.x;
            let wy = p.y - b.y;
            assert(ux * wy - uy * wx == ux * vy - uy * vx) by (nonlinear_arith)
                requires wx == vx - ux, wy == vy - uy;
            assert(ux * wx + uy * wy == t - l) by (nonlinear_arith)
                requires wx == vx - ux, wy == vy - uy, t == ux * vx + uy * vy, l == ux * ux + uy
                    * uy;
            lemma_lagrange(ux, uy, wx, wy);
            assert(dist2(p, b) == wx * wx + wy * wy) by (nonlinear_arith)
                requires dist2(p, b) == (p.x - b.x) * (p.x - b.x) + (p.y - b.y) * (p.y - b.y),
                    wx == p.x - b.x, wy == p.y - b.y;
            assert(l * dist2(p, b) == 0) by (nonlinear_arith)
                requires (ux * wy - uy * wx) == 0, ux * wx + uy * wy == 0,
                    (ux * wy - uy * wx) * (ux * wy - uy * wx) + (ux * wx + uy * wy) * (ux * wx + uy
                        * wy) == (ux * ux + uy * uy) * (wx * wx + wy * wy),
                    l == ux * ux + uy * uy, dist2(p, b) == wx * wx + wy * wy;
            assert(dist2(p, b) * l == 0) by (nonlinear_arith)
                requires l * dist2(p, b) == 0;
        }
    }
    if a == b {
        assert(a.x - b.x == 0 && a.y - b.y == 0);
        assert(dist2(a, b) == 0) by (nonlinear_arith)
            requires a.x - b.x == 0, a.y - b.y == 0,
                dist2(a, b) == (a.x - b.x) * (a.x - b.x) + (a.y - b.y) * (a.y - b.y);
        assert(p.x - a.x == 0 && p.y - a.y == 0);
        assert(dist2(p, a) == 0) by (nonlinear_arith)
            requires p.x - a.x == 0, p.y - a.y == 0,
                dist2(p, a) == (p.x - a.x) * (p.x - a.x) + (p.y - a.y) * (p.y - a.y);
    } else if 0 < dot(a, p, b) < l {
        assert(cross(a, b, p) * cross(a, b, p) == 0) by (nonlinear_arith)
            requires cross(a, b, p) == 0;
    }
    assert(seg_num(a, b, p) == 0);
}

} // verus!
