//! Classification of a lot's boundary edges as front, side or rear, from what
//! lies just outside each edge.
use vstd::prelude::*;
use crate::geometry::{
    MultiPolygon, Pt, COORD_LIMIT, ccw_ring, dist2, floor_sqrt, isqrt, lemma_prod_bound, make_ccw,
    next_index, pts_wf,
};
use crate::index::SpatialIndex;

verus! {

/// How far outside an edge the probe point lies: 10 feet, in hundredths of a foot.
pub const PROBE_DISTANCE: i64 = 1000;

/// The label of one boundary edge of a lot.
#[derive(Clone, Copy, Debug, PartialEq, Eq, Structural)]
pub enum EdgeClassification {
    /// Nothing indexed lies just outside the edge: it faces the street.
    Front,
    /// The edge does not face the street, but a neighbouring edge does.
    Side,
    /// Neither the edge nor its neighbours face the street.
    Rear,
    /// The edge and the next are collinear (or the edge has no length), so no
    /// outward direction can be taken from the turn between them.
    Indeterminate,
}

/// Cross product of the edge vector `e - s` and the turn vector `n - e`; its sign
/// tells on which side of the edge the ring turns at `e`.
pub open spec fn turn(s: Pt, e: Pt, n: Pt) -> int {
    (e.x - s.x) * (n.y - e.y) - (e.y - s.y) * (n.x - e.x)
}

/// The probe point of the edge `(s, e)` followed by the vertex `n`, or `None` when
/// the turn at `e` has no component perpendicular to the edge.
///
/// The perpendicular part of `n - e` with respect to `e - s` points along
/// `sgn * (s.y - e.y, e.x - s.x)`, `sgn` the sign of the turn. Its unit vector is
/// that vector over the edge's length, taken here as the floor of the square root
/// of the squared length. The probe is the edge's midpoint minus the unit vector
/// times `PROBE_DISTANCE`, each division rounded down.
pub open spec fn probe_point(s: Pt, e: Pt, n: Pt) -> Option<Pt> {
    let t = turn(s, e, n);
    if t == 0 {
        None
    } else {
        let len = floor_sqrt(dist2(s, e));
        let sgn: int = if t > 0 { 1 } else { -1 };
        let nx = sgn * (s.y - e.y);
        let ny = sgn * (e.x - s.x);
        Some(
            Pt {
                x: ((s.x + e.x) / 2 - nx * PROBE_DISTANCE / len) as i64,
                y: ((s.y + e.y) / 2 - ny * PROBE_DISTANCE / len) as i64,
            },
        )
    }
}

/// `a / b` rounded down, for a positive `b`.
fn floor_div(a: i128, b: i128) -> (q: i128)
    requires
        b > 0,
        a > i128::MIN,
    ensures
        q == a / b,
{
    if a >= 0 {
        let q = a / b;
        proof {
            vstd::arithmetic::div_mod::lemma_fundamental_div_mod(a as int, b as int);
        }
        q
    } else {
        let na: i128 = -a;
        let q0 = na / b;
        let r0 = na % b;
        proof {
            vstd::arithmetic::div_mod::lemma_fundamental_div_mod(na as int, b as int);
            assert(0 <= q0 * b <= na) by (nonlinear_arith)
                requires b > 0, q0 >= 0, na == b * q0 + r0, 0 <= r0 < b;
        }
        if r0 == 0 {
            proof {
                assert(a == (-q0) * b + 0) by (nonlinear_arith)
                    requires na == b * q0 + r0, a == -na, r0 == 0;
                vstd::arithmetic::div_mod::lemma_fundamental_div_mod_converse(
                    a as int,
                    b as int,
                    -q0,
                    0,
                );
            }
            -q0
        } else {
            proof {
                assert(a == (-q0 - 1) * b + (b - r0)) by (nonlinear_arith)
                    requires na == b * q0 + r0, a == -na;
                vstd::arithmetic::div_mod::lemma_fundamental_div_mod_converse(
                    a as int,
                    b as int,
                    -q0 - 1,
                    b - r0,
                );
            }
            -q0 - 1
        }
    }
}

/// A component of a vector is no longer than the floor of the vector's length.
proof fn lemma_component_le_len(c: int, other: int, len: int)
    requires
        len >= 0,
        c * c + other * other < (len + 1) * (len + 1),
    ensures
        -len <= c <= len,
{
    assert(other * other >= 0) by (nonlinear_arith);
    if c > len {
        assert(c * c >= (len + 1) * (len + 1)) by (nonlinear_arith)
            requires c >= len + 1, len >= 0;
    }
    if c < -len {
        assert(c * c >= (len + 1) * (len + 1)) by (nonlinear_arith)
            requires c <= -(len + 1), len >= 0;
    }
}

/// The rounded-down quotient of a value bounded by `d * len` is bounded by `d`.
proof fn lemma_scaled_quotient(c: int, d: int, len: int)
    requires
        len > 0,
        d >= 0,
        -len <= c <= len,
    ensures
        -d <= (c * d) / len <= d,
{
    let q = (c * d) / len;
    vstd::arithmetic::div_mod::lemma_fundamental_div_mod(c * d, len);
    let r = (c * d) % len;
    assert(-(d * len) <= c * d <= d * len) by (nonlinear_arith)
        requires -len <= c <= len, d >= 0;
    assert(-d <= q <= d) by (nonlinear_arith)
        requires len > 0, c * d == len * q + r, 0 <= r < len, -(d * len) <= c * d <= d * len;
}

/// The probe point of the edge `(s, e)` followed by the vertex `n`: a point
/// `PROBE_DISTANCE` outside the edge's midpoint, against the turn at `e`.
pub fn probe(s: Pt, e: Pt, n: Pt) -> (r: Option<Pt>)
    requires
        s.wf(),
        e.wf(),
        n.wf(),
    ensures
        r == probe_point(s, e, n),
        r matches Some(p) ==> p.in_reach(),
{
    let ghost l = COORD_LIMIT as int;
    let vx: i128 = e.x as i128 - s.x as i128;
    let vy: i128 = e.y as i128 - s.y as i128;
    let wx: i128 = n.x as i128 - e.x as i128;
    let wy: i128 = n.y as i128 - e.y as i128;
    proof {
        lemma_prod_bound(vx as int, wy as int, 2 * l, 2 * l);
        lemma_prod_bound(vy as int, wx as int, 2 * l, 2 * l);
        lemma_prod_bound(vx as int, vx as int, 2 * l, 2 * l);
        lemma_prod_bound(vy as int, vy as int, 2 * l, 2 * l);
        assert(vx * vx >= 0 && vy * vy >= 0) by (nonlinear_arith);
    }
    let t: i128 = vx * wy - vy * wx;
    if t == 0 {
        return None;
    }
    let sq: i128 = vx * vx + vy * vy;
    let len64 = isqrt(sq as u64);
    let len: i128 = len64 as i128;
    proof {
        assert(sq == dist2(s, e)) by (nonlinear_arith)
            requires vx == e.x - s.x, vy == e.y - s.y, sq == vx * vx + vy * vy;
        if sq == 0 {
            assert(vx == 0 && vy == 0) by (nonlinear_arith)
                requires vx * vx + vy * vy == 0;
            assert(t == 0) by (nonlinear_arith)
                requires vx == 0, vy == 0, t == vx * wy - vy * wx;
        }
        assert(len > 0) by (nonlinear_arith)
            requires sq >= 1, sq < (len + 1) * (len + 1), len >= 0;
        lemma_component_le_len(vx as int, vy as int, len as int);
        lemma_component_le_len(vy as int, vx as int, len as int);
    }
    let sgn: i128 = if t > 0 { 1 } else { -1 };
    let nx: i128 = if t > 0 { s.y as i128 - e.y as i128 } else { e.y as i128 - s.y as i128 };
    let ny: i128 = if t > 0 { vx } else { -vx };
    let mx = floor_div(s.x as i128 + e.x as i128, 2);
    let my = floor_div(s.y as i128 + e.y as i128, 2);
    proof {
        lemma_scaled_quotient(nx as int, PROBE_DISTANCE as int, len as int);
        lemma_scaled_quotient(ny as int, PROBE_DISTANCE as int, len as int);
    }
    let ox = floor_div(nx * (PROBE_DISTANCE as i128), len);
    let oy = floor_div(ny * (PROBE_DISTANCE as i128), len);
    let px: i128 = mx - ox;
    let py: i128 = my - oy;
    proof {
        let sg: int = if t > 0 { 1 } else { -1 };
        assert(t == turn(s, e, n));
        assert(nx == sg * (s.y - e.y));
        assert(ny == sg * (e.x - s.x));
        assert(len == floor_sqrt(dist2(s, e)));
    }
    Some(Pt { x: px as i64, y: py as i64 })
}

/// The label of edge `i` given, for each edge, whether it faces the street
/// (`None` where its orientation is indeterminate). An edge faces the street when
/// nothing lies just outside it; a side edge is one next to a street-facing edge.
pub open spec fn class_of(faces: Seq<Option<bool>>, i: int) -> EdgeClassification {
    let n = faces.len() as int;
    if faces[i] is None {
        EdgeClassification::Indeterminate
    } else if faces[i] == Some(true) {
        EdgeClassification::Front
    } else if faces[(i + 1) % n] == Some(true) || faces[(i + n - 1) % n] == Some(true) {
        EdgeClassification::Side
    } else {
        EdgeClassification::Rear
    }
}

proof fn lemma_cyclic_neighbours(i: int, n: int)
    requires
        0 <= i < n,
    ensures
        (i + 1) % n == (if i + 1 < n { i + 1 } else { 0 }),
        (i + n - 1) % n == (if i == 0 { n - 1 } else { i - 1 }),
{
    if i + 1 < n {
        vstd::arithmetic::div_mod::lemma_fundamental_div_mod_converse(i + 1, n, 0, i + 1);
    } else {
        vstd::arithmetic::div_mod::lemma_fundamental_div_mod_converse(i + 1, n, 1, 0);
    }
    if i == 0 {
        vstd::arithmetic::div_mod::lemma_fundamental_div_mod_converse(i + n - 1, n, 0, n - 1);
    } else {
        vstd::arithmetic::div_mod::lemma_fundamental_div_mod_converse(i + n - 1, n, 1, i - 1);
    }
}

/// Labels every edge of a ring from whether each edge faces the street.
pub fn classify_faces(faces: &Vec<Option<bool>>) -> (r: Vec<EdgeClassification>)
    ensures
        r@.len() == faces@.len(),
        forall|i: int| 0 <= i < faces@.len() ==> #[trigger] r@[i] == class_of(faces@, i),
{
    let n = faces.len();
    let mut r: Vec<EdgeClassification> = Vec::with_capacity(n);
    let mut i: usize = 0;
    while i < n
        invariant
            n == faces@.len(),
            0 <= i <= n,
            r@.len() == i,
            forall|k: int| 0 <= k < i ==> #[trigger] r@[k] == class_of(faces@, k),
        decreases n - i,
    {
        let c = match faces[i] {
            None => EdgeClassification::Indeterminate,
            Some(true) => EdgeClassification::Front,
            Some(false) => {
                let after: usize = if i + 1 < n { i + 1 } else { 0 };
                let before: usize = if i == 0 { n - 1 } else { i - 1 };
                proof {
                    lemma_cyclic_neighbours(i as int, n as int);
                }
                if faces[after] == Some(true) || faces[before] == Some(true) {
                    EdgeClassification::Side
                } else {
                    EdgeClassification::Rear
                }
            },
        };
        r.push(c);
        i = i + 1;
    }
    r
}

/// One boundary edge of a lot, from `start` to `end` along the counter-clockwise
/// exterior ring, with its label.
#[derive(Clone, Copy, Debug, PartialEq, Eq, Structural)]
pub struct Edge {
    pub start: Pt,
    pub end: Pt,
    pub classification: EdgeClassification,
}

/// The probe point of edge `i` of a ring: the edge, then the vertex after its end.
pub open spec fn ring_probe(r: Seq<Pt>, i: int) -> Option<Pt> {
    let n = r.len() as int;
    let j = next_index(i, n);
    probe_point(r[i], r[j], r[next_index(j, n)])
}

/// For each edge of the ring, whether it faces the street: nothing of the index
/// lies at its probe point. `None` where the edge has no probe point.
pub open spec fn ring_faces<T>(index: SpatialIndex<T>, r: Seq<Pt>) -> Seq<Option<bool>> {
    Seq::new(
        r.len(),
        |i: int|
            match ring_probe(r, i) {
                None => None,
                Some(p) => Some(index.vacant(p)),
            },
    )
}

/// The labelled edges of a ring, once re-wound counter-clockwise.
pub open spec fn classified_ring<T>(index: SpatialIndex<T>, ring: Seq<Pt>) -> Seq<Edge> {
    let c = ccw_ring(ring);
    let faces = ring_faces(index, c);
    Seq::new(
        c.len(),
        |i: int|
            Edge {
                start: c[i],
                end: c[next_index(i, c.len() as int)],
                classification: class_of(faces, i),
            },
    )
}

/// The labelled edges of each of the rings in turn.
pub open spec fn classified_rings<T>(index: SpatialIndex<T>, xs: Seq<Seq<Pt>>) -> Seq<Edge> {
    xs.map_values(|e: Seq<Pt>| classified_ring(index, e)).flatten()
}

/// The labelled edges of every exterior ring of a lot, polygon after polygon.
pub open spec fn classified_lot<T>(index: SpatialIndex<T>, lot: MultiPolygon) -> Seq<Edge> {
    classified_rings(index, lot.exteriors())
}

proof fn lemma_reverse_wf(r: Seq<Pt>)
    requires
        pts_wf(r),
    ensures
        pts_wf(ccw_ring(r)),
        ccw_ring(r).len() == r.len(),
{
    let c = ccw_ring(r);
    assert forall|i: int| 0 <= i < c.len() implies (#[trigger] c[i]).wf() by {
        if c != r {
            assert(c[i] == r[r.len() - 1 - i]);
        }
    }
}

/// Labels each edge of one exterior ring of a lot from what the index holds just
/// outside it.
pub fn classify_ring<T>(ring: &Vec<Pt>, index: &SpatialIndex<T>) -> (r: Vec<Edge>)
    requires
        index.wf(),
        pts_wf(ring@),
        ring@.len() <= 0x1_0000_0000,
    ensures
        r@ == classified_ring(*index, ring@),
{
    let c = make_ccw(ring);
    proof {
        lemma_reverse_wf(ring@);
    }
    let n = c.len();
    let mut faces: Vec<Option<bool>> = Vec::with_capacity(n);
    let mut i: usize = 0;
    while i < n
        invariant
            index.wf(),
            c@ == ccw_ring(ring@),
            pts_wf(c@),
            n == c@.len(),
            0 <= i <= n,
            faces@ == ring_faces(*index, c@).take(i as int),
        decreases n - i,
    {
        let j: usize = if i + 1 < n { i + 1 } else { 0 };
        let k: usize = if j + 1 < n { j + 1 } else { 0 };
        let f = match probe(c[i], c[j], c[k]) {
            None => None,
            Some(p) => Some(index.locate_at_point(p).is_none()),
        };
        faces.push(f);
        proof {
            assert(ring_faces(*index, c@).take(i as int + 1) =~= ring_faces(*index, c@).take(
                i as int,
            ).push(f));
        }
        i = i + 1;
    }
    assert(faces@ =~= ring_faces(*index, c@));
    let classes = classify_faces(&faces);
    let mut r: Vec<Edge> = Vec::with_capacity(n);
    let mut i: usize = 0;
    while i < n
        invariant
            c@ == ccw_ring(ring@),
            n == c@.len(),
            classes@.len() == n,
            forall|k: int| 0 <= k < n ==> #[trigger] classes@[k] == class_of(faces@, k),
            faces@ == ring_faces(*index, c@),
            0 <= i <= n,
            r@ == classified_ring(*index, ring@).take(i as int),
        decreases n - i,
    {
        let j: usize = if i + 1 < n { i + 1 } else { 0 };
        r.push(Edge { start: c[i], end: c[j], classification: classes[i] });
        proof {
            assert(classified_ring(*index, ring@).take(i as int + 1) =~= classified_ring(
                *index,
                ring@,
            ).take(i as int).push(r@[i as int]));
        }
        i = i + 1;
    }
    assert(r@ =~= classified_ring(*index, ring@));
    r
}

/// Labels every edge of the exterior rings of a lot Front, Side, Rear or
/// Indeterminate, from which of them face unindexed space.
pub fn classify<T>(lot: &MultiPolygon, index: &SpatialIndex<T>) -> (r: Vec<Edge>)
    requires
        index.wf(),
        lot.wf(),
    ensures
        r@ == classified_lot(*index, *lot),
{
    broadcast use Seq::lemma_flatten_push;
    let ghost rings = lot.exteriors().map_values(|e: Seq<Pt>| classified_ring(*index, e));
    let mut r: Vec<Edge> = Vec::new();
    let n = lot.polygons.len();
    let mut i: usize = 0;
    while i < n
        invariant
            index.wf(),
            lot.wf(),
            n == lot.polygons@.len(),
            rings == lot.exteriors().map_values(|e: Seq<Pt>| classified_ring(*index, e)),
            0 <= i <= n,
            r@ == rings.take(i as int).flatten(),
        decreases n - i,
    {
        assert(lot.polygons@[i as int].wf());
        let mut part = classify_ring(&lot.polygons[i].exterior, index);
        proof {
            assert(rings[i as int] == part@);
            assert(rings.take(i as int + 1) =~= rings.take(i as int).push(part@));
            rings.take(i as int).lemma_flatten_push(part@);
        }
        r.append(&mut part);
        i = i + 1;
    }
    assert(rings.take(n as int) =~= rings);
    r
}

proof fn lemma_classified_rings_len<T>(index: SpatialIndex<T>, xs: Seq<Seq<Pt>>)
    ensures
        xs.map_values(|e: Seq<Pt>| classified_ring(index, e)).flatten().len() == xs.flatten().len(),
    decreases xs.len(),
{
    if xs.len() > 0 {
        let ys = xs.map_values(|e: Seq<Pt>| classified_ring(index, e));
        assert(ys.drop_first() =~= xs.drop_first().map_values(
            |e: Seq<Pt>| classified_ring(index, e),
        ));
        lemma_classified_rings_len(index, xs.drop_first());
        assert(ys.first().len() == xs.first().len());
    }
}

/// Classification labels every exterior edge of a lot exactly once: a lot whose
/// exterior rings hold `n` vertices in all gets `n` labelled edges, and a lot
/// of one polygon gets one labelled edge per edge of its exterior ring.
pub proof fn lemma_classify_edge_count<T>(index: SpatialIndex<T>, lot: MultiPolygon)
    ensures
        classified_lot(index, lot).len() == lot.exterior_vertices().len(),
        lot.polygons@.len() == 1 ==> classified_lot(index, lot).len()
            == lot.polygons@[0].exterior@.len(),
{
    lemma_classified_rings_len(index, lot.exteriors());
    if lot.polygons@.len() == 1 {
        lot.exteriors().lemma_flatten_one_element();
    }
}

proof fn lemma_classified_rings_wf<T>(index: SpatialIndex<T>, xs: Seq<Seq<Pt>>)
    requires
        forall|k: int| 0 <= k < xs.len() ==> pts_wf(#[trigger] xs[k]),
    ensures
        forall|k: int|
            0 <= k < classified_rings(index, xs).len() ==> (#[trigger] classified_rings(
                index,
                xs,
            )[k]).start.wf() && classified_rings(index, xs)[k].end.wf(),
    decreases xs.len(),
{
    if xs.len() > 0 {
        let ys = xs.map_values(|e: Seq<Pt>| classified_ring(index, e));
        let rest = xs.drop_first();
        assert(ys.drop_first() =~= rest.map_values(|e: Seq<Pt>| classified_ring(index, e)));
        assert forall|k: int| 0 <= k < rest.len() implies pts_wf(#[trigger] rest[k]) by {
            assert(rest[k] == xs[k + 1]);
        }
        lemma_classified_rings_wf(index, rest);
        let f = ys.first();
        assert(pts_wf(xs[0]));
        lemma_reverse_wf(xs[0]);
        let c = ccw_ring(xs[0]);
        assert forall|k: int| 0 <= k < f.len() implies (#[trigger] f[k]).start.wf() && f[k].end.wf() by {
            assert(f[k].start == c[k]);
            assert(f[k].end == c[next_index(k, c.len() as int)]);
        }
        let all = ys.flatten();
        assert(all == classified_rings(index, xs));
        assert(ys.drop_first().flatten() == classified_rings(index, rest));
        assert(all == f + ys.drop_first().flatten());
        assert forall|k: int| 0 <= k < all.len() implies (#[trigger] all[k]).start.wf() && all[k].end.wf() by {
            if k >= f.len() {
                assert(all[k] == ys.drop_first().flatten()[k - f.len()]);
            }
        }
    }
}

/// The endpoints of every labelled edge of a well-formed lot lie within the
/// frame's limit.
pub proof fn lemma_classified_lot_wf<T>(index: SpatialIndex<T>, lot: MultiPolygon)
    requires
        lot.wf(),
    ensures
        forall|k: int|
            0 <= k < classified_lot(index, lot).len() ==> (#[trigger] classified_lot(index, lot)[k]).start.wf()
                && classified_lot(index, lot)[k].end.wf(),
{
    let xs = lot.exteriors();
    assert forall|k: int| 0 <= k < xs.len() implies pts_wf(#[trigger] xs[k]) by {
        assert(lot.polygons@[k].wf());
    }
    lemma_classified_rings_wf(index, xs);
}

} // verus!
