//! Radius-bounded neighbour queries and point lookups over a spatial index.
use vstd::prelude::*;
use crate::geometry::{Envelope, MultiPolygon, Pt, COORD_LIMIT, dist2, lemma_prod_bound};
use crate::index::{SpatialIndex, contains_of, shape_contains};

verus! {

/// The square of half-width `radius` centred on `c`.
pub open spec fn query_box(c: Pt, radius: i64) -> Envelope {
    Envelope {
        min_x: (c.x - radius) as i64,
        min_y: (c.y - radius) as i64,
        max_x: (c.x + radius) as i64,
        max_y: (c.y + radius) as i64,
    }
}

/// Record `j` is a neighbour of the shape with centroid `c`: its box meets the
/// query square, neither centroid lies inside the other's shape, and the two
/// centroids are strictly closer than `radius`.
pub open spec fn is_neighbor<T>(
    index: SpatialIndex<T>,
    shape: MultiPolygon,
    c: Pt,
    radius: i64,
    j: int,
) -> bool {
    let w = index.records@[j];
    &&& 0 <= j < index.records@.len()
    &&& w.bounding_box.intersects(query_box(c, radius))
    &&& !contains_of(shape@, w.centroid)
    &&& !contains_of(w.multi_polygon@, c)
    &&& dist2(c, w.centroid) < radius * radius
}

/// `r` lists exactly the neighbours of the shape.
pub open spec fn neighbors_of<T>(
    index: SpatialIndex<T>,
    shape: MultiPolygon,
    c: Pt,
    radius: i64,
    r: Seq<usize>,
) -> bool {
    &&& forall|k: int| 0 <= k < r.len() ==> is_neighbor(index, shape, c, radius, #[trigger] r[k] as int)
    &&& forall|j: int| is_neighbor(index, shape, c, radius, j) ==> r.contains(j as usize)
}

/// The records of the index whose centroids lie strictly within `radius` of the
/// shape's centroid `c`, leaving out the shape itself: a record whose centroid
/// lies inside the shape, or whose shape holds `c`, is not a neighbour.
pub fn query<T>(index: &SpatialIndex<T>, shape: &MultiPolygon, c: Pt, radius: i64) -> (r: Vec<usize>)
    requires
        index.wf(),
        shape.wf(),
        c.wf(),
        0 <= radius <= COORD_LIMIT,
    ensures
        neighbors_of(*index, *shape, c, radius, r@),
{
    let env = Envelope { min_x: c.x - radius, min_y: c.y - radius, max_x: c.x + radius, max_y: c.y + radius };
    let cands = index.locate_in_envelope_intersecting(env);
    let ghost b = query_box(c, radius);
    assert(env == b);
    proof {
        lemma_prod_bound(radius as int, radius as int, COORD_LIMIT as int, COORD_LIMIT as int);
    }
    let rr: i128 = radius as i128 * radius as i128;
    let m = cands.len();
    let mut r: Vec<usize> = Vec::new();
    let mut k: usize = 0;
    while k < m
        invariant
            index.wf(),
            shape.wf(),
            c.wf(),
            0 <= radius <= COORD_LIMIT,
            rr == radius * radius,
            b == query_box(c, radius),
            m == cands@.len(),
            0 <= k <= m,
            forall|q: int|
                0 <= q < cands@.len() ==> (#[trigger] cands@[q] as int) < index.records@.len()
                    && index.records@[cands@[q] as int].bounding_box.intersects(b),
            forall|i: int|
                0 <= i < index.records@.len() && index.records@[i].bounding_box.intersects(b)
                    ==> cands@.contains(i as usize),
            forall|q: int| 0 <= q < r@.len() ==> is_neighbor(*index, *shape, c, radius, #[trigger] r@[q] as int),
            forall|q: int|
                0 <= q < k && is_neighbor(*index, *shape, c, radius, #[trigger] cands@[q] as int)
                    ==> r@.contains(cands@[q]),
        decreases m - k,
    {
        let j = cands[k];
        let w = index.record(j);
        assert(w.wf());
        let oc = w.centroid;
        let ghost r_old = r@;
        if !shape_contains(shape, oc) && !shape_contains(&w.multi_polygon, c) {
            let dx: i128 = oc.x as i128 - c.x as i128;
            let dy: i128 = oc.y as i128 - c.y as i128;
            proof {
                lemma_prod_bound(dx as int, dx as int, 0x800_0000, 0x800_0000);
                lemma_prod_bound(dy as int, dy as int, 0x800_0000, 0x800_0000);
                assert(dx * dx + dy * dy == dist2(c, oc)) by (nonlinear_arith)
                    requires dx == oc.x - c.x, dy == oc.y - c.y;
            }
            if dx * dx + dy * dy < rr {
                r.push(j);
                proof {
                    assert(is_neighbor(*index, *shape, c, radius, j as int));
                    assert(r@.last() == j);
                    assert forall|q: int| 0 <= q < r@.len() implies is_neighbor(*index, *shape, c, radius, #[trigger] r@[q] as int) by {
                        if q < r_old.len() {
                            assert(r@[q] == r_old[q]);
                        }
                    }
                    assert forall|q: int|
                        0 <= q < k && is_neighbor(*index, *shape, c, radius, #[trigger] cands@[q] as int)
                        implies r@.contains(cands@[q]) by {
                        let t = choose|t: int| 0 <= t < r_old.len() && r_old[t] == cands@[q];
                        assert(r@[t] == r_old[t]);
                    }
                    assert(r@[r_old.len() as int] == j);
                }
            }
        }
        k = k + 1;
    }
    proof {
        assert forall|j: int| is_neighbor(*index, *shape, c, radius, j) implies r@.contains(j as usize) by {
            assert(cands@.contains(j as usize));
            let q = choose|q: int| 0 <= q < m && cands@[q] == j as usize;
            assert(is_neighbor(*index, *shape, c, radius, cands@[q] as int));
        }
    }
    r
}

/// The record of a zoning index whose district covers the centroid `c` of a
/// shape, or `None` at a gap in the districts.
pub fn get_zoning<T>(zoning: &SpatialIndex<T>, c: Pt) -> (r: Option<usize>)
    requires
        zoning.wf(),
        c.wf(),
    ensures
        zoning.located(c, r),
{
    zoning.locate_at_point(c)
}

/// A shape that is itself a record of the index is not among its own
/// neighbours, provided its centroid lies inside it.
pub proof fn lemma_query_excludes_self<T>(
    index: SpatialIndex<T>,
    shape: MultiPolygon,
    c: Pt,
    radius: i64,
    r: Seq<usize>,
    j: int,
)
    requires
        index.wf(),
        neighbors_of(index, shape, c, radius, r),
        0 <= j < index.records@.len(),
        index.records@[j].multi_polygon@ == shape@,
        contains_of(shape@, index.records@[j].centroid),
    ensures
        !r.contains(j as usize),
{
    if r.contains(j as usize) {
        let k = choose|k: int| 0 <= k < r.len() && r[k] == j as usize;
        assert(is_neighbor(index, shape, c, radius, r[k] as int));
    }
}

/// A point lookup finds the one record whose shape covers the point when no
/// other does, and finds nothing at a point outside every record's box.
pub proof fn lemma_locate_unique<T>(index: SpatialIndex<T>, p: Pt, r: Option<usize>, i: int)
    requires
        index.located(p, r),
    ensures
        (index.hit(i, p) && forall|j: int| #[trigger] index.hit(j, p) ==> j == i) ==> r == Some(
            i as usize,
        ),
        (forall|j: int|
            0 <= j < index.records@.len() ==> !(#[trigger] index.records@[j]).bounding_box.contains_pt(p))
            ==> r is None,
{
    if r is Some {
        assert(index.hit(r->0 as int, p));
    }
}

} // verus!
