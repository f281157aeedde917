//! A read-only spatial index over polygon records: an R-tree of the records'
//! bounding boxes, with exact point tests on the polygons themselves.
use vstd::prelude::*;
use vstd::multiset::Multiset;
use crate::geometry::{Envelope, MultiPolygon, Pt, bounding_box, exterior_vertices};
use rstar::primitives::{GeomWithData, Rectangle};
use geo::{Contains, Intersects};

verus! {

/// The point lies inside one of the polygons of the shape or on its boundary,
/// as geo's `Intersects` between a multipolygon and a point decides.
pub uninterp spec fn covers_of(shape: Seq<Seq<Seq<Pt>>>, p: Pt) -> bool;

/// The point lies in the interior of one of the polygons of the shape, off every
/// boundary, as geo's `Contains` between a multipolygon and a point decides.
pub uninterp spec fn contains_of(shape: Seq<Seq<Seq<Pt>>>, p: Pt) -> bool;

/// Relies on geo's `Intersects<Point<i64>>` for `MultiPolygon<i64>`: whether the
/// point lies inside or on the boundary of a polygon of the shape.
#[verifier::external_body]
fn shape_covers(mp: &MultiPolygon, p: Pt) -> (r: bool)
    requires
        mp.wf(),
        p.in_reach(),
    ensures
        r == covers_of(mp@, p),
{
    let ring = |r: &Vec<Pt>| r.iter().map(|c| (c.x, c.y)).collect::<Vec<_>>().into();
    let polys = mp.polygons.iter().map(|q| geo::Polygon::new(ring(&q.exterior), q.holes.iter().map(ring).collect()));
    geo::MultiPolygon::new(polys.collect()).intersects(&geo::Point::new(p.x, p.y))
}

/// Relies on geo's `Contains<Point<i64>>` for `MultiPolygon<i64>`: whether the
/// point lies in the interior of a polygon of the shape.
#[verifier::external_body]
pub(crate) fn shape_contains(mp: &MultiPolygon, p: Pt) -> (r: bool)
    requires
        mp.wf(),
        p.in_reach(),
    ensures
        r == contains_of(mp@, p),
{
    let ring = |r: &Vec<Pt>| r.iter().map(|c| (c.x, c.y)).collect::<Vec<_>>().into();
    let polys = mp.polygons.iter().map(|q| geo::Polygon::new(ring(&q.exterior), q.holes.iter().map(ring).collect()));
    geo::MultiPolygon::new(polys.collect()).contains(&geo::Point::new(p.x, p.y))
}

/// An R-tree of boxes, each tagged with the position of the record it bounds.
#[verifier::external_body]
pub struct EnvelopeTree {
    tree: rstar::RTree<GeomWithData<Rectangle<[i64; 2]>, usize>>,
}

/// What the tree holds: each item as its box (min x, min y, max x, max y) and tag.
pub uninterp spec fn tree_entries(t: EnvelopeTree) -> Multiset<(i64, i64, i64, i64, usize)>;

/// The box of an entry holds the point, bounds included.
pub open spec fn entry_holds(e: (i64, i64, i64, i64, usize), p: Pt) -> bool {
    e.0 <= p.x <= e.2 && e.1 <= p.y <= e.3
}

/// The box of an entry meets the envelope, bounds included.
pub open spec fn entry_meets(e: (i64, i64, i64, i64, usize), env: Envelope) -> bool {
    e.0 <= env.max_x && env.min_x <= e.2 && e.1 <= env.max_y && env.min_y <= e.3
}

/// The tree holds an item tagged `i` whose box holds the point.
pub open spec fn tagged_at(t: EnvelopeTree, i: usize, p: Pt) -> bool {
    exists|e: (i64, i64, i64, i64, usize)|
        #![trigger tree_entries(t).count(e)]
        tree_entries(t).count(e) > 0 && e.4 == i && entry_holds(e, p)
}

/// The tree holds an item tagged `i` whose box meets the envelope.
pub open spec fn tagged_meeting(t: EnvelopeTree, i: usize, env: Envelope) -> bool {
    exists|e: (i64, i64, i64, i64, usize)|
        #![trigger tree_entries(t).count(e)]
        tree_entries(t).count(e) > 0 && e.4 == i && entry_meets(e, env)
}

/// Relies on `rstar::RTree::bulk_load`: the tree holds exactly the given items.
/// `Rectangle::from_corners` keeps a box whose corners are already ordered.
#[verifier::external_body]
fn tree_bulk_load(entries: Vec<(i64, i64, i64, i64, usize)>) -> (r: EnvelopeTree)
    requires
        forall|k: int|
            0 <= k < entries@.len() ==> (#[trigger] entries@[k]).0 <= entries@[k].2
                && entries@[k].1 <= entries@[k].3,
    ensures
        tree_entries(r) == entries@.to_multiset(),
{
    let items = entries.into_iter().map(|(x0, y0, x1, y1, i)| GeomWithData::new(Rectangle::from_corners([x0, y0], [x1, y1]), i));
    EnvelopeTree { tree: rstar::RTree::bulk_load(items.collect()) }
}

/// Relies on `rstar::RTree::locate_all_at_point`: it yields the items whose box
/// holds the point, bounds included, each once, and no others.
#[verifier::external_body]
fn tree_at_point(t: &EnvelopeTree, p: Pt) -> (r: Vec<usize>)
    ensures
        forall|k: int| 0 <= k < r@.len() ==> tagged_at(*t, #[trigger] r@[k], p),
        forall|e: (i64, i64, i64, i64, usize)|
            #![trigger tree_entries(*t).count(e)]
            tree_entries(*t).count(e) > 0 && entry_holds(e, p) ==> r@.contains(e.4),
{
    t.tree.locate_all_at_point(&[p.x, p.y]).map(|g| g.data).collect()
}

/// Relies on `rstar::RTree::locate_in_envelope_intersecting`: it yields the
/// items whose box meets the query box, bounds included, and no others.
#[verifier::external_body]
fn tree_in_envelope(t: &EnvelopeTree, env: Envelope) -> (r: Vec<usize>)
    requires
        env.min_x <= env.max_x,
        env.min_y <= env.max_y,
    ensures
        forall|k: int| 0 <= k < r@.len() ==> tagged_meeting(*t, #[trigger] r@[k], env),
        forall|e: (i64, i64, i64, i64, usize)|
            #![trigger tree_entries(*t).count(e)]
            tree_entries(*t).count(e) > 0 && entry_meets(e, env) ==> r@.contains(e.4),
{
    let query = rstar::AABB::from_corners([env.min_x, env.min_y], [env.max_x, env.max_y]);
    t.tree.locate_in_envelope_intersecting(&query).map(|g| g.data).collect()
}

/// What can go wrong with a shape handed to the engine.
#[derive(Clone, Copy, Debug, PartialEq, Eq, Structural)]
pub enum GeometryError {
    /// The shape has no exterior vertex.
    DegenerateGeometry,
}

/// A record of a spatial index: a shape, its bounding box, its centroid and a
/// payload. The centroid is the area-weighted centroid of the shape, rounded to
/// the frame's unit, as the caller computed it.
#[derive(Clone, Debug)]
pub struct PolygonWrapper<T> {
    pub multi_polygon: MultiPolygon,
    pub bounding_box: Envelope,
    pub centroid: Pt,
    pub value: T,
}

impl<T> PolygonWrapper<T> {
    /// The box is the bounding box of the shape's exterior vertices.
    pub open spec fn wf(&self) -> bool {
        &&& self.multi_polygon.wf()
        &&& self.bounding_box.bounds(self.multi_polygon.exterior_vertices())
        &&& self.centroid.wf()
    }

    /// Wraps a shape with its bounding box; fails on a shape without vertices.
    pub fn new(multi_polygon: MultiPolygon, centroid: Pt, value: T) -> (r: Result<
        PolygonWrapper<T>,
        GeometryError,
    >)
        requires
            multi_polygon.wf(),
            centroid.wf(),
        ensures
            multi_polygon.exterior_vertices().len() == 0 <==> r is Err,
            r matches Err(e) ==> e == GeometryError::DegenerateGeometry,
            r matches Ok(w) ==> w.wf() && w.multi_polygon == multi_polygon && w.centroid
                == centroid && w.value == value,
    {
        let vertices = exterior_vertices(&multi_polygon);
        match bounding_box(&vertices) {
            None => Err(GeometryError::DegenerateGeometry),
            Some(bounding_box) => Ok(PolygonWrapper { multi_polygon, bounding_box, centroid, value }),
        }
    }
}

/// The tree entry of record `i`.
pub open spec fn entry_of<T>(w: PolygonWrapper<T>, i: int) -> (i64, i64, i64, i64, usize) {
    (w.bounding_box.min_x, w.bounding_box.min_y, w.bounding_box.max_x, w.bounding_box.max_y, i as usize)
}

/// The tree entries of a sequence of records.
pub open spec fn entries_of<T>(s: Seq<PolygonWrapper<T>>) -> Seq<(i64, i64, i64, i64, usize)> {
    Seq::new(s.len(), |i: int| entry_of(s[i], i))
}

/// A bulk-loaded, read-only index over polygon records.
pub struct SpatialIndex<T> {
    pub records: Vec<PolygonWrapper<T>>,
    pub tree: EnvelopeTree,
}

impl<T> SpatialIndex<T> {
    /// Every record is well formed and the tree holds exactly their boxes.
    pub open spec fn wf(&self) -> bool {
        &&& self.records@.len() < usize::MAX
        &&& forall|i: int| 0 <= i < self.records@.len() ==> (#[trigger] self.records@[i]).wf()
        &&& tree_entries(self.tree) == entries_of(self.records@).to_multiset()
    }

    /// Record `i` lies at the point: its box holds the point and its shape covers it.
    pub open spec fn hit(&self, i: int, p: Pt) -> bool {
        &&& 0 <= i < self.records@.len()
        &&& self.records@[i].bounding_box.contains_pt(p)
        &&& covers_of(self.records@[i].multi_polygon@, p)
    }

    /// No record lies at the point.
    pub open spec fn vacant(&self, p: Pt) -> bool {
        forall|i: int| 0 <= i < self.records@.len() ==> !self.hit(i, p)
    }

    /// Bulk-loads the records into a new index.
    pub fn build(records: Vec<PolygonWrapper<T>>) -> (r: SpatialIndex<T>)
        requires
            records@.len() < usize::MAX,
            forall|i: int| 0 <= i < records@.len() ==> (#[trigger] records@[i]).wf(),
        ensures
            r.wf(),
            r.records@ == records@,
    {
        let n = records.len();
        let mut entries: Vec<(i64, i64, i64, i64, usize)> = Vec::with_capacity(n);
        let mut i: usize = 0;
        while i < n
            invariant
                n == records@.len(),
                0 <= i <= n,
                forall|k: int| 0 <= k < n ==> (#[trigger] records@[k]).wf(),
                entries@ == entries_of(records@).take(i as int),
            decreases n - i,
        {
            let b = records[i].bounding_box;
            proof {
                let w = records@[i as int];
                assert(w.wf());
                let s = w.multi_polygon.exterior_vertices();
                let k = choose|k: int| 0 <= k < s.len() && (#[trigger] s[k]).x == b.min_x;
                assert(b.contains_pt(s[k]));
            }
            entries.push((b.min_x, b.min_y, b.max_x, b.max_y, i));
            proof {
                assert(entries_of(records@).take(i as int + 1) =~= entries_of(records@).take(
                    i as int,
                ).push(entry_of(records@[i as int], i as int)));
            }
            i = i + 1;
        }
        assert(entries_of(records@).take(n as int) =~= entries_of(records@));
        assert forall|k: int| 0 <= k < entries@.len() implies (#[trigger] entries@[k]).0
            <= entries@[k].2 && entries@[k].1 <= entries@[k].3 by {
            let w = records@[k];
            assert(w.wf());
            let s = w.multi_polygon.exterior_vertices();
            let j = choose|j: int| 0 <= j < s.len() && (#[trigger] s[j]).x == w.bounding_box.min_x;
            assert(w.bounding_box.contains_pt(s[j]));
        }
        let tree = tree_bulk_load(entries);
        SpatialIndex { records, tree }
    }

    /// The record at position `i`.
    pub fn record(&self, i: usize) -> (r: &PolygonWrapper<T>)
        requires
            i < self.records@.len(),
        ensures
            *r == self.records@[i as int],
    {
        &self.records[i]
    }

    /// The number of records.
    pub fn len(&self) -> (r: usize)
        ensures
            r == self.records@.len(),
    {
        self.records.len()
    }

    /// A tree entry that the index holds is the entry of its own record.
    proof fn lemma_entry_is_record(&self, e: (i64, i64, i64, i64, usize))
        requires
            self.wf(),
            tree_entries(self.tree).count(e) > 0,
        ensures
            (e.4 as int) < self.records@.len(),
            e == entry_of(self.records@[e.4 as int], e.4 as int),
    {
        let s = entries_of(self.records@);
        s.to_multiset_ensures();
        assert(s.contains(e));
        let k = choose|k: int| 0 <= k < s.len() && s[k] == e;
        assert(s[k] == entry_of(self.records@[k], k));
    }

    /// `r` answers a point lookup: `None` exactly where no record lies at the
    /// point, else a record that does.
    pub open spec fn located(&self, p: Pt, r: Option<usize>) -> bool {
        &&& r is None <==> self.vacant(p)
        &&& r matches Some(i) ==> self.hit(i as int, p)
    }

    /// The record whose shape covers the point, or `None` where none does.
    /// Where shapes overlap at the point, one of them is returned.
    pub fn locate_at_point(&self, p: Pt) -> (r: Option<usize>)
        requires
            self.wf(),
            p.in_reach(),
        ensures
            self.located(p, r),
    {
        let cands = tree_at_point(&self.tree, p);
        let m = cands.len();
        let mut k: usize = 0;
        while k < m
            invariant
                self.wf(),
                p.in_reach(),
                m == cands@.len(),
                0 <= k <= m,
                forall|e: (i64, i64, i64, i64, usize)|
                    #![trigger tree_entries(self.tree).count(e)]
                    tree_entries(self.tree).count(e) > 0 && entry_holds(e, p) ==> cands@.contains(
                        e.4,
                    ),
                forall|j: int| 0 <= j < m ==> tagged_at(self.tree, #[trigger] cands@[j], p),
                forall|j: int| 0 <= j < k ==> !self.hit(#[trigger] cands@[j] as int, p),
            decreases m - k,
        {
            let i = cands[k];
            proof {
                assert(tagged_at(self.tree, cands@[k as int], p));
                let e = choose|e: (i64, i64, i64, i64, usize)|
                    #![trigger tree_entries(self.tree).count(e)]
                    tree_entries(self.tree).count(e) > 0 && e.4 == cands@[k as int] && entry_holds(
                        e,
                        p,
                    );
                self.lemma_entry_is_record(e);
                assert(self.records@[i as int].wf());
            }
            if shape_covers(&self.records[i].multi_polygon, p) {
                assert(self.hit(i as int, p));
                return Some(i);
            }
            k = k + 1;
        }
        proof {
            assert forall|i: int| 0 <= i < self.records@.len() implies !self.hit(i, p) by {
                if self.hit(i, p) {
                    let s = entries_of(self.records@);
                    let e = s[i];
                    s.to_multiset_ensures();
                    assert(s.contains(e));
                    assert(tree_entries(self.tree).count(e) > 0);
                    assert(entry_holds(e, p));
                    assert(cands@.contains(e.4));
                    let j = choose|j: int| 0 <= j < m && cands@[j] == e.4;
                    assert(!self.hit(cands@[j] as int, p));
                }
            }
        }
        None
    }

    /// The records whose boxes meet the query box: a coarse filter, not an exact
    /// test on the shapes.
    pub fn locate_in_envelope_intersecting(&self, env: Envelope) -> (r: Vec<usize>)
        requires
            self.wf(),
            env.min_x <= env.max_x,
            env.min_y <= env.max_y,
        ensures
            forall|k: int|
                0 <= k < r@.len() ==> (#[trigger] r@[k] as int) < self.records@.len()
                    && self.records@[r@[k] as int].bounding_box.intersects(env),
            forall|i: int|
                0 <= i < self.records@.len() && self.records@[i].bounding_box.intersects(env)
                    ==> r@.contains(i as usize),
    {
        let cands = tree_in_envelope(&self.tree, env);
        proof {
            assert forall|k: int| 0 <= k < cands@.len() implies (#[trigger] cands@[k] as int)
                < self.records@.len() && self.records@[cands@[k] as int].bounding_box.intersects(
                env,
            ) by {
                assert(tagged_meeting(self.tree, cands@[k], env));
                let e = choose|e: (i64, i64, i64, i64, usize)|
                    #![trigger tree_entries(self.tree).count(e)]
                    tree_entries(self.tree).count(e) > 0 && e.4 == cands@[k] && entry_meets(e, env);
                self.lemma_entry_is_record(e);
            }
            assert forall|i: int|
                0 <= i < self.records@.len() && self.records@[i].bounding_box.intersects(
                    env,
                ) implies cands@.contains(i as usize) by {
                let s = entries_of(self.records@);
                let e = s[i];
                s.to_multiset_ensures();
                assert(s.contains(e));
                assert(tree_entries(self.tree).count(e) > 0);
                assert(entry_meets(e, env));
            }
        }
        cands
    }
}

} // verus!
