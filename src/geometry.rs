//! Points, rings and polygons in integer planar coordinates, with the exact
//! arithmetic the engine builds on.
use vstd::prelude::*;

verus! {

/// Largest magnitude of a coordinate of a stored vertex (2^26 hundredths of a foot,
/// about 127 miles from the frame's origin). It keeps every product below exact.
pub const COORD_LIMIT: i64 = 67108864;

/// A point of the planar frame, in hundredths of a foot.
#[derive(Clone, Copy, Debug, PartialEq, Eq, Structural)]
pub struct Pt {
    pub x: i64,
    pub y: i64,
}

impl Pt {
    /// The coordinates lie within the frame's limit.
    pub open spec fn wf(self) -> bool {
        -COORD_LIMIT <= self.x <= COORD_LIMIT && -COORD_LIMIT <= self.y <= COORD_LIMIT
    }

    /// The coordinates lie within twice the frame's limit: where a point computed
    /// from stored vertices, such as a probe, may lie.
    pub open spec fn in_reach(self) -> bool {
        -2 * COORD_LIMIT <= self.x <= 2 * COORD_LIMIT && -2 * COORD_LIMIT <= self.y <= 2
            * COORD_LIMIT
    }

    pub fn new(x: i64, y: i64) -> (r: Pt)
        ensures
            r.x == x,
            r.y == y,
    {
        Pt { x, y }
    }
}

/// Every vertex of the sequence lies within the frame's limit.
pub open spec fn pts_wf(s: Seq<Pt>) -> bool {
    forall|i: int| 0 <= i < s.len() ==> (#[trigger] s[i]).wf()
}

/// Cross product of the vectors `a - o` and `b - o`.
pub open spec fn cross(o: Pt, a: Pt, b: Pt) -> int {
    (a.x - o.x) * (b.y - o.y) - (a.y - o.y) * (b.x - o.x)
}

/// Dot product of the vectors `a - o` and `b - o`.
pub open spec fn dot(o: Pt, a: Pt, b: Pt) -> int {
    (a.x - o.x) * (b.x - o.x) + (a.y - o.y) * (b.y - o.y)
}

/// Squared distance between two points.
pub open spec fn dist2(a: Pt, b: Pt) -> int {
    (a.x - b.x) * (a.x - b.x) + (a.y - b.y) * (a.y - b.y)
}

/// Index of the vertex after `i` in a closed ring of `n` vertices.
pub open spec fn next_index(i: int, n: int) -> int {
    if i + 1 < n { i + 1 } else { 0 }
}

/// The shoelace term of the edge leaving vertex `i` of the ring.
pub open spec fn shoelace_term(r: Seq<Pt>, i: int) -> int {
    let a = r[i];
    let b = r[next_index(i, r.len() as int)];
    a.x * b.y - b.x * a.y
}

/// Sum of the shoelace terms of the first `k` edges of the ring.
pub open spec fn shoelace_sum(r: Seq<Pt>, k: int) -> int
    decreases k,
{
    if k <= 0 { 0 } else { shoelace_sum(r, k - 1) + shoelace_term(r, k - 1) }
}

/// Twice the signed area enclosed by a ring whose closing edge is implicit:
/// positive for counter-clockwise winding, negative for clockwise.
pub open spec fn twice_signed_area(r: Seq<Pt>) -> int {
    shoelace_sum(r, r.len() as int)
}

/// The ring re-wound counter-clockwise: reversed when its signed area is negative.
pub open spec fn ccw_ring(r: Seq<Pt>) -> Seq<Pt> {
    if twice_signed_area(r) < 0 { r.reverse() } else { r }
}

/// A product of two bounded integers is bounded by the product of the bounds.
pub proof fn lemma_prod_bound(a: int, b: int, la: int, lb: int)
    requires
        -la <= a <= la,
        -lb <= b <= lb,
    ensures
        -(la * lb) <= a * b <= la * lb,
{
    assert(-(la * lb) <= a * b <= la * lb) by (nonlinear_arith)
        requires -la <= a <= la, -lb <= b <= lb;
}

proof fn lemma_term_bound(r: Seq<Pt>, i: int)
    requires
        pts_wf(r),
        0 <= i < r.len(),
    ensures
        -9007199254740992 <= shoelace_term(r, i) <= 9007199254740992,
        -COORD_LIMIT * COORD_LIMIT <= r[i].x * r[next_index(i, r.len() as int)].y
            <= COORD_LIMIT * COORD_LIMIT,
        -COORD_LIMIT * COORD_LIMIT <= r[next_index(i, r.len() as int)].x * r[i].y
            <= COORD_LIMIT * COORD_LIMIT,
{
    let a = r[i];
    let b = r[next_index(i, r.len() as int)];
    assert(a.wf() && b.wf());
    let l = COORD_LIMIT as int;
    lemma_prod_bound(a.x as int, b.y as int, l, l);
    lemma_prod_bound(b.x as int, a.y as int, l, l);
}

/// Twice the signed area of a ring (shoelace formula), exactly.
pub fn ring_twice_area(r: &Vec<Pt>) -> (a: i128)
    requires
        pts_wf(r@),
        r@.len() <= 0x1_0000_0000,
    ensures
        a == twice_signed_area(r@),
{
    let n = r.len();
    let mut acc: i128 = 0;
    let mut i: usize = 0;
    while i < n
        invariant
            n == r@.len(),
            n <= 0x1_0000_0000,
            pts_wf(r@),
            0 <= i <= n,
            acc == shoelace_sum(r@, i as int),
            -9007199254740992 * i <= acc <= 9007199254740992 * i,
        decreases n - i,
    {
        let j: usize = if i + 1 < n { i + 1 } else { 0 };
        let a = r[i];
        let b = r[j];
        proof {
            lemma_term_bound(r@, i as int);
            assert(i + 1 < n ==> next_index(i as int, n as int) == j);
        }
        let term: i128 = (a.x as i128) * (b.y as i128) - (b.x as i128) * (a.y as i128);
        acc = acc + term;
        i = i + 1;
    }
    acc
}

/// The ring re-wound counter-clockwise, as edge extraction expects.
pub fn make_ccw(r: &Vec<Pt>) -> (out: Vec<Pt>)
    requires
        pts_wf(r@),
        r@.len() <= 0x1_0000_0000,
    ensures
        out@ == ccw_ring(r@),
{
    let a = ring_twice_area(r);
    if a < 0 {
        let n = r.len();
        let mut out: Vec<Pt> = Vec::with_capacity(n);
        let mut i: usize = 0;
        while i < n
            invariant
                n == r@.len(),
                0 <= i <= n,
                out@.len() == i,
                forall|k: int| 0 <= k < i ==> out@[k] == r@[n - 1 - k],
            decreases n - i,
        {
            out.push(r[n - 1 - i]);
            i = i + 1;
        }
        assert(out@ =~= r@.reverse());
        out
    } else {
        r.clone()
    }
}

/// `r` is the floor of the square root of `n`.
pub open spec fn is_floor_sqrt(n: int, r: int) -> bool {
    r >= 0 && r * r <= n && n < (r + 1) * (r + 1)
}

/// The floor of the square root of a non-negative integer.
pub open spec fn floor_sqrt(n: int) -> int {
    choose|r: int| is_floor_sqrt(n, r)
}

proof fn lemma_floor_sqrt_unique(n: int, r: int, q: int)
    requires
        is_floor_sqrt(n, r),
        is_floor_sqrt(n, q),
    ensures
        r == q,
{
    if r < q {
        assert((r + 1) * (r + 1) <= q * q) by (nonlinear_arith)
            requires 0 <= r + 1 <= q;
    } else if q < r {
        assert((q + 1) * (q + 1) <= r * r) by (nonlinear_arith)
            requires 0 <= q + 1 <= r;
    }
}

/// A witness of the floor square root is the floor square root.
pub proof fn lemma_floor_sqrt_is(n: int, r: int)
    requires
        is_floor_sqrt(n, r),
    ensures
        floor_sqrt(n) == r,
{
    let q = floor_sqrt(n);
    assert(is_floor_sqrt(n, q));
    lemma_floor_sqrt_unique(n, r, q);
}

/// The floor of the square root of `n`, by bisection.
pub fn isqrt(n: u64) -> (r: u64)
    ensures
        r == floor_sqrt(n as int),
        is_floor_sqrt(n as int, r as int),
{
    let mut lo: u64 = 0;
    let mut hi: u64 = 0x1_0000_0000;
    assert(hi * hi > n) by (nonlinear_arith)
        requires hi == 0x1_0000_0000, n < 0x1_0000_0000_0000_0000;
    while hi - lo > 1
        invariant
            lo < hi <= 0x1_0000_0000,
            lo * lo <= n,
            n < hi * hi,
        decreases hi - lo,
    {
        let mid: u64 = lo + (hi - lo) / 2;
        assert(mid * mid <= 0x1_0000_0000_0000_0000) by (nonlinear_arith)
            requires mid <= 0x1_0000_0000;
        if (mid as u128) * (mid as u128) <= n as u128 {
            lo = mid;
        } else {
            hi = mid;
        }
    }
    assert(hi == lo + 1);
    proof {
        lemma_floor_sqrt_is(n as int, lo as int);
    }
    lo
}

/// A polygon: an exterior ring and its holes. A ring lists its vertices once
/// each; the edge from the last vertex back to the first is implicit.
#[derive(Clone, Debug)]
pub struct Polygon {
    pub exterior: Vec<Pt>,
    pub holes: Vec<Vec<Pt>>,
}

impl Polygon {
    /// The rings of the polygon, the exterior first.
    pub open spec fn rings(self) -> Seq<Seq<Pt>> {
        seq![self.exterior@].add(self.holes@.map_values(|h: Vec<Pt>| h@))
    }

    pub open spec fn wf(self) -> bool {
        &&& pts_wf(self.exterior@)
        &&& self.exterior@.len() <= 0x1_0000_0000
        &&& forall|k: int|
            0 <= k < self.holes@.len() ==> pts_wf(#[trigger] self.holes@[k]@)
                && self.holes@[k]@.len() <= 0x1_0000_0000
    }
}

/// A multipolygon, the shape of a lot, a district or a building footprint.
#[derive(Clone, Debug)]
pub struct MultiPolygon {
    pub polygons: Vec<Polygon>,
}

impl View for MultiPolygon {
    type V = Seq<Seq<Seq<Pt>>>;

    open spec fn view(&self) -> Seq<Seq<Seq<Pt>>> {
        self.polygons@.map_values(|p: Polygon| p.rings())
    }
}

impl MultiPolygon {
    /// Every vertex lies within the frame's limit and the counts stay small
    /// enough for exact sums.
    pub open spec fn wf(self) -> bool {
        &&& self.polygons@.len() <= 0x1_0000_0000
        &&& forall|i: int| 0 <= i < self.polygons@.len() ==> (#[trigger] self.polygons@[i]).wf()
        &&& self.exterior_vertices().len() <= 0x1_0000_0000
    }

    /// The exterior rings of the polygons, in order.
    pub open spec fn exteriors(self) -> Seq<Seq<Pt>> {
        self.polygons@.map_values(|p: Polygon| p.exterior@)
    }

    /// The vertices of all exterior rings, polygon after polygon.
    pub open spec fn exterior_vertices(self) -> Seq<Pt> {
        self.exteriors().flatten()
    }
}

/// An axis-aligned box, bounds included.
#[derive(Clone, Copy, Debug, PartialEq, Eq, Structural)]
pub struct Envelope {
    pub min_x: i64,
    pub min_y: i64,
    pub max_x: i64,
    pub max_y: i64,
}

impl Envelope {
    pub open spec fn contains_pt(self, p: Pt) -> bool {
        self.min_x <= p.x <= self.max_x && self.min_y <= p.y <= self.max_y
    }

    pub open spec fn intersects(self, o: Envelope) -> bool {
        self.min_x <= o.max_x && o.min_x <= self.max_x && self.min_y <= o.max_y && o.min_y
            <= self.max_y
    }

    /// The smallest box holding every point of `s`, which is not empty.
    pub open spec fn bounds(self, s: Seq<Pt>) -> bool {
        &&& forall|i: int| 0 <= i < s.len() ==> self.contains_pt(#[trigger] s[i])
        &&& exists|i: int| 0 <= i < s.len() && (#[trigger] s[i]).x == self.min_x
        &&& exists|i: int| 0 <= i < s.len() && (#[trigger] s[i]).y == self.min_y
        &&& exists|i: int| 0 <= i < s.len() && (#[trigger] s[i]).x == self.max_x
        &&& exists|i: int| 0 <= i < s.len() && (#[trigger] s[i]).y == self.max_y
    }
}

/// The vertices of all exterior rings of a multipolygon, polygon after polygon.
pub fn exterior_vertices(mp: &MultiPolygon) -> (r: Vec<Pt>)
    ensures
        r@ == mp.exterior_vertices(),
        mp.wf() ==> pts_wf(r@),
{
    broadcast use Seq::lemma_flatten_push;
    let mut r: Vec<Pt> = Vec::new();
    let n = mp.polygons.len();
    let mut i: usize = 0;
    while i < n
        invariant
            n == mp.polygons@.len(),
            0 <= i <= n,
            r@ == mp.exteriors().take(i as int).flatten(),
            mp.wf() ==> pts_wf(r@),
        decreases n - i,
    {
        let ext = &mp.polygons[i].exterior;
        let m = ext.len();
        assert(mp.wf() ==> mp.polygons@[i as int].wf());
        let mut j: usize = 0;
        while j < m
            invariant
                n == mp.polygons@.len(),
                0 <= i < n,
                ext == mp.polygons@[i as int].exterior,
                m == ext@.len(),
                0 <= j <= m,
                r@ == mp.exteriors().take(i as int).flatten() + ext@.take(j as int),
                mp.wf() ==> pts_wf(r@),
                mp.wf() ==> pts_wf(ext@),
            decreases m - j,
        {
            r.push(ext[j]);
            proof {
                assert(ext@.take(j as int + 1) == ext@.take(j as int).push(ext@[j as int]));
            }
            j = j + 1;
        }
        proof {
            assert(ext@.take(m as int) == ext@);
            assert(mp.exteriors()[i as int] == ext@);
            assert(mp.exteriors().take(i as int + 1) =~= mp.exteriors().take(i as int).push(
                ext@,
            ));
            mp.exteriors().take(i as int).lemma_flatten_push(ext@);
        }
        i = i + 1;
    }
    assert(mp.exteriors().take(n as int) == mp.exteriors());
    r
}

/// The smallest box holding every point of `s`, or `None` when `s` is empty.
pub fn bounding_box(s: &Vec<Pt>) -> (r: Option<Envelope>)
    ensures
        s@.len() == 0 <==> r is None,
        r matches Some(env) ==> env.bounds(s@),
{
    if s.len() == 0 {
        return None;
    }
    let mut env = Envelope { min_x: s[0].x, min_y: s[0].y, max_x: s[0].x, max_y: s[0].y };
    let n = s.len();
    let mut i: usize = 1;
    assert(s@.take(1)[0] == s@[0]);
    while i < n
        invariant
            n == s@.len(),
            1 <= i <= n,
            env.bounds(s@.take(i as int)),
        decreases n - i,
    {
        let p = s[i];
        let ghost old_env = env;
        if p.x < env.min_x {
            env.min_x = p.x;
        }
        if p.y < env.min_y {
            env.min_y = p.y;
        }
        if p.x > env.max_x {
            env.max_x = p.x;
        }
        if p.y > env.max_y {
            env.max_y = p.y;
        }
        proof {
            let t = s@.take(i as int);
            let t1 = s@.take(i as int + 1);
            assert(t1 == t.push(p));
            assert forall|k: int| 0 <= k < t1.len() implies env.contains_pt(#[trigger] t1[k]) by {
                if k < i {
                    assert(t1[k] == t[k]);
                    assert(old_env.contains_pt(t[k]));
                }
            }
            if env.min_x == p.x {
                assert(t1[i as int].x == env.min_x);
            } else {
                let w = choose|k: int| 0 <= k < t.len() && (#[trigger] t[k]).x == old_env.min_x;
                assert(t1[w].x == env.min_x);
            }
            if env.min_y == p.y {
                assert(t1[i as int].y == env.min_y);
            } else {
                let w = choose|k: int| 0 <= k < t.len() && (#[trigger] t[k]).y == old_env.min_y;
                assert(t1[w].y == env.min_y);
            }
            if env.max_x == p.x {
                assert(t1[i as int].x == env.max_x);
            } else {
                let w = choose|k: int| 0 <= k < t.len() && (#[trigger] t[k]).x == old_env.max_x;
                assert(t1[w].x == env.max_x);
            }
            if env.max_y == p.y {
                assert(t1[i as int].y == env.max_y);
            } else {
                let w = choose|k: int| 0 <= k < t.len() && (#[trigger] t[k]).y == old_env.max_y;
                assert(t1[w].y == env.max_y);
            }
        }
        i = i + 1;
    }
    assert(s@.take(n as int) == s@);
    Some(env)
}

} // verus!
