//! Whether a point lies in a polygon, by its winding number.
//!
//! The polygon's vertices come from the reader. Two figures of each segment
//! are computed in floating point by the caller: the longitude at which the
//! segment's line crosses the point's latitude, and the squared distance from
//! the point to the segment. The library takes them as plain integers.
use crate::LookupResult;
use vstd::prelude::*;

verus! {

/// The floating-point figures of the segment that ends at a vertex.
#[derive(Clone, Copy, Debug)]
pub struct SegmentGeometry {
    /// Longitude at which the segment's line crosses the point's latitude.
    pub intersect_lon: i32,
    /// Squared distance from the point to the segment (longitudes at half scale).
    pub distance_sqr: u64,
}

/// The state of the walk around a polygon.
pub struct Walk {
    pub first: bool,
    pub prev_quadrant: i32,
    pub prev_lat: i32,
    pub prev_lon: i32,
    pub winding: i32,
    pub distance_min: u64,
}

/// The result of visiting one vertex.
pub enum Visit {
    /// The point lies on the border: the result, and the distance becomes 0.
    Stop(LookupResult),
    Go(Walk),
}

/// The quadrant of `(lat, lon)` around the target: 0 north-east, 1
/// north-west, 2 south-west, 3 south-east (ties go north and east).
pub open spec fn quadrant(lat: i32, lon: i32, tlat: i32, tlon: i32) -> i32 {
    if lat >= tlat {
        if lon >= tlon { 0 } else { 1 }
    } else {
        if lon >= tlon { 3 } else { 2 }
    }
}

/// Whether `x` lies between `a` and `b`, in either order.
pub open spec fn between(a: i32, x: i32, b: i32) -> bool {
    (a <= x <= b) || (b <= x <= a)
}

/// Whether `(x, y)` lies in the box spanned by `(xl, yl)` and `(xr, yr)`,
/// corners given in either order.
pub fn ZDPointInBox(xl: i32, x: i32, xr: i32, yl: i32, y: i32, yr: i32) -> (r: bool)
    ensures
        r == (between(xl, x, xr) && between(yl, y, yr)),
{
    (xl <= x && x <= xr || xr <= x && x <= xl) && (yl <= y && y <= yr || yr <= y && y <= yl)
}

/// Visits the vertex `(lat, lon)` with the figures `g` of the segment ending
/// there, for the target `(tlat, tlon)`.
pub open spec fn visit(lat: i32, lon: i32, g: SegmentGeometry, tlat: i32, tlon: i32, w: Walk) -> Visit {
    let q = quadrant(lat, lon, tlat, tlon);
    let next = |winding: i32, dist: u64| Walk {
        first: false,
        prev_quadrant: q,
        prev_lat: lat,
        prev_lon: lon,
        winding,
        distance_min: dist,
    };
    if lat == tlat && lon == tlon {
        Visit::Stop(LookupResult::OnBorderVertex)
    } else if w.first {
        Visit::Go(next(w.winding, w.distance_min))
    } else {
        let pq = w.prev_quadrant;
        let forward = q != pq && q == (pq + 1) % 4;
        let backward = q != pq && !forward && (q + 1) % 4 == pq;
        let jump = q != pq && !forward && !backward;
        let w1 = if forward {
            vstd::wrapping::i32_specs::wrapping_add(w.winding, 1)
        } else if backward {
            vstd::wrapping::i32_specs::wrapping_sub(w.winding, 1)
        } else {
            w.winding
        };
        let straight = lon == w.prev_lon || lat == w.prev_lat;
        let on_box = between(lat, tlat, w.prev_lat) && between(lon, tlon, w.prev_lon);
        let ix = g.intersect_lon;
        if straight && (on_box || jump) {
            Visit::Stop(LookupResult::OnBorderSegment)
        } else if jump && ix >= vstd::wrapping::i32_specs::wrapping_sub(tlon, 1)
            && ix <= vstd::wrapping::i32_specs::wrapping_add(tlon, 1) {
            Visit::Stop(LookupResult::OnBorderSegment)
        } else {
            let sign: i32 = if ix < tlon { 2i32 } else { -2i32 };
            let w2 = if !jump {
                w1
            } else if q == 2 || q == 3 {
                vstd::wrapping::i32_specs::wrapping_add(w1, sign)
            } else {
                vstd::wrapping::i32_specs::wrapping_sub(w1, sign)
            };
            let dist = if g.distance_sqr < w.distance_min { g.distance_sqr } else { w.distance_min };
            Visit::Go(next(w2, dist))
        }
    }
}

/// Walks the vertices from `k` on: the border result if one is met, and the
/// walk's state at the end.
pub open spec fn walk_from(verts: Seq<(i32, i32)>, geo: Seq<SegmentGeometry>, tlat: i32, tlon: i32, k: int, w: Walk) -> Result<Walk, LookupResult>
    decreases verts.len() - k,
{
    if k < 0 || k >= verts.len() {
        Ok(w)
    } else {
        match visit(verts[k].0, verts[k].1, geo[k], tlat, tlon, w) {
            Visit::Stop(r) => Err(r),
            Visit::Go(w2) => walk_from(verts, geo, tlat, tlon, k + 1, w2),
        }
    }
}

/// The result for a winding number once the whole polygon has been walked.
pub open spec fn winding_class(winding: i32) -> LookupResult {
    if winding == -4 {
        LookupResult::InZone
    } else if winding == 4 {
        LookupResult::InExcludedZone
    } else if winding == 0 {
        LookupResult::NotInZone
    } else {
        LookupResult::OnBorderSegment
    }
}

/// Where the target lies relative to the polygon with vertices `verts`
/// (whose reading ended with `end_code`), and the smallest squared distance
/// seen so far, starting from `dist`.
pub open spec fn polygon_result(verts: Seq<(i32, i32)>, end_code: i32, geo: Seq<SegmentGeometry>, tlat: i32, tlon: i32, dist: u64) -> (LookupResult, u64) {
    let start = Walk { first: true, prev_quadrant: 0, prev_lat: 0, prev_lon: 0, winding: 0, distance_min: dist };
    match walk_from(verts, geo, tlat, tlon, 0, start) {
        Err(r) => (r, 0),
        Ok(w) => if end_code < 0 {
            (LookupResult::ParseError, w.distance_min)
        } else {
            let c = winding_class(w.winding);
            (c, if c == LookupResult::OnBorderSegment { 0 } else { w.distance_min })
        },
    }
}

/// Decides where the target `(lat, lon)` lies relative to a polygon, given its
/// vertices, the code that ended their reading and the figures of each
/// segment, and lowers `*distance_min` to the nearest segment's distance (0
/// when the target is on the border).
pub fn point_in_polygon(
    vertices: &Vec<(i32, i32)>,
    end_code: i32,
    geometry: &Vec<SegmentGeometry>,
    lat: i32,
    lon: i32,
    distance_min: &mut u64,
) -> (r: LookupResult)
    requires
        geometry@.len() == vertices@.len(),
    ensures
        (r, *final(distance_min)) == polygon_result(vertices@, end_code, geometry@, lat, lon, *old(distance_min)),
{
    let ghost verts = vertices@;
    let ghost geo = geometry@;
    let mut first = true;
    let mut prev_quadrant: i32 = 0;
    let mut prev_lat: i32 = 0;
    let mut prev_lon: i32 = 0;
    let mut winding: i32 = 0;
    let ghost start = Walk { first: true, prev_quadrant: 0, prev_lat: 0, prev_lon: 0, winding: 0, distance_min: *distance_min };
    let mut k: usize = 0;
    while k < vertices.len()
        invariant
            k <= verts.len(),
            verts == vertices@,
            geo == geometry@,
            geo.len() == verts.len(),
            0 <= prev_quadrant < 4,
            start == (Walk { first: true, prev_quadrant: 0, prev_lat: 0, prev_lon: 0, winding: 0, distance_min: *old(distance_min) }),
            walk_from(verts, geo, lat, lon, 0, start) == walk_from(
                verts,
                geo,
                lat,
                lon,
                k as int,
                Walk { first, prev_quadrant, prev_lat, prev_lon, winding, distance_min: *distance_min },
            ),
        decreases verts.len() - k,
    {
        let (point_lat, point_lon) = vertices[k];
        let g = geometry[k];
        if point_lat == lat && point_lon == lon {
            *distance_min = 0;
            return LookupResult::OnBorderVertex;
        }
        let quadrant: i32 = if point_lat >= lat {
            if point_lon >= lon { 0 } else { 1 }
        } else if point_lon >= lon {
            3
        } else {
            2
        };
        if !first {
            let mut need_compare = false;
            if quadrant != prev_quadrant {
                if quadrant == (prev_quadrant + 1) % 4 {
                    winding = winding.wrapping_add(1);
                } else if (quadrant + 1) % 4 == prev_quadrant {
                    winding = winding.wrapping_sub(1);
                } else {
                    need_compare = true;
                }
            }
            let straight = point_lon == prev_lon || point_lat == prev_lat;
            let on_straight = ZDPointInBox(point_lat, lat, prev_lat, point_lon, lon, prev_lon);
            if straight && (on_straight || need_compare) {
                *distance_min = 0;
                return LookupResult::OnBorderSegment;
            }
            if need_compare {
                let intersect_lon = g.intersect_lon;
                if intersect_lon >= lon.wrapping_sub(1) && intersect_lon <= lon.wrapping_add(1) {
                    *distance_min = 0;
                    return LookupResult::OnBorderSegment;
                }
                let sign: i32 = if intersect_lon < lon { 2 } else { -2 };
                if quadrant == 2 || quadrant == 3 {
                    winding = winding.wrapping_add(sign);
                } else {
                    winding = winding.wrapping_sub(sign);
                }
            }
            if g.distance_sqr < *distance_min {
                *distance_min = g.distance_sqr;
            }
        }
        prev_quadrant = quadrant;
        prev_lat = point_lat;
        prev_lon = point_lon;
        first = false;
        k = k + 1;
    }
    if end_code < 0 {
        return LookupResult::ParseError;
    }
    if winding == -4 {
        LookupResult::InZone
    } else if winding == 4 {
        LookupResult::InExcludedZone
    } else if winding == 0 {
        LookupResult::NotInZone
    } else {
        *distance_min = 0;
        LookupResult::OnBorderSegment
    }
}

/// Whether a result puts the location on a border.
pub open spec fn on_border(r: LookupResult) -> bool {
    r == LookupResult::OnBorderVertex || r == LookupResult::OnBorderSegment
}

/// The results a polygon test can give.
pub open spec fn test_result(r: LookupResult) -> bool {
    ||| on_border(r)
    ||| r == LookupResult::InZone
    ||| r == LookupResult::InExcludedZone
    ||| r == LookupResult::NotInZone
    ||| r == LookupResult::ParseError
}

proof fn lemma_walk_stops_on_border(verts: Seq<(i32, i32)>, geo: Seq<SegmentGeometry>, tlat: i32, tlon: i32, k: int, w: Walk)
    requires
        0 <= k,
    ensures
        walk_from(verts, geo, tlat, tlon, k, w) matches Err(r) ==> on_border(r),
        (exists|j: int| k <= j < verts.len() && 0 <= j && #[trigger] verts[j] == (tlat, tlon))
            ==> walk_from(verts, geo, tlat, tlon, k, w) is Err,
    decreases verts.len() - k,
{
    if 0 <= k < verts.len() {
        if let Visit::Go(w2) = visit(verts[k].0, verts[k].1, geo[k], tlat, tlon, w) {
            lemma_walk_stops_on_border(verts, geo, tlat, tlon, k + 1, w2);
            if exists|j: int| k <= j < verts.len() && 0 <= j && #[trigger] verts[j] == (tlat, tlon) {
                let j = choose|j: int| k <= j < verts.len() && 0 <= j && #[trigger] verts[j] == (tlat, tlon);
                assert(j != k);
                assert(k + 1 <= j);
            }
        }
    }
}

/// A polygon test gives one of its six results, and a location on the border
/// is at distance 0.
pub proof fn lemma_polygon_result_kinds(verts: Seq<(i32, i32)>, end_code: i32, geo: Seq<SegmentGeometry>, tlat: i32, tlon: i32, dist: u64)
    ensures
        test_result(polygon_result(verts, end_code, geo, tlat, tlon, dist).0),
        on_border(polygon_result(verts, end_code, geo, tlat, tlon, dist).0)
            ==> polygon_result(verts, end_code, geo, tlat, tlon, dist).1 == 0,
{
    let start = Walk { first: true, prev_quadrant: 0, prev_lat: 0, prev_lon: 0, winding: 0, distance_min: dist };
    lemma_walk_stops_on_border(verts, geo, tlat, tlon, 0, start);
}

/// A location that is a vertex of the polygon lies on its border, at distance 0.
pub proof fn lemma_vertex_on_border(verts: Seq<(i32, i32)>, end_code: i32, geo: Seq<SegmentGeometry>, tlat: i32, tlon: i32, dist: u64, j: int)
    requires
        0 <= j < verts.len(),
        verts[j] == (tlat, tlon),
    ensures
        on_border(polygon_result(verts, end_code, geo, tlat, tlon, dist).0),
        polygon_result(verts, end_code, geo, tlat, tlon, dist).1 == 0,
{
    let start = Walk { first: true, prev_quadrant: 0, prev_lat: 0, prev_lon: 0, winding: 0, distance_min: dist };
    lemma_walk_stops_on_border(verts, geo, tlat, tlon, 0, start);
}

/// Whether two lists of segment figures give the same crossing longitudes
/// (their distances may differ).
pub open spec fn same_crossings(g1: Seq<SegmentGeometry>, g2: Seq<SegmentGeometry>) -> bool {
    &&& g1.len() == g2.len()
    &&& forall|i: int| 0 <= i < g1.len() ==> (#[trigger] g1[i]).intersect_lon == g2[i].intersect_lon
}

proof fn lemma_walk_ignores_distance(
    verts: Seq<(i32, i32)>,
    g1: Seq<SegmentGeometry>,
    g2: Seq<SegmentGeometry>,
    tlat: i32,
    tlon: i32,
    k: int,
    w1: Walk,
    w2: Walk,
)
    requires
        same_crossings(g1, g2),
        g1.len() == verts.len(),
        w1.first == w2.first,
        w1.prev_quadrant == w2.prev_quadrant,
        w1.prev_lat == w2.prev_lat,
        w1.prev_lon == w2.prev_lon,
        w1.winding == w2.winding,
    ensures
        match (walk_from(verts, g1, tlat, tlon, k, w1), walk_from(verts, g2, tlat, tlon, k, w2)) {
            (Err(a), Err(b)) => a == b,
            (Ok(x), Ok(y)) => x.winding == y.winding,
            _ => false,
        },
    decreases verts.len() - k,
{
    if 0 <= k < verts.len() {
        assert(g1[k].intersect_lon == g2[k].intersect_lon);
        match (visit(verts[k].0, verts[k].1, g1[k], tlat, tlon, w1), visit(verts[k].0, verts[k].1, g2[k], tlat, tlon, w2)) {
            (Visit::Go(x), Visit::Go(y)) => {
                lemma_walk_ignores_distance(verts, g1, g2, tlat, tlon, k + 1, x, y);
            },
            _ => {},
        }
    }
}

/// Where a location lies relative to a polygon depends on the segments'
/// crossing longitudes, not on their distances nor on the distance so far.
pub proof fn lemma_result_ignores_distance(
    verts: Seq<(i32, i32)>,
    end_code: i32,
    g1: Seq<SegmentGeometry>,
    g2: Seq<SegmentGeometry>,
    tlat: i32,
    tlon: i32,
    d1: u64,
    d2: u64,
)
    requires
        same_crossings(g1, g2),
        g1.len() == verts.len(),
    ensures
        polygon_result(verts, end_code, g1, tlat, tlon, d1).0 == polygon_result(verts, end_code, g2, tlat, tlon, d2).0,
{
    let s1 = Walk { first: true, prev_quadrant: 0, prev_lat: 0, prev_lon: 0, winding: 0, distance_min: d1 };
    let s2 = Walk { first: true, prev_quadrant: 0, prev_lat: 0, prev_lon: 0, winding: 0, distance_min: d2 };
    lemma_walk_ignores_distance(verts, g1, g2, tlat, tlon, 0, s1, s2);
}

/// The change in winding number when the walk goes from vertex `a` to vertex
/// `b`, whose segment crosses the target's latitude at longitude `ix`: 0 in
/// the same quadrant, 1 to the next quadrant, -1 to the previous one, and 2
/// in one sense or the other across two quadrants.
pub open spec fn turn(a: (i32, i32), b: (i32, i32), ix: i32, tlat: i32, tlon: i32) -> int {
    let pq = quadrant(a.0, a.1, tlat, tlon);
    let q = quadrant(b.0, b.1, tlat, tlon);
    if q == pq {
        0
    } else if q == (pq + 1) % 4 {
        1
    } else if (q + 1) % 4 == pq {
        -1
    } else {
        let sign: int = if ix < tlon { 2 } else { -2 };
        if q == 2 || q == 3 { sign } else { -sign }
    }
}

/// Whether the segment from `a` to `b`, crossing at longitude `ix`, puts the
/// target on the border.
pub open spec fn segment_stops(a: (i32, i32), b: (i32, i32), ix: i32, tlat: i32, tlon: i32) -> bool {
    let pq = quadrant(a.0, a.1, tlat, tlon);
    let q = quadrant(b.0, b.1, tlat, tlon);
    let jump = q != pq && q != (pq + 1) % 4 && (q + 1) % 4 != pq;
    let straight = b.1 == a.1 || b.0 == a.0;
    let on_box = between(b.0, tlat, a.0) && between(b.1, tlon, a.1);
    ||| straight && (on_box || jump)
    ||| jump && ix >= vstd::wrapping::i32_specs::wrapping_sub(tlon, 1)
        && ix <= vstd::wrapping::i32_specs::wrapping_add(tlon, 1)
}

/// The sum of the turns along the vertices, the segment ending at vertex `i`
/// crossing at `geo[i].intersect_lon`.
pub open spec fn turn_total(verts: Seq<(i32, i32)>, geo: Seq<SegmentGeometry>, tlat: i32, tlon: i32) -> int
    decreases verts.len(),
{
    if verts.len() <= 1 {
        0
    } else {
        turn_total(verts.drop_last(), geo.drop_last(), tlat, tlon)
            + turn(verts[verts.len() - 2], verts.last(), geo[verts.len() - 1].intersect_lon, tlat, tlon)
    }
}

/// Whether vertex `i` is not the target and, after the first, its segment
/// does not put the target on the border.
pub open spec fn vertex_clear(verts: Seq<(i32, i32)>, geo: Seq<SegmentGeometry>, tlat: i32, tlon: i32, i: int) -> bool {
    &&& verts[i] != (tlat, tlon)
    &&& i >= 1 ==> !segment_stops(verts[i - 1], verts[i], geo[i].intersect_lon, tlat, tlon)
}

/// Whether the walk meets no border from vertex `k` on.
pub open spec fn clear_from(verts: Seq<(i32, i32)>, geo: Seq<SegmentGeometry>, tlat: i32, tlon: i32, k: int) -> bool {
    forall|i: int| k <= i < verts.len() ==> #[trigger] vertex_clear(verts, geo, tlat, tlon, i)
}

/// Whether a 32-bit winding number stands for the whole number `s`.
pub open spec fn congruent(w: i32, s: int) -> bool {
    (w - s) % 0x1_0000_0000 == 0
}

/// The result for a polygon walked the other way round: inside and excluded
/// swap, every other result stays.
pub open spec fn mirrored_result(r: LookupResult) -> LookupResult {
    if r == LookupResult::InZone {
        LookupResult::InExcludedZone
    } else if r == LookupResult::InExcludedZone {
        LookupResult::InZone
    } else {
        r
    }
}

proof fn lemma_turn_reverses(a: (i32, i32), b: (i32, i32), ix: i32, tlat: i32, tlon: i32)
    ensures
        turn(b, a, ix, tlat, tlon) == -turn(a, b, ix, tlat, tlon),
        segment_stops(b, a, ix, tlat, tlon) == segment_stops(a, b, ix, tlat, tlon),
{
}

proof fn lemma_congruent_step(w: i32, s: int, c: int, w2: i32)
    requires
        congruent(w, s),
        w2 == w + c || w2 == w + c - 0x1_0000_0000 || w2 == w + c + 0x1_0000_0000,
    ensures
        congruent(w2, s + c),
{
}

proof fn lemma_class_mirrored(w1: i32, w2: i32, s: int)
    requires
        congruent(w1, s),
        congruent(w2, -s),
    ensures
        winding_class(w2) == mirrored_result(winding_class(w1)),
{
}

/// From vertex `k` on, the walk meets no border exactly when the vertices
/// and segments from there are clear, and its winding number then stands for
/// the sum of all turns.
proof fn lemma_walk_sum(verts: Seq<(i32, i32)>, geo: Seq<SegmentGeometry>, tlat: i32, tlon: i32, k: int, w: Walk)
    requires
        1 <= k <= verts.len(),
        geo.len() == verts.len(),
        !w.first,
        w.prev_lat == verts[k - 1].0,
        w.prev_lon == verts[k - 1].1,
        w.prev_quadrant == quadrant(verts[k - 1].0, verts[k - 1].1, tlat, tlon),
        congruent(w.winding, turn_total(verts.take(k), geo.take(k), tlat, tlon)),
    ensures
        walk_from(verts, geo, tlat, tlon, k, w) is Ok <==> clear_from(verts, geo, tlat, tlon, k),
        walk_from(verts, geo, tlat, tlon, k, w) matches Ok(w2) ==> congruent(w2.winding, turn_total(verts, geo, tlat, tlon)),
    decreases verts.len() - k,
{
    if k < verts.len() {
        let a = verts[k - 1];
        let b = verts[k];
        let t1 = verts.take(k + 1);
        let h1 = geo.take(k + 1);
        assert(t1.drop_last() =~= verts.take(k));
        assert(h1.drop_last() =~= geo.take(k));
        assert(turn_total(t1, h1, tlat, tlon) == turn_total(verts.take(k), geo.take(k), tlat, tlon)
            + turn(a, b, geo[k].intersect_lon, tlat, tlon));
        match visit(b.0, b.1, geo[k], tlat, tlon, w) {
            Visit::Stop(_) => {
                assert(!vertex_clear(verts, geo, tlat, tlon, k));
            },
            Visit::Go(w2) => {
                lemma_congruent_step(w.winding, turn_total(verts.take(k), geo.take(k), tlat, tlon),
                    turn(a, b, geo[k].intersect_lon, tlat, tlon), w2.winding);
                lemma_walk_sum(verts, geo, tlat, tlon, k + 1, w2);
                assert(vertex_clear(verts, geo, tlat, tlon, k));
                if clear_from(verts, geo, tlat, tlon, k + 1) {
                    assert forall|i: int| k <= i < verts.len() implies #[trigger] vertex_clear(verts, geo, tlat, tlon, i) by {
                        if i > k {
                            assert(vertex_clear(verts, geo, tlat, tlon, i));
                        }
                    }
                }
            },
        }
    } else {
        assert(verts.take(k) =~= verts);
        assert(geo.take(k) =~= geo);
    }
}

/// The whole walk meets no border exactly when every vertex and segment is
/// clear, and its winding number then stands for the sum of all turns.
proof fn lemma_walk_total(verts: Seq<(i32, i32)>, geo: Seq<SegmentGeometry>, tlat: i32, tlon: i32, w: Walk)
    requires
        geo.len() == verts.len(),
        w.first,
        w.winding == 0,
    ensures
        walk_from(verts, geo, tlat, tlon, 0, w) is Ok <==> clear_from(verts, geo, tlat, tlon, 0),
        walk_from(verts, geo, tlat, tlon, 0, w) matches Ok(w2) ==> congruent(w2.winding, turn_total(verts, geo, tlat, tlon)),
{
    if verts.len() > 0 {
        match visit(verts[0].0, verts[0].1, geo[0], tlat, tlon, w) {
            Visit::Stop(_) => {
                assert(!vertex_clear(verts, geo, tlat, tlon, 0));
            },
            Visit::Go(w1) => {
                assert(turn_total(verts.take(1), geo.take(1), tlat, tlon) == 0);
                lemma_walk_sum(verts, geo, tlat, tlon, 1, w1);
                assert(vertex_clear(verts, geo, tlat, tlon, 0));
                if clear_from(verts, geo, tlat, tlon, 1) {
                    assert forall|i: int| 0 <= i < verts.len() implies #[trigger] vertex_clear(verts, geo, tlat, tlon, i) by {
                        if i > 0 {
                            assert(vertex_clear(verts, geo, tlat, tlon, i));
                        }
                    }
                }
            },
        }
    }
}

proof fn lemma_turn_total_first(verts: Seq<(i32, i32)>, geo: Seq<SegmentGeometry>, tlat: i32, tlon: i32)
    requires
        verts.len() >= 2,
        geo.len() == verts.len(),
    ensures
        turn_total(verts, geo, tlat, tlon) == turn(verts[0], verts[1], geo[1].intersect_lon, tlat, tlon)
            + turn_total(verts.drop_first(), geo.drop_first(), tlat, tlon),
    decreases verts.len(),
{
    let n = verts.len();
    if n > 2 {
        lemma_turn_total_first(verts.drop_last(), geo.drop_last(), tlat, tlon);
        assert(verts.drop_last().drop_first() =~= verts.drop_first().drop_last());
        assert(geo.drop_last().drop_first() =~= geo.drop_first().drop_last());
        let rest = verts.drop_first();
        assert(rest[rest.len() - 2] == verts[n - 2]);
        assert(geo.drop_first()[rest.len() - 1] == geo[n - 1]);
    } else {
        assert(turn_total(verts.drop_last(), geo.drop_last(), tlat, tlon) == 0);
        assert(turn_total(verts.drop_first(), geo.drop_first(), tlat, tlon) == 0);
    }
}

/// Whether `g2` gives the reversed ring the figures that `g1` gives the ring:
/// the segment that ends at vertex `j` of the reversed ring is the one that
/// ended at vertex `n - j`, walked the other way, and crosses the target's
/// latitude at the same longitude.
pub open spec fn reversed_figures(g1: Seq<SegmentGeometry>, g2: Seq<SegmentGeometry>) -> bool {
    &&& g1.len() == g2.len()
    &&& forall|j: int| 1 <= j < g1.len() ==> (#[trigger] g2[j]).intersect_lon == g1[g1.len() - j].intersect_lon
}

proof fn lemma_turn_total_reversed(verts: Seq<(i32, i32)>, g1: Seq<SegmentGeometry>, g2: Seq<SegmentGeometry>, tlat: i32, tlon: i32)
    requires
        g1.len() == verts.len(),
        reversed_figures(g1, g2),
    ensures
        turn_total(verts.reverse(), g2, tlat, tlon) == -turn_total(verts, g1, tlat, tlon),
    decreases verts.len(),
{
    let n = verts.len();
    if n >= 2 {
        let rest = verts.drop_first();
        assert(verts.reverse().drop_last() =~= rest.reverse());
        assert forall|j: int| 1 <= j < g1.drop_first().len() implies
            (#[trigger] g2.drop_last()[j]).intersect_lon == g1.drop_first()[g1.drop_first().len() - j].intersect_lon by {
            assert(g2[j].intersect_lon == g1[n - j].intersect_lon);
        }
        lemma_turn_total_reversed(rest, g1.drop_first(), g2.drop_last(), tlat, tlon);
        lemma_turn_total_first(verts, g1, tlat, tlon);
        assert(g2[n - 1].intersect_lon == g1[1].intersect_lon);
        lemma_turn_reverses(verts[0], verts[1], g1[1].intersect_lon, tlat, tlon);
    }
}

proof fn lemma_clear_reversed(verts: Seq<(i32, i32)>, g1: Seq<SegmentGeometry>, g2: Seq<SegmentGeometry>, tlat: i32, tlon: i32)
    requires
        g1.len() == verts.len(),
        reversed_figures(g1, g2),
        clear_from(verts, g1, tlat, tlon, 0),
    ensures
        clear_from(verts.reverse(), g2, tlat, tlon, 0),
{
    let n = verts.len();
    let rv = verts.reverse();
    assert forall|j: int| 0 <= j < n implies #[trigger] vertex_clear(rv, g2, tlat, tlon, j) by {
        assert(vertex_clear(verts, g1, tlat, tlon, n - 1 - j));
        if j >= 1 {
            assert(vertex_clear(verts, g1, tlat, tlon, n - j));
            assert(g2[j].intersect_lon == g1[n - j].intersect_lon);
            lemma_turn_reverses(verts[n - j - 1], verts[n - j], g1[n - j].intersect_lon, tlat, tlon);
        }
    }
}

/// Walking a polygon the other way round swaps inside and excluded: given
/// crossing longitudes that travel with their segments (`reversed_figures`),
/// the reversed vertices put the target on the border exactly when the
/// vertices do, and otherwise give the mirrored result (`InZone` and
/// `InExcludedZone` swap; `NotInZone` and `ParseError` stay).
pub proof fn lemma_reversal_mirrors(
    verts: Seq<(i32, i32)>,
    end_code: i32,
    g1: Seq<SegmentGeometry>,
    g2: Seq<SegmentGeometry>,
    tlat: i32,
    tlon: i32,
    d1: u64,
    d2: u64,
)
    requires
        g1.len() == verts.len(),
        reversed_figures(g1, g2),
    ensures
        on_border(polygon_result(verts, end_code, g1, tlat, tlon, d1).0)
            <==> on_border(polygon_result(verts.reverse(), end_code, g2, tlat, tlon, d2).0),
        !on_border(polygon_result(verts, end_code, g1, tlat, tlon, d1).0)
            ==> polygon_result(verts.reverse(), end_code, g2, tlat, tlon, d2).0
                == mirrored_result(polygon_result(verts, end_code, g1, tlat, tlon, d1).0),
{
    let rv = verts.reverse();
    let s1 = Walk { first: true, prev_quadrant: 0, prev_lat: 0, prev_lon: 0, winding: 0, distance_min: d1 };
    let s2 = Walk { first: true, prev_quadrant: 0, prev_lat: 0, prev_lon: 0, winding: 0, distance_min: d2 };
    lemma_walk_total(verts, g1, tlat, tlon, s1);
    lemma_walk_total(rv, g2, tlat, tlon, s2);
    lemma_walk_stops_on_border(verts, g1, tlat, tlon, 0, s1);
    lemma_walk_stops_on_border(rv, g2, tlat, tlon, 0, s2);
    lemma_turn_total_reversed(verts, g1, g2, tlat, tlon);
    if clear_from(verts, g1, tlat, tlon, 0) {
        lemma_clear_reversed(verts, g1, g2, tlat, tlon);
    }
    if clear_from(rv, g2, tlat, tlon, 0) {
        assert(rv.reverse() =~= verts);
        assert forall|j: int| 1 <= j < g2.len() implies (#[trigger] g1[j]).intersect_lon == g2[g2.len() - j].intersect_lon by {
            assert(g2[g2.len() - j].intersect_lon == g1[g1.len() - (g2.len() - j)].intersect_lon);
        }
        lemma_clear_reversed(rv, g2, g1, tlat, tlon);
    }
    if let (Ok(w1), Ok(w2)) = (walk_from(verts, g1, tlat, tlon, 0, s1), walk_from(rv, g2, tlat, tlon, 0, s2)) {
        lemma_class_mirrored(w1.winding, w2.winding, turn_total(verts, g1, tlat, tlon));
    }
}

proof fn lemma_walk_distance(verts: Seq<(i32, i32)>, geo: Seq<SegmentGeometry>, tlat: i32, tlon: i32, k: int, w: Walk)
    ensures
        walk_from(verts, geo, tlat, tlon, k, w) matches Ok(w2) ==> w2.distance_min <= w.distance_min,
    decreases verts.len() - k,
{
    if 0 <= k < verts.len() {
        if let Visit::Go(w1) = visit(verts[k].0, verts[k].1, geo[k], tlat, tlon, w) {
            lemma_walk_distance(verts, geo, tlat, tlon, k + 1, w1);
        }
    }
}

/// A polygon test never raises the smallest distance, and lowers it to 0
/// when the target is on the border.
pub proof fn lemma_result_distance(verts: Seq<(i32, i32)>, end_code: i32, geo: Seq<SegmentGeometry>, tlat: i32, tlon: i32, dist: u64)
    ensures
        polygon_result(verts, end_code, geo, tlat, tlon, dist).1 <= dist,
        on_border(polygon_result(verts, end_code, geo, tlat, tlon, dist).0)
            ==> polygon_result(verts, end_code, geo, tlat, tlon, dist).1 == 0,
{
    let start = Walk { first: true, prev_quadrant: 0, prev_lat: 0, prev_lon: 0, winding: 0, distance_min: dist };
    lemma_walk_distance(verts, geo, tlat, tlon, 0, start);
    lemma_polygon_result_kinds(verts, end_code, geo, tlat, tlon, dist);
}

/// The winding number a walk over the vertices ends with, where it meets no
/// border.
pub open spec fn walk_winding(verts: Seq<(i32, i32)>, geo: Seq<SegmentGeometry>, tlat: i32, tlon: i32) -> Option<i32> {
    let start = Walk { first: true, prev_quadrant: 0, prev_lat: 0, prev_lon: 0, winding: 0, distance_min: u64::MAX };
    match walk_from(verts, geo, tlat, tlon, 0, start) {
        Ok(w) => Some(w.winding),
        Err(_) => None,
    }
}

/// One segment from `a` to `b`, neither of them the target nor level with
/// the other in latitude or longitude, changes the winding number by the
/// quarter turns it makes counterclockwise round the target (north up, east
/// to the right): +1 from north-east to north-west, north-west to
/// south-west, south-west to south-east or south-east to north-east, -1 the
/// other way; across two quadrants, +2 when it passes west of the target
/// going south or east of it going north, -2 when it passes east going south
/// or west going north, and the target is on the border when the crossing
/// is within 1 of it (for a target longitude whose neighbours do not wrap).
pub proof fn lemma_segment_winding(a: (i32, i32), b: (i32, i32), g0: SegmentGeometry, g: SegmentGeometry, tlat: i32, tlon: i32)
    requires
        a != (tlat, tlon),
        b != (tlat, tlon),
        a.0 != b.0,
        a.1 != b.1,
    ensures
        ({
            let w = walk_winding(seq![a, b], seq![g0, g], tlat, tlon);
            let (an, ae, bn, be) = (a.0 >= tlat, a.1 >= tlon, b.0 >= tlat, b.1 >= tlon);
            let ix = g.intersect_lon as int;
            &&& an == bn && ae == be ==> w == Some(0i32)
            &&& an && bn && ae && !be ==> w == Some(1i32)
            &&& an && bn && !ae && be ==> w == Some(-1i32)
            &&& !an && !bn && !ae && be ==> w == Some(1i32)
            &&& !an && !bn && ae && !be ==> w == Some(-1i32)
            &&& ae && be && !an && bn ==> w == Some(1i32)
            &&& ae && be && an && !bn ==> w == Some(-1i32)
            &&& !ae && !be && an && !bn ==> w == Some(1i32)
            &&& !ae && !be && !an && bn ==> w == Some(-1i32)
            &&& an != bn && ae != be && i32::MIN < tlon < i32::MAX && tlon - 1 <= ix <= tlon + 1 ==> w is None
            &&& an && !bn && ae != be && ix < tlon - 1 ==> w == Some(2i32)
            &&& an && !bn && ae != be && ix > tlon + 1 ==> w == Some(-2i32)
            &&& !an && bn && ae != be && ix > tlon + 1 ==> w == Some(2i32)
            &&& !an && bn && ae != be && ix < tlon - 1 ==> w == Some(-2i32)
        }),
{
    let verts = seq![a, b];
    let geo = seq![g0, g];
    let start = Walk { first: true, prev_quadrant: 0, prev_lat: 0, prev_lon: 0, winding: 0, distance_min: u64::MAX };
    assert(verts[0] == a && verts[1] == b && geo[0] == g0 && geo[1] == g);
    let w1 = match visit(a.0, a.1, g0, tlat, tlon, start) {
        Visit::Go(w1) => w1,
        Visit::Stop(_) => start,
    };
    assert(visit(a.0, a.1, g0, tlat, tlon, start) == Visit::Go(w1));
    assert(w1.winding == 0 && !w1.first && w1.prev_lat == a.0 && w1.prev_lon == a.1);
    assert(walk_from(verts, geo, tlat, tlon, 0, start) == walk_from(verts, geo, tlat, tlon, 1, w1));
    match visit(b.0, b.1, g, tlat, tlon, w1) {
        Visit::Go(w2) => {
            assert(walk_from(verts, geo, tlat, tlon, 1, w1) == walk_from(verts, geo, tlat, tlon, 2, w2));
            assert(walk_from(verts, geo, tlat, tlon, 2, w2) == Ok::<Walk, LookupResult>(w2));
        },
        Visit::Stop(r) => {
            assert(walk_from(verts, geo, tlat, tlon, 1, w1) == Err::<Walk, LookupResult>(r));
        },
    }
}

/// How a walked polygon is classified: a walk that meets the border puts the
/// target on the border; otherwise, unless the polygon could not be read, a
/// winding number of -4 (once round clockwise, north up and east to the
/// right) puts the target in the zone, 4 (counterclockwise) in an excluded
/// hole, 0 outside, and any other number on the border.
pub proof fn lemma_ring_result(verts: Seq<(i32, i32)>, end_code: i32, geo: Seq<SegmentGeometry>, tlat: i32, tlon: i32)
    ensures
        ({
            let r = polygon_result(verts, end_code, geo, tlat, tlon, u64::MAX).0;
            match walk_winding(verts, geo, tlat, tlon) {
                None => on_border(r),
                Some(w) => if end_code < 0 {
                    r == LookupResult::ParseError
                } else if w == -4 {
                    r == LookupResult::InZone
                } else if w == 4 {
                    r == LookupResult::InExcludedZone
                } else if w == 0 {
                    r == LookupResult::NotInZone
                } else {
                    r == LookupResult::OnBorderSegment
                },
            }
        }),
{
    let start = Walk { first: true, prev_quadrant: 0, prev_lat: 0, prev_lon: 0, winding: 0, distance_min: u64::MAX };
    lemma_walk_stops_on_border(verts, geo, tlat, tlon, 0, start);
}

/// A segment along the target's latitude or longitude that runs through the
/// target puts it on the border.
pub proof fn lemma_level_segment_on_border(a: (i32, i32), b: (i32, i32), g0: SegmentGeometry, g: SegmentGeometry, tlat: i32, tlon: i32)
    requires
        (a.0 == tlat && b.0 == tlat && between(a.1, tlon, b.1)) || (a.1 == tlon && b.1 == tlon && between(a.0, tlat, b.0)),
    ensures
        walk_winding(seq![a, b], seq![g0, g], tlat, tlon) is None,
{
    let verts = seq![a, b];
    let geo = seq![g0, g];
    let start = Walk { first: true, prev_quadrant: 0, prev_lat: 0, prev_lon: 0, winding: 0, distance_min: u64::MAX };
    assert(verts[0] == a && verts[1] == b && geo[0] == g0 && geo[1] == g);
    if let Visit::Go(w1) = visit(a.0, a.1, g0, tlat, tlon, start) {
        assert(walk_from(verts, geo, tlat, tlon, 0, start) == walk_from(verts, geo, tlat, tlon, 1, w1));
        if let Visit::Stop(r) = visit(b.0, b.1, g, tlat, tlon, w1) {
            assert(walk_from(verts, geo, tlat, tlon, 1, w1) == Err::<Walk, LookupResult>(r));
        }
    }
}

} // verus!
