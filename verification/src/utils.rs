//! Points, polygons and the intersection predicates of the planner.
//!
//! Everything here is planar: a point has three coordinates, but only `x` and
//! `z` take part in the intersection tests, and `y` is carried through.

use vstd::prelude::*;

verus! {

/// A point of the grid. Two points are equal when all three coordinates are.
#[derive(Clone, Copy, Debug, PartialEq, Eq, Hash, Structural)]
pub struct Point {
    pub x: i32,
    pub y: i32,
    pub z: i32,
}

/// Twice the signed area of the triangle `p`, `q`, `r` in the (x, z) plane:
/// zero when the three are collinear, and of opposite sign on the two sides
/// of the line through `p` and `q`.
pub open spec fn cross(p: Point, q: Point, r: Point) -> int {
    (q.x - p.x) * (r.z - p.z) - (q.z - p.z) * (r.x - p.x)
}

/// `r` lies in the axis-aligned rectangle spanned by `p` and `q` in the
/// (x, z) plane. For three collinear points this says that `r` is on the
/// segment from `p` to `q`.
pub open spec fn in_bounding_box(p: Point, q: Point, r: Point) -> bool {
    &&& (p.x <= r.x <= q.x || q.x <= r.x <= p.x)
    &&& (p.z <= r.z <= q.z || q.z <= r.z <= p.z)
}

/// The segments `p1`-`p2` and `q1`-`q2` meet: either they cross properly, or
/// an endpoint of one is collinear with the other and inside its bounding box.
pub open spec fn segments_intersect(p1: Point, p2: Point, q1: Point, q2: Point) -> bool {
    let d1 = cross(q1, q2, p1);
    let d2 = cross(q1, q2, p2);
    let d3 = cross(p1, p2, q1);
    let d4 = cross(p1, p2, q2);
    ||| (d1 * d2 < 0 && d3 * d4 < 0)
    ||| (d1 == 0 && in_bounding_box(q1, q2, p1))
    ||| (d2 == 0 && in_bounding_box(q1, q2, p2))
    ||| (d3 == 0 && in_bounding_box(p1, p2, q1))
    ||| (d4 == 0 && in_bounding_box(p1, p2, q2))
}

/// A product is negative exactly when its factors have opposite signs.
pub proof fn lemma_product_negative(a: int, b: int)
    ensures
        a * b < 0 <==> ((a < 0 && b > 0) || (a > 0 && b < 0)),
{
    assert(a * b < 0 <==> ((a < 0 && b > 0) || (a > 0 && b < 0))) by (nonlinear_arith);
}

/// The orientation of `r` against the directed line from `p` to `q`.
pub fn direction(p: &Point, q: &Point, r: &Point) -> (d: i128)
    ensures
        d == cross(*p, *q, *r),
{
    let ax: i128 = q.x as i128 - p.x as i128;
    let az: i128 = q.z as i128 - p.z as i128;
    let bx: i128 = r.x as i128 - p.x as i128;
    let bz: i128 = r.z as i128 - p.z as i128;
    assert(-0x1_0000_0000_0000_0000 <= ax * bz <= 0x1_0000_0000_0000_0000) by (nonlinear_arith)
        requires
            -0x1_0000_0000 <= ax <= 0x1_0000_0000,
            -0x1_0000_0000 <= bz <= 0x1_0000_0000,
    ;
    assert(-0x1_0000_0000_0000_0000 <= az * bx <= 0x1_0000_0000_0000_0000) by (nonlinear_arith)
        requires
            -0x1_0000_0000 <= az <= 0x1_0000_0000,
            -0x1_0000_0000 <= bx <= 0x1_0000_0000,
    ;
    ax * bz - az * bx
}

/// Whether `r` lies in the bounding box of the segment from `p` to `q`.
pub fn on_segment(p: &Point, q: &Point, r: &Point) -> (inside: bool)
    ensures
        inside == in_bounding_box(*p, *q, *r),
{
    let in_x = if p.x <= q.x {
        p.x <= r.x && r.x <= q.x
    } else {
        q.x <= r.x && r.x <= p.x
    };
    let in_z = if p.z <= q.z {
        p.z <= r.z && r.z <= q.z
    } else {
        q.z <= r.z && r.z <= p.z
    };
    in_x && in_z
}

/// Whether the segments `p1`-`p2` and `q1`-`q2` meet.
pub fn do_lines_intersect(p1: &Point, p2: &Point, q1: &Point, q2: &Point) -> (hit: bool)
    ensures
        hit == segments_intersect(*p1, *p2, *q1, *q2),
{
    let d1 = direction(q1, q2, p1);
    let d2 = direction(q1, q2, p2);
    let d3 = direction(p1, p2, q1);
    let d4 = direction(p1, p2, q2);
    proof {
        lemma_product_negative(d1 as int, d2 as int);
        lemma_product_negative(d3 as int, d4 as int);
    }
    let split12 = (d1 < 0 && d2 > 0) || (d1 > 0 && d2 < 0);
    let split34 = (d3 < 0 && d4 > 0) || (d3 > 0 && d4 < 0);
    if split12 && split34 {
        return true;
    }
    if d1 == 0 && on_segment(q1, q2, p1) {
        return true;
    }
    if d2 == 0 && on_segment(q1, q2, p2) {
        return true;
    }
    if d3 == 0 && on_segment(p1, p2, q1) {
        return true;
    }
    if d4 == 0 && on_segment(p1, p2, q2) {
        return true;
    }
    false
}

/// A closed footprint: its corners in winding order. The edges are the
/// consecutive pairs of corners, and the one from the last corner back to the
/// first.
#[derive(Clone, Debug)]
pub struct Polygon {
    pub vertices: Vec<Point>,
}

impl View for Polygon {
    type V = Seq<Point>;

    open spec fn view(&self) -> Seq<Point> {
        self.vertices@
    }
}

impl Polygon {
    /// A polygon without corners.
    pub fn new() -> (polygon: Self)
        ensures
            polygon@ == Seq::<Point>::empty(),
    {
        Polygon { vertices: Vec::new() }
    }

    /// Appends a corner after those already there.
    pub fn add_vertex(&mut self, x: i32, y: i32, z: i32)
        ensures
            final(self)@ == old(self)@.push(Point { x, y, z }),
    {
        self.vertices.push(Point { x, y, z });
    }
}

/// The index that follows `i` in the winding order of a polygon with `n`
/// corners: the last corner is followed by the first.
pub open spec fn next_index(n: int, i: int) -> int {
    if i + 1 == n {
        0
    } else {
        i + 1
    }
}

/// The segment from `start` to `end` meets edge `i` of the polygon, the edge
/// that leaves corner `i`.
pub open spec fn edge_hit(start: Point, end: Point, poly: Seq<Point>, i: int) -> bool {
    segments_intersect(start, end, poly[i], poly[next_index(poly.len() as int, i)])
}

/// The segment from `start` to `end` meets some edge of the polygon.
pub open spec fn crosses_boundary(start: Point, end: Point, poly: Seq<Point>) -> bool {
    exists|i: int| 0 <= i < poly.len() && #[trigger] edge_hit(start, end, poly, i)
}

/// `p` is one of the two corners that bound edge `i`.
pub open spec fn bounds_edge(poly: Seq<Point>, i: int, p: Point) -> bool {
    p == poly[i] || p == poly[next_index(poly.len() as int, i)]
}

/// Corners `i` and `j` follow one another in the winding order, either way
/// round.
pub open spec fn adjacent(n: int, i: int, j: int) -> bool {
    next_index(n, i) == j || next_index(n, j) == i
}

/// Both points are corners of the polygon, and the corners are not neighbours:
/// the segment between them is a diagonal through the footprint. Where a point
/// occurs more than once among the corners, its last occurrence counts.
pub open spec fn cuts_corner(poly: Seq<Point>, start: Point, end: Point) -> bool {
    match (poly.index_of_last(start), poly.index_of_last(end)) {
        (Some(i), Some(j)) => !adjacent(poly.len() as int, i, j),
        _ => false,
    }
}

/// `p` lies on edge `i` of the polygon, strictly between the two corners that
/// bound it.
pub open spec fn lies_on_edge(poly: Seq<Point>, i: int, p: Point) -> bool {
    let a = poly[i];
    let b = poly[next_index(poly.len() as int, i)];
    &&& 0 <= i < poly.len()
    &&& cross(a, b, p) == 0
    &&& in_bounding_box(a, b, p)
    &&& p != a
    &&& p != b
}

/// `p` lies on some edge of the polygon without being a corner of that edge.
pub open spec fn rests_on_edge(poly: Seq<Point>, p: Point) -> bool {
    exists|i: int| #[trigger] lies_on_edge(poly, i, p)
}

/// Edge `i` is the first edge, in winding order, that `p` lies on.
pub open spec fn is_resting_edge(poly: Seq<Point>, p: Point, i: int) -> bool {
    &&& lies_on_edge(poly, i, p)
    &&& forall|j: int| 0 <= j < i ==> !#[trigger] lies_on_edge(poly, j, p)
}

/// The first edge that `p` lies on, where there is one.
pub open spec fn resting_edge(poly: Seq<Point>, p: Point) -> int {
    choose|i: int| is_resting_edge(poly, p, i)
}

/// The segment meets an edge of the polygon that neither of its endpoints
/// bounds.
pub open spec fn hits_free_edge(poly: Seq<Point>, start: Point, end: Point) -> bool {
    exists|i: int|
        0 <= i < poly.len() && !bounds_edge(poly, i, start) && !bounds_edge(poly, i, end)
            && #[trigger] edge_hit(start, end, poly, i)
}

/// The polygon stands between `start` and `end`. Three rules, the first that
/// applies decides:
///
/// 1. a segment between two corners that are not neighbours is blocked;
/// 2. from a point that lies on an edge to a corner, the segment is blocked
///    exactly when the corner bounds that edge;
/// 3. otherwise the segment is blocked when it meets an edge that neither
///    endpoint bounds.
pub open spec fn blocks(poly: Seq<Point>, start: Point, end: Point) -> bool {
    if cuts_corner(poly, start, end) {
        true
    } else if rests_on_edge(poly, start) && poly.contains(end) {
        bounds_edge(poly, resting_edge(poly, start), end)
    } else {
        hits_free_edge(poly, start, end)
    }
}

/// The polygon turns after corner `i`: that corner and the two that follow it
/// do not lie on one line.
pub open spec fn turns_at(poly: Seq<Point>, i: int) -> bool {
    let n = poly.len() as int;
    cross(poly[i], poly[next_index(n, i)], poly[next_index(n, next_index(n, i))]) != 0
}

/// Edges `i` and `j` of the polygon meet.
pub open spec fn edges_meet(poly: Seq<Point>, i: int, j: int) -> bool {
    let n = poly.len() as int;
    segments_intersect(poly[i], poly[next_index(n, i)], poly[j], poly[next_index(n, j)])
}

/// The polygon is a footprint to reckon with: it has at least three corners,
/// it turns after every one of them, and no two of its edges meet but
/// neighbours at the corner they share. Such a polygon encloses an area and
/// does not cross itself.
pub open spec fn well_formed(poly: Seq<Point>) -> bool {
    &&& poly.len() >= 3
    &&& forall|i: int| 0 <= i < poly.len() ==> #[trigger] turns_at(poly, i)
    &&& forall|i: int, j: int|
        0 <= i < j < poly.len() && !adjacent(poly.len() as int, i, j) ==> !#[trigger] edges_meet(
            poly,
            i,
            j,
        )
}

impl Polygon {
    /// Whether the polygon is a footprint to reckon with: see
    /// [`well_formed`].
    pub fn is_well_formed(&self) -> (sound: bool)
        ensures
            sound == well_formed(self@),
    {
        let n = self.vertices.len();
        if n < 3 {
            return false;
        }
        let mut i: usize = 0;
        while i < n
            invariant
                n == self@.len(),
                n >= 3,
                i <= n,
                forall|k: int| 0 <= k < i ==> #[trigger] turns_at(self@, k),
                forall|k: int, m: int|
                    0 <= k < m < n && k < i && !adjacent(n as int, k, m) ==> !#[trigger] edges_meet(
                        self@,
                        k,
                        m,
                    ),
            decreases n - i,
        {
            let after_i = if i + 1 == n {
                0
            } else {
                i + 1
            };
            let after_that = if after_i + 1 == n {
                0
            } else {
                after_i + 1
            };
            if direction(&self.vertices[i], &self.vertices[after_i], &self.vertices[after_that])
                == 0 {
                assert(!turns_at(self@, i as int));
                return false;
            }
            let mut j: usize = i + 1;
            while j < n
                invariant
                    n == self@.len(),
                    n >= 3,
                    i < j <= n,
                    after_i == next_index(n as int, i as int),
                    forall|m: int|
                        i < m < j && !adjacent(n as int, i as int, m) ==> !#[trigger] edges_meet(
                            self@,
                            i as int,
                            m,
                        ),
                decreases n - j,
            {
                let after_j = if j + 1 == n {
                    0
                } else {
                    j + 1
                };
                let neighbours = after_i == j || after_j == i;
                if !neighbours && do_lines_intersect(
                    &self.vertices[i],
                    &self.vertices[after_i],
                    &self.vertices[j],
                    &self.vertices[after_j],
                ) {
                    assert(edges_meet(self@, i as int, j as int));
                    return false;
                }
                j += 1;
            }
            i += 1;
        }
        true
    }
}

/// Whether the segment from `line_start` to `line_end` meets the boundary of
/// the polygon anywhere, its corners included.
pub fn does_line_intersect_polygon(line_start: &Point, line_end: &Point, polygon: &Polygon) -> (hit:
    bool)
    ensures
        hit == crosses_boundary(*line_start, *line_end, polygon@),
{
    let n = polygon.vertices.len();
    let mut i: usize = 0;
    while i < n
        invariant
            n == polygon@.len(),
            i <= n,
            forall|k: int| 0 <= k < i ==> !#[trigger] edge_hit(*line_start, *line_end, polygon@, k),
        decreases n - i,
    {
        let next_i = if i + 1 == n {
            0
        } else {
            i + 1
        };
        if do_lines_intersect(line_start, line_end, &polygon.vertices[i], &polygon.vertices[next_i]) {
            assert(edge_hit(*line_start, *line_end, polygon@, i as int));
            return true;
        }
        i += 1;
    }
    false
}

/// The last place at which `p` occurs among the corners.
fn last_corner_index(polygon: &Polygon, p: &Point) -> (found: Option<usize>)
    ensures
        match found {
            Some(i) => i < polygon@.len() && polygon@[i as int] == *p && polygon@.index_of_last(*p)
                == Some(i as int),
            None => polygon@.index_of_last(*p) is None && !polygon@.contains(*p),
        },
{
    let n = polygon.vertices.len();
    let mut found: Option<usize> = None;
    let mut i: usize = 0;
    while i < n
        invariant
            n == polygon@.len(),
            i <= n,
            match found {
                Some(a) => a < i && polygon@[a as int] == *p && forall|k: int|
                    a < k < i ==> polygon@[k] != *p,
                None => forall|k: int| 0 <= k < i ==> polygon@[k] != *p,
            },
        decreases n - i,
    {
        if polygon.vertices[i] == *p {
            found = Some(i);
        }
        i += 1;
    }
    proof {
        polygon@.index_of_last_ensures(*p);
    }
    found
}

/// The first edge that `p` lies on.
fn first_resting_edge(polygon: &Polygon, p: &Point) -> (found: Option<usize>)
    ensures
        match found {
            Some(i) => is_resting_edge(polygon@, *p, i as int),
            None => !rests_on_edge(polygon@, *p),
        },
{
    let n = polygon.vertices.len();
    let mut i: usize = 0;
    while i < n
        invariant
            n == polygon@.len(),
            i <= n,
            forall|k: int| 0 <= k < i ==> !#[trigger] lies_on_edge(polygon@, k, *p),
        decreases n - i,
    {
        let next_i = if i + 1 == n {
            0
        } else {
            i + 1
        };
        let v1 = &polygon.vertices[i];
        let v2 = &polygon.vertices[next_i];
        if direction(v1, v2, p) == 0 && on_segment(v1, v2, p) && *p != *v1 && *p != *v2 {
            return Some(i);
        }
        i += 1;
    }
    None
}

/// Whether the polygon stands between `line_start` and `line_end`, by the
/// three rules of [`blocks`].
pub fn line_intersects_polygon_with_vertex_check(
    line_start: &Point,
    line_end: &Point,
    polygon: &Polygon,
) -> (blocked: bool)
    ensures
        blocked == blocks(polygon@, *line_start, *line_end),
{
    let n = polygon.vertices.len();
    let line_start_index = last_corner_index(polygon, line_start);
    let line_end_index = last_corner_index(polygon, line_end);

    if let (Some(start_idx), Some(end_idx)) = (line_start_index, line_end_index) {
        let after_start = if start_idx + 1 == n {
            0
        } else {
            start_idx + 1
        };
        let after_end = if end_idx + 1 == n {
            0
        } else {
            end_idx + 1
        };
        if after_start != end_idx && start_idx != after_end {
            return true;
        }
    }
    assert(!cuts_corner(polygon@, *line_start, *line_end));

    if line_end_index.is_some() {
        if let Some(edge) = first_resting_edge(polygon, line_start) {
            let next_index = if edge + 1 == n {
                0
            } else {
                edge + 1
            };
            proof {
                let k = resting_edge(polygon@, *line_start);
                assert(is_resting_edge(polygon@, *line_start, edge as int));
                assert(is_resting_edge(polygon@, *line_start, k));
                assert(k == edge);
                assert(lies_on_edge(polygon@, edge as int, *line_start));
                assert(polygon@.contains(*line_end));
            }
            return *line_end == polygon.vertices[edge] || *line_end == polygon.vertices[next_index];
        }
    }

    assert(!(rests_on_edge(polygon@, *line_start) && polygon@.contains(*line_end)));
    let mut i: usize = 0;
    while i < n
        invariant
            n == polygon@.len(),
            i <= n,
            !cuts_corner(polygon@, *line_start, *line_end),
            !(rests_on_edge(polygon@, *line_start) && polygon@.contains(*line_end)),
            forall|k: int|
                0 <= k < i ==> !(!bounds_edge(polygon@, k, *line_start) && !bounds_edge(
                    polygon@,
                    k,
                    *line_end,
                ) && #[trigger] edge_hit(*line_start, *line_end, polygon@, k)),
        decreases n - i,
    {
        let next_i = if i + 1 == n {
            0
        } else {
            i + 1
        };
        let v1 = &polygon.vertices[i];
        let v2 = &polygon.vertices[next_i];
        let shared = *line_start == *v1 || *line_start == *v2 || *line_end == *v1 || *line_end
            == *v2;
        if !shared && do_lines_intersect(line_start, line_end, v1, v2) {
            assert(edge_hit(*line_start, *line_end, polygon@, i as int));
            return true;
        }
        i += 1;
    }
    false
}

/// Turning the directed line round turns the sign of the orientation.
pub proof fn lemma_cross_reversed(p: Point, q: Point, r: Point)
    ensures
        cross(q, p, r) == -cross(p, q, r),
{
    let (px, pz) = (p.x as int, p.z as int);
    let (qx, qz) = (q.x as int, q.z as int);
    let (rx, rz) = (r.x as int, r.z as int);
    assert((px - qx) * (rz - qz) - (pz - qz) * (rx - qx) == -((qx - px) * (rz - pz) - (qz - pz) * (
    rx - px))) by (nonlinear_arith);
}

/// A point is collinear with any segment that starts or ends at it.
pub proof fn lemma_cross_at_endpoint(p: Point, q: Point)
    ensures
        cross(p, q, p) == 0,
        cross(p, q, q) == 0,
{
    let (px, pz) = (p.x as int, p.z as int);
    let (qx, qz) = (q.x as int, q.z as int);
    assert((qx - px) * (pz - pz) - (qz - pz) * (px - px) == 0) by (nonlinear_arith);
    assert((qx - px) * (qz - pz) - (qz - pz) * (qx - px) == 0) by (nonlinear_arith);
}

/// The intersection test does not depend on the direction in which the first
/// segment is given.
pub proof fn lemma_segments_intersect_reversed(p1: Point, p2: Point, q1: Point, q2: Point)
    ensures
        segments_intersect(p2, p1, q1, q2) == segments_intersect(p1, p2, q1, q2),
{
    let d1 = cross(q1, q2, p1);
    let d2 = cross(q1, q2, p2);
    let d3 = cross(p1, p2, q1);
    let d4 = cross(p1, p2, q2);
    lemma_cross_reversed(p1, p2, q1);
    lemma_cross_reversed(p1, p2, q2);
    lemma_product_negative(d1, d2);
    lemma_product_negative(d2, d1);
    lemma_product_negative(d3, d4);
    lemma_product_negative(-d3, -d4);
}

/// A segment that starts or ends at a corner of the polygon meets its boundary.
pub proof fn lemma_corner_touches_boundary(poly: Seq<Point>, start: Point, end: Point)
    requires
        poly.contains(start) || poly.contains(end),
    ensures
        crosses_boundary(start, end, poly),
{
    let p = if poly.contains(start) {
        start
    } else {
        end
    };
    let i = choose|i: int| 0 <= i < poly.len() && poly[i] == p;
    let b = poly[next_index(poly.len() as int, i)];
    lemma_cross_at_endpoint(start, end);
    assert(in_bounding_box(start, end, p));
    assert(edge_hit(start, end, poly, i));
}

/// A segment that meets no edge of the polygon is not blocked by it.
pub proof fn lemma_clear_segment_not_blocked(poly: Seq<Point>, start: Point, end: Point)
    requires
        !crosses_boundary(start, end, poly),
    ensures
        !blocks(poly, start, end),
{
    if poly.contains(start) || poly.contains(end) {
        lemma_corner_touches_boundary(poly, start, end);
    }
    poly.index_of_last_ensures(start);
    if hits_free_edge(poly, start, end) {
        let i = choose|i: int|
            0 <= i < poly.len() && !bounds_edge(poly, i, start) && !bounds_edge(poly, i, end)
                && #[trigger] edge_hit(start, end, poly, i);
        assert(edge_hit(start, end, poly, i));
    }
}

/// The second rule of [`blocks`] decides for this pair: the segment is no
/// diagonal between corners, `start` lies on an edge and `end` is a corner.
pub open spec fn edge_rule_decides(poly: Seq<Point>, start: Point, end: Point) -> bool {
    !cuts_corner(poly, start, end) && rests_on_edge(poly, start) && poly.contains(end)
}

/// Whether a segment meets the boundary of a polygon does not depend on its
/// direction.
pub proof fn lemma_crosses_boundary_symmetric(poly: Seq<Point>, a: Point, b: Point)
    ensures
        crosses_boundary(a, b, poly) == crosses_boundary(b, a, poly),
{
    assert forall|i: int|
        #![trigger edge_hit(a, b, poly, i)]
        #![trigger edge_hit(b, a, poly, i)]
        0 <= i < poly.len() implies edge_hit(a, b, poly, i) == edge_hit(b, a, poly, i) by {
        lemma_segments_intersect_reversed(a, b, poly[i], poly[next_index(poly.len() as int, i)]);
    }
}

/// Whether a polygon blocks a segment does not depend on the direction of the
/// segment, as long as the rule for a point on an edge decides in neither
/// direction. That rule looks at `start` and `end` differently, and where it
/// decides the two directions may differ.
pub proof fn lemma_blocks_symmetric(poly: Seq<Point>, a: Point, b: Point)
    requires
        !edge_rule_decides(poly, a, b),
        !edge_rule_decides(poly, b, a),
    ensures
        blocks(poly, a, b) == blocks(poly, b, a),
{
    assert(cuts_corner(poly, a, b) == cuts_corner(poly, b, a));
    assert forall|i: int|
        #![trigger edge_hit(a, b, poly, i)]
        #![trigger edge_hit(b, a, poly, i)]
        0 <= i < poly.len() implies edge_hit(a, b, poly, i) == edge_hit(b, a, poly, i) by {
        lemma_segments_intersect_reversed(a, b, poly[i], poly[next_index(poly.len() as int, i)]);
    }
    assert(hits_free_edge(poly, a, b) == hits_free_edge(poly, b, a));
}

/// Where the rule for a point on an edge decides, the two directions can
/// differ: from a point on an edge, a corner that does not bound that edge is
/// not blocked, but from that corner the point on the edge is, for the
/// segment between them meets the edge.
pub proof fn lemma_edge_rule_looks_one_way(poly: Seq<Point>, a: Point, b: Point)
    requires
        edge_rule_decides(poly, a, b),
        !poly.contains(a),
        !bounds_edge(poly, resting_edge(poly, a), b),
    ensures
        !blocks(poly, a, b),
        blocks(poly, b, a),
{
    let witness = choose|i: int| #[trigger] lies_on_edge(poly, i, a);
    lemma_resting_edge(poly, a, witness);
    let k = resting_edge(poly, a);
    poly.index_of_last_ensures(a);
    assert(!cuts_corner(poly, b, a));
    assert(edge_hit(b, a, poly, k));
}

/// The other way in which the two directions differ where the rule for a
/// point on an edge decides: from a point on an edge, a corner that bounds
/// that edge is blocked, but from that corner the point on the edge is not,
/// once the segment between them meets no edge but those at the corner.
pub proof fn lemma_edge_rule_blocks_one_way(poly: Seq<Point>, a: Point, b: Point)
    requires
        edge_rule_decides(poly, a, b),
        !poly.contains(a),
        bounds_edge(poly, resting_edge(poly, a), b),
        !hits_free_edge(poly, b, a),
    ensures
        blocks(poly, a, b),
        !blocks(poly, b, a),
{
    poly.index_of_last_ensures(a);
    assert(!cuts_corner(poly, b, a));
}

/// A point that lies on some edge has a first edge that it lies on.
pub proof fn lemma_resting_edge(poly: Seq<Point>, p: Point, i: int)
    requires
        lies_on_edge(poly, i, p),
    ensures
        is_resting_edge(poly, p, resting_edge(poly, p)),
        resting_edge(poly, p) <= i,
    decreases i,
{
    if exists|j: int| 0 <= j < i && #[trigger] lies_on_edge(poly, j, p) {
        let j = choose|j: int| 0 <= j < i && #[trigger] lies_on_edge(poly, j, p);
        lemma_resting_edge(poly, p, j);
    } else {
        assert(is_resting_edge(poly, p, i));
        let k = resting_edge(poly, p);
        if k > i {
            assert(!lies_on_edge(poly, i, p));
        }
    }
}

/// `a` and `b` stand at the same place in the (x, z) plane.
pub open spec fn same_place(a: Point, b: Point) -> bool {
    a.x == b.x && a.z == b.z
}

/// `p` touches edge `i` of the polygon: it lies on it, the corners included.
pub open spec fn touches_edge(poly: Seq<Point>, i: int, p: Point) -> bool {
    let a = poly[i];
    let b = poly[next_index(poly.len() as int, i)];
    cross(a, b, p) == 0 && in_bounding_box(a, b, p)
}

/// The intersection test does not depend on which of the two segments comes
/// first.
pub proof fn lemma_segments_intersect_swapped(p1: Point, p2: Point, q1: Point, q2: Point)
    ensures
        segments_intersect(q1, q2, p1, p2) == segments_intersect(p1, p2, q1, q2),
{
    let d1 = cross(q1, q2, p1);
    let d2 = cross(q1, q2, p2);
    let d3 = cross(p1, p2, q1);
    let d4 = cross(p1, p2, q2);
    lemma_product_negative(d1, d2);
    lemma_product_negative(d3, d4);
}

/// The orientation of three points does not change when they are taken in
/// turn from the second on.
pub proof fn lemma_cross_in_turn(p: Point, q: Point, r: Point)
    ensures
        cross(q, r, p) == cross(p, q, r),
{
    let (px, pz) = (p.x as int, p.z as int);
    let (qx, qz) = (q.x as int, q.z as int);
    let (rx, rz) = (r.x as int, r.z as int);
    assert((rx - qx) * (pz - qz) - (rz - qz) * (px - qx) == (qx - px) * (rz - pz) - (qz - pz) * (rx
        - px)) by (nonlinear_arith);
}

/// Two numbers in the same proportion as two numbers of one sign have one
/// sign themselves.
proof fn lemma_proportion_sign(x: int, y: int, ca: int, cq: int)
    requires
        x * ca == y * cq,
        (x > 0 && y > 0) || (x < 0 && y < 0),
    ensures
        ca > 0 <==> cq > 0,
        ca < 0 <==> cq < 0,
{
    assert((ca > 0 <==> cq > 0) && (ca < 0 <==> cq < 0)) by (nonlinear_arith)
        requires
            x * ca == y * cq,
            (x > 0 && y > 0) || (x < 0 && y < 0),
    ;
}

/// A number that lies between two others by weights of one sign lies on the
/// side of the first as long as the second is zero, and the second lies on
/// the far side of zero once the number has reached or passed it.
proof fn lemma_weighted(w: int, m: int, d: int, e1: int, e2: int)
    requires
        (w + m) * d == w * e1 + m * e2,
        (w > 0 && m > 0) || (w < 0 && m < 0),
    ensures
        e1 > 0 && d <= 0 ==> e2 < 0,
        e1 < 0 && d >= 0 ==> e2 > 0,
        e2 == 0 && e1 > 0 ==> d > 0,
        e2 == 0 && e1 < 0 ==> d < 0,
{
    assert((e1 > 0 && d <= 0 ==> e2 < 0) && (e1 < 0 && d >= 0 ==> e2 > 0) && (e2 == 0 && e1 > 0
        ==> d > 0) && (e2 == 0 && e1 < 0 ==> d < 0)) by (nonlinear_arith)
        requires
            (w + m) * d == w * e1 + m * e2,
            (w > 0 && m > 0) || (w < 0 && m < 0),
    ;
}

/// The orientation at a point part of the way along a segment is the mean of
/// the orientations at its two ends, weighted by the parts of the way. The
/// part `t` of `s` is taken along either axis.
proof fn lemma_weighted_mean(
    s: int,
    t: int,
    qx: int,
    ax: int,
    qz: int,
    az: int,
    dx: int,
    dz: int,
    d2: int,
    e1: int,
    e2: int,
)
    requires
        qx * az == qz * ax,
        (s == qx && t == ax) || (s == qz && t == az),
        d2 == e1 + dx * az - dz * ax,
        e2 == e1 + dx * qz - dz * qx,
    ensures
        ((s - t) + t) * d2 == (s - t) * e1 + t * e2,
{
    let (k1, k2, k3, k4) = (dx * az, dz * ax, dx * qz, dz * qx);
    assert(s * k1 - s * k2 == t * k3 - t * k4) by {
        if s == qx && t == ax {
            assert(qx * (dx * az) == ax * (dx * qz)) by (nonlinear_arith)
                requires
                    qx * az == qz * ax,
            ;
            assert(qx * (dz * ax) == ax * (dz * qx)) by (nonlinear_arith);
        } else {
            assert(qz * (dx * az) == az * (dx * qz)) by (nonlinear_arith);
            assert(qz * (dz * ax) == az * (dz * qx)) by (nonlinear_arith)
                requires
                    qx * az == qz * ax,
            ;
        }
    }
    assert(s * d2 == s * e1 + s * k1 - s * k2) by (nonlinear_arith)
        requires
            d2 == e1 + k1 - k2,
    ;
    assert(t * e2 == t * e1 + t * k3 - t * k4) by (nonlinear_arith)
        requires
            e2 == e1 + k3 - k4,
    ;
    assert((s - t) * e1 == s * e1 - t * e1) by (nonlinear_arith);
}

/// Seen from `p`, a point `a` further along the segment to `q` has every
/// other point on the same side as `q` has it.
pub proof fn lemma_along(p: Point, q: Point, a: Point, r: Point)
    requires
        cross(p, q, a) == 0,
        in_bounding_box(p, q, a),
        !same_place(a, p),
    ensures
        cross(p, a, r) > 0 <==> cross(p, q, r) > 0,
        cross(p, a, r) < 0 <==> cross(p, q, r) < 0,
{
    let (qx, qz) = (q.x - p.x, q.z - p.z);
    let (ax, az) = (a.x - p.x, a.z - p.z);
    let (rx, rz) = (r.x - p.x, r.z - p.z);
    let ca = ax * rz - az * rx;
    let cq = qx * rz - qz * rx;
    assert(qx * az == qz * ax);
    if ax != 0 {
        assert(qx * ca == ax * cq) by (nonlinear_arith)
            requires
                qx * az == qz * ax,
                ca == ax * rz - az * rx,
                cq == qx * rz - qz * rx,
        ;
        lemma_proportion_sign(qx, ax, ca, cq);
    } else {
        assert(qz * ca == az * cq) by (nonlinear_arith)
            requires
                qx * az == qz * ax,
                ca == ax * rz - az * rx,
                cq == qx * rz - qz * rx,
        ;
        lemma_proportion_sign(qz, az, ca, cq);
    }
}

/// A point `a` strictly between `p` and `q` lies between them as seen from
/// any line: on the side of `p` as long as `q` is on the line, and with `q`
/// on the far side once `a` has reached or passed the line.
pub proof fn lemma_between(c: Point, d: Point, p: Point, q: Point, a: Point)
    requires
        cross(p, q, a) == 0,
        in_bounding_box(p, q, a),
        !same_place(a, p),
        !same_place(a, q),
    ensures
        cross(c, d, p) > 0 && cross(c, d, a) <= 0 ==> cross(c, d, q) < 0,
        cross(c, d, p) < 0 && cross(c, d, a) >= 0 ==> cross(c, d, q) > 0,
        cross(c, d, q) == 0 && cross(c, d, p) > 0 ==> cross(c, d, a) > 0,
        cross(c, d, q) == 0 && cross(c, d, p) < 0 ==> cross(c, d, a) < 0,
{
    let (qx, qz) = (q.x - p.x, q.z - p.z);
    let (ax, az) = (a.x - p.x, a.z - p.z);
    let (dx, dz) = (d.x - c.x, d.z - c.z);
    let (px, pz) = (p.x - c.x, p.z - c.z);
    let e1 = cross(c, d, p);
    let e2 = cross(c, d, q);
    let d2 = cross(c, d, a);
    assert(qx * az == qz * ax);
    assert(e1 == dx * pz - dz * px);
    assert(d2 == e1 + dx * az - dz * ax) by (nonlinear_arith)
        requires
            e1 == dx * pz - dz * px,
            d2 == dx * (pz + az) - dz * (px + ax),
    ;
    assert(e2 == e1 + dx * qz - dz * qx) by (nonlinear_arith)
        requires
            e1 == dx * pz - dz * px,
            e2 == dx * (pz + qz) - dz * (px + qx),
    ;
    if ax != 0 {
        assert(qx != ax) by (nonlinear_arith)
            requires
                qx * az == qz * ax,
                ax != 0,
                !(ax == qx && az == qz),
        ;
        lemma_weighted_mean(qx, ax, qx, ax, qz, az, dx, dz, d2, e1, e2);
        lemma_weighted(qx - ax, ax, d2, e1, e2);
    } else {
        assert(qz != az) by (nonlinear_arith)
            requires
                qx * az == qz * ax,
                az != 0,
                !(ax == qx && az == qz),
        ;
        lemma_weighted_mean(qz, az, qx, ax, qz, az, dx, dz, d2, e1, e2);
        lemma_weighted(qz - az, az, d2, e1, e2);
    }
}

/// A segment that misses the segment from `b` to `w` also misses its part
/// from `b` to a point `a` strictly inside, unless `a` itself touches it.
pub proof fn lemma_part_of_a_missed_segment(b: Point, w: Point, a: Point, c: Point, d: Point)
    requires
        cross(b, w, a) == 0,
        in_bounding_box(b, w, a),
        !same_place(a, b),
        !same_place(a, w),
        !segments_intersect(b, w, c, d),
        !(cross(c, d, a) == 0 && in_bounding_box(c, d, a)),
    ensures
        !segments_intersect(b, a, c, d),
{
    lemma_along(b, w, a, c);
    lemma_along(b, w, a, d);
    lemma_between(c, d, b, w, a);
    lemma_product_negative(cross(c, d, b), cross(c, d, a));
    lemma_product_negative(cross(c, d, b), cross(c, d, w));
    lemma_product_negative(cross(b, a, c), cross(b, a, d));
    lemma_product_negative(cross(b, w, c), cross(b, w, d));
}

/// The edge that leaves the far corner `w` of an edge at a turn is missed by
/// the part of that edge from its near corner `b` to a point `a` strictly
/// inside.
pub proof fn lemma_far_corner_is_missed(b: Point, w: Point, a: Point, d: Point)
    requires
        cross(b, w, a) == 0,
        in_bounding_box(b, w, a),
        !same_place(a, b),
        !same_place(a, w),
        cross(b, w, d) != 0,
    ensures
        !segments_intersect(b, a, w, d),
        !segments_intersect(b, a, d, w),
{
    lemma_along(b, w, a, w);
    lemma_along(b, w, a, d);
    lemma_cross_at_endpoint(b, w);
    lemma_cross_at_endpoint(w, d);
    lemma_cross_in_turn(b, w, d);
    lemma_between(w, d, b, w, a);
    lemma_product_negative(cross(w, d, b), cross(w, d, a));
    lemma_product_negative(cross(b, a, w), cross(b, a, d));
    assert(!segments_intersect(b, a, w, d));
    lemma_segments_intersect_swapped(b, a, w, d);
    lemma_segments_intersect_reversed(w, d, b, a);
    lemma_segments_intersect_swapped(b, a, d, w);
}

/// In a well-formed polygon, the way along an edge from one of its corners
/// to a point strictly inside it meets no edge but those at that corner, as
/// long as the point touches no other edge.
pub proof fn lemma_side_is_free(poly: Seq<Point>, a: Point, b: Point)
    requires
        well_formed(poly),
        rests_on_edge(poly, a),
        bounds_edge(poly, resting_edge(poly, a), b),
        !same_place(a, poly[resting_edge(poly, a)]),
        !same_place(a, poly[next_index(poly.len() as int, resting_edge(poly, a))]),
        forall|i: int|
            0 <= i < poly.len() && i != resting_edge(poly, a) ==> !#[trigger] touches_edge(
                poly,
                i,
                a,
            ),
    ensures
        !hits_free_edge(poly, b, a),
{
    let n = poly.len() as int;
    let found = choose|i: int| #[trigger] lies_on_edge(poly, i, a);
    lemma_resting_edge(poly, a, found);
    let k = resting_edge(poly, a);
    let p = poly[k];
    let q = poly[next_index(n, k)];
    lemma_cross_reversed(p, q, a);
    assert forall|i: int|
        0 <= i < n && !bounds_edge(poly, i, b) && !bounds_edge(poly, i, a) implies !#[trigger] edge_hit(
        b,
        a,
        poly,
        i,
    ) by {
        let c = poly[i];
        let d = poly[next_index(n, i)];
        assert(i != k);
        assert(!touches_edge(poly, i, a));
        if !adjacent(n, i, k) {
            if i < k {
                assert(!edges_meet(poly, i, k));
                lemma_segments_intersect_swapped(p, q, c, d);
            } else {
                assert(!edges_meet(poly, k, i));
            }
            assert(!segments_intersect(p, q, c, d));
            if b == p {
                lemma_part_of_a_missed_segment(p, q, a, c, d);
            } else {
                lemma_segments_intersect_reversed(p, q, c, d);
                lemma_part_of_a_missed_segment(q, p, a, c, d);
            }
        } else if next_index(n, k) == i {
            // the edge that leaves the far corner
            assert(c == q);
            assert(b == p);
            assert(turns_at(poly, k));
            lemma_far_corner_is_missed(p, q, a, d);
        } else {
            // the edge that arrives at the near corner
            assert(d == p);
            assert(b == q);
            assert(turns_at(poly, i));
            lemma_cross_in_turn(c, p, q);
            lemma_cross_reversed(p, q, c);
            lemma_far_corner_is_missed(q, p, a, c);
        }
    }
}

/// In a well-formed polygon the rule for a point on an edge blocks one way
/// only: from a point strictly inside an edge, which touches no other edge,
/// a corner of that edge is blocked, but from that corner the point is not.
pub proof fn lemma_edge_rule_blocks_one_way_on_a_side(poly: Seq<Point>, a: Point, b: Point)
    requires
        well_formed(poly),
        rests_on_edge(poly, a),
        bounds_edge(poly, resting_edge(poly, a), b),
        !same_place(a, poly[resting_edge(poly, a)]),
        !same_place(a, poly[next_index(poly.len() as int, resting_edge(poly, a))]),
        forall|i: int|
            0 <= i < poly.len() && i != resting_edge(poly, a) ==> !#[trigger] touches_edge(
                poly,
                i,
                a,
            ),
    ensures
        blocks(poly, a, b),
        !blocks(poly, b, a),
{
    let n = poly.len() as int;
    let found = choose|i: int| #[trigger] lies_on_edge(poly, i, a);
    lemma_resting_edge(poly, a, found);
    let k = resting_edge(poly, a);
    // a point that touches one edge only is no corner
    assert(!poly.contains(a)) by {
        if poly.contains(a) {
            let m = choose|m: int| 0 <= m < n && poly[m] == a;
            lemma_cross_at_endpoint(poly[m], poly[next_index(n, m)]);
            assert(touches_edge(poly, m, a));
        }
    }
    poly.index_of_last_ensures(a);
    assert(!cuts_corner(poly, a, b));
    assert(poly.contains(b)) by {
        if b == poly[k] {
            assert(poly[k] == b);
        } else {
            assert(poly[next_index(n, k)] == b);
        }
    }
    lemma_side_is_free(poly, a, b);
    lemma_edge_rule_blocks_one_way(poly, a, b);
}

} // verus!
