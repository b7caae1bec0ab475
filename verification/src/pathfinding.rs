//! The navigation mesh and the any-angle search over it.

use crate::distance::path_length;
use crate::model::{distinct, theta_route, with_point};
use crate::search::run;
use crate::utils::{
    blocks, crosses_boundary, edge_rule_decides, lemma_blocks_symmetric,
    lemma_clear_segment_not_blocked, line_intersects_polygon_with_vertex_check, Point, Polygon,
};
use vstd::prelude::*;

verus! {

/// The waypoints that a route may pass through, in no particular order. At
/// rest these are the corners of the obstacles. A point may occur more than
/// once; that changes nothing but the time a search takes.
#[derive(Clone, Debug)]
pub struct NavMesh {
    pub vertices: Vec<Point>,
}

impl View for NavMesh {
    type V = Seq<Point>;

    open spec fn view(&self) -> Seq<Point> {
        self.vertices@
    }
}

/// The test that keeps every point but `point`.
pub open spec fn other_than(point: Point) -> spec_fn(Point) -> bool {
    |v: Point| v != point
}

impl NavMesh {
    /// A mesh without waypoints.
    pub fn new() -> (mesh: Self)
        ensures
            mesh@ == Seq::<Point>::empty(),
    {
        NavMesh { vertices: Vec::new() }
    }

    /// Adds a waypoint behind those already there.
    pub fn add_vertex(&mut self, point: Point)
        ensures
            final(self)@ == old(self)@.push(point),
    {
        self.vertices.push(point);
    }

    /// Takes out every occurrence of `point`. The other waypoints keep their
    /// order.
    pub fn remove_vertex(&mut self, point: &Point)
        ensures
            final(self)@ == old(self)@.filter(other_than(*point)),
    {
        let n = self.vertices.len();
        let mut kept: Vec<Point> = Vec::new();
        let mut i: usize = 0;
        while i < n
            invariant
                self.vertices@ == old(self).vertices@,
                n == self.vertices@.len(),
                i <= n,
                kept@ == self.vertices@.subrange(0, i as int).filter(other_than(*point)),
            decreases n - i,
        {
            let v = self.vertices[i];
            proof {
                let upto = self.vertices@.subrange(0, i as int + 1);
                assert(upto.drop_last() =~= self.vertices@.subrange(0, i as int));
                assert(upto.last() == v);
                reveal(Seq::filter);
            }
            if v != *point {
                kept.push(v);
            }
            i += 1;
        }
        assert(self.vertices@.subrange(0, n as int) =~= self.vertices@);
        self.vertices = kept;
    }

    /// Whether `point` is among the waypoints.
    pub fn contains(&self, point: &Point) -> (found: bool)
        ensures
            found == self@.contains(*point),
    {
        let n = self.vertices.len();
        let mut i: usize = 0;
        while i < n
            invariant
                n == self.vertices@.len(),
                i <= n,
                forall|k: int| 0 <= k < i ==> self.vertices@[k] != *point,
            decreases n - i,
        {
            if self.vertices[i] == *point {
                return true;
            }
            i += 1;
        }
        false
    }
}

/// Nothing stands between `a` and `b`: none of the polygons blocks the segment
/// from `a` to `b`.
pub open spec fn visible(a: Point, b: Point, polygons: Seq<Polygon>) -> bool {
    forall|k: int| 0 <= k < polygons.len() ==> !blocks(#[trigger] polygons[k]@, a, b)
}

/// The straight segment from `a` to `b` meets the boundary of none of the
/// polygons.
pub open spec fn unobstructed(a: Point, b: Point, polygons: Seq<Polygon>) -> bool {
    forall|k: int| 0 <= k < polygons.len() ==> !crosses_boundary(a, b, #[trigger] polygons[k]@)
}

/// Two points with nothing on the straight segment between them can see one
/// another.
pub proof fn lemma_unobstructed_is_visible(a: Point, b: Point, polygons: Seq<Polygon>)
    requires
        unobstructed(a, b, polygons),
    ensures
        visible(a, b, polygons),
{
    assert forall|k: int| 0 <= k < polygons.len() implies !blocks(
        #[trigger] polygons[k]@,
        a,
        b,
    ) by {
        lemma_clear_segment_not_blocked(polygons[k]@, a, b);
    }
}

/// Line of sight does not depend on the direction in which one looks, as long
/// as for no polygon the rule for a point on an edge decides, in either
/// direction.
///
/// That rule is the one part of the test that treats the two ends of the
/// segment differently: from a point on an edge the corners of that edge are
/// blocked and every other corner can be seen, whereas from a corner the
/// point on the edge is judged by the edges that the segment meets.
pub proof fn lemma_visible_symmetric(a: Point, b: Point, polygons: Seq<Polygon>)
    requires
        forall|k: int|
            0 <= k < polygons.len() ==> !edge_rule_decides(#[trigger] polygons[k]@, a, b)
                && !edge_rule_decides(polygons[k]@, b, a),
    ensures
        visible(a, b, polygons) == visible(b, a, polygons),
{
    assert forall|k: int| 0 <= k < polygons.len() implies blocks(#[trigger] polygons[k]@, a, b)
        == blocks(polygons[k]@, b, a) by {
        lemma_blocks_symmetric(polygons[k]@, a, b);
    }
}

/// Whether `s_prime` can be seen from `s` past all the polygons.
pub fn line_of_sight(s: &Point, s_prime: &Point, polygons: &[Polygon]) -> (clear: bool)
    ensures
        clear == visible(*s, *s_prime, polygons@),
{
    let n = polygons.len();
    let mut i: usize = 0;
    while i < n
        invariant
            n == polygons@.len(),
            i <= n,
            forall|k: int| 0 <= k < i ==> !blocks(#[trigger] polygons@[k]@, *s, *s_prime),
        decreases n - i,
    {
        if line_intersects_polygon_with_vertex_check(s, s_prime, &polygons[i]) {
            return false;
        }
        i += 1;
    }
    true
}

/// `path` is a way from `start` to `goal`: it begins at `start`, ends at
/// `goal`, stops in between only at points of `waypoints`, and each of its
/// points can be seen from the one before.
pub open spec fn is_route(
    path: Seq<Point>,
    waypoints: Seq<Point>,
    polygons: Seq<Polygon>,
    start: Point,
    goal: Point,
) -> bool {
    &&& path.len() >= 1
    &&& path.first() == start
    &&& path.last() == goal
    &&& forall|i: int| 0 < i < path.len() - 1 ==> waypoints.contains(#[trigger] path[i])
    &&& forall|i: int|
        0 <= i < path.len() - 1 ==> visible(#[trigger] path[i], path[i + 1], polygons)
}

/// The first place at which `point` occurs in `points`.
pub fn position(points: &Vec<Point>, point: &Point) -> (found: Option<usize>)
    ensures
        match found {
            Some(i) => {
                &&& i < points@.len()
                &&& points@[i as int] == *point
                &&& forall|k: int| 0 <= k < i ==> points@[k] != *point
            },
            None => !points@.contains(*point),
        },
{
    let n = points.len();
    let mut i: usize = 0;
    while i < n
        invariant
            n == points@.len(),
            i <= n,
            forall|k: int| 0 <= k < i ==> points@[k] != *point,
        decreases n - i,
    {
        if points[i] == *point {
            return Some(i);
        }
        i += 1;
    }
    None
}

/// Taking each point once loses none and leaves no point twice.
pub proof fn lemma_distinct(points: Seq<Point>)
    ensures
        distinct(points).no_duplicates(),
        forall|p: Point| distinct(points).contains(p) <==> points.contains(p),
    decreases points.len(),
{
    if points.len() > 0 {
        let head = points.drop_last();
        let last = points.last();
        lemma_distinct(head);
        let before = distinct(head);
        let all = distinct(points);
        assert forall|p: Point| all.contains(p) <==> points.contains(p) by {
            if all.contains(p) {
                let k = choose|k: int| 0 <= k < all.len() && all[k] == p;
                if k < before.len() {
                    assert(before[k] == p);
                    assert(before.contains(p));
                    assert(head.contains(p));
                    let m = choose|m: int| 0 <= m < head.len() && head[m] == p;
                    assert(head[m] == points[m]);
                } else {
                    assert(points[points.len() - 1] == p);
                }
            }
            if points.contains(p) {
                let m = choose|m: int| 0 <= m < points.len() && points[m] == p;
                if m < head.len() {
                    assert(head[m] == p);
                    assert(head.contains(p));
                    assert(before.contains(p));
                    let k = choose|k: int| 0 <= k < before.len() && before[k] == p;
                    assert(all[k] == p);
                } else if before.contains(last) {
                } else {
                    assert(all[before.len() as int] == p);
                }
            }
        }
    }
}

/// The points of `points`, each once, in the order in which they first occur.
pub fn distinct_points(points: &Vec<Point>) -> (out: Vec<Point>)
    ensures
        out@ == distinct(points@),
        out@.no_duplicates(),
        forall|p: Point| out@.contains(p) <==> points@.contains(p),
{
    let n = points.len();
    let mut out: Vec<Point> = Vec::new();
    let mut i: usize = 0;
    while i < n
        invariant
            n == points@.len(),
            i <= n,
            out@ == distinct(points@.subrange(0, i as int)),
        decreases n - i,
    {
        let p = points[i];
        proof {
            let upto = points@.subrange(0, i as int + 1);
            assert(upto.drop_last() =~= points@.subrange(0, i as int));
            assert(upto.last() == p);
        }
        if position(&out, &p).is_none() {
            out.push(p);
        }
        i += 1;
    }
    proof {
        assert(points@.subrange(0, n as int) =~= points@);
        lemma_distinct(points@);
    }
    out
}

/// Taking a point out of a sequence that does not hold it changes nothing.
pub proof fn lemma_remove_absent(points: Seq<Point>, point: Point)
    requires
        !points.contains(point),
    ensures
        points.filter(other_than(point)) == points,
    decreases points.len(),
{
    reveal(Seq::filter);
    if points.len() > 0 {
        let head = points.drop_last();
        assert forall|k: int| 0 <= k < head.len() implies head[k] != point by {
            assert(points[k] == head[k]);
        }
        lemma_remove_absent(head, point);
        assert(points.last() == points[points.len() - 1]);
        assert(head.push(points.last()) =~= points);
    }
}

/// Taking out a point that was put in last, and was not there before, gives
/// back what was there before.
pub proof fn lemma_remove_pushed(points: Seq<Point>, point: Point)
    requires
        !points.contains(point),
    ensures
        points.push(point).filter(other_than(point)) == points,
{
    reveal(Seq::filter);
    assert(points.push(point).drop_last() =~= points);
    lemma_remove_absent(points, point);
}

/// Finds a way from `start` to `goal` past the obstacles, through the
/// waypoints of the mesh.
///
/// For the time of the search `start` and `goal` are waypoints of the mesh
/// too; each is put in unless it is there already, and taken out again before
/// the function returns, whatever the outcome.
///
/// The result is the route of [`theta_route`]. Where it is not empty it
/// begins at `start`, ends at `goal`, passes in between through waypoints of
/// the mesh only, each point in sight of the one before, and comes by no
/// point twice; no other such way is shorter. Where it is empty there is no
/// such way at all. Where the goal
/// is in sight of the start, the result is the straight way: the start and
/// the goal and nothing in between.
pub fn theta_star(
    mesh: &mut NavMesh,
    start: Point,
    goal: Point,
    obstacle_polygons: &[Polygon],
) -> (path: Vec<Point>)
    ensures
        final(mesh)@ == old(mesh)@,
        path@ == theta_route(old(mesh)@, start, goal, obstacle_polygons@),
        path@.len() > 0 ==> is_route(path@, old(mesh)@, obstacle_polygons@, start, goal),
        path@.len() > 0 ==> path@.no_duplicates(),
        path@.len() == 0 ==> forall|route: Seq<Point>|
            !is_route(route, old(mesh)@, obstacle_polygons@, start, goal),
        forall|route: Seq<Point>|
            is_route(route, old(mesh)@, obstacle_polygons@, start, goal) ==> path_length(path@)
                <= #[trigger] path_length(route),
        start == goal ==> path@ == seq![start],
        start != goal && visible(start, goal, obstacle_polygons@) ==> path@ == seq![start, goal],
        start != goal && unobstructed(start, goal, obstacle_polygons@) ==> path@ == seq![
            start,
            goal,
        ],
{
    let ghost rest = mesh@;
    proof {
        if unobstructed(start, goal, obstacle_polygons@) {
            lemma_unobstructed_is_visible(start, goal, obstacle_polygons@);
        }
    }
    let ghost stops = rest.push(start).push(goal);
    let start_is_new = !mesh.contains(&start);
    if start_is_new {
        mesh.add_vertex(start);
    }
    let ghost with_start = mesh@;
    proof {
        if start_is_new {
            assert(with_start[rest.len() as int] == start);
        }
        assert(with_start.contains(start));
    }
    let ghost at = choose|k: int| 0 <= k < with_start.len() && with_start[k] == start;
    let goal_is_new = !mesh.contains(&goal);
    if goal_is_new {
        mesh.add_vertex(goal);
    }
    proof {
        assert(mesh@[at] == start);
        if goal_is_new {
            assert(mesh@[with_start.len() as int] == goal);
        }
        assert forall|p: Point| mesh@.contains(p) <==> stops.contains(p) by {
            lemma_same_stops(rest, mesh@, start, goal, p);
        }
    }

    let verts = distinct_points(&mesh.vertices);
    let found_start = position(&verts, &start);
    let found_goal = position(&verts, &goal);
    proof {
        assert(mesh@ == with_point(with_point(rest, start), goal));
        assert(verts@.contains(start) && verts@.contains(goal));
        assert(verts@.index_of(start) == found_start.unwrap());
        assert(verts@.index_of(goal) == found_goal.unwrap());
        assert(stops[rest.len() as int] == start);
        assert(stops[rest.len() as int + 1] == goal);
        assert(stops.contains(start) && stops.contains(goal));
    }
    let path = run(&verts, found_start.unwrap(), found_goal.unwrap(), obstacle_polygons);
    proof {
        if path@.len() > 0 {
            assert forall|i: int| 0 < i < path@.len() - 1 implies rest.contains(
                #[trigger] path@[i],
            ) by {
                assert(verts@.contains(path@[i]));
                assert(stops.contains(path@[i]));
                let k = choose|k: int| 0 <= k < stops.len() && stops[k] == path@[i];
                assert(path@[i] != path@[0] && path@[i] != path@[path@.len() - 1]);
                assert(rest[k] == path@[i]);
            }
        }
        assert forall|route: Seq<Point>|
            is_route(route, rest, obstacle_polygons@, start, goal) implies is_route(
            route,
            verts@,
            obstacle_polygons@,
            start,
            goal,
        ) by {
            assert forall|i: int| 0 < i < route.len() - 1 implies verts@.contains(
                #[trigger] route[i],
            ) by {
                let k = choose|k: int| 0 <= k < rest.len() && rest[k] == route[i];
                assert(stops[k] == route[i]);
                assert(stops.contains(route[i]));
            }
        }
    }

    if goal_is_new {
        mesh.remove_vertex(&goal);
        proof {
            lemma_remove_pushed(with_start, goal);
        }
    }
    if start_is_new {
        mesh.remove_vertex(&start);
        proof {
            lemma_remove_pushed(rest, start);
        }
    }
    path
}

/// With `start` and `goal` put in where they were missing, the mesh holds the
/// points it held before and those two.
proof fn lemma_same_stops(rest: Seq<Point>, mesh: Seq<Point>, start: Point, goal: Point, p: Point)
    requires
        mesh == rest || mesh == rest.push(start) || mesh == rest.push(goal) || mesh == rest.push(
            start,
        ).push(goal),
        mesh.contains(start),
        mesh.contains(goal),
    ensures
        mesh.contains(p) <==> rest.push(start).push(goal).contains(p),
{
    let stops = rest.push(start).push(goal);
    assert(stops[rest.len() as int] == start);
    assert(stops[rest.len() as int + 1] == goal);
    if mesh.contains(p) {
        let k = choose|k: int| 0 <= k < mesh.len() && mesh[k] == p;
        if k < rest.len() {
            assert(stops[k] == p);
        }
    }
    if stops.contains(p) {
        let k = choose|k: int| 0 <= k < stops.len() && stops[k] == p;
        if k < rest.len() {
            assert(mesh[k] == p);
        }
    }
}

} // verus!
