//! From a request to go somewhere to the waypoints to walk: the straight way
//! where nothing stands on it, and a search round the obstacles where
//! something does.

use crate::distance::{dist_sq, path_length};
use crate::model::theta_route;
use crate::pathfinding::{is_route, theta_star, unobstructed, NavMesh};
use crate::utils::{crosses_boundary, does_line_intersect_polygon, Point, Polygon};
use vstd::prelude::*;

verus! {

/// The polygons whose boundary the straight segment to the goal meets.
#[derive(Clone, Copy, Debug, PartialEq, Eq, Structural)]
pub enum Blockers {
    /// None does.
    Clear,
    /// Only the polygon at this place does.
    One(usize),
    /// More than one does.
    Several,
}

/// Polygon `k` stands on the straight segment from `start` to `goal`.
pub open spec fn stands_between(start: Point, goal: Point, polygons: Seq<Polygon>, k: int) -> bool {
    0 <= k < polygons.len() && crosses_boundary(start, goal, polygons[k]@)
}

/// What `blockers` says is true of the segment from `start` to `goal`.
pub open spec fn blockers_found(
    blockers: Blockers,
    start: Point,
    goal: Point,
    polygons: Seq<Polygon>,
) -> bool {
    match blockers {
        Blockers::Clear => unobstructed(start, goal, polygons),
        Blockers::One(i) => stands_between(start, goal, polygons, i as int) && forall|k: int|
            #[trigger] stands_between(start, goal, polygons, k) ==> k == i,
        Blockers::Several => exists|i: int, j: int|
            i != j && #[trigger] stands_between(start, goal, polygons, i)
                && #[trigger] stands_between(start, goal, polygons, j),
    }
}

/// Finds which polygons stand on the straight segment from `start` to `goal`.
pub fn find_blockers(start: &Point, goal: &Point, polygons: &[Polygon]) -> (blockers: Blockers)
    ensures
        blockers_found(blockers, *start, *goal, polygons@),
{
    let n = polygons.len();
    let mut first: Option<usize> = None;
    let mut i: usize = 0;
    while i < n
        invariant
            n == polygons@.len(),
            i <= n,
            match first {
                Some(a) => a < i && stands_between(*start, *goal, polygons@, a as int) && forall|
                    k: int,
                |
                    0 <= k < i && #[trigger] stands_between(*start, *goal, polygons@, k) ==> k == a,
                None => forall|k: int|
                    0 <= k < i ==> !#[trigger] stands_between(*start, *goal, polygons@, k),
            },
        decreases n - i,
    {
        if does_line_intersect_polygon(start, goal, &polygons[i]) {
            match first {
                Some(a) => {
                    assert(stands_between(*start, *goal, polygons@, a as int));
                    assert(stands_between(*start, *goal, polygons@, i as int));
                    return Blockers::Several;
                },
                None => {
                    first = Some(i);
                },
            }
        }
        i += 1;
    }
    match first {
        Some(a) => Blockers::One(a),
        None => {
            assert forall|k: int| 0 <= k < polygons@.len() implies !crosses_boundary(
                *start,
                *goal,
                #[trigger] polygons@[k]@,
            ) by {
                assert(!stands_between(*start, *goal, polygons@, k));
            }
            Blockers::Clear
        },
    }
}

/// The obstacles that a search for a way from `start` to `goal` reckons with:
/// the one polygon that stands on the straight segment where only one does,
/// and all of them otherwise.
pub open spec fn obstacles_searched(blockers: Blockers, polygons: Seq<Polygon>) -> Seq<Polygon> {
    match blockers {
        Blockers::One(i) => polygons.subrange(i as int, i as int + 1),
        _ => polygons,
    }
}

/// What a plan is worth. Where nothing stands on the straight segment it is
/// the goal alone. Where something does, it is the route of the search past
/// the obstacles reckoned with, from the start to the goal, or `None` where
/// there is no way.
pub open spec fn plan_fits(
    plan: Option<Vec<Point>>,
    blockers: Blockers,
    waypoints: Seq<Point>,
    polygons: Seq<Polygon>,
    start: Point,
    goal: Point,
) -> bool {
    let found = theta_route(waypoints, start, goal, obstacles_searched(blockers, polygons));
    match plan {
        Some(path) => if blockers == Blockers::Clear {
            path@ == seq![goal]
        } else {
            &&& path@ == found
            &&& path@.len() > 0
            &&& is_route(path@, waypoints, obstacles_searched(blockers, polygons), start, goal)
            &&& path@.no_duplicates()
            &&& forall|route: Seq<Point>|
                is_route(route, waypoints, obstacles_searched(blockers, polygons), start, goal)
                    ==> path_length(path@) <= #[trigger] path_length(route)
        },
        None => {
            &&& blockers != Blockers::Clear
            &&& found.len() == 0
            &&& forall|route: Seq<Point>|
                !is_route(route, waypoints, obstacles_searched(blockers, polygons), start, goal)
        },
    }
}

/// Plans the way from `start` to `goal`.
///
/// Where no polygon stands on the straight segment, the plan is the goal
/// alone. Where one or more do, the plan is the way that [`theta_star`] finds,
/// from `start` to `goal`, past the one polygon or past them all; there may be
/// none, and then the plan is `None`: stay put. The mesh is left as it was.
pub fn plan_route(mesh: &mut NavMesh, start: Point, goal: Point, polygons: &[Polygon]) -> (plan:
    Option<Vec<Point>>)
    ensures
        final(mesh)@ == old(mesh)@,
        exists|blockers: Blockers|
            #[trigger] blockers_found(blockers, start, goal, polygons@) && plan_fits(
                plan,
                blockers,
                old(mesh)@,
                polygons@,
                start,
                goal,
            ),
{
    let n = polygons.len();
    let blockers = find_blockers(&start, &goal, polygons);
    let path = match blockers {
        Blockers::Clear => {
            let mut straight: Vec<Point> = Vec::new();
            straight.push(goal);
            assert(straight@ =~= seq![goal]);
            return Some(straight);
        },
        Blockers::One(i) => {
            assert(i < n);
            theta_star(mesh, start, goal, &polygons[i..i + 1])
        },
        Blockers::Several => theta_star(mesh, start, goal, polygons),
    };
    if path.len() == 0 {
        None
    } else {
        Some(path)
    }
}

/// Whether a new goal is far enough from the last one to plan anew: further
/// than `threshold`, or there was no last one.
pub fn significant_change(last: Option<Point>, goal: &Point, threshold: u32) -> (far: bool)
    ensures
        far == match last {
            Some(before) => dist_sq(*goal, before) > threshold * threshold,
            None => true,
        },
{
    match last {
        None => true,
        Some(before) => {
            let dx: i128 = goal.x as i128 - before.x as i128;
            let dy: i128 = goal.y as i128 - before.y as i128;
            let dz: i128 = goal.z as i128 - before.z as i128;
            assert(0 <= dx * dx <= 0x1_0000_0000_0000_0000) by (nonlinear_arith)
                requires
                    -0xffff_ffff <= dx <= 0xffff_ffff,
            ;
            assert(0 <= dy * dy <= 0x1_0000_0000_0000_0000) by (nonlinear_arith)
                requires
                    -0xffff_ffff <= dy <= 0xffff_ffff,
            ;
            assert(0 <= dz * dz <= 0x1_0000_0000_0000_0000) by (nonlinear_arith)
                requires
                    -0xffff_ffff <= dz <= 0xffff_ffff,
            ;
            let limit: i128 = threshold as i128;
            assert(0 <= limit * limit <= 0x1_0000_0000_0000_0000) by (nonlinear_arith)
                requires
                    0 <= limit <= 0xffff_ffff,
            ;
            dx * dx + dy * dy + dz * dz > limit * limit
        },
    }
}

} // verus!
