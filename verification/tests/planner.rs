use theta_nav::distance::{heuristic, path_length_of, PARTS};
use theta_nav::pathfinding::{line_of_sight, theta_star, NavMesh};
use theta_nav::route::{find_blockers, plan_route, significant_change, Blockers};
use theta_nav::utils::{Point, Polygon};

fn pt(x: i32, y: i32, z: i32) -> Point {
    Point { x, y, z }
}

fn rectangle(x0: i32, z0: i32, x1: i32, z1: i32) -> Polygon {
    let mut polygon = Polygon::new();
    polygon.add_vertex(x0, 0, z0);
    polygon.add_vertex(x0, 0, z1);
    polygon.add_vertex(x1, 0, z1);
    polygon.add_vertex(x1, 0, z0);
    polygon
}

fn square() -> Polygon {
    rectangle(-1, -1, 1, 1)
}

fn mesh_of(polygons: &[Polygon]) -> NavMesh {
    let mut mesh = NavMesh::new();
    for polygon in polygons {
        for vertex in &polygon.vertices {
            mesh.add_vertex(*vertex);
        }
    }
    mesh
}

fn euclidean_length(path: &[Point]) -> f64 {
    let mut total = 0.0;
    for pair in path.windows(2) {
        let dx = (pair[0].x - pair[1].x) as f64;
        let dy = (pair[0].y - pair[1].y) as f64;
        let dz = (pair[0].z - pair[1].z) as f64;
        total += (dx * dx + dy * dy + dz * dz).sqrt();
    }
    total
}

fn assert_is_route(path: &[Point], mesh: &NavMesh, obstacles: &[Polygon], start: Point, goal: Point) {
    assert!(!path.is_empty());
    assert_eq!(path[0], start);
    assert_eq!(path[path.len() - 1], goal);
    for pair in path.windows(2) {
        assert!(line_of_sight(&pair[0], &pair[1], obstacles));
    }
    for between in &path[1..path.len() - 1] {
        assert!(mesh.vertices.contains(between));
    }
    for (i, a) in path.iter().enumerate() {
        for b in &path[i + 1..] {
            assert_ne!(a, b);
        }
    }
}

#[test]
fn heuristic_rounds_the_distance_up() {
    assert_eq!(PARTS, 1024);
    // whole distances come out whole
    assert_eq!(heuristic(&pt(0, 0, 0), &pt(3, 4, 0)), 5 * PARTS);
    assert_eq!(heuristic(&pt(0, 0, 0), &pt(3, 0, 4)), 5 * PARTS);
    assert_eq!(heuristic(&pt(1, 1, 1), &pt(3, 4, 7)), 7 * PARTS);
    assert_eq!(heuristic(&pt(0, 0, 0), &pt(1, 0, 0)), PARTS);
    // the root of 5 is 2.2360..., of 3 is 1.7320..., of 1000001 is 1000.0004...
    assert_eq!(heuristic(&pt(0, 0, 0), &pt(2, 0, 1)), 2290);
    assert_eq!(heuristic(&pt(0, 0, 0), &pt(1, 1, 1)), 1774);
    assert_eq!(heuristic(&pt(0, 0, 0), &pt(1000, 0, 1)), 1_024_001);
}

#[test]
fn heuristic_from_a_point_to_itself_is_zero() {
    assert_eq!(heuristic(&pt(7, -2, 5), &pt(7, -2, 5)), 0);
    assert_eq!(heuristic(&pt(i32::MIN, i32::MAX, 0), &pt(i32::MIN, i32::MAX, 0)), 0);
}

#[test]
fn heuristic_is_the_same_both_ways() {
    let points = vec![pt(1, 2, 3), pt(-4, 0, 9), pt(100, -7, 12), pt(i32::MAX, 0, i32::MIN)];
    for a in &points {
        for b in &points {
            assert_eq!(heuristic(a, b), heuristic(b, a));
        }
    }
}

#[test]
fn heuristic_obeys_the_triangle_inequality() {
    let points = vec![pt(0, 0, 0), pt(1, 0, 1), pt(2, 0, 0), pt(3, 1, 4), pt(-5, 2, 7), pt(9, 9, 9)];
    for a in &points {
        for b in &points {
            for c in &points {
                assert!(heuristic(a, c) <= heuristic(a, b) + heuristic(b, c));
            }
        }
    }
}

#[test]
fn heuristic_holds_the_widest_coordinates() {
    let h = heuristic(&pt(i32::MIN, i32::MIN, i32::MIN), &pt(i32::MAX, i32::MAX, i32::MAX)) as u128;
    let side = u32::MAX as u128 * PARTS as u128;
    let squared = 3 * side * side;
    assert!(h * h >= squared);
    assert!((h - 1) * (h - 1) < squared);
    assert_eq!(h, 7617640009510);
}

#[test]
fn path_length_adds_the_steps() {
    assert_eq!(path_length_of(&Vec::new()), 0);
    assert_eq!(path_length_of(&vec![pt(4, 4, 4)]), 0);
    assert_eq!(path_length_of(&vec![pt(0, 0, 0), pt(3, 0, 4)]), 5 * 1024);
    assert_eq!(
        path_length_of(&vec![pt(0, 0, 0), pt(3, 0, 4), pt(3, 0, 10), pt(4, 0, 10)]),
        12 * 1024
    );
    assert_eq!(path_length_of(&vec![pt(0, 0, 0), pt(2, 0, 1), pt(0, 0, 0)]), 2 * 2290);
}

#[test]
fn line_of_sight_needs_every_polygon_clear() {
    let obstacles = vec![rectangle(-1, -1, 1, 1), rectangle(4, -1, 6, 1)];
    assert!(line_of_sight(&pt(-3, 0, 3), &pt(8, 0, 3), &obstacles));
    assert!(!line_of_sight(&pt(-3, 0, 0), &pt(3, 0, 0), &obstacles));
    assert!(!line_of_sight(&pt(3, 0, 0), &pt(8, 0, 0), &obstacles));
    assert!(line_of_sight(&pt(2, 0, -5), &pt(3, 0, 5), &obstacles));
    assert!(line_of_sight(&pt(-3, 0, 0), &pt(3, 0, 0), &[]));
}

#[test]
fn line_of_sight_is_the_same_both_ways_off_the_edges() {
    let obstacles = vec![rectangle(-1, -1, 1, 1), rectangle(4, -1, 6, 1)];
    let mut points = vec![pt(-3, 0, 0), pt(3, 0, 0), pt(8, 0, 0), pt(0, 0, 5), pt(5, 0, -4), pt(0, 0, 0)];
    for polygon in &obstacles {
        points.extend(polygon.vertices.iter().copied());
    }
    for a in &points {
        for b in &points {
            assert_eq!(line_of_sight(a, b, &obstacles), line_of_sight(b, a, &obstacles));
        }
    }
}

#[test]
fn line_of_sight_from_an_edge_looks_one_way() {
    let obstacles = vec![square()];
    let on_edge = pt(-1, 0, 0);
    let corner = pt(-1, 0, -1);
    assert!(!line_of_sight(&on_edge, &corner, &obstacles));
    assert!(line_of_sight(&corner, &on_edge, &obstacles));
}

#[test]
fn square_obstacle_is_passed_on_one_side() {
    let obstacles = vec![square()];
    let mut mesh = mesh_of(&obstacles);
    let start = pt(-3, 0, 0);
    let goal = pt(3, 0, 0);
    let path = theta_star(&mut mesh, start, goal, &obstacles);
    assert_eq!(path.len(), 4);
    assert_is_route(&path, &mesh, &obstacles, start, goal);
    let near = vec![pt(-1, 0, -1), pt(1, 0, -1)];
    let far = vec![pt(-1, 0, 1), pt(1, 0, 1)];
    let corners = vec![path[1], path[2]];
    assert!(corners == near || corners == far);
    let length = euclidean_length(&path);
    assert!(length > 6.0);
    let around_all_four = euclidean_length(&[
        start,
        pt(-1, 0, -1),
        pt(-1, 0, 1),
        pt(1, 0, 1),
        pt(1, 0, -1),
        goal,
    ]);
    assert!(length < around_all_four);
    // two slanted legs of the root of 5 and one side of 2
    assert_eq!(path_length_of(&path), 2290 + 2 * 1024 + 2290);
    assert!(path_length_of(&path) > 6 * PARTS as u128);
    assert!(path_length_of(&path) < 8 * PARTS as u128);
    assert_eq!(heuristic(&start, &goal), 6 * PARTS);
}

#[test]
fn start_equal_to_goal_gives_the_start_alone() {
    let obstacles = vec![square()];
    let mut mesh = mesh_of(&obstacles);
    let start = pt(-3, 0, 0);
    let path = theta_star(&mut mesh, start, start, &obstacles);
    assert_eq!(path, vec![start]);
    // also where the point is a waypoint of the mesh
    let corner = pt(-1, 0, -1);
    assert_eq!(theta_star(&mut mesh, corner, corner, &obstacles), vec![corner]);
    // and inside an obstacle
    let inside = pt(0, 0, 0);
    assert_eq!(theta_star(&mut mesh, inside, inside, &obstacles), vec![inside]);
}

#[test]
fn goal_walled_in_gives_no_path() {
    let far_away = rectangle(10, 10, 12, 12);
    let obstacles = vec![square()];
    let mut mesh = mesh_of(&[far_away]);
    let path = theta_star(&mut mesh, pt(-3, 0, 0), pt(0, 0, 0), &obstacles);
    assert!(path.is_empty());
    let mut bare = NavMesh::new();
    assert!(theta_star(&mut bare, pt(-3, 0, 0), pt(0, 0, 0), &obstacles).is_empty());
    assert!(theta_star(&mut bare, pt(-3, 0, 0), pt(3, 0, 0), &obstacles).is_empty());
}

#[test]
fn mesh_is_left_as_it_was() {
    let obstacles = vec![square(), rectangle(4, -1, 6, 1)];
    let mut mesh = mesh_of(&obstacles);
    mesh.add_vertex(pt(-1, 0, -1));
    let before = mesh.vertices.clone();
    // a way is found
    assert!(!theta_star(&mut mesh, pt(-3, 0, 0), pt(8, 0, 0), &obstacles).is_empty());
    assert_eq!(mesh.vertices, before);
    // start equal to goal
    theta_star(&mut mesh, pt(-3, 0, 0), pt(-3, 0, 0), &obstacles);
    assert_eq!(mesh.vertices, before);
    // no way is found
    let mut other = mesh_of(&[rectangle(10, 10, 12, 12)]);
    let other_before = other.vertices.clone();
    assert!(theta_star(&mut other, pt(-3, 0, 0), pt(0, 0, 0), &obstacles).is_empty());
    assert_eq!(other.vertices, other_before);
}

#[test]
fn waypoints_that_are_start_or_goal_stay_in_the_mesh() {
    let obstacles = vec![square()];
    let mut mesh = mesh_of(&obstacles);
    let before = mesh.vertices.clone();
    let path = theta_star(&mut mesh, pt(-1, 0, -1), pt(1, 0, 1), &obstacles);
    assert_eq!(mesh.vertices, before);
    assert_is_route(&path, &mesh, &obstacles, pt(-1, 0, -1), pt(1, 0, 1));
    assert_eq!(path.len(), 3);
}

#[test]
fn nothing_in_the_way_gives_the_straight_path() {
    let obstacles = vec![square(), rectangle(4, -1, 6, 1)];
    let mut mesh = mesh_of(&obstacles);
    let start = pt(-3, 0, 3);
    let goal = pt(8, 0, 3);
    assert_eq!(theta_star(&mut mesh, start, goal, &obstacles), vec![start, goal]);
    assert_eq!(theta_star(&mut mesh, goal, start, &obstacles), vec![goal, start]);
    // no obstacles at all, however many waypoints
    assert_eq!(theta_star(&mut mesh, pt(-3, 0, 0), pt(3, 0, 0), &[]), vec![pt(-3, 0, 0), pt(3, 0, 0)]);
    let mut bare = NavMesh::new();
    assert_eq!(theta_star(&mut bare, start, goal, &obstacles), vec![start, goal]);
}

#[test]
fn two_obstacles_are_passed_one_after_the_other() {
    let obstacles = vec![square(), rectangle(4, -1, 6, 1)];
    let mut mesh = mesh_of(&obstacles);
    let start = pt(-3, 0, 0);
    let goal = pt(8, 0, 0);
    let path = theta_star(&mut mesh, start, goal, &obstacles);
    assert_is_route(&path, &mesh, &obstacles, start, goal);
    assert!(path.len() >= 4);
    assert!(path_length_of(&path) >= heuristic(&start, &goal) as u128);
}

#[test]
fn waypoints_that_occur_twice_change_nothing() {
    let obstacles = vec![square()];
    let mut once = mesh_of(&obstacles);
    let mut twice = mesh_of(&obstacles);
    for vertex in square().vertices {
        twice.add_vertex(vertex);
    }
    let start = pt(-3, 0, 0);
    let goal = pt(3, 0, 0);
    assert_eq!(
        theta_star(&mut once, start, goal, &obstacles),
        theta_star(&mut twice, start, goal, &obstacles)
    );
    assert_eq!(twice.vertices.len(), 8);
}

#[test]
fn blockers_are_none_one_or_several() {
    let obstacles = vec![rectangle(10, 10, 12, 12), square(), rectangle(4, -1, 6, 1)];
    assert_eq!(find_blockers(&pt(-3, 0, 3), &pt(8, 0, 3), &obstacles), Blockers::Clear);
    assert_eq!(find_blockers(&pt(-3, 0, 0), &pt(3, 0, 0), &obstacles), Blockers::One(1));
    assert_eq!(find_blockers(&pt(3, 0, 0), &pt(8, 0, 0), &obstacles), Blockers::One(2));
    assert_eq!(find_blockers(&pt(-3, 0, 0), &pt(8, 0, 0), &obstacles), Blockers::Several);
    assert_eq!(find_blockers(&pt(-3, 0, 0), &pt(3, 0, 0), &[]), Blockers::Clear);
}

#[test]
fn plan_is_the_goal_alone_where_nothing_is_in_the_way() {
    let obstacles = vec![square(), rectangle(4, -1, 6, 1)];
    let mut mesh = mesh_of(&obstacles);
    let before = mesh.vertices.clone();
    let plan = plan_route(&mut mesh, pt(-3, 0, 3), pt(8, 0, 3), &obstacles);
    assert_eq!(plan, Some(vec![pt(8, 0, 3)]));
    assert_eq!(mesh.vertices, before);
}

#[test]
fn plan_past_one_obstacle_reckons_with_that_one_only() {
    let obstacles = vec![rectangle(-1, -1, 1, 1), rectangle(-2, 2, 2, 3)];
    let mut mesh = mesh_of(&obstacles);
    let before = mesh.vertices.clone();
    let start = pt(-3, 0, 0);
    let goal = pt(3, 0, 0);
    let plan = plan_route(&mut mesh, start, goal, &obstacles).unwrap();
    assert_is_route(&plan, &mesh, &obstacles[0..1], start, goal);
    assert_eq!(plan, theta_star(&mut mesh, start, goal, &obstacles[0..1]));
    assert_eq!(mesh.vertices, before);
}

#[test]
fn plan_past_several_obstacles_reckons_with_all() {
    let obstacles = vec![square(), rectangle(4, -1, 6, 1)];
    let mut mesh = mesh_of(&obstacles);
    let start = pt(-3, 0, 0);
    let goal = pt(8, 0, 0);
    let plan = plan_route(&mut mesh, start, goal, &obstacles).unwrap();
    assert_is_route(&plan, &mesh, &obstacles, start, goal);
    assert_eq!(plan, theta_star(&mut mesh, start, goal, &obstacles));
}

#[test]
fn plan_is_none_where_there_is_no_way() {
    let obstacles = vec![square()];
    let mut mesh = mesh_of(&[rectangle(10, 10, 12, 12)]);
    let before = mesh.vertices.clone();
    assert_eq!(plan_route(&mut mesh, pt(-3, 0, 0), pt(0, 0, 0), &obstacles), None);
    assert_eq!(mesh.vertices, before);
}

#[test]
fn change_is_significant_beyond_the_threshold() {
    let goal = pt(10, 0, 10);
    assert!(significant_change(None, &goal, 5));
    assert!(significant_change(None, &goal, u32::MAX));
    assert!(!significant_change(Some(goal), &goal, 0));
    assert!(!significant_change(Some(pt(13, 0, 14)), &goal, 5));
    assert!(significant_change(Some(pt(13, 1, 14)), &goal, 5));
    assert!(significant_change(Some(pt(10, 0, 11)), &goal, 0));
    assert!(significant_change(
        Some(pt(i32::MIN, i32::MIN, i32::MIN)),
        &pt(i32::MAX, i32::MAX, i32::MAX),
        u32::MAX
    ));
    assert!(!significant_change(Some(pt(i32::MIN, 0, 0)), &pt(i32::MAX, 0, 0), u32::MAX));
}

fn every_route(
    so_far: &mut Vec<Point>,
    waypoints: &[Point],
    goal: Point,
    obstacles: &[Polygon],
    found: &mut Vec<Vec<Point>>,
) {
    let last = so_far[so_far.len() - 1];
    if line_of_sight(&last, &goal, obstacles) {
        let mut route = so_far.clone();
        route.push(goal);
        found.push(route);
    }
    for next in waypoints {
        if !so_far.contains(next) && line_of_sight(&last, next, obstacles) {
            so_far.push(*next);
            every_route(so_far, waypoints, goal, obstacles, found);
            so_far.pop();
        }
    }
}

#[test]
fn no_other_route_is_shorter_than_the_one_found() {
    let obstacles = vec![square(), rectangle(4, -2, 6, 1)];
    let mut mesh = mesh_of(&obstacles);
    let ends = vec![
        (pt(-3, 0, 0), pt(3, 0, 0)),
        (pt(-3, 0, 0), pt(8, 0, 0)),
        (pt(-3, 0, 0), pt(8, 0, -1)),
        (pt(0, 0, -5), pt(5, 0, 4)),
        (pt(-1, 0, -1), pt(6, 0, 1)),
    ];
    for (start, goal) in ends {
        let path = theta_star(&mut mesh, start, goal, &obstacles);
        assert!(!path.is_empty());
        let mut routes = Vec::new();
        every_route(&mut vec![start], &mesh.vertices, goal, &obstacles, &mut routes);
        assert!(routes.contains(&path));
        let shortest = routes.iter().map(path_length_of).min().unwrap();
        assert_eq!(path_length_of(&path), shortest);
    }
}
