use theta_nav::obstacles::{generate_cuboid_polygon, ObstaclePolygons};
use theta_nav::open_list::{Node, OpenList};
use theta_nav::pathfinding::{distinct_points, position, NavMesh};
use theta_nav::utils::{Point, Polygon};

fn pt(x: i32, y: i32, z: i32) -> Point {
    Point { x, y, z }
}

#[test]
fn mesh_starts_empty_and_keeps_what_is_added() {
    let mut mesh = NavMesh::new();
    assert!(mesh.vertices.is_empty());
    mesh.add_vertex(pt(1, 0, 1));
    mesh.add_vertex(pt(2, 0, 2));
    mesh.add_vertex(pt(1, 0, 1));
    assert_eq!(mesh.vertices, vec![pt(1, 0, 1), pt(2, 0, 2), pt(1, 0, 1)]);
    assert!(mesh.contains(&pt(2, 0, 2)));
    assert!(!mesh.contains(&pt(2, 1, 2)));
}

#[test]
fn remove_vertex_takes_out_every_occurrence() {
    let mut mesh = NavMesh::new();
    for p in [pt(1, 0, 1), pt(2, 0, 2), pt(1, 0, 1), pt(3, 0, 3), pt(1, 0, 1)] {
        mesh.add_vertex(p);
    }
    mesh.remove_vertex(&pt(1, 0, 1));
    assert_eq!(mesh.vertices, vec![pt(2, 0, 2), pt(3, 0, 3)]);
}

#[test]
fn remove_vertex_of_an_absent_point_changes_nothing() {
    let mut mesh = NavMesh::new();
    mesh.add_vertex(pt(1, 0, 1));
    mesh.add_vertex(pt(2, 0, 2));
    mesh.remove_vertex(&pt(9, 9, 9));
    assert_eq!(mesh.vertices, vec![pt(1, 0, 1), pt(2, 0, 2)]);
    let mut empty = NavMesh::new();
    empty.remove_vertex(&pt(0, 0, 0));
    assert!(empty.vertices.is_empty());
}

#[test]
fn position_is_the_first_place() {
    let points = vec![pt(1, 0, 1), pt(2, 0, 2), pt(1, 0, 1)];
    assert_eq!(position(&points, &pt(1, 0, 1)), Some(0));
    assert_eq!(position(&points, &pt(2, 0, 2)), Some(1));
    assert_eq!(position(&points, &pt(3, 0, 3)), None);
}

#[test]
fn distinct_points_keeps_first_occurrences() {
    let points = vec![pt(1, 0, 1), pt(2, 0, 2), pt(1, 0, 1), pt(3, 0, 3), pt(2, 0, 2)];
    assert_eq!(distinct_points(&points), vec![pt(1, 0, 1), pt(2, 0, 2), pt(3, 0, 3)]);
    assert!(distinct_points(&Vec::new()).is_empty());
}

#[test]
fn open_list_hands_out_lowest_score_first() {
    let mut open = OpenList::new();
    assert!(open.is_empty());
    assert!(open.pop().is_none());
    open.push(Node { vertex: 0, g_score: 1, f_score: 30 });
    open.push(Node { vertex: 1, g_score: 2, f_score: 10 });
    open.push(Node { vertex: 2, g_score: 3, f_score: 20 });
    assert_eq!(open.len(), 3);
    assert_eq!(open.pop().unwrap().vertex, 1);
    assert_eq!(open.pop().unwrap().vertex, 2);
    assert_eq!(open.pop().unwrap().vertex, 0);
    assert!(open.pop().is_none());
    assert!(open.is_empty());
}

#[test]
fn open_list_breaks_ties_by_order_of_arrival() {
    let mut open = OpenList::new();
    open.push(Node { vertex: 7, g_score: 9, f_score: 5 });
    open.push(Node { vertex: 8, g_score: 1, f_score: 5 });
    open.push(Node { vertex: 9, g_score: 4, f_score: 5 });
    open.push(Node { vertex: 3, g_score: 0, f_score: 4 });
    let order: Vec<usize> = (0..4).map(|_| open.pop().unwrap().vertex).collect();
    assert_eq!(order, vec![3, 7, 8, 9]);
}

#[test]
fn open_list_keeps_the_scores_of_a_node() {
    let mut open = OpenList::new();
    open.push(Node { vertex: 4, g_score: 11, f_score: 17 });
    let node = open.pop().unwrap();
    assert_eq!((node.vertex, node.g_score, node.f_score), (4, 11, 17));
}

#[test]
fn obstacles_give_their_corners_to_the_mesh() {
    let mut obstacles = ObstaclePolygons::new();
    assert!(obstacles.polygons.is_empty());
    assert!(obstacles.corner_points().is_empty());
    let mut first = Polygon::new();
    first.add_vertex(0, 0, 0);
    first.add_vertex(0, 0, 1);
    first.add_vertex(1, 0, 1);
    let mut second = Polygon::new();
    second.add_vertex(5, 0, 5);
    second.add_vertex(6, 0, 6);
    obstacles.add_polygon(first);
    obstacles.add_polygon(Polygon::new());
    obstacles.add_polygon(second);
    assert_eq!(obstacles.polygons.len(), 3);
    let expected = vec![pt(0, 0, 0), pt(0, 0, 1), pt(1, 0, 1), pt(5, 0, 5), pt(6, 0, 6)];
    assert_eq!(obstacles.corner_points(), expected);
    assert_eq!(obstacles.build_mesh().vertices, expected);
}

#[test]
fn cuboid_footprint_is_widened_and_counter_clockwise() {
    let polygon = generate_cuboid_polygon(20, 8, 40, 5);
    assert_eq!(
        polygon.vertices,
        vec![pt(-15, -4, -25), pt(-15, -4, 25), pt(15, -4, 25), pt(15, -4, -25)]
    );
    // an odd size is halved downwards
    let odd = generate_cuboid_polygon(7, 3, 9, 2);
    assert_eq!(odd.vertices, vec![pt(-5, -1, -6), pt(-5, -1, 6), pt(5, -1, 6), pt(5, -1, -6)]);
    let flat = generate_cuboid_polygon(0, 0, 0, 0);
    assert_eq!(flat.vertices, vec![pt(0, 0, 0); 4]);
    let wide = generate_cuboid_polygon(i32::MAX, 0, 6, 1 << 30);
    assert_eq!(wide.vertices[0], pt(-i32::MAX, 0, -(3 + (1 << 30))));
    assert_eq!(wide.vertices[2], pt(i32::MAX, 0, 3 + (1 << 30)));
}

#[test]
fn only_well_formed_footprints_are_added_on_request() {
    let mut obstacles = ObstaclePolygons::new();
    let mut triangle = Polygon::new();
    triangle.add_vertex(0, 0, 0);
    triangle.add_vertex(0, 0, 4);
    triangle.add_vertex(3, 0, 0);
    let mut line = Polygon::new();
    line.add_vertex(0, 0, 0);
    line.add_vertex(1, 0, 1);
    line.add_vertex(2, 0, 2);
    assert!(obstacles.add_well_formed(triangle.clone()));
    assert!(!obstacles.add_well_formed(line.clone()));
    assert!(!obstacles.add_well_formed(Polygon::new()));
    assert_eq!(obstacles.polygons.len(), 1);
    assert_eq!(obstacles.polygons[0].vertices, triangle.vertices);
    // without the request anything is added
    obstacles.add_polygon(line);
    assert_eq!(obstacles.polygons.len(), 2);
}
