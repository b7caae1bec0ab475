use theta_nav::utils::{
    direction, do_lines_intersect, does_line_intersect_polygon,
    line_intersects_polygon_with_vertex_check, on_segment, Point, Polygon,
};

fn pt(x: i32, y: i32, z: i32) -> Point {
    Point { x, y, z }
}

fn square() -> Polygon {
    let mut polygon = Polygon::new();
    polygon.add_vertex(-1, 0, -1);
    polygon.add_vertex(-1, 0, 1);
    polygon.add_vertex(1, 0, 1);
    polygon.add_vertex(1, 0, -1);
    polygon
}

#[test]
fn points_are_equal_by_all_three_coordinates() {
    assert_eq!(pt(1, 2, 3), pt(1, 2, 3));
    assert_ne!(pt(1, 2, 3), pt(1, 2, 4));
    assert_ne!(pt(1, 2, 3), pt(1, 0, 3));
    assert_ne!(pt(1, 2, 3), pt(0, 2, 3));
    let copy = pt(5, 6, 7).clone();
    assert_eq!(copy, pt(5, 6, 7));
}

#[test]
fn polygon_keeps_corners_in_order() {
    let mut polygon = Polygon::new();
    assert!(polygon.vertices.is_empty());
    polygon.add_vertex(1, 2, 3);
    polygon.add_vertex(4, 5, 6);
    assert_eq!(polygon.vertices, vec![pt(1, 2, 3), pt(4, 5, 6)]);
}

#[test]
fn direction_is_the_planar_cross_product() {
    assert_eq!(direction(&pt(0, 0, 0), &pt(1, 0, 0), &pt(0, 0, 1)), 1);
    assert_eq!(direction(&pt(0, 0, 0), &pt(1, 0, 0), &pt(0, 0, -1)), -1);
    assert_eq!(direction(&pt(0, 0, 0), &pt(2, 0, 2), &pt(5, 0, 5)), 0);
    assert_eq!(direction(&pt(1, 9, 1), &pt(4, -3, 2), &pt(3, 7, 5)), 3 * 4 - 1 * 2);
    // the height takes no part
    assert_eq!(
        direction(&pt(1, 0, 1), &pt(4, 0, 2), &pt(3, 0, 5)),
        direction(&pt(1, 50, 1), &pt(4, -50, 2), &pt(3, 1000, 5))
    );
}

#[test]
fn direction_changes_sign_with_the_line() {
    let (p, q, r) = (pt(-3, 0, 2), pt(7, 0, -1), pt(4, 0, 9));
    assert_eq!(direction(&q, &p, &r), -direction(&p, &q, &r));
}

#[test]
fn direction_holds_the_widest_coordinates() {
    let p = pt(i32::MIN, 0, i32::MIN);
    let q = pt(i32::MAX, 0, i32::MIN);
    let r = pt(i32::MIN, 0, i32::MAX);
    let span = i32::MAX as i128 - i32::MIN as i128;
    assert_eq!(direction(&p, &q, &r), span * span);
    assert_eq!(direction(&p, &r, &q), -(span * span));
}

#[test]
fn on_segment_is_the_bounding_box() {
    let (p, q) = (pt(0, 0, 0), pt(4, 0, 2));
    assert!(on_segment(&p, &q, &pt(2, 0, 1)));
    assert!(on_segment(&q, &p, &pt(2, 0, 1)));
    assert!(on_segment(&p, &q, &pt(0, 0, 0)));
    assert!(on_segment(&p, &q, &pt(4, 0, 2)));
    // inside the box though not on the line
    assert!(on_segment(&p, &q, &pt(1, 0, 2)));
    assert!(!on_segment(&p, &q, &pt(5, 0, 1)));
    assert!(!on_segment(&p, &q, &pt(2, 0, 3)));
    assert!(!on_segment(&p, &q, &pt(-1, 0, 1)));
    // the height takes no part
    assert!(on_segment(&p, &q, &pt(2, 77, 1)));
}

#[test]
fn segments_that_cross_intersect() {
    assert!(do_lines_intersect(&pt(0, 0, 0), &pt(2, 0, 2), &pt(0, 0, 2), &pt(2, 0, 0)));
    assert!(do_lines_intersect(&pt(0, 5, 0), &pt(2, -5, 2), &pt(0, 9, 2), &pt(2, 1, 0)));
}

#[test]
fn segments_apart_do_not_intersect() {
    assert!(!do_lines_intersect(&pt(0, 0, 0), &pt(2, 0, 0), &pt(0, 0, 1), &pt(2, 0, 1)));
    assert!(!do_lines_intersect(&pt(0, 0, 0), &pt(1, 0, 1), &pt(2, 0, 3), &pt(3, 0, 2)));
    // the lines cross, the segments do not
    assert!(!do_lines_intersect(&pt(0, 0, 0), &pt(1, 0, 0), &pt(3, 0, -1), &pt(3, 0, 1)));
}

#[test]
fn segments_that_touch_intersect() {
    // an end of one on the other
    assert!(do_lines_intersect(&pt(0, 0, 0), &pt(2, 0, 0), &pt(1, 0, 0), &pt(1, 0, 5)));
    // a shared end
    assert!(do_lines_intersect(&pt(0, 0, 0), &pt(2, 0, 0), &pt(2, 0, 0), &pt(4, 0, 3)));
    // collinear, overlapping
    assert!(do_lines_intersect(&pt(0, 0, 0), &pt(2, 0, 0), &pt(1, 0, 0), &pt(3, 0, 0)));
}

#[test]
fn collinear_segments_apart_do_not_intersect() {
    assert!(!do_lines_intersect(&pt(0, 0, 0), &pt(1, 0, 0), &pt(2, 0, 0), &pt(3, 0, 0)));
}

#[test]
fn intersection_does_not_depend_on_direction() {
    let cases = vec![
        (pt(0, 0, 0), pt(2, 0, 2), pt(0, 0, 2), pt(2, 0, 0)),
        (pt(0, 0, 0), pt(2, 0, 0), pt(0, 0, 1), pt(2, 0, 1)),
        (pt(0, 0, 0), pt(2, 0, 0), pt(1, 0, 0), pt(1, 0, 5)),
        (pt(0, 0, 0), pt(1, 0, 0), pt(2, 0, 0), pt(3, 0, 0)),
    ];
    for (p1, p2, q1, q2) in cases {
        let hit = do_lines_intersect(&p1, &p2, &q1, &q2);
        assert_eq!(do_lines_intersect(&p2, &p1, &q1, &q2), hit);
        assert_eq!(do_lines_intersect(&p1, &p2, &q2, &q1), hit);
        assert_eq!(do_lines_intersect(&q1, &q2, &p1, &p2), hit);
    }
}

#[test]
fn boundary_is_met_by_a_segment_through_the_square() {
    let polygon = square();
    assert!(does_line_intersect_polygon(&pt(-3, 0, 0), &pt(3, 0, 0), &polygon));
    assert!(does_line_intersect_polygon(&pt(-3, 0, 0), &pt(0, 0, 0), &polygon));
    // the wrap-around edge, from the last corner to the first
    assert!(does_line_intersect_polygon(&pt(0, 0, -3), &pt(0, 0, 0), &polygon));
}

#[test]
fn boundary_is_not_met_outside_or_inside() {
    let polygon = square();
    assert!(!does_line_intersect_polygon(&pt(-3, 0, 0), &pt(-2, 0, 5), &polygon));
    assert!(!does_line_intersect_polygon(&pt(-3, 0, 3), &pt(3, 0, 3), &polygon));
    // wholly inside
    let mut wide = Polygon::new();
    wide.add_vertex(-10, 0, -10);
    wide.add_vertex(-10, 0, 10);
    wide.add_vertex(10, 0, 10);
    wide.add_vertex(10, 0, -10);
    assert!(!does_line_intersect_polygon(&pt(-3, 0, 0), &pt(3, 0, 0), &wide));
}

#[test]
fn boundary_is_met_at_a_corner() {
    let polygon = square();
    assert!(does_line_intersect_polygon(&pt(-3, 0, -3), &pt(-1, 0, -1), &polygon));
    assert!(does_line_intersect_polygon(&pt(-1, 0, -1), &pt(-3, 0, -3), &polygon));
}

#[test]
fn polygon_without_corners_blocks_nothing() {
    let empty = Polygon::new();
    assert!(!does_line_intersect_polygon(&pt(-3, 0, 0), &pt(3, 0, 0), &empty));
    assert!(!line_intersects_polygon_with_vertex_check(&pt(-3, 0, 0), &pt(3, 0, 0), &empty));
}

#[test]
fn diagonal_between_corners_is_blocked() {
    let polygon = square();
    assert!(line_intersects_polygon_with_vertex_check(&pt(-1, 0, -1), &pt(1, 0, 1), &polygon));
    assert!(line_intersects_polygon_with_vertex_check(&pt(1, 0, 1), &pt(-1, 0, -1), &polygon));
    assert!(line_intersects_polygon_with_vertex_check(&pt(-1, 0, 1), &pt(1, 0, -1), &polygon));
}

#[test]
fn edge_between_neighbouring_corners_is_free() {
    let polygon = square();
    assert!(!line_intersects_polygon_with_vertex_check(&pt(-1, 0, -1), &pt(-1, 0, 1), &polygon));
    assert!(!line_intersects_polygon_with_vertex_check(&pt(-1, 0, 1), &pt(-1, 0, -1), &polygon));
    // the last corner and the first are neighbours
    assert!(!line_intersects_polygon_with_vertex_check(&pt(1, 0, -1), &pt(-1, 0, -1), &polygon));
    assert!(!line_intersects_polygon_with_vertex_check(&pt(-1, 0, -1), &pt(1, 0, -1), &polygon));
}

#[test]
fn from_a_point_on_an_edge_the_corners_of_that_edge_are_blocked() {
    let polygon = square();
    let on_edge = pt(-1, 0, 0);
    assert!(line_intersects_polygon_with_vertex_check(&on_edge, &pt(-1, 0, -1), &polygon));
    assert!(line_intersects_polygon_with_vertex_check(&on_edge, &pt(-1, 0, 1), &polygon));
}

#[test]
fn from_a_point_on_an_edge_the_other_corners_are_seen() {
    let polygon = square();
    let on_edge = pt(-1, 0, 0);
    assert!(!line_intersects_polygon_with_vertex_check(&on_edge, &pt(1, 0, 1), &polygon));
    assert!(!line_intersects_polygon_with_vertex_check(&on_edge, &pt(1, 0, -1), &polygon));
}

#[test]
fn point_in_the_box_of_a_slanted_edge_is_not_on_it() {
    let mut diamond = Polygon::new();
    diamond.add_vertex(0, 0, -4);
    diamond.add_vertex(-4, 0, 0);
    diamond.add_vertex(0, 0, 4);
    diamond.add_vertex(4, 0, 0);
    // (-3, -3) lies in the bounding box of the first edge but off the edge,
    // outside the diamond: the corner on the far side of that edge is judged
    // by the edges on the way, and none is
    assert!(!line_intersects_polygon_with_vertex_check(&pt(-3, 0, -3), &pt(0, 0, -4), &diamond));
    // (-2, -2) lies on the first edge
    assert!(line_intersects_polygon_with_vertex_check(&pt(-2, 0, -2), &pt(0, 0, -4), &diamond));
    assert!(!line_intersects_polygon_with_vertex_check(&pt(-2, 0, -2), &pt(0, 0, 4), &diamond));
}

#[test]
fn segment_from_a_corner_skips_the_edges_at_that_corner() {
    let polygon = square();
    // away from the square
    assert!(!line_intersects_polygon_with_vertex_check(&pt(-1, 0, -1), &pt(-3, 0, 0), &polygon));
    assert!(!line_intersects_polygon_with_vertex_check(&pt(-3, 0, 0), &pt(-1, 0, -1), &polygon));
    // through the square and out on the far side
    assert!(line_intersects_polygon_with_vertex_check(&pt(-1, 0, -1), &pt(3, 0, 0), &polygon));
    assert!(line_intersects_polygon_with_vertex_check(&pt(3, 0, 0), &pt(-1, 0, -1), &polygon));
}

#[test]
fn segment_between_outside_points_is_judged_by_every_edge() {
    let polygon = square();
    assert!(line_intersects_polygon_with_vertex_check(&pt(-3, 0, 0), &pt(3, 0, 0), &polygon));
    assert!(!line_intersects_polygon_with_vertex_check(&pt(-3, 0, 3), &pt(3, 0, 3), &polygon));
    assert!(line_intersects_polygon_with_vertex_check(&pt(-3, 0, 0), &pt(0, 0, 0), &polygon));
}

#[test]
fn repeated_corner_counts_at_its_last_place() {
    // corners: a, b, c, a, d. The last place of `a` is 3, next to c and d.
    let (a, b, c, d) = (pt(0, 0, 0), pt(0, 0, 5), pt(5, 0, 5), pt(5, 0, 0));
    let mut polygon = Polygon::new();
    for p in [a, b, c, a, d] {
        polygon.add_vertex(p.x, p.y, p.z);
    }
    // a (place 3) and b (place 1) are not neighbours
    assert!(line_intersects_polygon_with_vertex_check(&a, &b, &polygon));
    assert!(line_intersects_polygon_with_vertex_check(&b, &a, &polygon));
}

fn polygon_of(corners: &[(i32, i32)]) -> Polygon {
    let mut polygon = Polygon::new();
    for (x, z) in corners {
        polygon.add_vertex(*x, 0, *z);
    }
    polygon
}

#[test]
fn squares_and_triangles_are_well_formed() {
    assert!(square().is_well_formed());
    assert!(polygon_of(&[(0, 0), (0, 4), (3, 0)]).is_well_formed());
    assert!(polygon_of(&[(0, -4), (-4, 0), (0, 4), (4, 0)]).is_well_formed());
    // not convex, yet it does not cross itself
    assert!(polygon_of(&[(0, 0), (0, 4), (2, 1), (4, 4), (4, 0)]).is_well_formed());
}

#[test]
fn polygons_with_too_few_corners_are_not_well_formed() {
    assert!(!Polygon::new().is_well_formed());
    assert!(!polygon_of(&[(0, 0)]).is_well_formed());
    assert!(!polygon_of(&[(0, 0), (1, 1)]).is_well_formed());
}

#[test]
fn polygons_without_area_are_not_well_formed() {
    assert!(!polygon_of(&[(0, 0), (1, 1), (2, 2)]).is_well_formed());
    assert!(!polygon_of(&[(0, 0), (2, 0), (4, 0), (6, 0)]).is_well_formed());
    assert!(!polygon_of(&[(0, 0), (0, 0), (0, 0)]).is_well_formed());
    // a corner in the middle of a side
    assert!(!polygon_of(&[(0, 0), (0, 2), (0, 4), (4, 4), (4, 0)]).is_well_formed());
    // the same corner twice running
    assert!(!polygon_of(&[(0, 0), (0, 4), (0, 4), (4, 0)]).is_well_formed());
}

#[test]
fn polygons_that_cross_themselves_are_not_well_formed() {
    // a bow tie
    assert!(!polygon_of(&[(0, 0), (4, 4), (4, 0), (0, 4)]).is_well_formed());
    // a corner that touches a side further on
    assert!(!polygon_of(&[(0, 0), (0, 4), (4, 4), (2, 2), (4, 0), (2, 4)]).is_well_formed());
    // a corner visited twice
    assert!(!polygon_of(&[(0, 0), (0, 4), (2, 2), (4, 4), (4, 0), (2, 2)]).is_well_formed());
}
