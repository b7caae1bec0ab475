use theta_nav::obstacles::{
    generate_cuboid_polygon, generate_cuboids, generate_from, GeneratorConfig, GeneratorError,
    ObstaclePolygons, Placement,
};
use theta_nav::pathfinding::{line_of_sight, theta_star};
use theta_nav::utils::{Point, Polygon};

fn reference() -> GeneratorConfig {
    GeneratorConfig {
        count: 120,
        min_scale: 512,
        max_scale: 2048,
        min_position: -40960,
        max_position: 40960,
        full_turn: 3600,
    }
}

fn within(config: &GeneratorConfig, placement: &Placement) -> bool {
    config.min_scale <= placement.scale_x
        && placement.scale_x <= config.max_scale
        && config.min_scale <= placement.scale_z
        && placement.scale_z <= config.max_scale
        && config.min_position <= placement.x
        && placement.x <= config.max_position
        && config.min_position <= placement.z
        && placement.z <= config.max_position
        && 0 <= placement.rotation
        && placement.rotation < config.full_turn
}

#[test]
fn generator_makes_as_many_as_asked_for_within_bounds() {
    let config = reference();
    let placements = generate_cuboids(&config, Some(7)).unwrap();
    assert_eq!(placements.len(), 120);
    for placement in &placements {
        assert!(within(&config, placement));
    }
    let unseeded = generate_cuboids(&config, None).unwrap();
    assert_eq!(unseeded.len(), 120);
    for placement in &unseeded {
        assert!(within(&config, placement));
    }
}

#[test]
fn generator_with_the_same_seed_gives_the_same_placements() {
    let config = reference();
    let first = generate_cuboids(&config, Some(2024)).unwrap();
    let second = generate_cuboids(&config, Some(2024)).unwrap();
    assert_eq!(first, second);
    let other = generate_cuboids(&config, Some(2025)).unwrap();
    assert_ne!(first, other);
}

#[test]
fn generator_does_not_stay_at_the_lower_bounds() {
    let config = reference();
    let placements = generate_cuboids(&config, Some(1)).unwrap();
    assert!(placements.iter().any(|p| p.scale_x != config.min_scale));
    assert!(placements.iter().any(|p| p.scale_z != config.min_scale));
    assert!(placements.iter().any(|p| p.x != config.min_position));
    assert!(placements.iter().any(|p| p.z != config.min_position));
    assert!(placements.iter().any(|p| p.rotation != 0));
    // nor at any one value
    let first = placements[0];
    assert!(placements.iter().any(|p| *p != first));
}

#[test]
fn generator_reaches_both_ends_of_a_range() {
    let config = GeneratorConfig {
        count: 200,
        min_scale: 1,
        max_scale: 2,
        min_position: -1,
        max_position: 0,
        full_turn: 2,
    };
    let placements = generate_cuboids(&config, Some(8)).unwrap();
    assert!(placements.iter().any(|p| p.scale_x == 1));
    assert!(placements.iter().any(|p| p.scale_x == 2));
    assert!(placements.iter().any(|p| p.z == -1));
    assert!(placements.iter().any(|p| p.z == 0));
    assert!(placements.iter().any(|p| p.rotation == 0));
    assert!(placements.iter().any(|p| p.rotation == 1));
    assert!(placements.iter().all(|p| p.rotation < 2));
}

#[test]
fn generator_with_a_range_of_one_gives_that_number() {
    let config = GeneratorConfig {
        count: 10,
        min_scale: 5,
        max_scale: 5,
        min_position: -3,
        max_position: -3,
        full_turn: 1,
    };
    let placements = generate_cuboids(&config, Some(99)).unwrap();
    let only = Placement { scale_x: 5, scale_z: 5, x: -3, z: -3, rotation: 0 };
    assert_eq!(placements, vec![only; 10]);
}

#[test]
fn generator_with_no_obstacles_gives_none() {
    let mut config = reference();
    config.count = 0;
    assert_eq!(generate_cuboids(&config, Some(3)), Ok(Vec::new()));
    assert_eq!(generate_cuboids(&config, None), Ok(Vec::new()));
}

#[test]
fn generator_refuses_an_empty_range() {
    let mut config = reference();
    config.max_scale = config.min_scale - 1;
    assert_eq!(generate_cuboids(&config, Some(3)), Err(GeneratorError::EmptyRange));
    let mut config = reference();
    config.min_position = 5;
    config.max_position = 4;
    assert_eq!(generate_cuboids(&config, None), Err(GeneratorError::EmptyRange));
    let mut config = reference();
    config.full_turn = 0;
    assert_eq!(generate_cuboids(&config, Some(3)), Err(GeneratorError::EmptyRange));
    let mut config = reference();
    config.full_turn = -1;
    config.count = 0;
    assert_eq!(generate_cuboids(&config, Some(3)), Err(GeneratorError::EmptyRange));
}

#[test]
fn generator_without_a_source_says_so() {
    let config = reference();
    let refused = || Err(rand::Error::new("no random bytes"));
    assert_eq!(generate_from(refused(), &config), Err(GeneratorError::NoEntropy));
    // an empty range comes first
    let mut empty = reference();
    empty.full_turn = 0;
    assert_eq!(generate_from(refused(), &empty), Err(GeneratorError::EmptyRange));
    // and no obstacles asked for is no excuse
    let mut none = reference();
    none.count = 0;
    assert_eq!(generate_from(refused(), &none), Err(GeneratorError::NoEntropy));
}

#[test]
fn generator_with_a_seed_does_not_depend_on_the_count() {
    let mut config = reference();
    let long = generate_cuboids(&config, Some(77)).unwrap();
    config.count = 40;
    let short = generate_cuboids(&config, Some(77)).unwrap();
    assert_eq!(short[..], long[..40]);
}

#[test]
fn generator_holds_the_widest_ranges() {
    let config = GeneratorConfig {
        count: 50,
        min_scale: i32::MIN,
        max_scale: i32::MAX,
        min_position: i32::MIN,
        max_position: i32::MAX,
        full_turn: i32::MAX,
    };
    let placements = generate_cuboids(&config, Some(5)).unwrap();
    assert_eq!(placements.len(), 50);
    for placement in &placements {
        assert!(within(&config, placement));
    }
}

#[test]
fn generated_level_is_searched_without_leaving_a_trace() {
    let config = GeneratorConfig {
        count: 30,
        min_scale: 512,
        max_scale: 2048,
        min_position: -20480,
        max_position: 20480,
        full_turn: 4,
    };
    let placements = generate_cuboids(&config, Some(11)).unwrap();
    let mut obstacles = ObstaclePolygons::new();
    for placement in &placements {
        // quarter turns keep the corners on the grid
        let (size_x, size_z) = if placement.rotation % 2 == 0 {
            (placement.scale_x, placement.scale_z)
        } else {
            (placement.scale_z, placement.scale_x)
        };
        let footprint = generate_cuboid_polygon(size_x, 1024, size_z, 512);
        let mut polygon = Polygon::new();
        for corner in &footprint.vertices {
            polygon.add_vertex(corner.x + placement.x, 0, corner.z + placement.z);
        }
        assert!(polygon.is_well_formed());
        obstacles.add_polygon(polygon);
    }
    let mut mesh = obstacles.build_mesh();
    assert_eq!(mesh.vertices.len(), 120);
    let before = mesh.vertices.clone();

    let ends = generate_cuboids(&config, Some(12)).unwrap();
    let mut found = 0;
    for pair in ends.chunks(2).take(10) {
        let start = Point { x: pair[0].x, y: 0, z: pair[0].z };
        let goal = Point { x: pair[1].x, y: 0, z: pair[1].z };
        let path = theta_star(&mut mesh, start, goal, &obstacles.polygons);
        assert_eq!(mesh.vertices, before);
        if path.is_empty() {
            assert!(!line_of_sight(&start, &goal, &obstacles.polygons));
            continue;
        }
        found += 1;
        assert_eq!(path[0], start);
        assert_eq!(path[path.len() - 1], goal);
        for step in path.windows(2) {
            assert!(line_of_sight(&step[0], &step[1], &obstacles.polygons));
        }
        for between in &path[1..path.len() - 1] {
            assert!(before.contains(between));
        }
        if line_of_sight(&start, &goal, &obstacles.polygons) {
            assert_eq!(path, vec![start, goal]);
        }
        // the same request gives the same way
        assert_eq!(theta_star(&mut mesh, start, goal, &obstacles.polygons), path);
    }
    assert!(found > 0);
}
