use boids::drones::{alignment, cohesion, separation, spawn_drones, step, update_drone, update_drones};
use boids::{Drone, DroneData, GameConfig, Ratio, RuleConfig, SpatialHashMap2D, Vec2};

fn rule(radius: i32, num: i32, den: i32) -> RuleConfig {
    RuleConfig::new(radius, Ratio::new(num, den))
}

fn map_of(entries: &[DroneData]) -> SpatialHashMap2D<DroneData> {
    let mut map = SpatialHashMap2D::new(10);
    for e in entries {
        map.add(e.1, *e);
    }
    map
}

fn entry(id: u64, x: i32, y: i32) -> DroneData {
    (id, Vec2::new(x, y), Vec2::new(0, 0))
}

fn settings(max_speed: i32, cohesion: RuleConfig, separation: RuleConfig, alignment: RuleConfig) -> GameConfig {
    GameConfig {
        drone_count: 2,
        spatial_map_cell_size: 10,
        drone_max_speed: max_speed,
        cohesion_config: cohesion,
        separation_config: separation,
        alignment_config: alignment,
    }
}

#[test]
fn cohesion_toward_symmetric_neighbors_is_zero() {
    let map = map_of(&[entry(0, 0, 0), entry(1, 2, 0), entry(2, -2, 0)]);
    assert_eq!(cohesion(0, Vec2::new(0, 0), &map, &rule(5, 1, 1)), (0, 0));
}

#[test]
fn cohesion_pulls_toward_mean_position() {
    let map = map_of(&[entry(0, 0, 0), entry(1, 4, 2), entry(2, 2, 0)]);
    // Mean (3, 1), times 1/1.
    assert_eq!(cohesion(0, Vec2::new(0, 0), &map, &rule(5, 1, 1)), (3, 1));
    // Times 1/2, rounded down.
    assert_eq!(cohesion(0, Vec2::new(0, 0), &map, &rule(5, 1, 2)), (1, 0));
}

#[test]
fn separation_repels_from_single_neighbor() {
    let map = map_of(&[entry(0, 0, 0), entry(1, 1, 0)]);
    assert_eq!(separation(0, Vec2::new(0, 0), &map, &rule(5, 1, 1)), (-1, 0));
}

#[test]
fn separation_grows_with_neighbor_count() {
    let map = map_of(&[entry(0, 0, 0), entry(1, 1, 0), entry(2, 2, 0)]);
    assert_eq!(separation(0, Vec2::new(0, 0), &map, &rule(5, 1, 1)), (-3, 0));
    assert_eq!(separation(0, Vec2::new(0, 0), &map, &rule(5, 2, 1)), (-6, 0));
}

#[test]
fn alignment_matches_mean_velocity() {
    let map = map_of(&[
        (0, Vec2::new(0, 0), Vec2::new(9, 9)),
        (1, Vec2::new(1, 0), Vec2::new(2, 0)),
        (2, Vec2::new(0, 1), Vec2::new(4, 2)),
    ]);
    assert_eq!(alignment(0, Vec2::new(0, 0), &map, &rule(5, 1, 1)), (3, 1));
    assert_eq!(alignment(0, Vec2::new(0, 0), &map, &rule(5, 1, 2)), (1, 0));
}

#[test]
fn rules_ignore_neighbors_outside_radius() {
    let map = map_of(&[entry(0, 0, 0), entry(1, 6, 8)]);
    let r = rule(9, 1, 1);
    assert_eq!(cohesion(0, Vec2::new(0, 0), &map, &r), (0, 0));
    assert_eq!(separation(0, Vec2::new(0, 0), &map, &r), (0, 0));
    let r = rule(10, 1, 1);
    assert_eq!(cohesion(0, Vec2::new(0, 0), &map, &r), (6, 8));
    assert_eq!(separation(0, Vec2::new(0, 0), &map, &r), (-6, -8));
}

#[test]
fn radius_zero_gives_no_force() {
    let map = map_of(&[entry(0, 0, 0), entry(1, 1, 0), entry(2, 0, 1)]);
    let r = rule(0, 1, 1);
    assert_eq!(cohesion(0, Vec2::new(0, 0), &map, &r), (0, 0));
    assert_eq!(separation(0, Vec2::new(0, 0), &map, &r), (0, 0));
    assert_eq!(alignment(0, Vec2::new(0, 0), &map, &r), (0, 0));
}

#[test]
fn radius_zero_counts_a_drone_at_the_same_position() {
    let map = map_of(&[entry(0, 0, 0), (1, Vec2::new(0, 0), Vec2::new(4, 0))]);
    assert_eq!(alignment(0, Vec2::new(0, 0), &map, &rule(0, 1, 1)), (4, 0));
}

#[test]
fn zero_velocity_keeps_heading() {
    let map = map_of(&[entry(0, 0, 0)]);
    let mut d = Drone::new(0, Vec2::new(0, 0), Vec2::new(0, 0));
    d.heading = Vec2::new(1, 0);
    let cfg = settings(10, rule(5, 1, 1), rule(5, 1, 1), rule(5, 1, 1));
    let next = update_drone(&map, d, &cfg, Ratio::new(1, 1));
    assert_eq!(next.velocity, Vec2::new(0, 0));
    assert_eq!(next.heading, Vec2::new(1, 0));
    assert_eq!(next.position, Vec2::new(0, 0));
}

#[test]
fn update_clamps_speed_and_moves() {
    let map = map_of(&[(0, Vec2::new(0, 0), Vec2::new(30, 40))]);
    let d = Drone::new(0, Vec2::new(0, 0), Vec2::new(30, 40));
    let cfg = settings(5, rule(5, 1, 1), rule(5, 1, 1), rule(5, 1, 1));
    let next = update_drone(&map, d, &cfg, Ratio::new(2, 1));
    assert_eq!(next.velocity, Vec2::new(3, 4));
    assert_eq!(next.heading, Vec2::new(3, 4));
    assert_eq!(next.position, Vec2::new(6, 8));
}

#[test]
fn update_holds_position_to_the_plane() {
    let map = map_of(&[(0, Vec2::new(i32::MAX, 0), Vec2::new(100, 0))]);
    let d = Drone::new(0, Vec2::new(i32::MAX, 0), Vec2::new(100, 0));
    let cfg = settings(100, rule(5, 1, 1), rule(5, 1, 1), rule(5, 1, 1));
    let next = update_drone(&map, d, &cfg, Ratio::new(1, 1));
    assert_eq!(next.position, Vec2::new(i32::MAX, 0));
}

#[test]
fn update_combines_all_three_rules() {
    let map = map_of(&[
        (0, Vec2::new(0, 0), Vec2::new(1, 0)),
        (1, Vec2::new(2, 0), Vec2::new(0, 2)),
    ]);
    let d = Drone::new(0, Vec2::new(0, 0), Vec2::new(1, 0));
    let cfg = settings(100, rule(5, 1, 1), rule(5, 1, 1), rule(5, 1, 1));
    // velocity (1, 0) + cohesion (2, 0) + separation (-2, 0) + alignment (0, 2).
    let next = update_drone(&map, d, &cfg, Ratio::new(1, 1));
    assert_eq!(next.velocity, Vec2::new(1, 2));
    assert_eq!(next.position, Vec2::new(1, 2));
}

#[test]
fn step_order_does_not_matter() {
    let a = Drone::new(1, Vec2::new(0, 0), Vec2::new(1, 0));
    let b = Drone::new(2, Vec2::new(3, 0), Vec2::new(0, 1));
    let cfg = settings(50, rule(5, 1, 2), rule(5, 1, 1), rule(5, 1, 1));
    let dt = Ratio::new(1, 1);
    let mut ab = vec![a, b];
    let mut map = SpatialHashMap2D::new(10);
    step(&mut ab, &mut map, &cfg, dt);
    let mut ba = vec![b, a];
    let mut map = SpatialHashMap2D::new(10);
    step(&mut ba, &mut map, &cfg, dt);
    assert_eq!(ab[0], ba[1]);
    assert_eq!(ab[1], ba[0]);
    assert_ne!(ab[0], a);
}

#[test]
fn step_uses_the_snapshot_of_the_frame() {
    let a = Drone::new(1, Vec2::new(0, 0), Vec2::new(0, 0));
    let b = Drone::new(2, Vec2::new(4, 0), Vec2::new(0, 0));
    let cfg = settings(50, rule(5, 1, 1), rule(0, 1, 1), rule(0, 1, 1));
    let mut drones = vec![a, b];
    let mut map = SpatialHashMap2D::new(10);
    step(&mut drones, &mut map, &cfg, Ratio::new(1, 1));
    // Each moves toward where the other was at the start of the frame.
    assert_eq!(drones[0].position, Vec2::new(4, 0));
    assert_eq!(drones[1].position, Vec2::new(0, 0));
    // The map holds the snapshot the frame started from.
    assert_eq!(map.neighbors(Vec2::new(0, 0)).len(), 2);
}

#[test]
fn update_drones_reads_only_the_given_map() {
    let a = Drone::new(1, Vec2::new(0, 0), Vec2::new(0, 0));
    let b = Drone::new(2, Vec2::new(4, 0), Vec2::new(0, 0));
    let mut map = SpatialHashMap2D::new(10);
    map.add(a.position, a.data());
    map.add(b.position, b.data());
    let cfg = settings(50, rule(5, 1, 1), rule(0, 1, 1), rule(0, 1, 1));
    let mut drones = vec![a, b];
    update_drones(&mut drones, &map, &cfg, Ratio::new(1, 1));
    assert_eq!(drones[0].velocity, Vec2::new(4, 0));
    assert_eq!(drones[1].velocity, Vec2::new(-4, 0));
}

#[test]
fn spawned_drones_lie_in_the_rectangle() {
    let velocities = vec![Vec2::new(1, 0), Vec2::new(0, 1), Vec2::new(-1, 0)];
    let drones = spawn_drones(&velocities, 100, 50);
    assert_eq!(drones.len(), 3);
    for (i, d) in drones.iter().enumerate() {
        assert_eq!(d.id, i as u64);
        assert_eq!(d.velocity, velocities[i]);
        assert_eq!(d.heading, velocities[i]);
        assert!(-100 <= d.position.x && d.position.x < 100);
        assert!(-50 <= d.position.y && d.position.y < 50);
    }
}

#[test]
fn config_validation() {
    let good = settings(10, rule(5, 1, 1), rule(5, 1, 1), rule(5, 1, 1));
    assert!(good.is_valid());
    let mut bad = good;
    bad.spatial_map_cell_size = 0;
    assert!(!bad.is_valid());
    let mut bad = good;
    bad.cohesion_config = rule(-1, 1, 1);
    assert!(!bad.is_valid());
    let mut bad = good;
    bad.alignment_config = rule(5, 1, 0);
    assert!(!bad.is_valid());
}

#[test]
fn separation_between_two_drones_is_equal_and_opposite() {
    let map = map_of(&[entry(1, 0, 0), entry(2, 1, 0)]);
    let half = rule(1, 1, 2);
    assert_eq!(separation(1, Vec2::new(0, 0), &map, &half), (0, 0));
    assert_eq!(separation(2, Vec2::new(1, 0), &map, &half), (0, 0));
    let more = rule(1, 3, 2);
    assert_eq!(separation(1, Vec2::new(0, 0), &map, &more), (-1, 0));
    assert_eq!(separation(2, Vec2::new(1, 0), &map, &more), (1, 0));
}

#[test]
fn mirrored_neighbors_give_mirrored_cohesion() {
    let left = map_of(&[entry(0, 0, 0), entry(1, -1, 0), entry(2, 0, 0)]);
    let right = map_of(&[entry(0, 0, 0), entry(1, 1, 0), entry(2, 0, 0)]);
    let r = rule(5, 1, 1);
    // Means -0.5 and 0.5 both round toward zero.
    assert_eq!(cohesion(0, Vec2::new(0, 0), &left, &r), (0, 0));
    assert_eq!(cohesion(0, Vec2::new(0, 0), &right, &r), (0, 0));
    let left = map_of(&[entry(0, 0, 0), entry(1, -3, 0), entry(2, 0, 0)]);
    let right = map_of(&[entry(0, 0, 0), entry(1, 3, 0), entry(2, 0, 0)]);
    assert_eq!(cohesion(0, Vec2::new(0, 0), &left, &r), (-1, 0));
    assert_eq!(cohesion(0, Vec2::new(0, 0), &right, &r), (1, 0));
}
