use eerea::map::Grid;
use eerea::robot::{Behavior, Module, Robot, RECHARGE};
use eerea::tile::{Resource, Tile, TileContent};
use noise::{NoiseFn, Perlin};

fn relief(width: usize, height: usize) -> Vec<Vec<bool>> {
    let perlin = Perlin::new(8);
    (0..height)
        .map(|y| {
            (0..width)
                .map(|x| perlin.get([x as f64 / 15.0, y as f64 / 12.0]) > 0.5)
                .collect()
        })
        .collect()
}

fn world(width: usize, height: usize, seed: u64) -> Grid {
    Grid::new(width, height, seed, &relief(width, height))
}

/// A walled grid whose interior is empty.
fn open_room(width: usize, height: usize) -> Grid {
    let mut tiles = vec![vec![Tile::new(false, TileContent::Empty); width]; height];
    for y in 0..height {
        for x in 0..width {
            if x == 0 || y == 0 || x == width - 1 || y == height - 1 {
                tiles[y][x].content = TileContent::Obstacle;
            }
        }
    }
    Grid { width, height, tiles }
}

fn explored_count(map: &Grid) -> usize {
    map.tiles.iter().flatten().filter(|t| t.explored).count()
}

#[test]
fn test_robot_creation() {
    let robot = Robot::new(1, (0, 0), 100, Module::Analysis, Behavior::Exploration);
    assert_eq!(robot.id, 1);
    assert_eq!(robot.position, (0, 0));
    assert_eq!(robot.energy, 100);
}

#[test]
fn test_robot_exploration() {
    let mut map = world(10, 10, 1);
    let mut robot = Robot::new(1, (1, 1), 100, Module::Analysis, Behavior::Exploration);
    robot.perform_action(&mut map, (0, 0), 1);
    assert!(robot.energy < 100);
    assert!(map.tile_at(robot.position.0, robot.position.1).unwrap().explored);
}

#[test]
fn test_robot_move_towards_goal() {
    let map = world(10, 10, 1);
    let mut robot = Robot::new(1, (1, 1), 100, Module::Mining, Behavior::ResourceCollection);
    let goal = (3, 3);
    robot.move_towards_goal(&map, goal);
    assert_ne!(robot.position, (1, 1));
}

#[test]
fn test_robot_mark_tile_as_known() {
    let mut robot = Robot::new(1, (0, 0), 100, Module::Analysis, Behavior::Exploration);
    robot.mark_tile_as_known(2, 2);
    assert!(robot.known_tiles.contains(&(2, 2)));
}

#[test]
fn known_tiles_are_recorded_once() {
    let mut robot = Robot::new(1, (0, 0), 100, Module::Analysis, Behavior::Exploration);
    robot.mark_tile_as_known(2, 2);
    robot.mark_tile_as_known(3, 2);
    robot.mark_tile_as_known(2, 2);
    assert_eq!(robot.known_tiles, vec![(2, 2), (3, 2)]);
    assert!(robot.knows((3, 2)));
    assert!(!robot.knows((2, 3)));
}

#[test]
fn step_towards_follows_the_route() {
    let map = open_room(6, 6);
    let mut robot = Robot::new(1, (1, 1), 10, Module::Imaging, Behavior::Exploration);
    robot.step_towards(&map, (1, 4), &vec![0, 1, 2, 3]);
    assert_eq!(robot.position, (1, 2));
    robot.step_towards(&map, (1, 2), &vec![0, 1, 2, 3]);
    assert_eq!(robot.position, (1, 2));
}

#[test]
fn random_step_takes_first_open_direction() {
    let map = open_room(5, 5);
    let mut robot = Robot::new(1, (1, 1), 10, Module::Imaging, Behavior::Exploration);
    // Up and left are walls; right is the first open one.
    robot.move_randomly(&map, &vec![2, 3, 1, 0]);
    assert_eq!(robot.position, (2, 1));
}

#[test]
fn boxed_in_robot_does_not_move() {
    let mut map = open_room(5, 5);
    for (x, y) in [(2, 1), (1, 2), (3, 2), (2, 3)] {
        map.tiles[y][x].content = TileContent::Obstacle;
    }
    let mut robot = Robot::new(1, (2, 2), 10, Module::Imaging, Behavior::Exploration);
    robot.move_randomly(&map, &vec![0, 1, 2, 3]);
    assert_eq!(robot.position, (2, 2));
    robot.move_towards_goal(&map, (1, 1));
    assert_eq!(robot.position, (2, 2));
}

#[test]
fn investigate_heads_for_first_place_of_interest() {
    let mut map = open_room(7, 7);
    map.throw_resource_at(5, 4, Resource::PlaceOfInterest);
    map.throw_resource_at(2, 5, Resource::PlaceOfInterest);
    let robot = Robot::new(1, (1, 1), 10, Module::Imaging, Behavior::ScientificInterest);
    assert_eq!(robot.find_point_of_interest(&map), (5, 4));
    let plain = open_room(7, 7);
    assert_eq!(robot.find_point_of_interest(&plain), (1, 1));
}

#[test]
fn find_resource_skips_known_tiles() {
    let mut map = open_room(6, 6);
    map.throw_resource_at(2, 1, Resource::Ore);
    map.throw_resource_at(1, 3, Resource::Energy);
    let mut robot = Robot::new(1, (1, 1), 10, Module::Mining, Behavior::ResourceCollection);
    assert_eq!(robot.find_resource(&map), Some((2, 1)));
    robot.mark_tile_as_known(2, 1);
    assert_eq!(robot.find_resource(&map), Some((1, 3)));
    robot.mark_tile_as_known(1, 3);
    assert_eq!(robot.find_resource(&map), None);
}

#[test]
fn collecting_miner_takes_resource_then_steps() {
    let mut map = open_room(6, 6);
    map.throw_resource_at(2, 2, Resource::Ore);
    let mut robot = Robot::new(1, (2, 2), 5, Module::Mining, Behavior::ResourceCollection);
    robot.act(&mut map, (1, 1), 1, (2, 2), &vec![0, 1, 2, 3]);
    assert_eq!(map.tiles[2][2].content, TileContent::Empty);
    assert_eq!(robot.position, (2, 3));
    assert_eq!(robot.energy, 4);
}

#[test]
fn collecting_without_mining_module_leaves_resource() {
    let mut map = open_room(6, 6);
    map.throw_resource_at(2, 2, Resource::Ore);
    let mut robot = Robot::new(1, (2, 2), 5, Module::Analysis, Behavior::ResourceCollection);
    robot.act(&mut map, (1, 1), 1, (2, 2), &vec![1, 0, 2, 3]);
    assert_eq!(map.tiles[2][2].content, TileContent::Resource(Resource::Ore));
    assert_eq!(robot.position, (3, 2));
}

#[test]
fn exploring_marks_new_cell() {
    let mut map = open_room(6, 6);
    let mut robot = Robot::new(1, (1, 1), 5, Module::Imaging, Behavior::Exploration);
    robot.act(&mut map, (4, 4), 7, (4, 1), &vec![0, 1, 2, 3]);
    assert_eq!(robot.position, (2, 1));
    assert!(map.tiles[1][2].explored);
    assert_eq!(map.tiles[1][2].timestamp, 7);
    assert_eq!(robot.known_tiles, vec![(2, 1)]);
    assert_eq!(robot.energy, 4);
}

#[test]
fn energy_runs_out_then_robot_returns_and_recharges() {
    let mut map = open_room(8, 8);
    let station = (1, 1);
    let mut robot = Robot::new(1, (4, 4), 1, Module::Imaging, Behavior::Exploration);
    robot.perform_action(&mut map, station, 1);
    assert_eq!(robot.energy, 0);
    let explored = explored_count(&map);
    let known = robot.known_tiles.clone();
    let mut turns = 0;
    while robot.position != station {
        let before = robot.position;
        robot.perform_action(&mut map, station, 2 + turns);
        let (dx, dy) = (
            (robot.position.0 as i64 - before.0 as i64).abs(),
            (robot.position.1 as i64 - before.1 as i64).abs(),
        );
        assert_eq!(dx + dy, 1);
        assert_eq!(explored_count(&map), explored);
        assert_eq!(robot.known_tiles, known);
        if robot.position != station {
            assert_eq!(robot.energy, 0);
        }
        turns += 1;
        assert!(turns < 20);
    }
    assert_eq!(robot.energy, RECHARGE);
    assert_eq!(RECHARGE, 80);
}

#[test]
fn random_goal_is_passable() {
    let map = world(12, 12, 3);
    let robot = Robot::new(1, (1, 1), 5, Module::Imaging, Behavior::Exploration);
    for _ in 0..50 {
        let (x, y) = robot.find_random_goal(&map);
        assert!(map.is_passable(x, y));
    }
}

#[test]
fn refill_sets_recharge_value() {
    let mut robot = Robot::new(1, (1, 1), 3, Module::Imaging, Behavior::Exploration);
    robot.refill_energy();
    assert_eq!(robot.energy, 80);
}

#[test]
fn role_robots_carry_their_equipment() {
    let c = eerea::roles::Collect::new(4, (2, 3));
    assert_eq!(c.robot.id, 4);
    assert_eq!(c.robot.position, (2, 3));
    assert_eq!(c.robot.module, Module::Mining);
    assert_eq!(c.robot.behavior, Behavior::ResourceCollection);
    let e = eerea::roles::ExploreRobot::new(5, (1, 1));
    assert_eq!(e.robot.module, Module::Imaging);
    assert_eq!(e.robot.behavior, Behavior::Exploration);
    assert_eq!(e.robot.energy, 100);
}
