use eerea::map::Grid;
use eerea::robot::{Behavior, Module, Robot};
use eerea::station::{KnownTile, Station, StationError};
use noise::{NoiseFn, Perlin};

fn relief(width: usize, height: usize) -> Vec<Vec<bool>> {
    let perlin = Perlin::new(8);
    (0..height)
        .map(|y| {
            (0..width)
                .map(|x| perlin.get([x as f64 / 15.0, y as f64 / 12.0]) > 0.5)
                .collect()
        })
        .collect()
}

fn world(width: usize, height: usize, seed: u64) -> Grid {
    Grid::new(width, height, seed, &relief(width, height))
}

fn time_of(station: &Station, x: usize, y: usize) -> Option<u64> {
    station.known_tiles.iter().find(|t| t.x == x && t.y == y).map(|t| t.timestamp)
}

#[test]
fn test_station_initialization() {
    let station = Station::new((5, 5));
    assert_eq!(station.position, (5, 5));
    assert_eq!(station.energy, 0);
    assert!(station.robots.is_empty());
    assert!(station.known_tiles.is_empty());
}

#[test]
fn test_station_collect_data() {
    let mut map = world(10, 10, 1);
    let mut robot = Robot::new(1, (1, 1), 100, Module::Analysis, Behavior::Exploration);
    robot.mark_explored(&mut map, 1);
    let mut station = Station::new((5, 5));
    station.collect_data(&robot, &map);
    assert!(station.known_tiles.iter().any(|t| t.x == 1 && t.y == 1));
}

#[test]
fn test_station_create_robot() {
    let mut station = Station::new((5, 5));
    let robot = station.create_robot(1, (5, 5), Module::Mining, Behavior::ResourceCollection);
    assert_eq!(robot.id, 1);
    assert_eq!(robot.position, (5, 5));
    assert_eq!(robot.energy, 100);
    assert_eq!(station.robots.len(), 1);
}

#[test]
fn test_station_add_energy() {
    let mut station = Station::new((5, 5));
    station.add_energy(50);
    assert_eq!(station.energy, 50);
}

#[test]
fn merging_a_report_twice_changes_nothing() {
    let mut station = Station::new((1, 1));
    station.merge_knowledge(&vec![(2, 3, 7), (4, 4, 2)]);
    let first = station.known_tiles.clone();
    station.merge_knowledge(&vec![(2, 3, 7), (4, 4, 2)]);
    assert_eq!(station.known_tiles, first);
    assert_eq!(first, vec![KnownTile { x: 2, y: 3, timestamp: 7 }, KnownTile { x: 4, y: 4, timestamp: 2 }]);
}

#[test]
fn merge_keeps_latest_time_in_any_order() {
    let reports = [(2usize, 3usize, 7u64), (2, 3, 9), (2, 3, 4)];
    let orders = [[0, 1, 2], [0, 2, 1], [1, 0, 2], [1, 2, 0], [2, 0, 1], [2, 1, 0]];
    for order in orders {
        let mut station = Station::new((1, 1));
        for i in order {
            let (x, y, t) = reports[i];
            station.merge_report(x, y, t);
        }
        assert_eq!(station.known_tiles.len(), 1);
        assert_eq!(time_of(&station, 2, 3), Some(9));
    }
}

#[test]
fn earlier_report_does_not_override() {
    let mut station = Station::new((1, 1));
    station.merge_report(1, 2, 10);
    station.merge_report(1, 2, 10);
    station.merge_report(1, 2, 3);
    assert_eq!(time_of(&station, 1, 2), Some(10));
    station.merge_report(1, 2, 11);
    assert_eq!(time_of(&station, 1, 2), Some(11));
}

#[test]
fn collect_data_ignores_unexplored_and_outside_tiles() {
    let mut map = world(10, 10, 1);
    let mut robot = Robot::new(1, (2, 2), 100, Module::Analysis, Behavior::Exploration);
    robot.mark_explored(&mut map, 4);
    robot.mark_tile_as_known(3, 3);
    robot.mark_tile_as_known(50, 50);
    let mut station = Station::new((1, 1));
    station.collect_data(&robot, &map);
    assert_eq!(station.known_tiles, vec![KnownTile { x: 2, y: 2, timestamp: 4 }]);
}

#[test]
fn share_data_records_station_tiles() {
    let mut station = Station::new((1, 1));
    station.merge_knowledge(&vec![(2, 3, 7), (4, 4, 2)]);
    let mut robot = Robot::new(1, (1, 1), 100, Module::Analysis, Behavior::Exploration);
    robot.mark_tile_as_known(4, 4);
    station.share_data(&mut robot);
    assert_eq!(robot.known_tiles, vec![(4, 4), (2, 3)]);
}

#[test]
fn spawn_spends_budget_and_adds_robot_on_station() {
    let mut station = Station::new((3, 4));
    station.create_robot(1, (3, 4), Module::Analysis, Behavior::Exploration);
    station.create_robot(2, (6, 6), Module::Mining, Behavior::ResourceCollection);
    let n = station.robots.len();
    station.add_energy(100);
    assert!(station.spawn_if_affordable());
    assert_eq!(station.energy, 0);
    assert_eq!(station.robots.len(), n + 1);
    let r = station.robots.last().unwrap();
    assert_eq!(r.position, station.position);
    assert_eq!(r.id, n + 1);
    assert_eq!(r.module, Module::Imaging);
    assert_eq!(r.behavior, Behavior::Exploration);
    assert_eq!(r.energy, 100);
}

#[test]
fn spawn_without_budget_is_noop() {
    let mut station = Station::new((3, 4));
    station.add_energy(99);
    assert!(!station.spawn_if_affordable());
    assert_eq!(station.energy, 99);
    assert!(station.robots.is_empty());
    station.add_energy(150);
    assert!(station.spawn_if_affordable());
    assert_eq!(station.energy, 149);
}

#[test]
fn refill_outcomes() {
    let mut station = Station::new((3, 4));
    station.create_robot(1, (3, 4), Module::Analysis, Behavior::Exploration);
    station.create_robot(2, (6, 6), Module::Mining, Behavior::ResourceCollection);
    station.robots[0].energy = 0;
    station.robots[1].energy = 0;
    assert_eq!(station.refill(1), Ok(()));
    assert_eq!(station.robots[0].energy, 80);
    assert_eq!(station.refill(2), Err(StationError::InvalidRefill));
    assert_eq!(station.robots[1].energy, 0);
    assert_eq!(station.refill(7), Err(StationError::UnknownRobot));
}

#[test]
fn spawned_robot_id_is_fresh() {
    let mut station = Station::new((5, 5));
    station.create_robot(2, (5, 5), Module::Mining, Behavior::ResourceCollection);
    station.add_energy(100);
    assert!(station.spawn_if_affordable());
    let ids: Vec<usize> = station.robots.iter().map(|r| r.id).collect();
    assert_eq!(ids, vec![2, 3]);
    assert_eq!(station.next_robot_id(), 4);
    assert_eq!(Station::new((0, 0)).next_robot_id(), 1);
}
