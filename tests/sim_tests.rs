use eerea::map::Grid;
use eerea::robot::{Behavior, Module};
use eerea::sim::{find_free_tile, Simulation};
use eerea::tile::{Tile, TileContent};

#[test]
fn free_tile_is_first_empty_in_row_major_order() {
    let mut g = Grid { width: 4, height: 3, tiles: vec![vec![Tile::new(false, TileContent::Obstacle); 4]; 3] };
    assert_eq!(find_free_tile(&g), None);
    g.tiles[2][0].content = TileContent::Empty;
    g.tiles[1][3].content = TileContent::Empty;
    assert_eq!(find_free_tile(&g), Some((3, 1)));
}

#[test]
fn simulation_starts_with_roster_on_station() {
    let relief = vec![vec![false; 12]; 10];
    let initial = vec![
        (Module::Analysis, Behavior::Exploration),
        (Module::Mining, Behavior::ResourceCollection),
        (Module::Imaging, Behavior::ScientificInterest),
    ];
    let sim = Simulation::new(12, 10, 14, &relief, &initial);
    assert_eq!(sim.clock, 0);
    assert_eq!(sim.station.robots.len(), 3);
    let pos = sim.station.position;
    assert_eq!(sim.map.tiles[pos.1][pos.0].content, TileContent::Empty);
    assert_eq!(Some(pos), find_free_tile(&sim.map));
    for (i, r) in sim.station.robots.iter().enumerate() {
        assert_eq!(r.id, i + 1);
        assert_eq!(r.position, pos);
        assert_eq!(r.energy, 100);
    }
}

#[test]
fn ticks_spend_energy_collect_and_spawn() {
    let relief = vec![vec![false; 12]; 10];
    let initial = vec![(Module::Analysis, Behavior::Exploration), (Module::Mining, Behavior::ResourceCollection)];
    let mut sim = Simulation::new(12, 10, 14, &relief, &initial);
    sim.tick();
    assert_eq!(sim.clock, 1);
    for r in &sim.station.robots {
        if r.position == sim.station.position {
            assert_eq!(r.energy, 80);
        } else {
            assert_eq!(r.energy, 99);
        }
    }
    sim.station.add_energy(100);
    sim.tick();
    assert_eq!(sim.clock, 2);
    assert_eq!(sim.station.robots.len(), 3);
    assert_eq!(sim.station.energy, 0);
    for t in &sim.station.known_tiles {
        assert!(sim.map.tiles[t.y][t.x].explored);
    }
}

#[test]
fn station_learns_from_returning_robot() {
    let relief = vec![vec![false; 8]; 8];
    let initial = vec![(Module::Imaging, Behavior::Exploration)];
    let mut sim = Simulation::new(8, 8, 5, &relief, &initial);
    let pos = sim.station.position;
    sim.station.robots[0].position = (pos.0, pos.1 + 1);
    sim.station.robots[0].mark_tile_as_known(pos.0, pos.1 + 1);
    sim.map.mark_explored(pos.0, pos.1 + 1, 0);
    sim.station.robots[0].energy = 0;
    sim.tick();
    assert_eq!(sim.station.robots[0].position, pos);
    assert_eq!(sim.station.robots[0].energy, 80);
    assert!(sim.station.known_tiles.iter().any(|t| t.x == pos.0 && t.y == pos.1 + 1 && t.timestamp == 0));
}

#[test]
fn starting_robots_have_full_energy_and_no_tiles() {
    let relief = vec![vec![false; 9]; 9];
    let initial = vec![(Module::Mining, Behavior::ResourceCollection), (Module::Imaging, Behavior::Exploration)];
    let sim = Simulation::new(9, 9, 2, &relief, &initial);
    for r in &sim.station.robots {
        assert_eq!(r.energy, 100);
        assert!(r.known_tiles.is_empty());
    }
    for x in 0..9 {
        assert_eq!(sim.map.tiles[0][x].content, TileContent::Obstacle);
        assert_eq!(sim.map.tiles[8][x].content, TileContent::Obstacle);
    }
}

#[test]
fn tick_reports_changed_robots() {
    let relief = vec![vec![false; 10]; 10];
    let initial = vec![(Module::Analysis, Behavior::Exploration), (Module::Imaging, Behavior::Exploration)];
    let mut sim = Simulation::new(10, 10, 4, &relief, &initial);
    let pos = sim.station.position;
    // The second robot stands still with no energy on a cell it cannot leave.
    sim.station.robots[1].energy = 0;
    sim.station.robots[1].position = pos;
    sim.station.add_energy(100);
    let changed = sim.tick();
    // Robot 1 spent energy; robot 3 joined. Robot 2 sat on the station and
    // was recharged from 0 to 80.
    assert!(changed.contains(&1));
    assert!(changed.contains(&2));
    assert!(changed.contains(&3));
    assert_eq!(sim.station.robots[2].id, 3);
    let unchanged = sim.tick();
    for id in &unchanged {
        assert!(sim.station.robots.iter().any(|r| r.id == *id));
    }
}
