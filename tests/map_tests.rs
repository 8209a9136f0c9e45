use eerea::map::{tile_content, Grid};
use rand::SeedableRng;
use eerea::tile::{Resource, TileContent};
use noise::{NoiseFn, Perlin};

/// The obstacle relief of the reference world: Perlin noise above one half.
fn relief(width: usize, height: usize) -> Vec<Vec<bool>> {
    let perlin = Perlin::new(8);
    (0..height)
        .map(|y| {
            (0..width)
                .map(|x| perlin.get([x as f64 / 15.0, y as f64 / 12.0]) > 0.5)
                .collect()
        })
        .collect()
}

fn world(width: usize, height: usize, seed: u64) -> Grid {
    Grid::new(width, height, seed, &relief(width, height))
}

#[test]
fn test_good_map_dimensions() {
    let map = world(10, 20, 12345);
    assert_eq!(map.width, 10);
    assert_eq!(map.height, 20);
}

#[test]
fn test_good_map_tiles() {
    let map = world(10, 20, 12345);
    assert_eq!(map.tiles.len(), 20);
    assert_eq!(map.tiles[0].len(), 10);
}

#[test]
fn test_fn_check_bounds() {
    let map = world(10, 20, 12345);
    assert_eq!(map.check_bounds(0, 0), true);
    assert_eq!(map.check_bounds(10, 20), false);
    assert_eq!(map.check_bounds(10, 0), false);
    assert_eq!(map.check_bounds(0, 20), false);
}

#[test]
fn test_generate_tiles() {
    let map = world(10, 10, 1);
    assert_eq!(map.width, 10);
    assert_eq!(map.height, 10);
}

#[test]
fn test_check_bounds() {
    let map = world(10, 10, 1);
    assert!(map.check_bounds(0, 0));
    assert!(map.check_bounds(9, 9));
    assert!(!map.check_bounds(10, 10));
}

#[test]
fn test_is_empty() {
    let map = world(10, 10, 1);
    assert!(!map.is_empty(0, 0));
}

#[test]
fn test_throw_resource_at() {
    let mut map = world(10, 10, 1);
    map.throw_resource_at(1, 1, Resource::Energy);
    if let Some(tile) = map.tile_at(1, 1) {
        assert_eq!(tile.content, TileContent::Resource(Resource::Energy));
    } else {
        panic!("Tile not found");
    }
}

#[test]
fn test_tile_at() {
    let map = world(10, 10, 1);
    if let Some(tile) = map.tile_at(2, 2) {
        assert_eq!(tile.content, TileContent::Empty);
    } else {
        panic!("Tile not found");
    }
}

#[test]
fn test_tile_at_mut() {
    let mut map = world(10, 10, 1);
    if let Some(tile) = map.tile_at_mut(1, 1) {
        tile.content = TileContent::Obstacle;
    }
    if let Some(tile) = map.tile_at(1, 1) {
        assert_eq!(tile.content, TileContent::Obstacle);
    } else {
        panic!("Tile not found");
    }
}

#[test]
fn test_retrieve_resource_at() {
    let mut map = world(10, 10, 1);
    map.throw_resource_at(1, 1, Resource::Energy);
    let resource = map.retrieve_resource_at(1, 1);
    assert_eq!(resource, Some(Resource::Energy));
    if let Some(tile) = map.tile_at(1, 1) {
        assert_eq!(tile.content, TileContent::Empty);
    } else {
        panic!("Tile not found");
    }
}

#[test]
fn same_seed_gives_same_world() {
    for seed in [0u64, 1, 7, 12345] {
        let a = world(30, 25, seed);
        let b = world(30, 25, seed);
        assert_eq!(a.tiles, b.tiles);
    }
}

#[test]
fn border_is_always_obstacle() {
    for (w, h, seed) in [(3usize, 3usize, 0u64), (10, 20, 12345), (40, 40, 14), (7, 3, 9)] {
        let map = world(w, h, seed);
        for y in 0..h {
            for x in 0..w {
                if x == 0 || y == 0 || x == w - 1 || y == h - 1 {
                    assert_eq!(map.tiles[y][x].content, TileContent::Obstacle);
                }
            }
        }
    }
}

#[test]
fn relief_cells_become_obstacles_and_others_do_not() {
    let mut r = vec![vec![false; 6]; 5];
    r[2][3] = true;
    let map = Grid::new(6, 5, 3, &r);
    assert_eq!(map.tiles[2][3].content, TileContent::Obstacle);
    for y in 1..4 {
        for x in 1..5 {
            if (x, y) != (3, 2) {
                assert_ne!(map.tiles[y][x].content, TileContent::Obstacle);
            }
        }
    }
}

#[test]
fn generation_places_resources_of_every_kind() {
    let map = Grid::new(40, 40, 14, &vec![vec![false; 40]; 40]);
    let mut kinds = [0usize; 3];
    let mut empty = 0;
    for row in &map.tiles {
        for t in row {
            match t.content {
                TileContent::Resource(Resource::Energy) => kinds[0] += 1,
                TileContent::Resource(Resource::Ore) => kinds[1] += 1,
                TileContent::Resource(Resource::PlaceOfInterest) => kinds[2] += 1,
                TileContent::Empty => empty += 1,
                TileContent::Obstacle => {}
            }
        }
    }
    assert!(kinds.iter().all(|&k| k > 0));
    assert!(empty > kinds.iter().sum::<usize>());
}

#[test]
fn out_of_bounds_access_is_absent() {
    let mut map = world(10, 10, 1);
    assert!(map.tile_at(10, 3).is_none());
    assert!(map.tile_at(3, 10).is_none());
    assert!(map.tile_at(usize::MAX, usize::MAX).is_none());
    assert!(map.tile_at_mut(10, 0).is_none());
    assert_eq!(map.retrieve_resource_at(10, 10), None);
    assert_eq!(map.retrieve_resource_at(0, usize::MAX), None);
    let before = map.tiles.clone();
    map.throw_resource_at(99, 1, Resource::Ore);
    map.mark_explored(1, 99, 5);
    assert_eq!(map.tiles, before);
}

#[test]
fn taking_from_empty_or_obstacle_changes_nothing() {
    let mut map = Grid::new(5, 5, 2, &vec![vec![false; 5]; 5]);
    map.tiles[2][2].content = TileContent::Empty;
    let before = map.tiles.clone();
    assert_eq!(map.retrieve_resource_at(2, 2), None);
    assert_eq!(map.retrieve_resource_at(0, 0), None);
    assert_eq!(map.tiles, before);
    map.throw_resource_at(2, 2, Resource::Ore);
    assert_eq!(map.retrieve_resource_at(2, 2), Some(Resource::Ore));
    assert_eq!(map.tiles[2][2].content, TileContent::Empty);
    assert_eq!(map.retrieve_resource_at(2, 2), None);
}

#[test]
fn mark_explored_keeps_latest_time() {
    let mut map = world(10, 10, 1);
    map.mark_explored(2, 2, 5);
    assert!(map.tiles[2][2].explored);
    assert_eq!(map.tiles[2][2].timestamp, 5);
    map.mark_explored(2, 2, 3);
    assert_eq!(map.tiles[2][2].timestamp, 5);
    map.mark_explored(2, 2, 9);
    assert_eq!(map.tiles[2][2].timestamp, 9);
}

#[test]
fn passable_reflects_obstacles() {
    let map = world(10, 10, 1);
    assert!(!map.is_passable(0, 0));
    assert!(map.is_passable(2, 2));
    assert!(!map.is_passable(10, 2));
}

#[test]
fn open_cells_in_row_major_order() {
    let mut map = Grid::new(4, 4, 9, &vec![vec![false; 4]; 4]);
    map.tiles[1][2].content = TileContent::Obstacle;
    assert_eq!(map.open_cells(), vec![(1, 1), (1, 2), (2, 2)]);
    assert_eq!(map.nth_open_cell(0), Some((1, 1)));
    assert_eq!(map.nth_open_cell(2), Some((2, 2)));
    assert_eq!(map.nth_open_cell(3), None);
}

#[test]
fn tile_content_rule() {
    assert_eq!(tile_content(true, true, 1), TileContent::Obstacle);
    assert_eq!(tile_content(false, false, 2), TileContent::Empty);
    assert_eq!(tile_content(false, true, 0), TileContent::Resource(Resource::Energy));
    assert_eq!(tile_content(false, true, 1), TileContent::Resource(Resource::Ore));
    assert_eq!(tile_content(false, true, 2), TileContent::Resource(Resource::PlaceOfInterest));
}

#[test]
fn random_resource_draws_every_kind() {
    let mut rng = rand::rngs::StdRng::seed_from_u64(5);
    let mut seen = [false; 3];
    for _ in 0..100 {
        match Resource::random_resource(&mut rng) {
            Resource::Energy => seen[0] = true,
            Resource::Ore => seen[1] = true,
            Resource::PlaceOfInterest => seen[2] = true,
        }
    }
    assert_eq!(seen, [true, true, true]);
}
