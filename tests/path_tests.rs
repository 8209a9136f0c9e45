use eerea::map::Grid;
use eerea::path::move_using_bfs;
use eerea::tile::{Tile, TileContent};

fn plain(width: usize, height: usize) -> Grid {
    Grid { width, height, tiles: vec![vec![Tile::new(false, TileContent::Empty); width]; height] }
}

#[test]
fn straight_path_has_four_cells() {
    let g = plain(5, 5);
    let p = move_using_bfs(&g, (0, 0), (0, 3)).unwrap();
    assert_eq!(p, vec![(0, 0), (0, 1), (0, 2), (0, 3)]);
    assert_eq!(p.len() - 1, 3);
}

#[test]
fn enclosed_goal_is_unreachable() {
    let mut g = plain(5, 5);
    for (x, y) in [(2, 1), (1, 2), (3, 2), (2, 3)] {
        g.tiles[y][x].content = TileContent::Obstacle;
    }
    assert_eq!(move_using_bfs(&g, (0, 0), (2, 2)), None);
}

#[test]
fn start_is_goal() {
    let g = plain(3, 3);
    assert_eq!(move_using_bfs(&g, (1, 1), (1, 1)), Some(vec![(1, 1)]));
}

#[test]
fn outside_start_or_goal_has_no_path() {
    let g = plain(3, 3);
    assert_eq!(move_using_bfs(&g, (3, 0), (0, 0)), None);
    assert_eq!(move_using_bfs(&g, (0, 0), (0, 3)), None);
}

#[test]
fn path_goes_around_a_wall() {
    let mut g = plain(4, 4);
    for x in 0..3 {
        g.tiles[1][x].content = TileContent::Obstacle;
    }
    let p = move_using_bfs(&g, (0, 0), (0, 2)).unwrap();
    assert_eq!(p, vec![(0, 0), (1, 0), (2, 0), (3, 0), (3, 1), (3, 2), (2, 2), (1, 2), (0, 2)]);
}

#[test]
fn obstacle_goal_is_unreachable() {
    let mut g = plain(4, 4);
    g.tiles[0][2].content = TileContent::Obstacle;
    assert_eq!(move_using_bfs(&g, (0, 0), (2, 0)), None);
}
