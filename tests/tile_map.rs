use board_plugin::{BoardError, Coordinates, Tile, TileMap};

fn at(x: u16, y: u16) -> Coordinates {
    Coordinates { x, y }
}

fn count_bombs(map: &TileMap) -> usize {
    let mut n = 0;
    for y in 0..map.height() {
        for x in 0..map.width() {
            if map.tile_at(at(x, y)) == Some(Tile::Bomb) {
                n += 1;
            }
        }
    }
    n
}

/// Checks every tile of a generated map against the bombs around it.
fn assert_counts_consistent(map: &TileMap) {
    for y in 0..map.height() {
        for x in 0..map.width() {
            let c = at(x, y);
            let tile = map.tile_at(c).unwrap();
            assert_ne!(tile, Tile::BombNeighbor(0));
            if tile == Tile::Bomb {
                continue;
            }
            let mut around = 0u8;
            for dy in -1i32..=1 {
                for dx in -1i32..=1 {
                    if dx == 0 && dy == 0 {
                        continue;
                    }
                    let (nx, ny) = (x as i32 + dx, y as i32 + dy);
                    if nx >= 0 && ny >= 0 && map.is_bomb_at(at(nx as u16, ny as u16)) {
                        around += 1;
                    }
                }
            }
            let expected = if around == 0 { Tile::Empty } else { Tile::BombNeighbor(around) };
            assert_eq!(tile, expected, "tile at ({x}, {y})");
        }
    }
}

#[test]
fn add_delta_inside_and_below_zero() {
    assert_eq!(at(3, 4).add_delta(-1, 1), Some(at(2, 5)));
    assert_eq!(at(0, 4).add_delta(-1, 0), None);
    assert_eq!(at(4, 0).add_delta(0, -1), None);
    assert_eq!(at(u16::MAX, 0).add_delta(1, 0), None);
}

#[test]
fn empty_map_has_only_empty_tiles() {
    let map = TileMap::empty(4, 3);
    assert_eq!(map.width(), 4);
    assert_eq!(map.height(), 3);
    assert_eq!(map.bomb_count(), 0);
    for y in 0..3 {
        for x in 0..4 {
            assert_eq!(map.tile_at(at(x, y)), Some(Tile::Empty));
        }
    }
    assert_eq!(map.tile_at(at(4, 0)), None);
}

#[test]
fn zero_sized_map_has_no_cells() {
    let map = TileMap::empty(0, 5);
    assert_eq!(map.tile_at(at(0, 0)), None);
    assert_eq!(map.safe_start(), None);
}

#[test]
fn generate_rejects_empty_map() {
    assert_eq!(TileMap::generate(0, 3, 0).err(), Some(BoardError::EmptyMap));
    assert_eq!(TileMap::generate(3, 0, 1).err(), Some(BoardError::EmptyMap));
}

#[test]
fn generate_rejects_too_many_bombs() {
    assert_eq!(TileMap::generate(3, 3, 9).err(), Some(BoardError::TooManyBombs));
    assert_eq!(TileMap::generate(3, 3, 200).err(), Some(BoardError::TooManyBombs));
    assert!(TileMap::generate(3, 3, 8).is_ok());
}

#[test]
fn generated_boards_hold_exact_bombs_and_counts() {
    for &(w, h, bombs) in &[(3u16, 3u16, 8u16), (15, 15, 30), (20, 20, 50), (1, 5, 4), (9, 2, 0)] {
        for _ in 0..10 {
            let map = TileMap::generate(w, h, bombs).unwrap();
            assert_eq!(map.bomb_count(), bombs);
            assert_eq!(count_bombs(&map), bombs as usize);
            assert_counts_consistent(&map);
        }
    }
}

#[test]
fn nearly_full_board_places_every_bomb() {
    let map = TileMap::generate(4, 4, 15).unwrap();
    assert_eq!(count_bombs(&map), 15);
    let start = map.safe_start();
    assert!(start.is_none() || map.tile_at(start.unwrap()) == Some(Tile::Empty));
}

#[test]
fn bombs_at_given_cells_and_counts() {
    let mut map = TileMap::empty(3, 3);
    map.set_bombs_at(&vec![at(1, 1)]);
    assert_eq!(map.bomb_count(), 1);
    assert_eq!(map.tile_at(at(1, 1)), Some(Tile::Bomb));
    for &(x, y) in &[(0, 0), (1, 0), (2, 0), (0, 1), (2, 1), (0, 2), (1, 2), (2, 2)] {
        assert_eq!(map.tile_at(at(x, y)), Some(Tile::BombNeighbor(1)));
    }
    assert_counts_consistent(&map);
}

#[test]
fn bombs_at_skips_duplicates_and_off_grid_cells() {
    let mut map = TileMap::empty(4, 2);
    map.set_bombs_at(&vec![at(0, 0), at(0, 0), at(7, 7), at(3, 1)]);
    assert_eq!(map.bomb_count(), 2);
    assert_eq!(count_bombs(&map), 2);
    assert_eq!(map.tile_at(at(1, 0)), Some(Tile::BombNeighbor(1)));
    assert_eq!(map.tile_at(at(2, 0)), Some(Tile::BombNeighbor(1)));
    assert_eq!(map.tile_at(at(1, 1)), Some(Tile::BombNeighbor(1)));
    assert_counts_consistent(&map);
}

#[test]
fn bomb_queries_never_panic_off_grid() {
    let mut map = TileMap::empty(3, 3);
    map.set_bombs_at(&vec![at(0, 0), at(2, 2)]);
    assert!(!map.is_bomb_at(at(3, 0)));
    assert!(!map.is_bomb_at(at(u16::MAX, u16::MAX)));
    assert_eq!(map.bomb_count_at(at(0, 0)), 0);
    assert_eq!(map.bomb_count_at(at(1, 1)), 2);
    assert_eq!(map.bomb_count_at(at(3, 3)), 1);
    assert_eq!(map.bomb_count_at(at(u16::MAX, u16::MAX)), 0);
    assert_eq!(map.bomb_count_at(at(u16::MAX, 0)), 0);
}

#[test]
fn eight_neighbors_inside_three_at_the_corner() {
    let map = TileMap::empty(3, 3);
    let inside = map.safe_square_at(at(1, 1));
    assert_eq!(
        inside,
        vec![at(0, 0), at(1, 0), at(2, 0), at(0, 1), at(2, 1), at(0, 2), at(1, 2), at(2, 2)]
    );
    assert_eq!(map.safe_square_at(at(0, 0)), vec![at(1, 0), at(0, 1), at(1, 1)]);
    let edge = map.safe_square_at(at(2, 2));
    assert_eq!(edge.len(), 8);
    assert!(edge.contains(&at(3, 3)));
}

#[test]
fn safe_start_is_first_empty_tile() {
    let mut map = TileMap::empty(4, 3);
    map.set_bombs_at(&vec![at(1, 1)]);
    assert_eq!(map.safe_start(), Some(at(3, 0)));
    let mut full = TileMap::empty(2, 2);
    full.set_bombs_at(&vec![at(0, 0)]);
    assert_eq!(full.safe_start(), None);
}

#[test]
fn tile_console_output() {
    assert_eq!(Tile::Bomb.console_output(), "*");
    assert_eq!(Tile::Empty.console_output(), " ");
    assert_eq!(Tile::BombNeighbor(3).console_output(), "3");
    assert_eq!(Tile::BombNeighbor(42).console_output(), "42");
}

#[test]
fn map_console_output() {
    let mut map = TileMap::empty(3, 2);
    map.set_bombs_at(&vec![at(0, 0)]);
    let expected = "Map (3, 2) with 1 bombs:\n-----\n|11 |\n|*1 |\n-----";
    assert_eq!(map.console_output(), expected);
}

#[test]
fn map_console_output_multi_digit_header() {
    let map = TileMap::empty(12, 1);
    let expected = format!("Map (12, 1) with 0 bombs:\n{}\n|{}|\n{}", "-".repeat(14), " ".repeat(12), "-".repeat(14));
    assert_eq!(map.console_output(), expected);
}
