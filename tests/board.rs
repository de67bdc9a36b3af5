use board_plugin::{bomb_color_index, Board, Coordinates, RevealedTile, Tile, TileMap};

fn at(x: u16, y: u16) -> Coordinates {
    Coordinates { x, y }
}

fn handle_of(c: Coordinates) -> u64 {
    1000 + c.y as u64 * 100 + c.x as u64
}

/// A board over `map` with every tile covered, as the presentation layer
/// builds it while spawning the tile covers.
fn covered_board(map: TileMap) -> Board {
    let (w, h) = (map.width(), map.height());
    let mut board = Board::new(map);
    for y in 0..h {
        for x in 0..w {
            assert!(board.cover_tile(at(x, y), handle_of(at(x, y))));
        }
    }
    board
}

fn board_with_bombs(w: u16, h: u16, bombs: &[(u16, u16)]) -> Board {
    let mut map = TileMap::empty(w, h);
    map.set_bombs_at(&bombs.iter().map(|&(x, y)| at(x, y)).collect());
    covered_board(map)
}

fn revealed_cells(tiles: &[RevealedTile]) -> Vec<(u16, u16)> {
    let mut cells: Vec<(u16, u16)> = tiles.iter().map(|t| (t.coordinates.x, t.coordinates.y)).collect();
    cells.sort();
    cells
}

#[test]
fn open_board_reveals_everything_at_once() {
    let mut board = covered_board(TileMap::empty(3, 3));
    assert_eq!(board.covered_count(), 9);
    let outcome = board.trigger_reveal(at(0, 0));
    assert_eq!(outcome.revealed.len(), 9);
    for t in &outcome.revealed {
        assert_eq!(t.tile, Tile::Empty);
        assert_eq!(t.handle, handle_of(t.coordinates));
    }
    assert_eq!(
        revealed_cells(&outcome.revealed),
        vec![(0, 0), (0, 1), (0, 2), (1, 0), (1, 1), (1, 2), (2, 0), (2, 1), (2, 2)]
    );
    assert_eq!(board.covered_count(), 0);
    assert!(board.is_completed());
    assert!(outcome.completed.is_some());
    assert!(outcome.explosion.is_none());
}

#[test]
fn numbered_tile_is_revealed_alone() {
    let mut board = board_with_bombs(3, 3, &[(1, 1)]);
    let outcome = board.trigger_reveal(at(0, 0));
    assert_eq!(
        outcome.revealed,
        vec![RevealedTile { coordinates: at(0, 0), handle: handle_of(at(0, 0)), tile: Tile::BombNeighbor(1) }]
    );
    assert_eq!(board.covered_count(), 8);
    assert!(!board.is_completed());
    assert!(outcome.completed.is_none());
    assert!(outcome.explosion.is_none());
}

#[test]
fn bomb_explodes_once_without_expanding() {
    let mut board = board_with_bombs(3, 3, &[(1, 1)]);
    let outcome = board.trigger_reveal(at(1, 1));
    assert_eq!(
        outcome.revealed,
        vec![RevealedTile { coordinates: at(1, 1), handle: handle_of(at(1, 1)), tile: Tile::Bomb }]
    );
    assert!(outcome.explosion.is_some());
    assert!(outcome.completed.is_none());
    assert_eq!(board.covered_count(), 8);
    let again = board.trigger_reveal(at(1, 1));
    assert!(again.revealed.is_empty());
    assert!(again.explosion.is_none());
}

#[test]
fn flood_stops_at_numbered_border() {
    // Bomb column at x = 3 of a 5 x 4 board: the left region floods up to the
    // numbers in column 2, the right column stays covered.
    let mut board = board_with_bombs(5, 4, &[(3, 0), (3, 1), (3, 2), (3, 3)]);
    let outcome = board.trigger_reveal(at(0, 0));
    let mut expected = Vec::new();
    for x in 0..3u16 {
        for y in 0..4u16 {
            expected.push((x, y));
        }
    }
    assert_eq!(revealed_cells(&outcome.revealed), expected);
    for t in &outcome.revealed {
        let want = if t.coordinates.x == 2 {
            if t.coordinates.y == 0 || t.coordinates.y == 3 { Tile::BombNeighbor(2) } else { Tile::BombNeighbor(3) }
        } else {
            Tile::Empty
        };
        assert_eq!(t.tile, want);
    }
    assert_eq!(board.covered_count(), 8);
    assert_eq!(board.tile_to_uncover(&at(4, 0)), Some(handle_of(at(4, 0))));
    assert!(outcome.completed.is_none());
}

#[test]
fn completion_signalled_when_last_safe_tile_is_revealed() {
    let mut board = board_with_bombs(5, 4, &[(3, 0), (3, 1), (3, 2), (3, 3)]);
    board.trigger_reveal(at(0, 0));
    for y in 0..3u16 {
        let outcome = board.trigger_reveal(at(4, y));
        assert!(outcome.completed.is_none());
        assert!(!board.is_completed());
    }
    let last = board.trigger_reveal(at(4, 3));
    assert!(last.completed.is_some());
    assert!(board.is_completed());
    assert_eq!(board.covered_count(), 4);
}

#[test]
fn completion_is_independent_of_reveal_order() {
    let orders: [[(u16, u16); 3]; 2] = [[(0, 0), (2, 0), (0, 2)], [(0, 2), (2, 0), (0, 0)]];
    for order in orders.iter() {
        let mut board = board_with_bombs(3, 3, &[(1, 1), (2, 2), (1, 0), (0, 1), (2, 1), (1, 2)]);
        let mut completions = 0;
        for &(x, y) in order.iter() {
            if board.trigger_reveal(at(x, y)).completed.is_some() {
                completions += 1;
            }
        }
        assert_eq!(completions, 1);
        assert!(board.is_completed());
        assert_eq!(board.covered_count(), 6);
    }
}

#[test]
fn uncovering_twice_finds_nothing() {
    let mut board = board_with_bombs(3, 3, &[(1, 1)]);
    assert_eq!(board.try_uncover_tile(&at(2, 2)), Some(handle_of(at(2, 2))));
    assert_eq!(board.covered_count(), 8);
    assert_eq!(board.try_uncover_tile(&at(2, 2)), None);
    assert_eq!(board.covered_count(), 8);
    assert_eq!(board.try_uncover_tile(&at(9, 9)), None);
}

#[test]
fn toggling_twice_restores_flag_state() {
    let mut board = board_with_bombs(3, 3, &[(1, 1)]);
    let c = at(2, 1);
    assert_eq!(board.try_toggle_mark(&c), Some((handle_of(c), false)));
    assert_eq!(board.tile_to_uncover(&c), None);
    assert_eq!(board.try_toggle_mark(&c), Some((handle_of(c), true)));
    assert_eq!(board.tile_to_uncover(&c), Some(handle_of(c)));
    assert_eq!(board.try_toggle_mark(&at(5, 5)), None);
}

#[test]
fn flagged_tile_ignores_clicks() {
    let mut board = board_with_bombs(3, 3, &[(1, 1)]);
    board.try_toggle_mark(&at(1, 1));
    let outcome = board.trigger_reveal(at(1, 1));
    assert!(outcome.revealed.is_empty());
    assert!(outcome.explosion.is_none());
    assert_eq!(board.covered_count(), 9);
}

#[test]
fn revealed_tile_cannot_be_flagged() {
    let mut board = board_with_bombs(3, 3, &[(1, 1)]);
    board.trigger_reveal(at(0, 0));
    assert_eq!(board.try_toggle_mark(&at(0, 0)), None);
    assert_eq!(board.unmark_tile(&at(0, 0)), None);
}

#[test]
fn flood_removes_flags_it_reaches() {
    let mut board = covered_board(TileMap::empty(3, 3));
    board.try_toggle_mark(&at(2, 2));
    let outcome = board.trigger_reveal(at(0, 0));
    assert_eq!(outcome.revealed.len(), 9);
    assert_eq!(board.unmark_tile(&at(2, 2)), None);
}

#[test]
fn uncovering_a_flagged_tile_unflags_it() {
    let mut board = board_with_bombs(3, 3, &[(1, 1)]);
    board.try_toggle_mark(&at(0, 0));
    assert_eq!(board.try_uncover_tile(&at(0, 0)), Some(handle_of(at(0, 0))));
    assert_eq!(board.unmark_tile(&at(0, 0)), None);
}

#[test]
fn unmark_reports_flagged_tile() {
    let mut board = board_with_bombs(3, 3, &[(1, 1)]);
    assert_eq!(board.unmark_tile(&at(0, 1)), None);
    board.try_toggle_mark(&at(0, 1));
    assert_eq!(board.unmark_tile(&at(0, 1)), Some(at(0, 1)));
    assert_eq!(board.tile_to_uncover(&at(0, 1)), Some(handle_of(at(0, 1))));
}

#[test]
fn adjacent_covered_handles() {
    let mut board = board_with_bombs(3, 3, &[(1, 1)]);
    board.try_uncover_tile(&at(1, 0));
    let around = board.adjacent_covered_tiles(at(0, 0));
    assert_eq!(around, vec![handle_of(at(0, 1)), handle_of(at(1, 1))]);
    assert_eq!(board.adjacent_covered_tiles(at(1, 1)).len(), 7);
}

#[test]
fn cover_tile_off_grid_is_refused() {
    let mut board = Board::new(TileMap::empty(2, 2));
    assert!(!board.cover_tile(at(2, 0), 7));
    assert_eq!(board.covered_count(), 0);
    assert!(board.cover_tile(at(1, 1), 7));
    assert!(board.cover_tile(at(1, 1), 8));
    assert_eq!(board.covered_count(), 1);
    assert_eq!(board.tile_to_uncover(&at(1, 1)), Some(8));
}

#[test]
fn generated_board_safe_start_reveals_empty_region() {
    for _ in 0..20 {
        let map = TileMap::generate(10, 10, 15).unwrap();
        let start = map.safe_start();
        let mut board = covered_board(map);
        if let Some(c) = start {
            let outcome = board.trigger_reveal(c);
            assert!(outcome.explosion.is_none());
            assert!(!outcome.revealed.is_empty());
            for t in &outcome.revealed {
                assert_ne!(t.tile, Tile::Bomb);
            }
            assert_eq!(board.covered_count(), 100 - outcome.revealed.len());
        }
    }
}

#[test]
fn bomb_color_index_picks_palette_entry() {
    assert_eq!(bomb_color_index(1, 5), Some(0));
    assert_eq!(bomb_color_index(3, 5), Some(2));
    assert_eq!(bomb_color_index(0, 5), Some(0));
    assert_eq!(bomb_color_index(8, 5), Some(4));
    assert_eq!(bomb_color_index(3, 0), None);
}

#[test]
fn two_clicks_in_either_order_leave_same_board() {
    let bombs = [(3u16, 0u16), (3, 1), (3, 2), (3, 3)];
    let clicks = [(0u16, 0u16), (2, 1), (4, 2)];
    for &first in clicks.iter() {
        for &second in clicks.iter() {
            let mut one = board_with_bombs(5, 4, &bombs);
            one.trigger_reveal(at(first.0, first.1));
            one.trigger_reveal(at(second.0, second.1));
            let mut two = board_with_bombs(5, 4, &bombs);
            two.trigger_reveal(at(second.0, second.1));
            two.trigger_reveal(at(first.0, first.1));
            assert_eq!(one.covered_count(), two.covered_count());
            for y in 0..4 {
                for x in 0..5 {
                    assert_eq!(one.tile_to_uncover(&at(x, y)), two.tile_to_uncover(&at(x, y)));
                }
            }
        }
    }
}
