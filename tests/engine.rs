use boxes::direction::{BoardShift, Key};
use boxes::grid::{Board, Position};
use boxes::tiles::{Tile, TileStore};
use std::cmp::Ordering;

fn pos(x: u8, y: u8) -> Position {
    Position { x, y }
}

fn store_with(size: u8, tiles: &[(u8, u8, u32)]) -> TileStore {
    let mut store = TileStore::new(size);
    for &(x, y, v) in tiles {
        assert!(store.insert(pos(x, y), v).is_some());
    }
    store
}

fn layout(store: &TileStore) -> Vec<(u8, u8, u32)> {
    let mut v: Vec<(u8, u8, u32)> =
        store.get_all().iter().map(|t| (t.position.x, t.position.y, t.value)).collect();
    v.sort();
    v
}

fn total(store: &TileStore) -> u64 {
    store.get_all().iter().map(|t| t.value as u64).sum()
}

#[test]
fn shift_left_merges_leading_pair() {
    let mut store = store_with(4, &[(0, 0, 2), (1, 0, 2), (3, 0, 4)]);
    let outcome = store.shift(BoardShift::Left);
    assert_eq!(layout(&store), vec![(0, 0, 4), (1, 0, 4)]);
    assert_eq!(outcome.score_delta, 4);
    assert!(outcome.moved);
    assert_eq!(store.len(), 2);
}

#[test]
fn shift_merges_each_tile_at_most_once() {
    let mut store = store_with(4, &[(0, 0, 4), (1, 0, 2), (2, 0, 2)]);
    let outcome = store.shift(BoardShift::Left);
    assert_eq!(layout(&store), vec![(0, 0, 4), (1, 0, 4)]);
    assert_eq!(outcome.score_delta, 4);

    let mut store = store_with(4, &[(0, 1, 2), (1, 1, 2), (2, 1, 2), (3, 1, 2)]);
    let outcome = store.shift(BoardShift::Left);
    assert_eq!(layout(&store), vec![(0, 1, 4), (1, 1, 4)]);
    assert_eq!(outcome.score_delta, 8);

    let mut store = store_with(4, &[(0, 2, 2), (1, 2, 2), (2, 2, 2)]);
    store.shift(BoardShift::Left);
    assert_eq!(layout(&store), vec![(0, 2, 4), (1, 2, 2)]);
}

#[test]
fn shift_right_merges_from_the_right_edge() {
    let mut store = store_with(4, &[(0, 0, 2), (1, 0, 2), (2, 0, 2)]);
    let outcome = store.shift(BoardShift::Right);
    assert_eq!(layout(&store), vec![(2, 0, 2), (3, 0, 4)]);
    assert_eq!(outcome.score_delta, 4);
}

#[test]
fn shift_up_moves_towards_larger_y() {
    let mut store = store_with(4, &[(1, 0, 2), (1, 1, 2), (1, 3, 2)]);
    let outcome = store.shift(BoardShift::Up);
    assert_eq!(layout(&store), vec![(1, 2, 2), (1, 3, 4)]);
    assert_eq!(outcome.score_delta, 4);
}

#[test]
fn shift_down_moves_towards_y_zero() {
    let mut store = store_with(4, &[(2, 1, 8), (2, 2, 8), (2, 3, 16), (0, 3, 2)]);
    let outcome = store.shift(BoardShift::Down);
    assert_eq!(layout(&store), vec![(0, 0, 2), (2, 0, 16), (2, 1, 16)]);
    assert_eq!(outcome.score_delta, 16);
}

#[test]
fn shift_keeps_lines_apart() {
    let mut store = store_with(4, &[(3, 0, 2), (0, 1, 2)]);
    let outcome = store.shift(BoardShift::Left);
    assert_eq!(layout(&store), vec![(0, 0, 2), (0, 1, 2)]);
    assert_eq!(outcome.score_delta, 0);
    assert!(outcome.moved);
}

#[test]
fn shift_keeps_identities() {
    let mut store = TileStore::new(4);
    let a = store.insert(pos(3, 0), 2).unwrap();
    let b = store.insert(pos(1, 0), 2).unwrap();
    store.shift(BoardShift::Left);
    let tiles = store.get_all();
    assert_eq!(tiles.len(), 1);
    assert_eq!(tiles[0].id, b);
    assert_ne!(tiles[0].id, a);
    assert_eq!(tiles[0].position, pos(0, 0));
    assert_eq!(tiles[0].value, 4);
}

#[test]
fn shift_of_stable_board_changes_nothing() {
    let mut store = store_with(4, &[(0, 0, 2), (1, 0, 4), (0, 1, 8)]);
    let before = layout(&store);
    let outcome = store.shift(BoardShift::Left);
    assert!(!outcome.moved);
    assert_eq!(outcome.score_delta, 0);
    assert_eq!(layout(&store), before);
}

#[test]
fn second_shift_is_idempotent_once_settled() {
    let mut store = store_with(4, &[(1, 0, 2), (3, 0, 4), (2, 2, 8), (3, 3, 2)]);
    let first = store.shift(BoardShift::Left);
    assert!(first.moved);
    let after_first = layout(&store);
    let second = store.shift(BoardShift::Left);
    assert!(!second.moved);
    assert_eq!(layout(&store), after_first);
}

#[test]
fn second_shift_can_merge_what_the_first_made() {
    let mut store = store_with(4, &[(0, 0, 2), (1, 0, 2), (2, 0, 4)]);
    store.shift(BoardShift::Left);
    assert_eq!(layout(&store), vec![(0, 0, 4), (1, 0, 4)]);
    let second = store.shift(BoardShift::Left);
    assert!(second.moved);
    assert_eq!(layout(&store), vec![(0, 0, 8)]);
}

#[test]
fn shift_conserves_value() {
    let tiles = [(0, 0, 2), (1, 0, 2), (2, 0, 2), (0, 1, 4), (0, 2, 4), (3, 3, 8), (3, 2, 8)];
    for direction in [BoardShift::Left, BoardShift::Right, BoardShift::Up, BoardShift::Down] {
        let mut store = store_with(4, &tiles);
        let before = total(&store);
        store.shift(direction);
        assert_eq!(total(&store), before);
    }
}

#[test]
fn full_board_without_equal_neighbours_does_not_move() {
    let mut tiles = Vec::new();
    for x in 0..4u8 {
        for y in 0..4u8 {
            tiles.push((x, y, 1u32 << (1 + x * 4 + y)));
        }
    }
    for direction in [BoardShift::Left, BoardShift::Right, BoardShift::Up, BoardShift::Down] {
        let mut store = store_with(4, &tiles);
        let before = layout(&store);
        let outcome = store.shift(direction);
        assert!(!outcome.moved);
        assert_eq!(outcome.score_delta, 0);
        assert_eq!(layout(&store), before);
        assert!(!store.has_move());
    }
}

#[test]
fn largest_tiles_do_not_merge() {
    let big = 1u32 << 31;
    let mut store = store_with(4, &[(0, 0, big), (1, 0, big)]);
    let outcome = store.shift(BoardShift::Left);
    assert!(!outcome.moved);
    assert_eq!(store.len(), 2);
    let half = 1u32 << 30;
    let mut store = store_with(4, &[(0, 0, half), (1, 0, half)]);
    let outcome = store.shift(BoardShift::Left);
    assert_eq!(layout(&store), vec![(0, 0, big)]);
    assert_eq!(outcome.score_delta, big as u64);
}

#[test]
fn has_move_finds_equal_neighbours() {
    let store = store_with(4, &[(0, 0, 2), (0, 1, 2)]);
    assert!(store.has_move());
    let store = store_with(4, &[(0, 0, 2), (1, 1, 2)]);
    assert!(!store.has_move());
    let store = store_with(4, &[(2, 3, 4), (3, 3, 4)]);
    assert!(store.has_move());
    let store = store_with(4, &[]);
    assert!(!store.has_move());
}

#[test]
fn insert_hands_out_fresh_identities() {
    let mut store = TileStore::new(4);
    assert_eq!(store.insert(pos(0, 0), 2), Some(0));
    assert_eq!(store.insert(pos(1, 0), 2), Some(1));
    assert_eq!(store.insert(pos(3, 3), 4), Some(2));
    assert_eq!(store.len(), 3);
    assert!(store.is_occupied(pos(1, 0)));
    assert!(!store.is_occupied(pos(2, 0)));
}

#[test]
fn remove_and_update_tiles() {
    let mut store = TileStore::new(4);
    let a = store.insert(pos(0, 0), 2).unwrap();
    let b = store.insert(pos(1, 0), 4).unwrap();
    assert!(!store.update(a, pos(1, 0), 8));
    assert!(!store.update(a, pos(9, 0), 8));
    assert!(!store.update(a, pos(2, 2), 0));
    assert!(store.update(a, pos(2, 2), 8));
    assert!(store.update(a, pos(2, 2), 16));
    assert_eq!(layout(&store), vec![(1, 0, 4), (2, 2, 16)]);
    assert!(store.remove(b));
    assert!(!store.remove(b));
    assert!(!store.update(b, pos(3, 3), 2));
    assert_eq!(layout(&store), vec![(2, 2, 16)]);
    let c = store.insert(pos(0, 0), 2).unwrap();
    assert_ne!(c, a);
    assert_ne!(c, b);
    store.clear();
    assert_eq!(store.len(), 0);
    assert_eq!(store.insert(pos(0, 0), 2), Some(c + 1));
}

#[test]
fn free_cells_lists_the_empty_cells() {
    let store = store_with(2, &[(0, 1, 2), (1, 0, 2)]);
    assert_eq!(store.free_cells(), vec![pos(0, 0), pos(1, 1)]);
    let full = store_with(1, &[(0, 0, 2)]);
    assert!(full.free_cells().is_empty());
}

#[test]
fn board_cells_go_column_by_column() {
    let board = Board::new(2);
    assert_eq!(board.size, 2);
    assert_eq!(board.cells(), vec![pos(0, 0), pos(0, 1), pos(1, 0), pos(1, 1)]);
    assert_eq!(Board::new(4).cells().len(), 16);
}

#[test]
fn sort_orders_by_line_then_from_the_leading_edge() {
    let a = pos(1, 0);
    let b = pos(2, 0);
    let c = pos(0, 1);
    assert_eq!(BoardShift::Left.sort(&a, &b), Ordering::Less);
    assert_eq!(BoardShift::Right.sort(&a, &b), Ordering::Greater);
    assert_eq!(BoardShift::Left.sort(&b, &c), Ordering::Less);
    assert_eq!(BoardShift::Right.sort(&b, &c), Ordering::Less);
    assert_eq!(BoardShift::Up.sort(&pos(0, 3), &pos(0, 1)), Ordering::Less);
    assert_eq!(BoardShift::Down.sort(&pos(0, 3), &pos(0, 1)), Ordering::Greater);
    assert_eq!(BoardShift::Up.sort(&pos(0, 0), &pos(1, 3)), Ordering::Less);
    assert_eq!(BoardShift::Down.sort(&a, &a), Ordering::Equal);
}

#[test]
fn set_column_position_counts_from_the_leading_edge() {
    let mut p = pos(2, 1);
    BoardShift::Left.set_column_position(4, &mut p, 0);
    assert_eq!(p, pos(0, 1));
    BoardShift::Right.set_column_position(4, &mut p, 1);
    assert_eq!(p, pos(2, 1));
    BoardShift::Up.set_column_position(4, &mut p, 0);
    assert_eq!(p, pos(2, 3));
    BoardShift::Down.set_column_position(4, &mut p, 2);
    assert_eq!(p, pos(2, 2));
}

#[test]
fn get_row_position_picks_the_line() {
    let p = pos(1, 3);
    assert_eq!(BoardShift::Left.get_row_position(&p), 3);
    assert_eq!(BoardShift::Right.get_row_position(&p), 3);
    assert_eq!(BoardShift::Up.get_row_position(&p), 1);
    assert_eq!(BoardShift::Down.get_row_position(&p), 1);
}

#[test]
fn keys_map_to_directions() {
    assert_eq!(BoardShift::try_from(&Key::Left), Ok(BoardShift::Left));
    assert_eq!(BoardShift::try_from(&Key::Right), Ok(BoardShift::Right));
    assert_eq!(BoardShift::try_from(&Key::Up), Ok(BoardShift::Up));
    assert_eq!(BoardShift::try_from(&Key::Down), Ok(BoardShift::Down));
    assert_eq!(BoardShift::try_from(&Key::Other), Err(""));
}

#[test]
fn tile_snapshot_matches_inserts() {
    let store = store_with(3, &[(2, 2, 2), (0, 1, 4)]);
    let tiles: Vec<Tile> = store.get_all();
    assert_eq!(tiles.len(), 2);
    assert_eq!(tiles[0], Tile { id: 0, position: pos(2, 2), value: 2 });
    assert_eq!(tiles[1], Tile { id: 1, position: pos(0, 1), value: 4 });
    assert_eq!(store.size(), 3);
}
