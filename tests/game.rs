use boxes::direction::Key;
use boxes::game::{Game, RunState, NEW_TILE_VALUE};
use boxes::grid::Position;
use boxes::tiles::TileStore;

fn pos(x: u8, y: u8) -> Position {
    Position { x, y }
}

fn game_with(size: u8, tiles: &[(u8, u8, u32)], seed: u64) -> Game {
    let mut store = TileStore::new(size);
    for &(x, y, v) in tiles {
        assert!(store.insert(pos(x, y), v).is_some());
    }
    Game::from_tiles(store, seed)
}

fn layout(game: &Game) -> Vec<(u8, u8, u32)> {
    let mut v: Vec<(u8, u8, u32)> =
        game.tiles().iter().map(|t| (t.position.x, t.position.y, t.value)).collect();
    v.sort();
    v
}

#[test]
fn new_game_starts_with_two_tiles_of_two() {
    let game = Game::new(4, 7);
    let tiles = game.tiles();
    assert_eq!(tiles.len(), 2);
    assert!(tiles.iter().all(|t| t.value == NEW_TILE_VALUE));
    assert_ne!(tiles[0].position, tiles[1].position);
    assert!(tiles.iter().all(|t| t.position.x < 4 && t.position.y < 4));
    assert_eq!(game.current_score(), 0);
    assert_eq!(game.best_score(), 0);
    assert_eq!(game.phase(), RunState::Playing);
    assert_eq!(game.board_size(), 4);
}

#[test]
fn same_seed_same_game() {
    let mut a = Game::new(4, 42);
    let mut b = Game::new(4, 42);
    assert_eq!(layout(&a), layout(&b));
    for key in [Key::Left, Key::Up, Key::Right, Key::Down, Key::Left] {
        assert_eq!(a.board_shift(key), b.board_shift(key));
        assert_eq!(layout(&a), layout(&b));
    }
}

#[test]
fn one_cell_board_starts_with_one_tile() {
    let game = Game::new(1, 3);
    assert_eq!(layout(&game), vec![(0, 0, 2)]);
}

#[test]
fn shift_scores_and_spawns() {
    let mut game = game_with(4, &[(0, 0, 2), (1, 0, 2), (3, 0, 4)], 1);
    assert!(game.board_shift(Key::Left));
    assert_eq!(game.current_score(), 4);
    assert_eq!(game.best_score(), 4);
    let tiles = layout(&game);
    assert_eq!(tiles.len(), 3);
    assert!(tiles.contains(&(0, 0, 4)));
    assert!(tiles.contains(&(1, 0, 4)));
    let total: u32 = tiles.iter().map(|t| t.2).sum();
    assert_eq!(total, 10);
}

#[test]
fn shift_that_moves_nothing_spawns_nothing() {
    let mut game = game_with(4, &[(0, 0, 2), (1, 0, 4)], 1);
    assert!(!game.board_shift(Key::Left));
    assert_eq!(layout(&game), vec![(0, 0, 2), (1, 0, 4)]);
    assert_eq!(game.current_score(), 0);
}

#[test]
fn other_keys_are_ignored() {
    let mut game = game_with(4, &[(3, 0, 2)], 1);
    assert!(!game.board_shift(Key::Other));
    assert_eq!(layout(&game), vec![(3, 0, 2)]);
}

#[test]
fn score_never_decreases_and_best_follows() {
    let mut game = Game::new(4, 2024);
    let keys = [Key::Left, Key::Down, Key::Right, Key::Up];
    let mut last = 0;
    for i in 0..200 {
        game.board_shift(keys[i % 4]);
        assert!(game.current_score() >= last);
        assert!(game.best_score() >= game.current_score());
        last = game.current_score();
    }
}

#[test]
fn full_board_without_equal_neighbours_ends_the_game() {
    let mut tiles = Vec::new();
    for x in 0..4u8 {
        for y in 0..4u8 {
            tiles.push((x, y, if (x + y) % 2 == 0 { 2 } else { 4 }));
        }
    }
    let mut game = game_with(4, &tiles, 9);
    for key in [Key::Left, Key::Right, Key::Up, Key::Down] {
        assert!(!game.board_shift(key));
        assert_eq!(game.current_score(), 0);
    }
    assert_eq!(game.phase(), RunState::GameOver);
    assert!(!game.board_shift(Key::Left));
}

#[test]
fn full_board_with_equal_neighbours_keeps_playing() {
    let mut tiles = Vec::new();
    for x in 0..4u8 {
        for y in 0..4u8 {
            tiles.push((x, y, 1u32 << (1 + x * 4 + y)));
        }
    }
    tiles[0].2 = tiles[1].2;
    let mut game = game_with(4, &tiles, 9);
    game.end_game();
    assert_eq!(game.phase(), RunState::Playing);
    let mut distinct = tiles.clone();
    distinct[0].2 = 1 << 20;
    let mut over = game_with(4, &distinct, 9);
    over.end_game();
    assert_eq!(over.phase(), RunState::GameOver);
}

#[test]
fn board_that_is_not_full_keeps_playing() {
    let mut game = game_with(4, &[(0, 0, 2), (1, 1, 4)], 5);
    game.end_game();
    assert_eq!(game.phase(), RunState::Playing);
}

#[test]
fn reset_clears_score_and_keeps_best() {
    let mut game = game_with(4, &[(0, 0, 8), (1, 0, 8)], 11);
    assert!(game.board_shift(Key::Left));
    assert_eq!(game.current_score(), 16);
    game.game_reset();
    assert_eq!(game.current_score(), 0);
    assert_eq!(game.best_score(), 16);
    assert_eq!(game.phase(), RunState::Playing);
    let tiles = layout(&game);
    assert_eq!(tiles.len(), 2);
    assert!(tiles.iter().all(|t| t.2 == 2));
}

#[test]
fn spawn_tile_fills_a_free_cell() {
    let mut game = game_with(2, &[(0, 0, 2), (0, 1, 4), (1, 0, 8)], 3);
    game.spawn_tile();
    assert_eq!(layout(&game), vec![(0, 0, 2), (0, 1, 4), (1, 0, 8), (1, 1, 2)]);
    game.spawn_tile();
    assert_eq!(game.tiles().len(), 4);
}

#[test]
fn spawn_tiles_on_a_board_with_one_free_cell() {
    let mut game = game_with(2, &[(0, 0, 2), (0, 1, 4), (1, 0, 8)], 3);
    game.spawn_tiles();
    assert_eq!(layout(&game), vec![(0, 0, 2), (0, 1, 4), (1, 0, 8), (1, 1, 2)]);
}

#[test]
fn spawn_adds_exactly_two() {
    let mut game = game_with(4, &[(0, 0, 2), (1, 2, 8), (3, 3, 4)], 17);
    game.spawn_tile();
    let tiles = layout(&game);
    assert_eq!(tiles.len(), 4);
    let total: u32 = tiles.iter().map(|t| t.2).sum();
    assert_eq!(total, 16);
}
