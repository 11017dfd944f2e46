use duo2048::game::{Coordinates, Grid, Flip, Move, Position};
use duo2048::game_controller::GameController;
use duo2048::gui::GUI;
use duo2048::io_manager::{direction_for_key, IOManager, InputAction};
use duo2048::game_board::Direction;

#[test]
fn test_grid_new_has_starting_tile() {
    let mut grid = Grid::new(10, 4);
    let start = grid.get_tile(Position::new(1, 1));
    assert!(start.is_some());
    assert_eq!(start.unwrap().n, 2);
    assert!(grid.get_tile(Position::new(0, 0)).is_none());
}

#[test]
fn test_insert_get_remove_tile() {
    let mut grid = Grid::new(10, 4);
    grid.insert_tile(Position::new(3, 2), 8);
    assert_eq!(grid.get_tile(Position::new(3, 2)).unwrap().n, 8);
    grid.insert_tile(Position::new(3, 2), 16);
    assert_eq!(grid.get_tile(Position::new(3, 2)).unwrap().n, 16);
    grid.remove_tile(Position::new(3, 2));
    assert!(grid.get_tile(Position::new(3, 2)).is_none());
}

#[test]
fn test_get_tile_mut_rewrites_number() {
    let mut grid = Grid::new(10, 4);
    match grid.get_tile_mut(Position::new(1, 1)) {
        Some(tile) => tile.update_n(64),
        None => panic!("the starting tile must be there"),
    }
    assert_eq!(grid.get_tile(Position::new(1, 1)).unwrap().n, 64);
    assert!(grid.get_tile_mut(Position::new(0, 3)).is_none());
}

#[test]
fn test_flip_horizontal_mirrors_squares() {
    let mut grid = Grid::new(10, 4);
    grid.insert_tile(Position::new(0, 2), 4);
    grid.flip(Flip::Horizontal);
    assert_eq!(grid.get_tile(Position::new(3, 2)).unwrap().n, 4);
    assert_eq!(grid.get_tile(Position::new(2, 1)).unwrap().n, 2);
    assert!(grid.get_tile(Position::new(0, 2)).is_none());
}

#[test]
fn test_check_finds_leftward_slide() {
    let mut grid = Grid::new(10, 4);
    let moves = grid.check(Move::Left);
    assert_eq!(moves, vec![(Position::new(1, 1), Position::new(0, 1))]);
}

#[test]
fn test_check_leaves_grid_unchanged() {
    let mut grid = Grid::new(10, 4);
    grid.insert_tile(Position::new(2, 0), 2);
    let tiles_before = grid.tiles.clone();
    let _ = grid.check(Move::Right);
    let _ = grid.check(Move::Up);
    let _ = grid.check(Move::Down);
    assert_eq!(grid.tiles, tiles_before);
}

#[test]
fn test_check_processes_columns_in_order() {
    let mut grid = Grid::new(10, 4);
    // inserted out of order on row 0: the solve must still see the
    // leftmost tile first, so the 2 stops beside the 4
    grid.insert_tile(Position::new(2, 0), 2);
    grid.insert_tile(Position::new(0, 0), 4);
    let moves = grid.check(Move::Left);
    assert!(moves.contains(&(Position::new(2, 0), Position::new(1, 0))));
    assert!(!moves.contains(&(Position::new(2, 0), Position::new(0, 0))));
}

#[test]
fn test_adjust_size_picks_a_fitting_tile_size() {
    let mut grid = Grid::new(6, 4);
    assert!(grid.adjust_size(200, 100).is_ok());
    assert_eq!(grid.tile_width, 10);
    let mut small = Grid::new(10, 4);
    assert!(small.adjust_size(45, 40).is_ok());
    assert_eq!(small.tile_width, 6);
}

#[test]
fn test_adjust_size_rejects_a_tiny_terminal() {
    let mut grid = Grid::new(10, 4);
    let before = grid.tile_width;
    assert!(grid.adjust_size(5, 5).is_err());
    assert_eq!(grid.tile_width, before);
}

#[test]
fn test_game_won_when_2048_present() {
    let mut grid = Grid::new(10, 4);
    grid.insert_tile(Position::new(0, 0), 2048);
    let r = grid.check_if_game_can_continue();
    assert_eq!(r, Err(String::from("Game Won")));
}

#[test]
fn test_game_lost_on_full_static_grid() {
    let mut grid = Grid::new(10, 2);
    grid.insert_tile(Position::new(0, 0), 2);
    grid.insert_tile(Position::new(1, 0), 4);
    grid.insert_tile(Position::new(0, 1), 4);
    // (1, 1) already holds the starting 2: the board is full and inert
    let r = grid.check_if_game_can_continue();
    assert_eq!(r, Err(String::from("Game Lost")));
}

#[test]
fn test_game_continues_with_room() {
    let mut grid = Grid::new(10, 4);
    assert!(grid.check_if_game_can_continue().is_ok());
}

#[test]
fn test_on_tick_completes_a_slide() {
    let mut grid = Grid::new(10, 4);
    assert!(grid.on_tick(Some(Move::Left)).is_ok());
    assert_eq!(grid.moving_tiles.len(), 1);
    for _ in 0..12 {
        let _ = grid.on_tick(None);
    }
    assert_eq!(grid.moving_tiles.len(), 0);
    let landed = grid.get_tile(Position::new(0, 1));
    assert!(landed.is_some());
    assert_eq!(landed.unwrap().n, 2);
    // the finished animation spawned one new tile
    assert_eq!(grid.tiles.len(), 2);
}

#[test]
fn test_grid_geometry() {
    let mut grid = Grid::new(10, 4);
    assert_eq!(grid.width(), 2 + 10 * 4 + 2 * 4);
    assert_eq!(grid.height(), grid.width() / 2);
    let c = grid.get_coordinates_at(Position::new(0, 0));
    assert_eq!(c, Coordinates::new(2, 1));
    grid.mv(Coordinates::new(7, 3));
    let shifted = grid.get_coordinates_at(Position::new(0, 0));
    assert_eq!(shifted, Coordinates::new(9, 4));
    let sim = grid.simulate_size(6);
    assert_eq!(sim.0, 2 + 6 * 4 + 2 * 4 + 7);
}

#[test]
fn test_spawn_random_tile_uses_a_free_square() {
    let mut grid = Grid::new(10, 4);
    grid.spawn_random_tile();
    assert_eq!(grid.tiles.len(), 2);
    for entry in grid.tiles.iter() {
        assert!(entry.1.n == 2 || entry.1.n == 4);
    }
}

#[test]
fn test_key_mapping() {
    assert_eq!(direction_for_key('w'), InputAction::Move(Direction::Up));
    assert_eq!(direction_for_key('a'), InputAction::Move(Direction::Left));
    assert_eq!(direction_for_key('s'), InputAction::Move(Direction::Down));
    assert_eq!(direction_for_key('d'), InputAction::Move(Direction::Right));
    assert_eq!(direction_for_key('q'), InputAction::Quit);
    assert_eq!(direction_for_key('x'), InputAction::Idle);
}

#[test]
fn test_io_manager_paces_input() {
    let mut pacer = IOManager::new(0);
    pacer.update_last_input_time();
    assert!(pacer.interval_elapsed(u64::MAX));
    let strict = IOManager::new(u64::MAX / 2);
    assert!(!strict.interval_elapsed(0));
}

#[test]
fn test_controller_and_gui_shells() {
    let mut controller = GameController::new();
    controller.start();
    controller.update();
    controller.render();
    let gui = GUI::new();
    gui.draw_board();
    gui.update_score(24);
    gui.handle_events();
}
