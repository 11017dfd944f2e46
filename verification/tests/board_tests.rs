use duo2048::game_board::{Direction, GameBoard};

#[test]
fn test_reset_board() {
    let mut game = GameBoard::new();
    game.get_tiles_mut()[0][0] = 2;
    game.reset_board();
    assert!(game.get_tiles().iter().flatten().all(|&x| x == 0));
}

#[test]
fn test_save_and_undo() {
    let mut game = GameBoard::new();
    game.get_tiles_mut()[0][0] = 2;
    game.save_current_state();
    game.get_tiles_mut()[0][0] = 4;
    game.undo_move();
    assert_eq!(game.get_tiles()[0][0], 2);
}

#[test]
fn test_return_score() {
    let mut game = GameBoard::new();
    game.set_tiles(vec![
        vec![2, 4, 8, 16],
        vec![32, 64, 128, 256],
        vec![0, 0, 0, 0],
        vec![0, 0, 0, 0],
    ]);
    let points = game.return_score();
    assert_eq!(points.0, 510);
}

#[test]
fn test_check_game_over() {
    let mut game = GameBoard::new();
    game.set_tiles(vec![
        vec![2, 4, 8, 16],
        vec![32, 64, 128, 256],
        vec![2, 4, 8, 16],
        vec![32, 64, 128, 256],
    ]);
    game.spawn_tile();
    println!("{:?}", game.check_game_over());
}

#[test]
fn game_board_test_move_abstract() {
    let line_ori = vec![2, 4, 4, 2];
    let line_new = vec![2, 8, 2, 0];
    let game = GameBoard::new();
    let new_line = game.move_abstract(line_ori);
    assert_eq!(new_line, line_new);
}

#[test]
fn test_move_tiles_complicated_right() {
    let mut game = GameBoard::new();
    game.set_tiles(vec![
        vec![2, 2, 4, 4],
        vec![4, 4, 2, 2],
        vec![0, 4, 4, 4],
        vec![2, 0, 0, 2],
    ]);
    game.move_tiles(Direction::Right);
    let expected = vec![
        vec![0, 0, 4, 8],
        vec![0, 0, 8, 4],
        vec![0, 0, 4, 8],
        vec![0, 0, 0, 4],
    ];
    assert_eq!(game.get_tiles(), &expected);
}

#[test]
fn test_move_tiles_complicated_left() {
    let mut game = GameBoard::new();
    game.set_tiles(vec![
        vec![2, 2, 4, 4],
        vec![4, 4, 2, 2],
        vec![4, 4, 4, 0],
        vec![2, 0, 0, 2],
    ]);
    game.move_tiles(Direction::Left);
    let expected = vec![
        vec![4, 8, 0, 0],
        vec![8, 4, 0, 0],
        vec![8, 4, 0, 0],
        vec![4, 0, 0, 0],
    ];
    assert_eq!(game.get_tiles(), &expected);
}

#[test]
fn test_move_tiles_complicated_up() {
    let mut game = GameBoard::new();
    game.set_tiles(vec![
        vec![2, 4, 0, 2],
        vec![2, 4, 0, 2],
        vec![4, 0, 4, 0],
        vec![4, 2, 4, 2],
    ]);
    game.move_tiles(Direction::Up);
    let expected = vec![
        vec![4, 8, 8, 4],
        vec![8, 2, 0, 2],
        vec![0, 0, 0, 0],
        vec![0, 0, 0, 0],
    ];
    assert_eq!(game.get_tiles(), &expected);
}

#[test]
fn test_move_tiles_complicated_down() {
    let mut game = GameBoard::new();
    game.set_tiles(vec![
        vec![2, 4, 0, 2],
        vec![2, 4, 0, 2],
        vec![4, 0, 4, 0],
        vec![4, 2, 4, 2],
    ]);
    game.move_tiles(Direction::Down);
    let expected = vec![
        vec![0, 0, 0, 0],
        vec![0, 0, 0, 0],
        vec![4, 8, 0, 2],
        vec![8, 2, 8, 4],
    ];
    assert_eq!(game.get_tiles(), &expected);
}

#[test]
fn test_move_tiles_complicated_down_1() {
    let mut game = GameBoard::new();
    game.set_tiles(vec![
        vec![2, 4, 0, 2],
        vec![2, 4, 0, 0],
        vec![4, 0, 4, 2],
        vec![4, 2, 4, 2],
    ]);
    game.move_tiles(Direction::Down);
    let expected = vec![
        vec![0, 0, 0, 0],
        vec![0, 0, 0, 0],
        vec![4, 8, 0, 2],
        vec![8, 2, 8, 4],
    ];
    assert_eq!(game.get_tiles(), &expected);
}

#[test]
fn test_move_tiles_really_complicated_right() {
    let mut game = GameBoard::new();
    game.set_tiles(vec![
        vec![2, 2, 2, 2],
        vec![2, 2, 2, 2],
        vec![2, 2, 2, 2],
        vec![2, 2, 2, 2],
    ]);
    game.move_tiles(Direction::Right);
    let expected = vec![
        vec![0, 0, 4, 4],
        vec![0, 0, 4, 4],
        vec![0, 0, 4, 4],
        vec![0, 0, 4, 4],
    ];
    assert_eq!(game.get_tiles(), &expected);
}

#[test]
fn test_move_tiles_really_complicated_left() {
    let mut game = GameBoard::new();
    game.set_tiles(vec![
        vec![2, 2, 2, 2],
        vec![2, 2, 2, 2],
        vec![2, 2, 2, 2],
        vec![2, 2, 2, 2],
    ]);
    game.move_tiles(Direction::Left);
    let expected = vec![
        vec![4, 4, 0, 0],
        vec![4, 4, 0, 0],
        vec![4, 4, 0, 0],
        vec![4, 4, 0, 0],
    ];
    assert_eq!(game.get_tiles(), &expected);
}

#[test]
fn test_move_tiles_really_complicated_up() {
    let mut game = GameBoard::new();
    game.set_tiles(vec![
        vec![2, 2, 2, 2],
        vec![2, 2, 2, 2],
        vec![2, 2, 2, 2],
        vec![2, 2, 2, 2],
    ]);
    game.move_tiles(Direction::Up);
    let expected = vec![
        vec![4, 4, 4, 4],
        vec![4, 4, 4, 4],
        vec![0, 0, 0, 0],
        vec![0, 0, 0, 0],
    ];
    assert_eq!(game.get_tiles(), &expected);
}

#[test]
fn test_move_tiles_really_complicated_do_not_mix() {
    let mut game = GameBoard::new();
    game.set_tiles(vec![
        vec![2, 2, 2, 2],
        vec![4, 4, 4, 4],
        vec![2, 2, 2, 2],
        vec![4, 4, 4, 4],
    ]);
    game.move_tiles(Direction::Up);
    game.move_tiles(Direction::Down);
    let expected = vec![
        vec![2, 2, 2, 2],
        vec![4, 4, 4, 4],
        vec![2, 2, 2, 2],
        vec![4, 4, 4, 4],
    ];
    assert_eq!(game.get_tiles(), &expected);
}

#[test]
fn test_move_tiles_really_complicated_complete() {
    let mut game = GameBoard::new();
    game.set_tiles(vec![
        vec![2, 2, 2, 2],
        vec![4, 4, 4, 4],
        vec![2, 2, 2, 2],
        vec![4, 4, 4, 4],
    ]);
    game.move_tiles(Direction::Up);
    game.move_tiles(Direction::Down);
    game.move_tiles(Direction::Left);
    game.move_tiles(Direction::Right);
    let expected = vec![
        vec![0, 0, 0, 8],
        vec![0, 0, 0, 16],
        vec![0, 0, 0, 8],
        vec![0, 0, 0, 16],
    ];
    assert_eq!(game.get_tiles(), &expected);
}

#[test]
fn test_move_example_left() {
    let mut game = GameBoard::new();
    game.set_tiles(vec![
        vec![2, 2, 4, 4],
        vec![4, 4, 0, 0],
        vec![0, 4, 4, 4],
        vec![2, 0, 0, 2],
    ]);
    game.move_tiles(Direction::Left);
    let expected = vec![
        vec![4, 8, 0, 0],
        vec![8, 0, 0, 0],
        vec![8, 4, 0, 0],
        vec![4, 0, 0, 0],
    ];
    assert_eq!(game.get_tiles(), &expected);
}

#[test]
fn test_move_preserves_total() {
    let mut game = GameBoard::new();
    game.set_tiles(vec![
        vec![2, 2, 4, 4],
        vec![4, 4, 0, 0],
        vec![0, 4, 4, 4],
        vec![2, 0, 0, 2],
    ]);
    let before = game.return_score().0;
    game.move_tiles(Direction::Left);
    assert_eq!(game.return_score().0, before);
    game.move_tiles(Direction::Down);
    assert_eq!(game.return_score().0, before);
}

#[test]
fn test_move_on_settled_board_changes_nothing() {
    let mut game = GameBoard::new();
    // every tile is against the left edge and no neighbours match
    let settled = vec![
        vec![2, 4, 2, 4],
        vec![4, 2, 0, 0],
        vec![2, 0, 0, 0],
        vec![0, 0, 0, 0],
    ];
    game.set_tiles(settled.clone());
    game.move_tiles(Direction::Left);
    assert_eq!(game.get_tiles(), &settled);
}

#[test]
fn test_terminal_loss_on_full_static_board() {
    let mut game = GameBoard::new();
    game.set_tiles(vec![
        vec![2, 4, 2, 4],
        vec![4, 2, 4, 2],
        vec![2, 4, 2, 4],
        vec![4, 2, 4, 2],
    ]);
    assert!(game.check_game_over());
    assert!(!game.return_if_win());
}

#[test]
fn test_terminal_win_with_2048_tile() {
    let mut game = GameBoard::new();
    let mut tiles = vec![vec![0u32; 4]; 4];
    tiles[2][1] = 2048;
    game.set_tiles(tiles);
    assert!(game.check_game_over());
    assert!(game.return_if_win());
}

#[test]
fn test_full_board_with_merge_continues() {
    let mut game = GameBoard::new();
    game.set_tiles(vec![
        vec![2, 4, 2, 4],
        vec![4, 2, 4, 2],
        vec![2, 4, 2, 2],
        vec![4, 2, 4, 4],
    ]);
    assert!(!game.check_game_over());
}

#[test]
fn test_spawn_fills_one_empty_cell() {
    let mut game = GameBoard::new();
    game.spawn_tile();
    let filled: Vec<u32> = game
        .get_tiles()
        .iter()
        .flatten()
        .copied()
        .filter(|&x| x != 0)
        .collect();
    assert_eq!(filled.len(), 1);
    assert!(filled[0] == 2 || filled[0] == 4);
}

#[test]
fn test_spawn_on_full_board_is_a_no_op() {
    let mut game = GameBoard::new();
    let full = vec![
        vec![2, 4, 2, 4],
        vec![4, 2, 4, 2],
        vec![2, 4, 2, 4],
        vec![4, 2, 4, 2],
    ];
    game.set_tiles(full.clone());
    game.spawn_tile();
    assert_eq!(game.get_tiles(), &full);
}

#[test]
fn test_direction_opposite() {
    assert_eq!(Direction::Up.opposite(), Direction::Down);
    assert_eq!(Direction::Down.opposite(), Direction::Up);
    assert_eq!(Direction::Left.opposite(), Direction::Right);
    assert_eq!(Direction::Right.opposite(), Direction::Left);
}
