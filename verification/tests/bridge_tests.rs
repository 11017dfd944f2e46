use duo2048::bridge::Bridge;
use duo2048::game_board::{Direction, GameBoard};

#[test]
fn bridge_test_move_abstract() {
    let mut line1 = vec![0, 0, 0, 0];
    let mut line2 = vec![0, 0, 0, 0];
    let expect = vec![0, 0, 0, 0];
    let mut bridge = Bridge::new(false, Direction::Left, true, 0, 1, 2);
    bridge.send_abstract(&mut line1, &mut line2);
    assert_eq!(line1, expect);
}

#[test]
fn test_send_through_bridge() {
    let mut game = GameBoard::new();
    *game.get_tiles_mut() = vec![
        vec![2, 2, 4, 4],
        vec![4, 4, 0, 0],
        vec![0, 4, 4, 4],
        vec![2, 0, 0, 2],
    ];
    let mut game2 = GameBoard::new();
    *game2.get_tiles_mut() = vec![
        vec![0, 0, 0, 0],
        vec![0, 0, 0, 4],
        vec![0, 0, 0, 0],
        vec![0, 0, 0, 0],
    ];

    let mut bridge = Bridge::new(true, Direction::Left, true, 1, 1, 200);
    let animinated_vector = bridge.send_through_bridge(&mut game2, &mut game, Direction::Right);

    let expected1 = vec![
        vec![2, 2, 4, 4],
        vec![0, 0, 0, 0],
        vec![0, 4, 4, 4],
        vec![2, 0, 0, 2],
    ];
    let expected2 = vec![
        vec![0, 0, 0, 0],
        vec![0, 4, 4, 4],
        vec![0, 0, 0, 0],
        vec![0, 0, 0, 0],
    ];

    assert_eq!(*game.get_tiles(), expected1);
    assert_eq!(*game2.get_tiles(), expected2);
    match animinated_vector {
        Some(animinated_vector) => {
            assert_eq!(animinated_vector, vec![4, 4]);
        }
        None => {
            assert!(false);
        }
    }
}

#[test]
fn test_transfer_into_receiving_tail() {
    // receiving line [0,0,0,0], sending line [0,0,0,4], oriented so the
    // receiving line's tail is the entry point
    let mut receiver = GameBoard::new();
    let mut sender = GameBoard::new();
    *sender.get_tiles_mut() = vec![
        vec![0, 0, 0, 0],
        vec![0, 0, 0, 0],
        vec![0, 0, 0, 4],
        vec![0, 0, 0, 0],
    ];
    let mut bridge = Bridge::new(true, Direction::Right, true, 2, 2, 5);
    let moved = bridge.send_through_bridge(&mut receiver, &mut sender, Direction::Right);
    assert_eq!(receiver.get_tiles()[2], vec![0, 0, 0, 4]);
    assert_eq!(sender.get_tiles()[2], vec![0, 0, 0, 0]);
    assert_eq!(moved, Some(vec![4]));
    assert_eq!(bridge.remaining_limit(), 4);
}

#[test]
fn test_transfer_quota_caps_moved_tiles() {
    let mut line_recv = vec![0, 0, 0, 0];
    let mut line_send = vec![2, 4, 0, 0];
    let mut bridge = Bridge::new(true, Direction::Left, true, 0, 0, 1);
    let moved = bridge.send_abstract(&mut line_recv, &mut line_send);
    assert_eq!(moved, vec![2]);
    assert_eq!(line_recv, vec![2, 0, 0, 0]);
    assert_eq!(line_send, vec![0, 4, 0, 0]);
    assert_eq!(bridge.remaining_limit(), 0);
}

#[test]
fn test_quota_cap_keeps_tail_alignment() {
    // the quota bounds how many tiles move, never where they land: the
    // first landing cell is the start of the trailing empty run
    let mut line_recv = vec![0, 0, 0, 0];
    let mut line_send = vec![5, 0, 0, 0];
    let mut bridge = Bridge::new(true, Direction::Left, true, 0, 0, 2);
    let moved = bridge.send_abstract(&mut line_recv, &mut line_send);
    assert_eq!(moved, vec![5]);
    assert_eq!(line_recv, vec![5, 0, 0, 0]);
    assert_eq!(line_send, vec![0, 0, 0, 0]);
    assert_eq!(bridge.remaining_limit(), 1);
}

#[test]
fn test_quota_cap_with_partial_trailing_run() {
    // receiving tail offers three cells; the quota lets two tiles move,
    // landing at the run's first cells
    let mut line_recv = vec![8, 0, 0, 0];
    let mut line_send = vec![2, 4, 16, 0];
    let mut bridge = Bridge::new(true, Direction::Left, true, 0, 0, 2);
    let moved = bridge.send_abstract(&mut line_recv, &mut line_send);
    assert_eq!(moved, vec![2, 4]);
    assert_eq!(line_recv, vec![8, 2, 4, 0]);
    assert_eq!(line_send, vec![0, 0, 16, 0]);
    assert_eq!(bridge.remaining_limit(), 0);
}

#[test]
fn test_transfer_refused_when_closed() {
    let mut receiver = GameBoard::new();
    let mut sender = GameBoard::new();
    *sender.get_tiles_mut() = vec![
        vec![0, 0, 0, 0],
        vec![0, 0, 0, 0],
        vec![2, 0, 0, 0],
        vec![0, 0, 0, 0],
    ];
    let mut bridge = Bridge::new(true, Direction::Right, false, 2, 2, 5);
    let before_send = sender.get_tiles().clone();
    let moved = bridge.send_through_bridge(&mut receiver, &mut sender, Direction::Right);
    assert!(moved.is_none());
    assert_eq!(*sender.get_tiles(), before_send);
    assert_eq!(bridge.remaining_limit(), 5);
}

#[test]
fn test_transfer_refused_vertically() {
    let mut receiver = GameBoard::new();
    let mut sender = GameBoard::new();
    *sender.get_tiles_mut() = vec![
        vec![0, 0, 0, 0],
        vec![0, 0, 0, 0],
        vec![2, 0, 0, 0],
        vec![0, 0, 0, 0],
    ];
    let mut bridge = Bridge::new(true, Direction::Right, true, 2, 2, 5);
    let moved = bridge.send_through_bridge(&mut receiver, &mut sender, Direction::Up);
    assert!(moved.is_none());
    assert_eq!(bridge.remaining_limit(), 5);
}

#[test]
fn test_transfer_refused_against_configured_direction() {
    let mut receiver = GameBoard::new();
    let mut sender = GameBoard::new();
    *sender.get_tiles_mut() = vec![
        vec![0, 0, 0, 0],
        vec![0, 0, 0, 0],
        vec![2, 0, 0, 0],
        vec![0, 0, 0, 0],
    ];
    let mut bridge = Bridge::new(false, Direction::Right, true, 2, 2, 5);
    let moved = bridge.send_through_bridge(&mut receiver, &mut sender, Direction::Left);
    assert!(moved.is_none());
}

#[test]
fn test_transfer_refused_with_nothing_to_send() {
    let mut receiver = GameBoard::new();
    let mut sender = GameBoard::new();
    let mut bridge = Bridge::new(true, Direction::Right, true, 2, 2, 5);
    let moved = bridge.send_through_bridge(&mut receiver, &mut sender, Direction::Right);
    assert!(moved.is_none());
    assert_eq!(bridge.remaining_limit(), 5);
}

#[test]
fn test_transfer_refused_when_quota_exhausted() {
    let mut receiver = GameBoard::new();
    let mut sender = GameBoard::new();
    *sender.get_tiles_mut() = vec![
        vec![0, 0, 0, 0],
        vec![0, 0, 0, 0],
        vec![2, 0, 0, 0],
        vec![0, 0, 0, 0],
    ];
    let mut bridge = Bridge::new(true, Direction::Right, true, 2, 2, 0);
    let moved = bridge.send_through_bridge(&mut receiver, &mut sender, Direction::Right);
    assert!(moved.is_none());
}

#[test]
fn test_update_status() {
    let mut bridge = Bridge::new(false, Direction::Left, false, 0, 0, 0);
    bridge.update_status(true, Direction::Right, true, 2, 3, 9);
    assert_eq!(bridge.remaining_limit(), 9);
}
