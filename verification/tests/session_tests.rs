use duo2048::game_board::Direction;
use duo2048::session::{
    matchmaker_step, player_identities, Session, SessionEvent, SessionOutcome,
};

fn board_total(tiles: &Vec<Vec<u32>>) -> u64 {
    tiles.iter().flatten().map(|&x| x as u64).sum()
}

#[test]
fn test_identities_are_one_and_two() {
    let (first, second) = player_identities();
    assert_eq!(first.player_number, 1);
    assert_eq!(second.player_number, 2);
}

#[test]
fn test_matchmaker_holds_first_connection() {
    assert_eq!(matchmaker_step(None, 7), (Some(7), None));
}

#[test]
fn test_matchmaker_pairs_second_connection() {
    assert_eq!(matchmaker_step(Some(7), 9), (None, Some((7, 9))));
}

#[test]
fn test_init_spawns_one_tile_on_each_board() {
    let mut session = Session::new();
    let state = session.init();
    assert_eq!(board_total(&state.board1) % 2, 0);
    assert!(board_total(&state.board1) == 2 || board_total(&state.board1) == 4);
    assert!(board_total(&state.board2) == 2 || board_total(&state.board2) == 4);
    assert!(state.animated_vector.is_none());
    assert!(state.action1.is_none());
    assert!(state.action2.is_none());
    assert!(!state.board1_reach_2048);
    assert!(!state.board2_reach_2048);
}

#[test]
fn test_disconnect_closes_other_and_mutates_nothing() {
    let mut session = Session::new();
    let _ = session.init();
    let before1 = session.boards().0.get_tiles().clone();
    let before2 = session.boards().1.get_tiles().clone();
    let outcome = session.handle_event(false, SessionEvent::Disconnected);
    assert!(matches!(outcome, SessionOutcome::CloseOther));
    assert_eq!(*session.boards().0.get_tiles(), before1);
    assert_eq!(*session.boards().1.get_tiles(), before2);
}

#[test]
fn test_truncated_stream_closes_other() {
    let mut session = Session::new();
    let outcome = session.handle_event(true, SessionEvent::TruncatedStream);
    assert!(matches!(outcome, SessionOutcome::CloseOther));
}

#[test]
fn test_malformed_payload_is_ignored() {
    let mut session = Session::new();
    let _ = session.init();
    let before1 = session.boards().0.get_tiles().clone();
    let outcome = session.handle_event(false, SessionEvent::MalformedPayload);
    assert!(matches!(outcome, SessionOutcome::Ignore));
    assert_eq!(*session.boards().0.get_tiles(), before1);
}

#[test]
fn test_unexpected_message_is_ignored() {
    let mut session = Session::new();
    let outcome = session.handle_event(true, SessionEvent::OtherMessage);
    assert!(matches!(outcome, SessionOutcome::Ignore));
}

#[test]
fn test_action_moves_spawns_and_broadcasts() {
    let mut session = Session::new();
    let outcome = session.handle_event(false, SessionEvent::Action(Direction::Left));
    match outcome {
        SessionOutcome::Broadcast(state) => {
            // empty sending line: the bridge refuses, the move proceeds,
            // and one tile is spawned on the acting board
            assert!(state.animated_vector.is_none());
            let total1 = board_total(&state.board1);
            assert!(total1 == 2 || total1 == 4);
            assert_eq!(board_total(&state.board2), 0);
            assert_eq!(state.action1, Some(Direction::Left));
            assert_eq!(state.action2, None);
        }
        _ => panic!("an action must be answered with a broadcast"),
    }
}

#[test]
fn test_action_by_player_two_marks_their_side() {
    let mut session = Session::new();
    let outcome = session.handle_event(true, SessionEvent::Action(Direction::Up));
    match outcome {
        SessionOutcome::Broadcast(state) => {
            assert_eq!(state.action1, None);
            assert_eq!(state.action2, Some(Direction::Up));
            let total2 = board_total(&state.board2);
            assert!(total2 == 2 || total2 == 4);
        }
        _ => panic!("an action must be answered with a broadcast"),
    }
}

#[test]
fn test_fresh_session_can_step() {
    let session = Session::new();
    assert!(session.can_step());
}

#[test]
fn test_session_conserves_value_but_for_spawns() {
    let mut session = Session::new();
    let _ = session.init();
    let mut steps: u64 = 0;
    let mut total = board_total(session.boards().0.get_tiles()) + board_total(
        session.boards().1.get_tiles(),
    );
    let directions = [Direction::Left, Direction::Up, Direction::Right, Direction::Down];
    for k in 0..8 {
        assert!(session.can_step());
        let _ = session.handle_event(k % 2 == 0, SessionEvent::Action(directions[k % 4]));
        steps += 1;
        let now = board_total(session.boards().0.get_tiles()) + board_total(
            session.boards().1.get_tiles(),
        );
        assert!(now >= total);
        assert!(now <= total + 4);
        total = now;
    }
    assert_eq!(steps, 8);
}
