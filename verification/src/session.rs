//! The per-pair session: two boards, one bridge, and the state machine
//! a server task drives. The server's loop does the reading and writing;
//! every decision — what an event means, how the boards change, what is
//! broadcast — is made here.

use vstd::prelude::*;
use crate::bridge::{
    orient, spec_recv_after, spec_send_after, spec_transferred, Bridge,
};
use crate::game_board::{
    board_sum, board_wf, copy_tiles, lemma_board_sum_nonneg, rows_view, spawn_rel, spec_move,
    Direction, GameBoard,
};
use crate::protocol::{GameState, PlayerIdentity};

verus! {

/// What one read from a peer produced, after decoding.
pub enum SessionEvent {
    /// A framed message decoded to a move request.
    Action(Direction),
    /// A framed message decoded, but not to a move request.
    OtherMessage,
    /// A complete frame arrived whose payload would not decode.
    MalformedPayload,
    /// The peer ended its stream cleanly, between messages.
    Disconnected,
    /// The peer's stream ended in the middle of a frame.
    TruncatedStream,
}

/// What the server task must do next.
pub enum SessionOutcome {
    /// Send this combined state to both peers.
    Broadcast(GameState),
    /// Do nothing: the event carried nothing actionable.
    Ignore,
    /// Close the other peer's connection and end the session.
    CloseOther,
}

/// The seat numbers handed to a fresh pair: the first connection of the
/// pair is player 1, the second player 2.
pub fn player_identities() -> (r: (PlayerIdentity, PlayerIdentity))
    ensures
        r.0.player_number == 1,
        r.1.player_number == 2,
{
    (PlayerIdentity { player_number: 1 }, PlayerIdentity { player_number: 2 })
}

/// One matchmaking step: an incoming connection either waits as the
/// pending one, or pairs with the connection already waiting.
pub fn matchmaker_step(pending: Option<u64>, incoming: u64) -> (r: (
    Option<u64>,
    Option<(u64, u64)>,
))
    ensures
        pending is None ==> r == (Some(incoming), Option::<(u64, u64)>::None),
        pending matches Some(p) ==> r == (Option::<u64>::None, Some((p, incoming))),
{
    match pending {
        None => (Some(incoming), None),
        Some(p) => (None, Some((p, incoming))),
    }
}

/// One paired match: player 1's board, player 2's board, and the bridge
/// between them.
pub struct Session {
    board1: GameBoard,
    board2: GameBoard,
    bridge: Bridge,
}

impl Session {
    /// Player 1's board.
    pub closed spec fn spec_board1(&self) -> GameBoard {
        self.board1
    }

    /// Player 2's board.
    pub closed spec fn spec_board2(&self) -> GameBoard {
        self.board2
    }

    /// The bridge between the boards.
    pub closed spec fn spec_bridge(&self) -> Bridge {
        self.bridge
    }

    /// Both boards are well shaped, their combined value leaves room for
    /// one more spawned tile, and the bridge's line indices are in range.
    pub open spec fn wf(&self) -> bool {
        &&& board_wf(self.spec_board1().view_tiles())
        &&& board_wf(self.spec_board2().view_tiles())
        &&& board_sum(self.spec_board1().view_tiles()) + board_sum(
            self.spec_board2().view_tiles(),
        ) + 4 <= u32::MAX
        &&& 0 <= self.spec_bridge().spec_left_index() < 4
        &&& 0 <= self.spec_bridge().spec_right_index() < 4
    }

    /// A fresh match: two empty boards, and a bridge that sends rightward
    /// only, open, joining the third line of each board, with a quota
    /// that will outlast any real game.
    pub fn new() -> (r: Self)
        ensures
            r.wf(),
            forall|i: int, j: int|
                0 <= i < 4 && 0 <= j < 4 ==> #[trigger] r.spec_board1().view_tiles()[i][j] == 0,
            forall|i: int, j: int|
                0 <= i < 4 && 0 <= j < 4 ==> #[trigger] r.spec_board2().view_tiles()[i][j] == 0,
            !r.spec_board1().spec_reach_2048(),
            !r.spec_board2().spec_reach_2048(),
            r.spec_bridge().spec_bin_direction() == false,
            r.spec_bridge().spec_direction() == Direction::Right,
            r.spec_bridge().spec_open(),
            r.spec_bridge().spec_left_index() == 2,
            r.spec_bridge().spec_right_index() == 2,
            r.spec_bridge().spec_quota() == 999999,
    {
        Session {
            board1: GameBoard::new(),
            board2: GameBoard::new(),
            bridge: Bridge::new(false, Direction::Right, true, 2, 2, 999999),
        }
    }

    /// Read access to the two boards, player 1's first.
    pub fn boards(&self) -> (r: (&GameBoard, &GameBoard))
        ensures
            *r.0 == self.spec_board1(),
            *r.1 == self.spec_board2(),
    {
        (&self.board1, &self.board2)
    }

    /// Read access to the bridge.
    pub fn bridge(&self) -> (r: &Bridge)
        ensures
            *r == self.spec_bridge(),
    {
        &self.bridge
    }

    /// The combined state as both peers should see it, with no action
    /// and no transfer attached.
    fn snapshot(&mut self, animated: Option<Vec<u32>>, action1: Option<Direction>, action2: Option<
        Direction,
    >) -> (r: GameState)
        requires
            board_wf(old(self).spec_board1().view_tiles()),
            board_wf(old(self).spec_board2().view_tiles()),
            board_sum(old(self).spec_board1().view_tiles()) <= u32::MAX,
            board_sum(old(self).spec_board2().view_tiles()) <= u32::MAX,
        ensures
            final(self).spec_board1().view_tiles() == old(self).spec_board1().view_tiles(),
            final(self).spec_board2().view_tiles() == old(self).spec_board2().view_tiles(),
            final(self).spec_board1().view_history() == old(self).spec_board1().view_history(),
            final(self).spec_board2().view_history() == old(self).spec_board2().view_history(),
            final(self).spec_bridge() == old(self).spec_bridge(),
            final(self).spec_board1().spec_reach_2048() == (old(
                self,
            ).spec_board1().spec_reach_2048() || crate::game_board::board_max(
                old(self).spec_board1().view_tiles(),
            ) >= 2048),
            final(self).spec_board2().spec_reach_2048() == (old(
                self,
            ).spec_board2().spec_reach_2048() || crate::game_board::board_max(
                old(self).spec_board2().view_tiles(),
            ) >= 2048),
            !final(self).spec_board1().spec_after_spawn_flag(),
            !final(self).spec_board2().spec_after_spawn_flag(),
            rows_view(r.board1@) == final(self).spec_board1().view_tiles(),
            rows_view(r.board2@) == final(self).spec_board2().view_tiles(),
            r.board1_reach_2048 == final(self).spec_board1().spec_reach_2048(),
            r.board2_reach_2048 == final(self).spec_board2().spec_reach_2048(),
            r.animated_vector == animated,
            r.action1 == action1,
            r.action2 == action2,
    {
        self.board1.check_game_over();
        self.board2.check_game_over();
        let board1 = copy_tiles(self.board1.get_tiles());
        let board2 = copy_tiles(self.board2.get_tiles());
        let board1_reach_2048 = self.board1.return_if_win();
        let board2_reach_2048 = self.board2.return_if_win();
        GameState {
            board1,
            board2,
            board1_reach_2048,
            board2_reach_2048,
            animated_vector: animated,
            action1,
            action2,
        }
    }

    /// Start the match: spawn one tile on each board and build the first
    /// combined state, which carries no action and no transfer.
    pub fn init(&mut self) -> (r: GameState)
        requires
            old(self).wf(),
        ensures
            spawn_rel(old(self).spec_board1().view_tiles(), final(self).spec_board1().view_tiles()),
            spawn_rel(old(self).spec_board2().view_tiles(), final(self).spec_board2().view_tiles()),
            board_sum(final(self).spec_board1().view_tiles()) + board_sum(
                final(self).spec_board2().view_tiles(),
            ) <= board_sum(old(self).spec_board1().view_tiles()) + board_sum(
                old(self).spec_board2().view_tiles(),
            ) + 8,
            board_wf(final(self).spec_board1().view_tiles()),
            board_wf(final(self).spec_board2().view_tiles()),
            final(self).spec_bridge() == old(self).spec_bridge(),
            rows_view(r.board1@) == final(self).spec_board1().view_tiles(),
            rows_view(r.board2@) == final(self).spec_board2().view_tiles(),
            r.board1_reach_2048 == final(self).spec_board1().spec_reach_2048(),
            r.board2_reach_2048 == final(self).spec_board2().spec_reach_2048(),
            r.animated_vector is None,
            r.action1 is None,
            r.action2 is None,
    {
        proof {
            lemma_board_sum_nonneg(old(self).spec_board1().view_tiles());
            lemma_board_sum_nonneg(old(self).spec_board2().view_tiles());
        }
        self.board1.spawn_tile();
        self.board2.spawn_tile();
        self.snapshot(None, None, None)
    }
}

/// How one accepted action changes a session, and what is broadcast.
/// First the bridge is consulted: if the transfer is lawful, the acting
/// board's bridge line feeds the other board's bridge line, and the
/// moved values travel with the broadcast; an unlawful transfer is a
/// no-op. Then the move is applied to the acting board, a tile is
/// spawned on it, and the broadcast carries both boards, both win
/// flags, and which side acted. The boards' combined value grows by at
/// most the spawned tile.
pub open spec fn step_rel(
    pre: Session,
    post: Session,
    player2: bool,
    direction: Direction,
    r: GameState,
) -> bool {
    let b = pre.spec_bridge();
    let li = b.spec_left_index();
    let ri = b.spec_right_index();
    let q = b.spec_quota() as nat;
    let acting0 = if player2 {
        pre.spec_board2()
    } else {
        pre.spec_board1()
    };
    let other0 = if player2 {
        pre.spec_board1()
    } else {
        pre.spec_board2()
    };
    let acting1 = if player2 {
        post.spec_board2()
    } else {
        post.spec_board1()
    };
    let other1 = if player2 {
        post.spec_board1()
    } else {
        post.spec_board2()
    };
    let legal = b.spec_legal(acting0.view_tiles(), direction);
    let rl = orient(other0.view_tiles()[li], direction);
    let sl = orient(acting0.view_tiles()[ri], direction);
    let tr = spec_transferred(rl, sl, q);
    let other_after = if legal {
        other0.view_tiles().update(li, orient(spec_recv_after(rl, sl, q), direction))
    } else {
        other0.view_tiles()
    };
    let acting_mid = if legal {
        acting0.view_tiles().update(ri, orient(spec_send_after(sl, tr.len() as int), direction))
    } else {
        acting0.view_tiles()
    };
    let acting_moved = spec_move(acting_mid, direction);
    &&& spawn_rel(acting_moved, acting1.view_tiles())
    &&& other1.view_tiles() == other_after
    &&& post.spec_bridge().spec_config() == b.spec_config()
    &&& post.spec_bridge().spec_quota() == (if legal {
        b.spec_quota() - tr.len()
    } else {
        b.spec_quota()
    })
    &&& (if legal {
        r.animated_vector matches Some(v) && v@ == tr
    } else {
        r.animated_vector is None
    })
    &&& rows_view(r.board1@) == post.spec_board1().view_tiles()
    &&& rows_view(r.board2@) == post.spec_board2().view_tiles()
    &&& r.board1_reach_2048 == post.spec_board1().spec_reach_2048()
    &&& r.board2_reach_2048 == post.spec_board2().spec_reach_2048()
    &&& acting1.spec_reach_2048() == (acting0.spec_reach_2048() || crate::game_board::board_max(
        acting1.view_tiles(),
    ) >= 2048)
    &&& other1.spec_reach_2048() == (other0.spec_reach_2048() || crate::game_board::board_max(
        other_after,
    ) >= 2048)
    &&& acting1.view_history() == acting0.view_history().push(acting_mid)
    &&& other1.view_history() == other0.view_history()
    &&& r.action1 == (if player2 {
        Option::<Direction>::None
    } else {
        Some(direction)
    })
    &&& r.action2 == (if player2 {
        Some(direction)
    } else {
        Option::<Direction>::None
    })
    &&& board_wf(post.spec_board1().view_tiles())
    &&& board_wf(post.spec_board2().view_tiles())
    &&& board_sum(post.spec_board1().view_tiles()) + board_sum(post.spec_board2().view_tiles())
        <= board_sum(pre.spec_board1().view_tiles()) + board_sum(pre.spec_board2().view_tiles())
        + 4
}

impl Session {
    /// Apply one accepted move request from a peer: consult the bridge,
    /// move the acting board, spawn a tile on it, and return the state
    /// to broadcast. `step_rel` says exactly what happens.
    pub fn handle_action(&mut self, player2: bool, direction: Direction) -> (r: GameState)
        requires
            old(self).wf(),
        ensures
            step_rel(*old(self), *final(self), player2, direction, r),
    {
        proof {
            lemma_board_sum_nonneg(old(self).spec_board1().view_tiles());
            lemma_board_sum_nonneg(old(self).spec_board2().view_tiles());
        }
        let animated: Option<Vec<u32>>;
        if player2 {
            animated = self.bridge.send_through_bridge(&mut self.board1, &mut self.board2, direction);
            self.board2.move_tiles(direction);
            self.board2.spawn_tile();
            proof {
                lemma_board_sum_nonneg(self.spec_board1().view_tiles());
                lemma_board_sum_nonneg(self.spec_board2().view_tiles());
            }
            self.snapshot(animated, None, Some(direction))
        } else {
            animated = self.bridge.send_through_bridge(&mut self.board2, &mut self.board1, direction);
            self.board1.move_tiles(direction);
            self.board1.spawn_tile();
            proof {
                lemma_board_sum_nonneg(self.spec_board1().view_tiles());
                lemma_board_sum_nonneg(self.spec_board2().view_tiles());
            }
            self.snapshot(animated, Some(direction), None)
        }
    }

    /// Dispatch one decoded event from a peer. A move request is applied
    /// and answered with a broadcast. A message of another kind, or a
    /// frame whose payload would not decode, is ignored and the session
    /// goes on. A clean disconnect, or a stream cut off mid-frame, ends
    /// the session: the other peer's connection is to be closed, and the
    /// boards are not touched again.
    pub fn handle_event(&mut self, player2: bool, event: SessionEvent) -> (r: SessionOutcome)
        requires
            old(self).wf(),
        ensures
            match event {
                SessionEvent::Action(d) => r matches SessionOutcome::Broadcast(g) && step_rel(
                    *old(self),
                    *final(self),
                    player2,
                    d,
                    g,
                ),
                SessionEvent::OtherMessage => r is Ignore && *final(self) == *old(self),
                SessionEvent::MalformedPayload => r is Ignore && *final(self) == *old(self),
                SessionEvent::Disconnected => r is CloseOther && *final(self) == *old(self),
                SessionEvent::TruncatedStream => r is CloseOther && *final(self) == *old(self),
            },
    {
        match event {
            SessionEvent::Action(d) => SessionOutcome::Broadcast(self.handle_action(player2, d)),
            SessionEvent::OtherMessage => SessionOutcome::Ignore,
            SessionEvent::MalformedPayload => SessionOutcome::Ignore,
            SessionEvent::Disconnected => SessionOutcome::CloseOther,
            SessionEvent::TruncatedStream => SessionOutcome::CloseOther,
        }
    }

    /// Whether the session may accept another action: the well-formedness
    /// bound still holds after any number of past steps.
    pub fn can_step(&self) -> (r: bool)
        ensures
            r == self.wf(),
    {
        let (b1, b2) = self.boards();
        let shape1 = board_shape_ok(b1.get_tiles());
        let shape2 = board_shape_ok(b2.get_tiles());
        if !shape1 || !shape2 {
            return false;
        }
        proof {
            let v1 = self.spec_board1().view_tiles();
            let v2 = self.spec_board2().view_tiles();
            crate::game_board::lemma_board_sum4(v1);
            crate::game_board::lemma_board_sum4(v2);
            crate::game_board::lemma_line_sum4(v1[0]);
            crate::game_board::lemma_line_sum4(v1[1]);
            crate::game_board::lemma_line_sum4(v1[2]);
            crate::game_board::lemma_line_sum4(v1[3]);
            crate::game_board::lemma_line_sum4(v2[0]);
            crate::game_board::lemma_line_sum4(v2[1]);
            crate::game_board::lemma_line_sum4(v2[2]);
            crate::game_board::lemma_line_sum4(v2[3]);
        }
        let s1 = board_total64(b1.get_tiles());
        let s2 = board_total64(b2.get_tiles());
        let br = self.bridge();
        let idx_ok = br.left_index() < 4 && br.right_index() < 4;
        s1 + s2 + 4 <= (u32::MAX as u64) && idx_ok
    }
}

/// Whether the matrix is four rows of four cells.
fn board_shape_ok(t: &Vec<Vec<u32>>) -> (r: bool)
    ensures
        r == board_wf(rows_view(t@)),
{
    if t.len() != 4 {
        proof {
            assert(rows_view(t@).len() == t@.len());
        }
        return false;
    }
    let mut i: usize = 0;
    while i < 4
        invariant
            i <= 4,
            t@.len() == 4,
            forall|k: int| 0 <= k < i ==> (#[trigger] rows_view(t@)[k]).len() == 4,
        decreases 4 - i,
    {
        if t[i].len() != 4 {
            proof {
                assert(rows_view(t@)[i as int].len() != 4);
            }
            return false;
        }
        proof {
            assert(rows_view(t@)[i as int].len() == 4);
        }
        i = i + 1;
    }
    true
}

/// The total of all cells, wide enough that it cannot overflow.
fn board_total64(t: &Vec<Vec<u32>>) -> (r: u64)
    requires
        board_wf(rows_view(t@)),
    ensures
        r == board_sum(rows_view(t@)),
{
    let tv = Ghost(rows_view(t@));
    proof {
        crate::game_board::lemma_board_sum4(tv@);
        crate::game_board::lemma_line_sum4(tv@[0]);
        crate::game_board::lemma_line_sum4(tv@[1]);
        crate::game_board::lemma_line_sum4(tv@[2]);
        crate::game_board::lemma_line_sum4(tv@[3]);
    }
    let mut total: u64 = 0;
    let mut i: usize = 0;
    proof {
        assert(tv@.skip(0) =~= tv@);
    }
    while i < 4
        invariant
            i <= 4,
            tv@ == rows_view(t@),
            board_wf(tv@),
            total <= i * 4 * (u32::MAX as int),
            total == board_sum(tv@) - board_sum(tv@.skip(i as int)),
        decreases 4 - i,
    {
        proof {
            assert(tv@.skip(i as int)[0] == tv@[i as int]);
            assert(tv@.skip(i as int).skip(1) =~= tv@.skip(i as int + 1));
            crate::game_board::lemma_line_sum4(tv@[i as int]);
            assert(tv@[i as int] == t@[i as int]@);
        }
        let row = &t[i];
        total = total + row[0] as u64 + row[1] as u64 + row[2] as u64 + row[3] as u64;
        i = i + 1;
    }
    proof {
        assert(tv@.skip(4) =~= Seq::<Seq<u32>>::empty());
    }
    total
}

} // verus!
