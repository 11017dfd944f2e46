//! A thin shell pairing one board with a running score; the local mode
//! drives it, and what each call does is left to the surrounding loop.

use vstd::prelude::*;
use crate::game_board::GameBoard;

verus! {

/// One local game: a board and the score shown beside it.
pub struct GameController {
    board: GameBoard,
    score: u32,
}

impl GameController {
    /// The board under control.
    pub closed spec fn spec_board(&self) -> GameBoard {
        self.board
    }

    /// The score shown.
    pub closed spec fn spec_score(&self) -> u32 {
        self.score
    }

    /// A fresh controller: an empty board and a score of zero.
    pub fn new() -> (r: Self)
        ensures
            r.spec_score() == 0,
            r.spec_board().wf(),
            forall|i: int, j: int|
                0 <= i < 4 && 0 <= j < 4 ==> #[trigger] r.spec_board().view_tiles()[i][j] == 0,
    {
        Self { board: GameBoard::new(), score: 0 }
    }

    /// Begin a new game; the surrounding loop decides what that entails,
    /// and the controller itself is left as it is.
    pub fn start(&mut self)
        ensures
            *final(self) == *old(self),
    {
    }

    /// Advance the game by one input; the surrounding loop decides what
    /// that entails, and the controller itself is left as it is.
    pub fn update(&mut self)
        ensures
            *final(self) == *old(self),
    {
    }

    /// Present the game; drawing belongs to the rendering layer, which
    /// reads and never mutates.
    pub fn render(&self) {
    }
}

} // verus!
