//! The surface the rendering layer talks to. Drawing happens outside;
//! these entry points only fix the shape of that conversation, and the
//! handle itself carries no state of its own.

use vstd::prelude::*;

verus! {

/// A handle for the rendering layer.
pub struct GUI {}

impl GUI {
    /// A fresh handle.
    pub fn new() -> Self {
        Self {  }
    }

    /// Present the board; drawing belongs to the rendering layer, which
    /// reads the game state and never mutates it.
    pub fn draw_board(&self) {
    }

    /// Hand a new score over for display.
    pub fn update_score(&self, score: u32) {
        let _ = score;
    }

    /// Poll the rendering layer's events; reacting to them belongs to
    /// the surrounding loop.
    pub fn handle_events(&self) {
    }
}

} // verus!