//! A two-player 2048 variant: each player owns a 4x4 board, and a bridge
//! channel can carry tiles from one player's board into the other's.
//!
//! The crate holds the game rules themselves: the board move/merge engine,
//! the bridge transfer rules with their quota accounting, the newline
//! framing codec for the wire protocol, the session state machine that a
//! server drives, and the single-player grid used by the local mode.

pub mod bridge;
pub mod game;
pub mod game_board;
pub mod game_controller;
pub mod gui;
pub mod io_manager;
pub mod protocol;
mod rng;
pub mod session;
