//! Keyboard input pacing and key-to-direction mapping. The terminal
//! event reading itself stays outside; this module owns the decisions:
//! whether enough time has passed to accept another input, and what a
//! pressed key means.

use vstd::prelude::*;
use crate::game_board::Direction;

verus! {

/// What one key press asks for.
#[derive(Clone, Copy, Debug, PartialEq, Eq, Structural)]
pub enum InputAction {
    /// A move in the given direction.
    Move(Direction),
    /// A request to leave the game.
    Quit,
    /// A key with no meaning here.
    Idle,
}

/// The meaning of a pressed character key: the usual movement letters
/// move, `q` quits, anything else is idle. Arrow keys are handed in as
/// their letter equivalents by the terminal layer.
pub fn direction_for_key(key: char) -> (r: InputAction)
    ensures
        key == 'w' ==> r == InputAction::Move(Direction::Up),
        key == 'a' ==> r == InputAction::Move(Direction::Left),
        key == 's' ==> r == InputAction::Move(Direction::Down),
        key == 'd' ==> r == InputAction::Move(Direction::Right),
        key == 'q' ==> r == InputAction::Quit,
        key != 'w' && key != 'a' && key != 's' && key != 'd' && key != 'q' ==> r
            == InputAction::Idle,
{
    if key == 'w' {
        InputAction::Move(Direction::Up)
    } else if key == 'a' {
        InputAction::Move(Direction::Left)
    } else if key == 's' {
        InputAction::Move(Direction::Down)
    } else if key == 'd' {
        InputAction::Move(Direction::Right)
    } else if key == 'q' {
        InputAction::Quit
    } else {
        InputAction::Idle
    }
}

/// Relies on `std::time::SystemTime::now`: a wall-clock reading, handed
/// back as whole milliseconds since the epoch, or zero if the clock
/// stands before the epoch. Nothing is promised of its value.
#[verifier::external_body]
fn current_millis() -> (r: u64)
{
    match std::time::SystemTime::now().duration_since(std::time::UNIX_EPOCH) {
        Ok(elapsed) => elapsed.as_millis() as u64,
        Err(_) => 0,
    }
}

/// Paces the keyboard: inputs closer together than the configured
/// interval are to be dropped.
pub struct IOManager {
    last_input_ms: u64,
    io_response_interval_ms: u64,
}

impl IOManager {
    /// When the last accepted input arrived, in clock milliseconds.
    pub closed spec fn spec_last_input_ms(&self) -> u64 {
        self.last_input_ms
    }

    /// The configured minimum spacing between inputs, in milliseconds.
    pub closed spec fn spec_interval_ms(&self) -> u64 {
        self.io_response_interval_ms
    }

    /// A pacer with the given spacing, starting from the clock's
    /// current reading.
    pub fn new(response_interval_ms: u64) -> (r: Self)
        ensures
            r.spec_interval_ms() == response_interval_ms,
    {
        IOManager { last_input_ms: current_millis(), io_response_interval_ms: response_interval_ms }
    }

    /// Record that an input was accepted now.
    pub fn update_last_input_time(&mut self)
        ensures
            final(self).spec_interval_ms() == old(self).spec_interval_ms(),
    {
        self.last_input_ms = current_millis();
    }

    /// Whether, at clock reading `now_ms`, the spacing since the last
    /// accepted input has passed.
    pub fn interval_elapsed(&self, now_ms: u64) -> (r: bool)
        ensures
            r == (now_ms >= self.spec_last_input_ms() + self.spec_interval_ms()),
    {
        now_ms >= self.last_input_ms && now_ms - self.last_input_ms
            >= self.io_response_interval_ms
    }
}

} // verus!
