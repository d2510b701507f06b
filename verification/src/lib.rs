//! A terminal-minesweeper engine: a command parser that turns text lines into
//! typed board commands, and a board engine that owns cell state, mine
//! placement, neighbour counts, the flood-fill reveal and win/loss detection.

pub mod grid;
pub mod cell;
pub mod text;
pub mod command;
pub mod config;
pub mod board;
pub mod rng;
pub mod laws;

use vstd::prelude::*;

verus! {

/// Banner shown to the player before the game starts.
pub fn welcome_msg() -> (r: &'static str)
    ensures
        r@ == "Welcome to minesweeper\nKeymaps:\nplay-1,\nhighscores-2,\nquit-3"@,
{
    "Welcome to minesweeper\nKeymaps:\nplay-1,\nhighscores-2,\nquit-3"
}

} // verus!
