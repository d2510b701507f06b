//! Board configuration: a square side length and a mine count read from one
//! startup line of the form `"<side> <mines>"`. The single side number is
//! used for both width and height.

use vstd::prelude::*;
use crate::text::{
    NumberError, chars_of, find_char_vec, index_of_char, parse_uint, parse_uint_vec, sub_vec,
    trim_seq, trim_vec,
};

verus! {

/// Why a startup configuration line was rejected.
#[derive(Debug, Clone, PartialEq, Eq, Structural)]
pub enum GameConfigurationError {
    /// No space separating the two fields.
    MalformedString,
    /// One of the two numeric fields failed to read.
    MalformedInteger(NumberError),
}

/// Width, height and total mine count of a board, fixed once it is built.
#[derive(Debug, Clone, Copy, PartialEq, Eq, Structural)]
pub struct GameConfiguration {
    pub width: u16,
    pub height: u16,
    pub total_mines: u32,
}

/// What one startup line parses to: the part before the first space is the
/// side length (used for both width and height), the part after it the mine
/// count, each trimmed before reading.
pub open spec fn parse_config(s: Seq<char>) -> Result<GameConfiguration, GameConfigurationError> {
    let si = index_of_char(s, ' ');
    if si < 0 {
        Err(GameConfigurationError::MalformedString)
    } else {
        match parse_uint(trim_seq(s.subrange(0, si)), 65535) {
            Err(e) => Err(GameConfigurationError::MalformedInteger(e)),
            Ok(d) => match parse_uint(trim_seq(s.subrange(si + 1, s.len() as int)), 4294967295) {
                Err(e) => Err(GameConfigurationError::MalformedInteger(e)),
                Ok(m) => Ok(
                    GameConfiguration { width: d as u16, height: d as u16, total_mines: m as u32 },
                ),
            },
        }
    }
}

impl GameConfiguration {
    pub fn new(width: u16, height: u16, total_mines: u32) -> (r: Self)
        ensures
            r == (GameConfiguration { width, height, total_mines }),
    {
        GameConfiguration { width, height, total_mines }
    }

    /// Board width in columns.
    pub fn w(&self) -> (r: u16)
        ensures
            r == self.width,
    {
        self.width
    }

    /// Board height in rows.
    pub fn h(&self) -> (r: u16)
        ensures
            r == self.height,
    {
        self.height
    }

    /// Total number of mines the board is configured with.
    pub fn mines(&self) -> (r: u32)
        ensures
            r == self.total_mines,
    {
        self.total_mines
    }

    /// Parse one startup line into a configuration, or the error classifying
    /// what was wrong with it.
    pub fn try_from(value: &str) -> (r: Result<GameConfiguration, GameConfigurationError>)
        ensures
            r == parse_config(value@),
    {
        let raw = chars_of(value);
        let si = match find_char_vec(&raw, ' ') {
            None => {
                return Err(GameConfigurationError::MalformedString);
            },
            Some(si) => si,
        };
        let dims_raw = sub_vec(&raw, 0, si);
        let dims = trim_vec(&dims_raw);
        let d = match parse_uint_vec(&dims, 65535) {
            Err(e) => {
                return Err(GameConfigurationError::MalformedInteger(e));
            },
            Ok(d) => d,
        };
        let rn = raw.len();
        let mines_raw = sub_vec(&raw, si + 1, rn);
        let mines_txt = trim_vec(&mines_raw);
        let m = match parse_uint_vec(&mines_txt, 4294967295) {
            Err(e) => {
                return Err(GameConfigurationError::MalformedInteger(e));
            },
            Ok(m) => m,
        };
        // the same side number serves as both width and height
        Ok(GameConfiguration { width: d as u16, height: d as u16, total_mines: m })
    }
}

impl Default for GameConfiguration {
    /// The fallback 5 by 5 board with 10 mines.
    fn default() -> (r: Self)
        ensures
            r == (GameConfiguration { width: 5u16, height: 5u16, total_mines: 10u32 }),
    {
        GameConfiguration { width: 5, height: 5, total_mines: 10 }
    }
}

} // verus!
