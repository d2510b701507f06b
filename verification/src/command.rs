//! The command parser: one text line becomes a typed board command, or a
//! typed parse error saying exactly what was wrong. Checks run in a fixed
//! order — string shape (`(` then `,`), then the two numeric fields, then the
//! verb — so the reported failure is deterministic.

use vstd::prelude::*;
use crate::grid::Coordinate;
use crate::text::{
    NumberError, as_int_result, chars_of, find_char_vec, index_of_char, lower_seq, lower_vec,
    parse_uint, parse_uint_vec, strip_marks, strip_vec, sub_vec, trim_seq, trim_vec,
};

verus! {

/// Why a text line failed to parse as a command.
#[derive(Debug, Clone, PartialEq, Eq, Structural)]
pub enum BoardCommandError {
    /// No `(` anywhere in the line.
    MalformedString,
    /// A `(` but no `,` after it.
    MalformedCoordinate,
    /// One of the two numeric fields failed to read as a `u16`.
    CoordinateParsing(NumberError),
    /// The verb before the `(` is not one of the four recognized ones.
    NotFound,
}

/// The parsed, validated player intent.
#[derive(Debug, Clone, Copy, PartialEq, Eq, Structural)]
pub enum BoardCommand {
    Pass,
    Quit,
    ClearMark(Coordinate),
    SetMarkFlag(Coordinate),
    SetMarkNote(Coordinate),
    Explore(Coordinate),
}

/// The line lowercased and stripped of surrounding whitespace: the form all
/// recognition works on.
pub open spec fn canon(s: Seq<char>) -> Seq<char> {
    trim_seq(lower_seq(s))
}

pub open spec fn pass_word() -> Seq<char> {
    seq!['p', 'a', 's', 's']
}

pub open spec fn quit_word() -> Seq<char> {
    seq!['q', 'u', 'i', 't']
}

pub open spec fn clear_word() -> Seq<char> {
    seq!['c', 'l', 'e', 'a', 'r']
}

pub open spec fn flag_word() -> Seq<char> {
    seq!['f', 'l', 'a', 'g']
}

pub open spec fn note_word() -> Seq<char> {
    seq!['n', 'o', 't', 'e']
}

pub open spec fn explore_word() -> Seq<char> {
    seq!['e', 'x', 'p', 'l', 'o', 'r', 'e']
}

/// The verb before the `(` mapped to its command constructor.
pub open spec fn command_of_verb(verb: Seq<char>, x: u16, y: u16) -> Result<
    BoardCommand,
    BoardCommandError,
> {
    if verb == clear_word() {
        Ok(BoardCommand::ClearMark(Coordinate(x, y)))
    } else if verb == flag_word() {
        Ok(BoardCommand::SetMarkFlag(Coordinate(x, y)))
    } else if verb == note_word() {
        Ok(BoardCommand::SetMarkNote(Coordinate(x, y)))
    } else if verb == explore_word() {
        Ok(BoardCommand::Explore(Coordinate(x, y)))
    } else {
        Err(BoardCommandError::NotFound)
    }
}

/// What one raw text line parses to. `pass` and `quit` are matched whole;
/// otherwise the line splits at the first `(`, the remainder is trimmed and
/// split at the first `,`, the first field reads as a `u16` as it stands, the
/// second reads after every newline and `)` is removed and the rest trimmed,
/// and only then is the verb looked up.
pub open spec fn parse_command(s: Seq<char>) -> Result<BoardCommand, BoardCommandError> {
    let t = canon(s);
    if t == pass_word() {
        Ok(BoardCommand::Pass)
    } else if t == quit_word() {
        Ok(BoardCommand::Quit)
    } else {
        let pi = index_of_char(t, '(');
        if pi < 0 {
            Err(BoardCommandError::MalformedString)
        } else {
            let rest = trim_seq(t.subrange(pi + 1, t.len() as int));
            let ci = index_of_char(rest, ',');
            if ci < 0 {
                Err(BoardCommandError::MalformedCoordinate)
            } else {
                match parse_uint(rest.subrange(0, ci), 65535) {
                    Err(e) => Err(BoardCommandError::CoordinateParsing(e)),
                    Ok(x) => {
                        let ys = trim_seq(
                            strip_marks(rest.subrange(ci + 1, rest.len() as int)),
                        );
                        match parse_uint(ys, 65535) {
                            Err(e) => Err(BoardCommandError::CoordinateParsing(e)),
                            Ok(y) => command_of_verb(
                                trim_seq(t.subrange(0, pi)),
                                x as u16,
                                y as u16,
                            ),
                        }
                    },
                }
            }
        }
    }
}

impl BoardCommand {
    /// Parse one raw text line into a command, or the error classifying what
    /// was wrong with it.
    pub fn try_from(value: &str) -> (r: Result<BoardCommand, BoardCommandError>)
        ensures
            r == parse_command(value@),
    {
        let raw = chars_of(value);
        let low = lower_vec(&raw);
        let t = trim_vec(&low);
        let tn = t.len();
        if tn == 4 && t[0] == 'p' && t[1] == 'a' && t[2] == 's' && t[3] == 's' {
            proof {
                assert(t@ =~= pass_word());
            }
            return Ok(BoardCommand::Pass);
        }
        proof {
            assert(t@ != pass_word()) by {
                if t@ == pass_word() {
                    assert(t@.len() == 4);
                    assert(t@[0] == 'p' && t@[1] == 'a' && t@[2] == 's' && t@[3] == 's');
                }
            }
        }
        if tn == 4 && t[0] == 'q' && t[1] == 'u' && t[2] == 'i' && t[3] == 't' {
            proof {
                assert(t@ =~= quit_word());
            }
            return Ok(BoardCommand::Quit);
        }
        proof {
            assert(t@ != quit_word()) by {
                if t@ == quit_word() {
                    assert(t@.len() == 4);
                    assert(t@[0] == 'q' && t@[1] == 'u' && t@[2] == 'i' && t@[3] == 't');
                }
            }
        }
        let pi = match find_char_vec(&t, '(') {
            None => {
                return Err(BoardCommandError::MalformedString);
            },
            Some(pi) => pi,
        };
        let after = sub_vec(&t, pi + 1, tn);
        let rest = trim_vec(&after);
        let ci = match find_char_vec(&rest, ',') {
            None => {
                return Err(BoardCommandError::MalformedCoordinate);
            },
            Some(ci) => ci,
        };
        let xs = sub_vec(&rest, 0, ci);
        let x = match parse_uint_vec(&xs, 65535) {
            Err(e) => {
                return Err(BoardCommandError::CoordinateParsing(e));
            },
            Ok(x) => x,
        };
        let rn = rest.len();
        let ytail = sub_vec(&rest, ci + 1, rn);
        let ystripped = strip_vec(&ytail);
        let ys = trim_vec(&ystripped);
        let y = match parse_uint_vec(&ys, 65535) {
            Err(e) => {
                return Err(BoardCommandError::CoordinateParsing(e));
            },
            Ok(y) => y,
        };
        let verb_raw = sub_vec(&t, 0, pi);
        let verb = trim_vec(&verb_raw);
        let vn = verb.len();
        let xc = x as u16;
        let yc = y as u16;
        if vn == 5 && verb[0] == 'c' && verb[1] == 'l' && verb[2] == 'e' && verb[3] == 'a'
            && verb[4] == 'r' {
            proof {
                assert(verb@ =~= clear_word());
            }
            return Ok(BoardCommand::ClearMark(Coordinate(xc, yc)));
        }
        proof {
            assert(verb@ != clear_word()) by {
                if verb@ == clear_word() {
                    assert(verb@.len() == 5);
                    assert(verb@[0] == 'c' && verb@[1] == 'l' && verb@[2] == 'e' && verb@[3] == 'a'
                        && verb@[4] == 'r');
                }
            }
        }
        if vn == 4 && verb[0] == 'f' && verb[1] == 'l' && verb[2] == 'a' && verb[3] == 'g' {
            proof {
                assert(verb@ =~= flag_word());
            }
            return Ok(BoardCommand::SetMarkFlag(Coordinate(xc, yc)));
        }
        proof {
            assert(verb@ != flag_word()) by {
                if verb@ == flag_word() {
                    assert(verb@.len() == 4);
                    assert(verb@[0] == 'f' && verb@[1] == 'l' && verb@[2] == 'a' && verb@[3] == 'g');
                }
            }
        }
        if vn == 4 && verb[0] == 'n' && verb[1] == 'o' && verb[2] == 't' && verb[3] == 'e' {
            proof {
                assert(verb@ =~= note_word());
            }
            return Ok(BoardCommand::SetMarkNote(Coordinate(xc, yc)));
        }
        proof {
            assert(verb@ != note_word()) by {
                if verb@ == note_word() {
                    assert(verb@.len() == 4);
                    assert(verb@[0] == 'n' && verb@[1] == 'o' && verb@[2] == 't' && verb@[3] == 'e');
                }
            }
        }
        if vn == 7 && verb[0] == 'e' && verb[1] == 'x' && verb[2] == 'p' && verb[3] == 'l'
            && verb[4] == 'o' && verb[5] == 'r' && verb[6] == 'e' {
            proof {
                assert(verb@ =~= explore_word());
            }
            return Ok(BoardCommand::Explore(Coordinate(xc, yc)));
        }
        proof {
            assert(verb@ != explore_word()) by {
                if verb@ == explore_word() {
                    assert(verb@.len() == 7);
                    assert(verb@[0] == 'e' && verb@[1] == 'x' && verb@[2] == 'p' && verb@[3] == 'l'
                        && verb@[4] == 'o' && verb@[5] == 'r' && verb@[6] == 'e');
                }
            }
        }
        Err(BoardCommandError::NotFound)
    }
}

} // verus!
