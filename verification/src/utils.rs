//! Small helpers: reading a move from text and scoring a finished game.

use vstd::prelude::*;

use crate::bits::pop64;
use crate::board::{Board, Stone};

verus! {

/// The outcome of `board` for `player`, by final stone count: 1 for a win,
/// -1 for a loss, 0 for a draw.
pub open spec fn spec_game_result(board: Board, player: Stone) -> int {
    let black = pop64(board.black);
    let white = pop64(board.white);
    let res: int = if black > white {
        1
    } else if black < white {
        -1
    } else {
        0
    };
    if player == Stone::Black {
        res
    } else {
        -res
    }
}

/// Scores a board for one player by comparing the stone counts.
pub fn game_result(board: &Board, player: Stone) -> (r: i8)
    ensures
        r as int == spec_game_result(*board, player),
{
    let count = board.count_stone();
    let res: i8 = if count.black > count.white {
        1
    } else if count.black < count.white {
        -1
    } else {
        0
    };
    if player == Stone::Black {
        res
    } else {
        -res
    }
}

/// The text form of a move is valid when it is exactly a column letter
/// `a`..`h` followed by a row digit `0`..`7`.
pub open spec fn valid_move_text(s: Seq<char>) -> bool {
    s.len() == 2 && 'a' <= s[0] <= 'h' && '0' <= s[1] <= '7'
}

/// Parses a move given as a column letter and a row digit, as `(x, y)`.
pub fn input_parse(input: String) -> (r: Result<(usize, usize), String>)
    ensures
        r is Ok <==> valid_move_text(input@),
        r matches Ok(xy) ==> xy.0 == input@[0] as int - 'a' as int && xy.1 == input@[1] as int
            - '0' as int,
{
    proof {
        broadcast use vstd::string::axiom_spec_iter, vstd::string::next_postcondition;

    }
    let mut it = input.as_str().chars();
    let c0 = it.next();
    let c1 = it.next();
    let c2 = it.next();
    match (c0, c1, c2) {
        (Some(x), Some(y), None) => {
            if 'a' <= x && x <= 'h' && '0' <= y && y <= '7' {
                proof {
                    assert(input@.len() == 2);
                    assert(input@[0] == x && input@[1] == y);
                }
                Ok(((x as u8 - 97u8) as usize, (y as u8 - 48u8) as usize))
            } else {
                Err("Invalid input. Input must be [a-h][0-7]".to_string())
            }
        },
        _ => {
            proof {
                if input@.len() == 2 {
                    assert(c0 == Some(input@[0]) && c1 == Some(input@[1]) && c2 is None);
                }
            }
            Err("Invalid input. Input must be [a-h][0-7]".to_string())
        },
    }
}

} // verus!
