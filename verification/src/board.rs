//! The board: two stone masks and the player to move.
//!
//! `Board::put` is the only mutation: it checks the move against
//! `legal_mask`, applies the flips of `othello_logic::put`, and passes the
//! turn, keeping it when the opponent has no answer.  The game is finished
//! only when neither player has a legal move; one player's empty move set
//! is a silent pass.

use vstd::prelude::*;

use crate::bits::{cell_bit, group_occ_lemmas, lemma_cells_eq, occ, pop64, UPPER_LEFT};
use crate::othello_logic::{
    cell_index, flips_mask, is_cell_mask, is_legal, legal_mask, legal_move, lemma_cell_index,
    lemma_mask_where_occ, put, test_cell,
};

verus! {

/// Width of the board.
pub const SIZE: usize = 8;

#[derive(Clone, Copy, PartialEq, Eq, Structural, Debug)]
pub enum Stone {
    White,
    Black,
}

impl Stone {
    /// The other colour.
    pub open spec fn spec_reverse(self) -> Stone {
        if self == Stone::Black {
            Stone::White
        } else {
            Stone::Black
        }
    }

    /// The other colour.
    pub fn reverse(&self) -> (r: Stone)
        ensures
            r == self.spec_reverse(),
    {
        if *self == Stone::Black {
            Stone::White
        } else {
            Stone::Black
        }
    }
}

/// Stones of each colour on a board.
pub struct StoneCount {
    pub black: usize,
    pub white: usize,
}

/// One cell of the board, held as a single-bit mask.
#[derive(PartialEq, Eq, PartialOrd, Ord, Hash, Clone, Copy, Debug, Structural)]
pub struct Position(pub u64);

impl Position {
    /// A position is a mask with exactly one cell.
    pub open spec fn wf(self) -> bool {
        is_cell_mask(self.0)
    }

    /// The row-major cell index of the position.
    pub open spec fn idx(self) -> int {
        cell_index(self.0)
    }

    /// The position of column `x`, row `y`.
    pub fn new(x: usize, y: usize) -> (r: Position)
        requires
            x < 8,
            y < 8,
        ensures
            r.wf(),
            r.idx() == y * 8 + x,
            r.0 == cell_bit(y * 8 + x),
    {
        let r = Position(UPPER_LEFT >> ((y * SIZE + x) as u64));
        proof {
            lemma_cell_index(r.0, y * 8 + x);
        }
        r
    }

    /// The row-major cell index, recovered from the mask.
    pub fn to_idx(&self) -> (r: usize)
        requires
            self.wf(),
        ensures
            r < 64,
            r == self.idx(),
    {
        let ghost ci = cell_index(self.0);
        proof {
            broadcast use group_occ_lemmas;

            assert(occ(self.0, ci));
        }
        let mut i: usize = 0;
        let mut idx: usize = 0;
        while i < 64
            invariant
                self.wf(),
                ci == cell_index(self.0),
                i <= 64,
                (i as int) <= ci || idx == ci,
                idx < 64,
            decreases 64 - i,
        {
            proof {
                broadcast use group_occ_lemmas;

                assert(occ(self.0, i as int) == (i as int == ci));
            }
            if test_cell(self.0, i) {
                idx = i;
            }
            i = i + 1;
        }
        idx
    }
}

/// A set of cells, as a mask: the type of the legal-move set.
pub struct Positions(pub u64);

impl Positions {
    /// How many cells the set holds.
    pub fn count(&self) -> (n: usize)
        ensures
            n == pop64(self.0),
    {
        crate::bits::popcount(self.0) as usize
    }

    /// The set as an 8 x 8 grid of booleans, row-major.
    pub fn to_map(&self) -> (m: Vec<Vec<bool>>)
        ensures
            m.len() == 8,
            forall|y: int| 0 <= y < 8 ==> (#[trigger] m[y]).len() == 8,
            forall|y: int, x: int|
                0 <= y < 8 && 0 <= x < 8 ==> (#[trigger] m[y][x]) == occ(self.0, y * 8 + x),
    {
        let mut m: Vec<Vec<bool>> = Vec::new();
        let mut y: usize = 0;
        while y < 8
            invariant
                y <= 8,
                m.len() == y,
                forall|yy: int| 0 <= yy < y ==> (#[trigger] m[yy]).len() == 8,
                forall|yy: int, x: int|
                    0 <= yy < y && 0 <= x < 8 ==> (#[trigger] m[yy][x]) == occ(self.0, yy * 8 + x),
            decreases 8 - y,
        {
            let mut row: Vec<bool> = Vec::new();
            let mut x: usize = 0;
            while x < 8
                invariant
                    y < 8,
                    x <= 8,
                    row.len() == x,
                    forall|xx: int|
                        0 <= xx < x ==> (#[trigger] row[xx]) == occ(self.0, y * 8 + xx),
                decreases 8 - x,
            {
                row.push(test_cell(self.0, y * 8 + x));
                x = x + 1;
            }
            m.push(row);
            y = y + 1;
        }
        m
    }

    /// The positions of the set, in ascending cell order.
    pub fn to_position_list(&self) -> (v: Vec<Position>)
        ensures
            forall|n: int| 0 <= n < v.len() ==> (#[trigger] v[n]).wf() && occ(self.0, v[n].idx()),
            forall|c: int| #[trigger] occ(self.0, c) ==> exists|n: int| 0 <= n < v.len() && (#[trigger] v[n]).idx() == c,
            forall|n: int, m2: int| 0 <= n < m2 < v.len() ==> v[n].idx() < v[m2].idx(),
            v.len() == 0 <==> self.0 == 0,
    {
        let mut v: Vec<Position> = Vec::new();
        let mut i: usize = 0;
        while i < 64
            invariant
                i <= 64,
                forall|n: int|
                    0 <= n < v.len() ==> (#[trigger] v[n]).wf() && occ(self.0, v[n].idx())
                        && v[n].idx() < i,
                forall|c: int| 0 <= c < i && #[trigger] occ(self.0, c) ==> exists|n: int|
                    0 <= n < v.len() && (#[trigger] v[n]).idx() == c,
                forall|n: int, m2: int| 0 <= n < m2 < v.len() ==> v[n].idx() < v[m2].idx(),
            decreases 64 - i,
        {
            if test_cell(self.0, i) {
                let p = Position(UPPER_LEFT >> (i as u64));
                proof {
                    lemma_cell_index(p.0, i as int);
                }
                let ghost old_v = v;
                v.push(p);
                proof {
                    assert forall|c: int| 0 <= c < i + 1 && #[trigger] occ(self.0, c)
                        implies exists|n: int| 0 <= n < v.len() && (#[trigger] v[n]).idx()
                        == c by {
                        if c == i {
                            assert(v[v.len() - 1].idx() == c);
                        } else {
                            let n = choose|n: int|
                                0 <= n < old_v.len() && (#[trigger] old_v[n]).idx() == c;
                            assert(v[n].idx() == c);
                        }
                    }
                }
            }
            i = i + 1;
        }
        proof {
            if v.len() == 0 {
                if self.0 != 0 {
                    crate::bits::lemma_nonzero_has_cell(self.0);
                    assert(false);
                }
            } else {
                broadcast use group_occ_lemmas;

                assert(occ(self.0, v[0].idx()));
            }
        }
        v
    }
}

/// Errors of a move on the board.
#[derive(Clone, Copy, PartialEq, Eq, Structural, Debug)]
pub enum BoardError {
    /// The position is not in the current legal-move set.
    IllegalMove,
    /// A move was attempted after the game reached a terminal state.
    GameAlreadyFinished,
}

/// The board: the two colour masks and the player to move.
#[derive(Clone, Copy, Debug)]
pub struct Board {
    pub turn: Stone,
    pub black: u64,
    pub white: u64,
}

impl Board {
    /// The colour masks never share a cell.
    pub open spec fn wf(self) -> bool {
        self.black & self.white == 0 && self.white & self.black == 0
    }

    /// The mask of the player to move.
    pub open spec fn mover_mask(self) -> u64 {
        if self.turn == Stone::Black {
            self.black
        } else {
            self.white
        }
    }

    /// The mask of the player not to move.
    pub open spec fn opp_mask(self) -> u64 {
        if self.turn == Stone::Black {
            self.white
        } else {
            self.black
        }
    }

    /// The legal-move set of the player to move.
    pub open spec fn spec_legal(self) -> u64 {
        legal_mask(self.mover_mask(), self.opp_mask())
    }

    /// The game ends only when neither player has a legal move; a single
    /// player's empty set is a silent pass handled by `put`.
    pub open spec fn spec_finished(self) -> bool {
        legal_mask(self.mover_mask(), self.opp_mask()) == 0 && legal_mask(
            self.opp_mask(),
            self.mover_mask(),
        ) == 0
    }

    /// The board after the mover plays cell `i`: the mover gains the cell
    /// and the flipped stones, the opponent loses the flips, and the turn
    /// passes unless the opponent has no answer.
    pub open spec fn spec_apply(self, i: int) -> Board {
        let mover = self.mover_mask();
        let opp = self.opp_mask();
        let flips = flips_mask(mover, opp, i);
        let np = mover ^ (cell_bit(i) | flips);
        let no = opp ^ flips;
        let nturn = if legal_mask(no, np) != 0 {
            self.turn.spec_reverse()
        } else {
            self.turn
        };
        if self.turn == Stone::Black {
            Board { turn: nturn, black: np, white: no }
        } else {
            Board { turn: nturn, black: no, white: np }
        }
    }

    /// The standard opening: four stones in the centre, black to move.
    pub fn new() -> (b: Board)
        ensures
            b.turn == Stone::Black,
            b.black == 0x0000000810000000u64,
            b.white == 0x0000001008000000u64,
            b.wf(),
    {
        proof {
            assert(0x0000000810000000u64 & 0x0000001008000000u64 == 0
                && 0x0000001008000000u64 & 0x0000000810000000u64 == 0) by (bit_vector);
        }
        Board { turn: Stone::Black, black: 0x0000000810000000, white: 0x0000001008000000 }
    }

    /// Resets the stones to the standard opening, keeping the turn.
    pub fn init(&mut self)
        ensures
            final(self).turn == old(self).turn,
            final(self).black == 0x0000000810000000u64,
            final(self).white == 0x0000001008000000u64,
            final(self).wf(),
    {
        proof {
            assert(0x0000000810000000u64 & 0x0000001008000000u64 == 0
                && 0x0000001008000000u64 & 0x0000000810000000u64 == 0) by (bit_vector);
        }
        self.black = 0x0000000810000000;
        self.white = 0x0000001008000000;
    }

    /// The legal moves of the player to move.
    pub fn get_legal_moves(&self) -> (r: Positions)
        requires
            self.wf(),
        ensures
            r.0 == self.spec_legal(),
    {
        let ret = if self.turn == Stone::Black {
            legal_move(self.black, self.white)
        } else {
            legal_move(self.white, self.black)
        };
        Positions(ret)
    }

    /// Whether the game is over: neither player can move.
    pub fn finished(&self) -> (r: bool)
        requires
            self.wf(),
        ensures
            r == self.spec_finished(),
    {
        let (mover, opp) = if self.turn == Stone::Black {
            (self.black, self.white)
        } else {
            (self.white, self.black)
        };
        legal_move(mover, opp) == 0 && legal_move(opp, mover) == 0
    }

    /// Plays `pos` for the player to move.
    pub fn put(&mut self, pos: Position) -> (r: Result<(), BoardError>)
        requires
            old(self).wf(),
            pos.wf(),
        ensures
            final(self).wf(),
            old(self).spec_finished() ==> r == Err::<(), BoardError>(
                BoardError::GameAlreadyFinished,
            ) && *final(self) == *old(self),
            !old(self).spec_finished() && !occ(old(self).spec_legal(), pos.idx()) ==> r
                == Err::<(), BoardError>(BoardError::IllegalMove) && *final(self) == *old(self),
            !old(self).spec_finished() && occ(old(self).spec_legal(), pos.idx()) ==> r
                == Ok::<(), BoardError>(()) && *final(self) == old(self).spec_apply(pos.idx()),
            r == Ok::<(), BoardError>(()) ==> pop64(final(self).black | final(self).white)
                == pop64(old(self).black | old(self).white) + 1,
            r == Ok::<(), BoardError>(()) ==> (final(self).spec_finished()
                || final(self).spec_legal() != 0),
    {
        let ghost ci = pos.idx();
        if self.finished() {
            return Err(BoardError::GameAlreadyFinished);
        }
        let (mover, opp) = if self.turn == Stone::Black {
            (self.black, self.white)
        } else {
            (self.white, self.black)
        };
        let lm = legal_move(mover, opp);
        if lm & pos.0 == 0 {
            proof {
                broadcast use group_occ_lemmas;

                assert(occ(pos.0, ci));
                assert(!occ(lm, ci));
            }
            return Err(BoardError::IllegalMove);
        }
        proof {
            broadcast use group_occ_lemmas;

            assert(occ(pos.0, ci));
            assert(occ(lm, ci));
            lemma_mask_where_occ(
                |i: int| is_legal(mover, opp, i),
                ci,
            );
            assert(is_legal(mover, opp, ci));
        }
        let (np, no) = put(mover, opp, pos.0);
        let opp_moves = legal_move(no, np);
        let nturn = if opp_moves == 0 {
            self.turn
        } else {
            self.reverse_turn()
        };
        if self.turn == Stone::Black {
            self.black = np;
            self.white = no;
        } else {
            self.black = no;
            self.white = np;
        }
        self.turn = nturn;
        proof {
            broadcast use group_occ_lemmas;

            assert forall|c: int| #[trigger] occ(np | no, c) == occ(no | np, c) by {}
            lemma_cells_eq(np | no, no | np);
            assert forall|c: int| #[trigger] occ(mover | opp, c) == occ(
                old(self).black | old(self).white,
                c,
            ) by {}
            lemma_cells_eq(mover | opp, old(self).black | old(self).white);
            if legal_mask(np, no) != 0 && legal_mask(no, np) == 0 {
                assert(final(self).spec_legal() != 0);
            }
        }
        Ok(())
    }

    fn reverse_turn(&self) -> (r: Stone)
        ensures
            r == self.turn.spec_reverse(),
    {
        self.turn.reverse()
    }

    /// The two colour masks in mover-first order: the plane layout the
    /// position evaluator reads.
    pub fn mover_masks(&self) -> (r: (u64, u64))
        ensures
            r.0 == self.mover_mask(),
            r.1 == self.opp_mask(),
    {
        if self.turn == Stone::Black {
            (self.black, self.white)
        } else {
            (self.white, self.black)
        }
    }

    /// Counts the stones of each colour.
    pub fn count_stone(&self) -> (r: StoneCount)
        ensures
            r.black == pop64(self.black),
            r.white == pop64(self.white),
    {
        StoneCount {
            black: crate::bits::popcount(self.black) as usize,
            white: crate::bits::popcount(self.white) as usize,
        }
    }

    /// The board as an 8 x 8 grid of optional stones, row-major.
    pub fn create_board_array(&self) -> (m: Vec<Vec<Option<Stone>>>)
        requires
            self.wf(),
        ensures
            m.len() == 8,
            forall|y: int| 0 <= y < 8 ==> (#[trigger] m[y]).len() == 8,
            forall|y: int, x: int|
                0 <= y < 8 && 0 <= x < 8 ==> (#[trigger] m[y][x]) == (if occ(self.black, y * 8 + x) {
                    Some(Stone::Black)
                } else if occ(self.white, y * 8 + x) {
                    Some(Stone::White)
                } else {
                    None::<Stone>
                }),
    {
        let mut m: Vec<Vec<Option<Stone>>> = Vec::new();
        let mut y: usize = 0;
        while y < 8
            invariant
                self.wf(),
                y <= 8,
                m.len() == y,
                forall|yy: int| 0 <= yy < y ==> (#[trigger] m[yy]).len() == 8,
                forall|yy: int, x: int|
                    0 <= yy < y && 0 <= x < 8 ==> (#[trigger] m[yy][x]) == (if occ(
                        self.black,
                        yy * 8 + x,
                    ) {
                        Some(Stone::Black)
                    } else if occ(self.white, yy * 8 + x) {
                        Some(Stone::White)
                    } else {
                        None::<Stone>
                    }),
            decreases 8 - y,
        {
            let mut row: Vec<Option<Stone>> = Vec::new();
            let mut x: usize = 0;
            while x < 8
                invariant
                    self.wf(),
                    y < 8,
                    x <= 8,
                    row.len() == x,
                    forall|xx: int|
                        0 <= xx < x ==> (#[trigger] row[xx]) == (if occ(self.black, y * 8 + xx) {
                            Some(Stone::Black)
                        } else if occ(self.white, y * 8 + xx) {
                            Some(Stone::White)
                        } else {
                            None::<Stone>
                        }),
                decreases 8 - x,
            {
                let cell = if test_cell(self.black, y * 8 + x) {
                    Some(Stone::Black)
                } else if test_cell(self.white, y * 8 + x) {
                    Some(Stone::White)
                } else {
                    None
                };
                row.push(cell);
                x = x + 1;
            }
            m.push(row);
            y = y + 1;
        }
        m
    }
}

impl Default for Board {
    /// The standard opening.
    fn default() -> (b: Board)
        ensures
            b.turn == Stone::Black,
            b.black == 0x0000000810000000u64,
            b.white == 0x0000001008000000u64,
            b.wf(),
    {
        Board::new()
    }
}

} // verus!
