//! The position: board, side to move, en-passant flags, castling rights and
//! the two move counters.
use crate::board::{board_ok, on_board, piece_at};
use vstd::prelude::*;

verus! {

/// The four castling rights. A right is only ever removed.
#[derive(Clone, Copy, Debug, PartialEq, Eq)]
pub struct CastlingRights {
    pub white_kingside: bool,
    pub white_queenside: bool,
    pub black_kingside: bool,
    pub black_queenside: bool,
}

/// A position. Every move derives a new value; none is changed in place.
#[derive(Clone, Copy, Debug, PartialEq, Eq)]
pub struct ChessState {
    /// `board[rank][file]`, rank 0 being white's back rank.
    pub board: [[i8; 8]; 8],
    /// `true` when white is to move.
    pub turn: bool,
    /// One flag per file, set for the file on which a pawn has just advanced
    /// two squares.
    pub en_passant: [bool; 8],
    pub castling: CastlingRights,
    pub halfmoves: u32,
    pub fullmoves: u32,
}

/// The code on `(r, c)` at the start of a game.
pub open spec fn start_piece(r: int, c: int) -> int {
    let back = if c == 0 || c == 7 {
        2
    } else if c == 1 || c == 6 {
        3
    } else if c == 2 || c == 5 {
        4
    } else if c == 3 {
        5
    } else {
        6
    };
    if r == 0 {
        back
    } else if r == 1 {
        1
    } else if r == 6 {
        -1
    } else if r == 7 {
        -back
    } else {
        0
    }
}

impl CastlingRights {
    /// All four rights.
    pub open spec fn all() -> CastlingRights {
        CastlingRights {
            white_kingside: true,
            white_queenside: true,
            black_kingside: true,
            black_queenside: true,
        }
    }

    /// Every right held in `self` is held in `before`.
    pub open spec fn within(self, before: CastlingRights) -> bool {
        &&& self.white_kingside ==> before.white_kingside
        &&& self.white_queenside ==> before.white_queenside
        &&& self.black_kingside ==> before.black_kingside
        &&& self.black_queenside ==> before.black_queenside
    }
}

impl ChessState {
    /// The invariant of a position: every cell holds a piece code or zero, and
    /// at most one en-passant flag is set.
    pub open spec fn wf(&self) -> bool {
        &&& board_ok(self.board)
        &&& forall|f: int, g: int|
            0 <= f < 8 && 0 <= g < 8 && self.en_passant[f] && self.en_passant[g] ==> f == g
    }

    /// The number of en-passant flags that are set among the first `n` files.
    pub open spec fn flags_set(flags: [bool; 8], n: int) -> int
        decreases n,
    {
        if n <= 0 {
            0
        } else {
            Self::flags_set(flags, n - 1) + if flags[n - 1] { 1int } else { 0int }
        }
    }

    /// The sign of the side to move.
    pub open spec fn mover(&self) -> int {
        if self.turn { 1 } else { -1 }
    }

    /// The standard starting position.
    pub fn new_board() -> (s: ChessState)
        ensures
            s.wf(),
            forall|r: int, c: int| on_board(r, c) ==> #[trigger] piece_at(s.board, r, c) == start_piece(r, c),
            s.turn,
            forall|f: int| 0 <= f < 8 ==> !s.en_passant[f],
            s.castling == CastlingRights::all(),
            s.halfmoves == 0,
            s.fullmoves == 0,
    {
        ChessState {
            board: [
                [2, 3, 4, 5, 6, 4, 3, 2],
                [1, 1, 1, 1, 1, 1, 1, 1],
                [0, 0, 0, 0, 0, 0, 0, 0],
                [0, 0, 0, 0, 0, 0, 0, 0],
                [0, 0, 0, 0, 0, 0, 0, 0],
                [0, 0, 0, 0, 0, 0, 0, 0],
                [-1, -1, -1, -1, -1, -1, -1, -1],
                [-2, -3, -4, -5, -6, -4, -3, -2],
            ],
            turn: true,
            en_passant: [false; 8],
            castling: CastlingRights {
                white_kingside: true,
                white_queenside: true,
                black_kingside: true,
                black_queenside: true,
            },
            halfmoves: 0,
            fullmoves: 0,
        }
    }

    /// The position with no piece on the board, white to move and all four
    /// castling rights.
    pub fn empty_board() -> (s: ChessState)
        ensures
            s.wf(),
            forall|r: int, c: int| on_board(r, c) ==> #[trigger] piece_at(s.board, r, c) == 0,
            s.turn,
            forall|f: int| 0 <= f < 8 ==> !s.en_passant[f],
            s.castling == CastlingRights::all(),
            s.halfmoves == 0,
            s.fullmoves == 0,
    {
        ChessState {
            board: [[0i8; 8]; 8],
            turn: true,
            en_passant: [false; 8],
            castling: CastlingRights {
                white_kingside: true,
                white_queenside: true,
                black_kingside: true,
                black_queenside: true,
            },
            halfmoves: 0,
            fullmoves: 0,
        }
    }

    /// A copy of the position.
    pub fn copy(&self) -> (s: ChessState)
        ensures
            s == *self,
    {
        ChessState {
            board: self.board,
            turn: self.turn,
            en_passant: self.en_passant,
            castling: self.castling,
            halfmoves: self.halfmoves,
            fullmoves: self.fullmoves,
        }
    }

    /// Whether the position meets its invariant.
    pub fn is_well_formed(&self) -> (ok: bool)
        ensures
            ok == self.wf(),
    {
        let mut idx: usize = 0;
        while idx < 8
            invariant
                idx <= 8,
                forall|r: int, c: int|
                    on_board(r, c) && r < idx ==> -6 <= #[trigger] piece_at(self.board, r, c) <= 6,
            decreases 8 - idx,
        {
            let mut jdx: usize = 0;
            while jdx < 8
                invariant
                    idx < 8,
                    jdx <= 8,
                    forall|r: int, c: int|
                        on_board(r, c) && (r < idx || (r == idx && c < jdx)) ==> -6
                            <= #[trigger] piece_at(self.board, r, c) <= 6,
                decreases 8 - jdx,
            {
                let p: i8 = self.board[idx][jdx];
                assert(p == piece_at(self.board, idx as int, jdx as int));
                if p < -6 || p > 6 {
                    return false;
                }
                jdx += 1;
            }
            idx += 1;
        }
        let mut set: usize = 0;
        let mut f: usize = 0;
        while f < 8
            invariant
                f <= 8,
                set <= f,
                set == Self::flags_set(self.en_passant, f as int),
            decreases 8 - f,
        {
            if self.en_passant[f] {
                set += 1;
            }
            f += 1;
        }
        proof {
            Self::lemma_flags_set(self.en_passant, 8);
        }
        set <= 1
    }

    /// At most one flag is set among the first `n` exactly when no two
    /// different files among them have their flags set.
    pub proof fn lemma_flags_set(flags: [bool; 8], n: int)
        requires
            0 <= n <= 8,
        ensures
            0 <= Self::flags_set(flags, n) <= n,
            Self::flags_set(flags, n) == 0 <==> forall|f: int| 0 <= f < n ==> !flags[f],
            Self::flags_set(flags, n) <= 1 <==> forall|f: int, g: int|
                0 <= f < n && 0 <= g < n && flags[f] && flags[g] ==> f == g,
        decreases n,
    {
        if n > 0 {
            Self::lemma_flags_set(flags, n - 1);
            if flags[n - 1] {
                if Self::flags_set(flags, n - 1) > 0 {
                    let f = choose|f: int| 0 <= f < n - 1 && flags[f];
                    assert(flags[f] && flags[n - 1] && f != n - 1);
                }
            }
        }
    }
}

} // verus!
