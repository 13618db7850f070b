//! The move descriptor and the move applier.
use crate::board::{
    board_ok, lemma_board_ext, lemma_set_cell, on_board, piece_at, set_cell, square_ok,
};
use crate::position::{CastlingRights, ChessState};
use vstd::prelude::*;

verus! {

/// The six kinds of piece, in the order of their codes 1..6.
#[derive(Clone, Copy, Debug, PartialEq, Eq, Structural)]
pub enum PieceKind {
    Pawn,
    Rook,
    Knight,
    Bishop,
    Queen,
    King,
}

/// What sets a move apart from a plain step or capture.
#[derive(Clone, Copy, Debug, PartialEq, Eq, Structural)]
pub enum Special {
    Ordinary,
    EnPassantCapture,
    CastleKingside,
    CastleQueenside,
    DoublePawnPush,
}

/// A move. For a castling move `from` and `to` are the king's squares.
#[derive(Clone, Copy, Debug, PartialEq, Eq)]
pub struct Move {
    pub from: (usize, usize),
    pub to: (usize, usize),
    pub piece: PieceKind,
    pub capture: bool,
    pub promotion: Option<PieceKind>,
    pub special: Special,
}

impl PieceKind {
    /// The magnitude that encodes the kind on the board.
    pub open spec fn code_spec(self) -> int {
        match self {
            PieceKind::Pawn => 1,
            PieceKind::Rook => 2,
            PieceKind::Knight => 3,
            PieceKind::Bishop => 4,
            PieceKind::Queen => 5,
            PieceKind::King => 6,
        }
    }

    /// The kind that the magnitude `k` encodes.
    pub open spec fn of_code(k: int) -> Option<PieceKind> {
        if k == 1 {
            Some(PieceKind::Pawn)
        } else if k == 2 {
            Some(PieceKind::Rook)
        } else if k == 3 {
            Some(PieceKind::Knight)
        } else if k == 4 {
            Some(PieceKind::Bishop)
        } else if k == 5 {
            Some(PieceKind::Queen)
        } else if k == 6 {
            Some(PieceKind::King)
        } else {
            None
        }
    }

    /// The magnitude that encodes the kind on the board.
    pub fn code(self) -> (k: i8)
        ensures
            k == self.code_spec(),
            1 <= k <= 6,
    {
        match self {
            PieceKind::Pawn => 1,
            PieceKind::Rook => 2,
            PieceKind::Knight => 3,
            PieceKind::Bishop => 4,
            PieceKind::Queen => 5,
            PieceKind::King => 6,
        }
    }

    /// The kind of the piece code `p`, of either colour; `None` for an empty
    /// square or a code out of range.
    pub fn from_code(p: i8) -> (kind: Option<PieceKind>)
        ensures
            kind == Self::of_code(crate::board::kind_of(p as int)),
    {
        if p == 1 || p == -1 {
            Some(PieceKind::Pawn)
        } else if p == 2 || p == -2 {
            Some(PieceKind::Rook)
        } else if p == 3 || p == -3 {
            Some(PieceKind::Knight)
        } else if p == 4 || p == -4 {
            Some(PieceKind::Bishop)
        } else if p == 5 || p == -5 {
            Some(PieceKind::Queen)
        } else if p == 6 || p == -6 {
            Some(PieceKind::King)
        } else {
            None
        }
    }
}

impl Move {
    /// Both squares lie on the board.
    pub open spec fn wf(self) -> bool {
        square_ok(self.from) && square_ok(self.to)
    }

    /// Whether both squares lie on the board.
    pub fn is_well_formed(&self) -> (ok: bool)
        ensures
            ok == self.wf(),
    {
        self.from.0 < 8 && self.from.1 < 8 && self.to.0 < 8 && self.to.1 < 8
    }

    /// Whether two moves are the same in every field.
    pub fn same(&self, other: &Move) -> (eq: bool)
        ensures
            eq == (*self == *other),
    {
        let promotion: bool = match (self.promotion, other.promotion) {
            (Some(a), Some(b)) => a == b,
            (None, None) => true,
            _ => false,
        };
        self.from.0 == other.from.0 && self.from.1 == other.from.1 && self.to.0 == other.to.0
            && self.to.1 == other.to.1 && self.piece == other.piece && self.capture
            == other.capture && promotion && self.special == other.special
    }

    /// Whether the move is one of the two castling moves.
    pub open spec fn is_castle(self) -> bool {
        self.special is CastleKingside || self.special is CastleQueenside
    }
}

/// The code that a move writes to its destination: the promoted piece, or the
/// piece that stood on the source square.
pub open spec fn placed_code(b: [[i8; 8]; 8], white: bool, m: Move) -> int {
    match m.promotion {
        Some(kind) => if white {
            kind.code_spec()
        } else {
            -kind.code_spec()
        },
        None => piece_at(b, m.from.0 as int, m.from.1 as int),
    }
}

/// The board after the side `white` has played `m`.
///
/// Castling moves king and rook on the mover's back rank. An en-passant
/// capture also empties the square beside the source, on the destination's
/// file, where the captured pawn stands.
pub open spec fn board_after(b: [[i8; 8]; 8], white: bool, m: Move) -> [[i8; 8]; 8] {
    let back: int = if white { 0 } else { 7 };
    let king: int = if white { 6 } else { -6 };
    let rook: int = if white { 2 } else { -2 };
    let fr = m.from.0 as int;
    let fc = m.from.1 as int;
    let tr = m.to.0 as int;
    let tc = m.to.1 as int;
    match m.special {
        Special::CastleKingside => set_cell(
            set_cell(set_cell(set_cell(b, back, 7, 0), back, 4, 0), back, 6, king),
            back,
            5,
            rook,
        ),
        Special::CastleQueenside => set_cell(
            set_cell(set_cell(set_cell(b, back, 0, 0), back, 4, 0), back, 2, king),
            back,
            3,
            rook,
        ),
        Special::EnPassantCapture => set_cell(
            set_cell(set_cell(b, fr, fc, 0), fr, tc, 0),
            tr,
            tc,
            placed_code(b, white, m),
        ),
        _ => set_cell(set_cell(b, fr, fc, 0), tr, tc, placed_code(b, white, m)),
    }
}

/// Whether the move leaves or reaches the square `(r, c)`.
pub open spec fn touches(m: Move, r: int, c: int) -> bool {
    (m.from.0 == r && m.from.1 == c) || (m.to.0 == r && m.to.1 == c)
}

/// The castling rights after the side `white` has played `m` on the board
/// `b`. A side loses both rights when its king moves, from whatever square,
/// castles, or is captured on its home square. It loses the right of one
/// wing when the home square of that wing's rook is left or reached: the
/// rook has then moved away or been captured, or a piece has come there
/// that did not start there.
pub open spec fn rights_after(rights: CastlingRights, b: [[i8; 8]; 8], white: bool, m: Move)
    -> CastlingRights {
    let p = piece_at(b, m.from.0 as int, m.from.1 as int);
    let q = piece_at(b, m.to.0 as int, m.to.1 as int);
    let white_king_left = (white && m.is_castle()) || p == 6 || (q == 6 && m.to == (0usize, 4usize));
    let black_king_left = (!white && m.is_castle()) || p == -6 || (q == -6 && m.to == (
        7usize,
        4usize,
    ));
    CastlingRights {
        white_kingside: rights.white_kingside && !white_king_left && !touches(m, 0, 7),
        white_queenside: rights.white_queenside && !white_king_left && !touches(m, 0, 0),
        black_kingside: rights.black_kingside && !black_king_left && !touches(m, 7, 7),
        black_queenside: rights.black_queenside && !black_king_left && !touches(m, 7, 0),
    }
}

/// Whether the en-passant flag of file `f` is set after `m`: only a double
/// pawn push sets a flag, that of its own file.
pub open spec fn flag_after(m: Move, f: int) -> bool {
    m.special is DoublePawnPush && f == m.from.1
}

/// The en-passant flags after `m`.
pub open spec fn flags_after(m: Move) -> [bool; 8] {
    let clear = vstd::array::spec_array_fill_for_copy_type::<bool, 8>(false);
    if m.special is DoublePawnPush {
        vstd::array::spec_array_update(clear, m.from.1 as int, true)
    } else {
        clear
    }
}

/// Reading the en-passant flags after a move.
pub proof fn lemma_flags_after(m: Move)
    requires
        m.wf(),
    ensures
        forall|f: int| 0 <= f < 8 ==> #[trigger] flags_after(m)[f] == flag_after(m, f),
{
    let clear = vstd::array::spec_array_fill_for_copy_type::<bool, 8>(false);
    assert forall|f: int| 0 <= f < 8 implies #[trigger] flags_after(m)[f] == flag_after(m, f) by {
        assert(clear@[f] == false);
        assert(clear[f] == clear@[f]);
        assert(flags_after(m)[f] == flags_after(m)@[f]);
    }
}

impl ChessState {
    /// The position after `m`: the board changed as `board_after` says, the
    /// turn passed on, the en-passant flags cleared but for the file of a
    /// double pawn push, the castling rights reduced, the counters kept.
    pub open spec fn after(self, m: Move) -> ChessState {
        ChessState {
            board: board_after(self.board, self.turn, m),
            turn: !self.turn,
            en_passant: flags_after(m),
            castling: rights_after(self.castling, self.board, self.turn, m),
            halfmoves: self.halfmoves,
            fullmoves: self.fullmoves,
        }
    }
}

/// Reading the board after a move, cell by cell.
pub proof fn lemma_board_after(b: [[i8; 8]; 8], white: bool, m: Move)
    requires
        m.wf(),
        board_ok(b),
    ensures
        forall|x: int, y: int|
            on_board(x, y) ==> #[trigger] piece_at(board_after(b, white, m), x, y) == cell_after(
                b,
                white,
                m,
                x,
                y,
            ),
{
    let back: int = if white { 0 } else { 7 };
    let king: int = if white { 6 } else { -6 };
    let rook: int = if white { 2 } else { -2 };
    let fr = m.from.0 as int;
    let fc = m.from.1 as int;
    let tr = m.to.0 as int;
    let tc = m.to.1 as int;
    match m.special {
        Special::CastleKingside => {
            let b1 = set_cell(b, back, 7, 0);
            let b2 = set_cell(b1, back, 4, 0);
            let b3 = set_cell(b2, back, 6, king);
            lemma_set_cell(b, back, 7, 0);
            lemma_set_cell(b1, back, 4, 0);
            lemma_set_cell(b2, back, 6, king);
            lemma_set_cell(b3, back, 5, rook);
        },
        Special::CastleQueenside => {
            let b1 = set_cell(b, back, 0, 0);
            let b2 = set_cell(b1, back, 4, 0);
            let b3 = set_cell(b2, back, 2, king);
            lemma_set_cell(b, back, 0, 0);
            lemma_set_cell(b1, back, 4, 0);
            lemma_set_cell(b2, back, 2, king);
            lemma_set_cell(b3, back, 3, rook);
        },
        Special::EnPassantCapture => {
            let b1 = set_cell(b, fr, fc, 0);
            let b2 = set_cell(b1, fr, tc, 0);
            lemma_set_cell(b, fr, fc, 0);
            lemma_set_cell(b1, fr, tc, 0);
            lemma_set_cell(b2, tr, tc, placed_code(b, white, m));
        },
        _ => {
            let b1 = set_cell(b, fr, fc, 0);
            lemma_set_cell(b, fr, fc, 0);
            lemma_set_cell(b1, tr, tc, placed_code(b, white, m));
        },
    }
}

/// The code on `(x, y)` after the side `white` has played `m` on `b`.
pub open spec fn cell_after(b: [[i8; 8]; 8], white: bool, m: Move, x: int, y: int) -> int {
    let back: int = if white { 0 } else { 7 };
    let sign: int = if white { 1 } else { -1 };
    let fr = m.from.0 as int;
    let fc = m.from.1 as int;
    let tr = m.to.0 as int;
    let tc = m.to.1 as int;
    match m.special {
        Special::CastleKingside => if x == back && y == 5 {
            2 * sign
        } else if x == back && y == 6 {
            6 * sign
        } else if x == back && (y == 4 || y == 7) {
            0
        } else {
            piece_at(b, x, y)
        },
        Special::CastleQueenside => if x == back && y == 3 {
            2 * sign
        } else if x == back && y == 2 {
            6 * sign
        } else if x == back && (y == 4 || y == 0) {
            0
        } else {
            piece_at(b, x, y)
        },
        Special::EnPassantCapture => if x == tr && y == tc {
            placed_code(b, white, m)
        } else if (x == fr && y == fc) || (x == fr && y == tc) {
            0
        } else {
            piece_at(b, x, y)
        },
        _ => if x == tr && y == tc {
            placed_code(b, white, m)
        } else if x == fr && y == fc {
            0
        } else {
            piece_at(b, x, y)
        },
    }
}

impl ChessState {
    /// The move applier: the successor of the position under `m`.
    ///
    /// The move must obey the rule of its piece; whether it leaves the
    /// mover's king attacked is not asked, so that a move can be tried out.
    /// The board is changed as the descriptor says. The en-passant flags are
    /// cleared on every move, and a double pawn push then sets the flag of
    /// its file.
    pub fn do_move(&self, m: &Move) -> (next: ChessState)
        requires
            self.wf(),
            self.is_pseudo_legal(*m),
        ensures
            next == self.after(*m),
            next.wf(),
            next.turn == !self.turn,
            next.castling.within(self.castling),
            m.is_castle() || piece_at(self.board, m.from.0 as int, m.from.1 as int) == 6
                * self.mover() ==> (if self.turn {
                !next.castling.white_kingside && !next.castling.white_queenside
            } else {
                !next.castling.black_kingside && !next.castling.black_queenside
            }),
            forall|f: int| 0 <= f < 8 ==> next.en_passant[f] == flag_after(*m, f),
            forall|x: int, y: int|
                on_board(x, y) ==> #[trigger] piece_at(next.board, x, y) == cell_after(
                    self.board,
                    self.turn,
                    *m,
                    x,
                    y,
                ),
    {
        proof {
            self.lemma_pseudo_legal_on_board(*m);
        }
        let white: bool = self.turn;
        let back: usize = if white { 0 } else { 7 };
        let king: i8 = if white { 6 } else { -6 };
        let rook: i8 = if white { 2 } else { -2 };
        let p: i8 = self.board[m.from.0][m.from.1];
        let q: i8 = self.board[m.to.0][m.to.1];
        assert(p == piece_at(self.board, m.from.0 as int, m.from.1 as int));
        assert(q == piece_at(self.board, m.to.0 as int, m.to.1 as int));
        let placed: i8 = match m.promotion {
            Some(kind) => if white { kind.code() } else { -kind.code() },
            None => p,
        };
        let mut board: [[i8; 8]; 8] = self.board;
        let castle: bool = match m.special {
            Special::CastleKingside => {
                board[back][7] = 0;
                board[back][4] = 0;
                board[back][6] = king;
                board[back][5] = rook;
                true
            },
            Special::CastleQueenside => {
                board[back][0] = 0;
                board[back][4] = 0;
                board[back][2] = king;
                board[back][3] = rook;
                true
            },
            Special::EnPassantCapture => {
                board[m.from.0][m.from.1] = 0;
                board[m.from.0][m.to.1] = 0;
                board[m.to.0][m.to.1] = placed;
                false
            },
            _ => {
                board[m.from.0][m.from.1] = 0;
                board[m.to.0][m.to.1] = placed;
                false
            },
        };
        let mut en_passant: [bool; 8] = [false; 8];
        match m.special {
            Special::DoublePawnPush => {
                en_passant[m.from.1] = true;
            },
            _ => {},
        }
        let white_king_left: bool = (white && castle) || p == 6 || (q == 6 && m.to.0 == 0 && m.to.1
            == 4);
        let black_king_left: bool = (!white && castle) || p == -6 || (q == -6 && m.to.0 == 7
            && m.to.1 == 4);
        let h1: bool = (m.from.0 == 0 && m.from.1 == 7) || (m.to.0 == 0 && m.to.1 == 7);
        let a1: bool = (m.from.0 == 0 && m.from.1 == 0) || (m.to.0 == 0 && m.to.1 == 0);
        let h8: bool = (m.from.0 == 7 && m.from.1 == 7) || (m.to.0 == 7 && m.to.1 == 7);
        let a8: bool = (m.from.0 == 7 && m.from.1 == 0) || (m.to.0 == 7 && m.to.1 == 0);
        let castling = CastlingRights {
            white_kingside: self.castling.white_kingside && !white_king_left && !h1,
            white_queenside: self.castling.white_queenside && !white_king_left && !a1,
            black_kingside: self.castling.black_kingside && !black_king_left && !h8,
            black_queenside: self.castling.black_queenside && !black_king_left && !a8,
        };
        proof {
            lemma_board_after(self.board, white, *m);
            lemma_flags_after(*m);
            assert forall|x: int, y: int| on_board(x, y) implies #[trigger] piece_at(board, x, y)
                == piece_at(board_after(self.board, white, *m), x, y) by {
                assert(piece_at(self.board, x, y) == self.board[x][y]);
            }
            lemma_board_ext(board, board_after(self.board, white, *m));
            assert(en_passant =~= flags_after(*m));
        }
        ChessState {
            board,
            turn: !white,
            en_passant,
            castling,
            halfmoves: self.halfmoves,
            fullmoves: self.fullmoves,
        }
    }
}

/// Castling rights are only ever removed: whatever move is played, no right
/// is held afterwards that was not held before.
pub proof fn castling_rights_only_shrink(state: ChessState, m: Move)
    ensures
        state.after(m).castling.within(state.castling),
{
}

/// A king that has moved has lost its rights: after any move of a king, or
/// a castling move, the side that moved holds no castling right.
pub proof fn king_move_ends_castling(state: ChessState, m: Move)
    requires
        m.is_castle() || piece_at(state.board, m.from.0 as int, m.from.1 as int) == 6
            * state.mover(),
    ensures
        state.turn ==> !state.after(m).castling.white_kingside
            && !state.after(m).castling.white_queenside,
        !state.turn ==> !state.after(m).castling.black_kingside
            && !state.after(m).castling.black_queenside,
{
}

/// An en-passant flag lasts for one ply: a double pawn push sets the flag of
/// its own file and no other, and the next move clears every flag, used or
/// not, before it sets its own if it is a double pawn push itself.
pub proof fn en_passant_flag_lasts_one_ply(state: ChessState, first: Move, second: Move)
    requires
        first.wf(),
        second.wf(),
    ensures
        first.special is DoublePawnPush ==> forall|f: int|
            0 <= f < 8 ==> (#[trigger] state.after(first).en_passant[f] <==> f == first.from.1),
        !(first.special is DoublePawnPush) ==> forall|f: int|
            0 <= f < 8 ==> !#[trigger] state.after(first).en_passant[f],
        forall|f: int|
            0 <= f < 8 ==> (#[trigger] state.after(first).after(second).en_passant[f] <==> (
            second.special is DoublePawnPush && f == second.from.1)),
{
    lemma_flags_after(first);
    lemma_flags_after(second);
}

} // verus!
