//! The evaluator: a mate-or-not test, then the difference in mobility.
use crate::position::ChessState;
use vstd::prelude::*;

verus! {

impl ChessState {
    /// The position with the turn given to white or to black.
    pub open spec fn as_side(self, white: bool) -> ChessState {
        ChessState { turn: white, ..self }
    }

    /// The mobility of a side: the number of legal moves it has when it is
    /// on move, counted positive for white and negative for black.
    pub open spec fn mobility_of(self, player: bool) -> int {
        let count = self.as_side(player).legal_moves().len() as int;
        if player {
            count
        } else {
            -count
        }
    }

    /// The side to move has no legal move and is in check.
    pub open spec fn is_mate(self) -> bool {
        self.legal_moves().len() == 0 && self.in_check()
    }

    /// The score of a position, white maximising. A side to move that is
    /// mated scores the lowest value for white and the highest for black;
    /// any other position scores white's mobility minus black's.
    #[verifier::opaque]
    pub open spec fn score(self) -> int {
        if self.is_mate() {
            if self.turn {
                i32::MIN as int
            } else {
                i32::MAX as int
            }
        } else {
            self.mobility_of(true) + self.mobility_of(false)
        }
    }

    /// A score that is no mate score stays far from the two extremes.
    pub proof fn lemma_score_range(self)
        ensures
            i32::MIN <= self.score() <= i32::MAX,
            !self.is_mate() ==> -8522 <= self.score() <= 8522,
    {
        reveal(ChessState::score);
        self.as_side(true).lemma_raw_moves_len();
        self.as_side(false).lemma_raw_moves_len();
    }

    /// The mobility of a side.
    pub fn mobility(&self, player: bool) -> (count: i32)
        requires
            self.wf(),
        ensures
            count == self.mobility_of(player),
            -8522 <= count <= 8522,
    {
        let side = ChessState {
            board: self.board,
            turn: player,
            en_passant: self.en_passant,
            castling: self.castling,
            halfmoves: self.halfmoves,
            fullmoves: self.fullmoves,
        };
        let count: i32 = side.get_all_possible_moves().len() as i32;
        if player {
            count
        } else {
            -count
        }
    }

    /// The evaluator.
    pub fn eval(state: ChessState) -> (score: i32)
        requires
            state.wf(),
        ensures
            score == state.score(),
    {
        proof {
            reveal(ChessState::score);
        }
        if state.is_terminal() && state.check() {
            return if state.turn { i32::MIN } else { i32::MAX };
        }
        state.mobility(true) + state.mobility(false)
    }
}

} // verus!
