use chess_engine::fen::FenError;
use chess_engine::position::{CastlingRights, ChessState};

const START: &str = "rnbqkbnr/pppppppp/8/8/8/8/PPPPPPPP/RNBQKBNR w KQkq - 0 1";

#[test]
fn the_starting_description_gives_the_starting_position() {
    let state = ChessState::from_fen(START).unwrap();
    let start = ChessState::new_board();
    assert_eq!(state.board, start.board);
    assert_eq!(state.turn, start.turn);
    assert_eq!(state.castling, start.castling);
    assert_eq!(state.en_passant, start.en_passant);
    assert_eq!(state.halfmoves, 0);
    assert_eq!(state.fullmoves, 1);
}

#[test]
fn the_starting_board_is_laid_out_rank_by_rank() {
    let state = ChessState::new_board();
    assert_eq!(state.board[0], [2, 3, 4, 5, 6, 4, 3, 2]);
    assert_eq!(state.board[1], [1; 8]);
    assert_eq!(state.board[2], [0; 8]);
    assert_eq!(state.board[5], [0; 8]);
    assert_eq!(state.board[6], [-1; 8]);
    assert_eq!(state.board[7], [-2, -3, -4, -5, -6, -4, -3, -2]);
    assert!(state.turn);
    assert_eq!(state.en_passant, [false; 8]);
    assert_eq!(
        state.castling,
        CastlingRights {
            white_kingside: true,
            white_queenside: true,
            black_kingside: true,
            black_queenside: true,
        }
    );
    assert_eq!((state.halfmoves, state.fullmoves), (0, 0));
}

#[test]
fn the_empty_board_holds_no_piece() {
    let state = ChessState::empty_board();
    assert_eq!(state.board, [[0i8; 8]; 8]);
    assert!(state.turn);
}

#[test]
fn every_field_is_read() {
    let state = ChessState::from_fen("8/8/8/3pP3/8/8/8/R3K2k b Qk d6 12 345").unwrap();
    assert_eq!(state.board[0], [2, 0, 0, 0, 6, 0, 0, -6]);
    assert_eq!(state.board[4], [0, 0, 0, -1, 1, 0, 0, 0]);
    assert!(!state.turn);
    assert_eq!(
        state.castling,
        CastlingRights {
            white_kingside: false,
            white_queenside: true,
            black_kingside: true,
            black_queenside: false,
        }
    );
    assert_eq!(state.en_passant, [false, false, false, true, false, false, false, false]);
    assert_eq!(state.halfmoves, 12);
    assert_eq!(state.fullmoves, 345);
}

#[test]
fn digits_and_letters_mix_within_a_rank() {
    let state = ChessState::from_fen("8/8/8/8/8/8/8/1k2K1Q1 w - - 0 1").unwrap();
    assert_eq!(state.board[0], [0, -6, 0, 0, 6, 0, 5, 0]);
}

#[test]
fn counters_up_to_32_bits_are_read() {
    let state = ChessState::from_fen("8/8/8/8/8/8/8/8 w - - 4294967295 007").unwrap();
    assert_eq!(state.halfmoves, u32::MAX);
    assert_eq!(state.fullmoves, 7);
}

#[test]
fn a_wrong_number_of_fields_is_reported() {
    assert_eq!(ChessState::from_fen(""), Err(FenError::FieldCount));
    assert_eq!(
        ChessState::from_fen("rnbqkbnr/pppppppp/8/8/8/8/PPPPPPPP/RNBQKBNR"),
        Err(FenError::FieldCount)
    );
    assert_eq!(
        ChessState::from_fen("rnbqkbnr/pppppppp/8/8/8/8/PPPPPPPP/RNBQKBNR w KQkq - 0"),
        Err(FenError::FieldCount)
    );
    assert_eq!(
        ChessState::from_fen("rnbqkbnr/pppppppp/8/8/8/8/PPPPPPPP/RNBQKBNR w KQkq - 0 1 "),
        Err(FenError::FieldCount)
    );
    assert_eq!(
        ChessState::from_fen("rnbqkbnr/pppppppp/8/8/8/8/PPPPPPPP/RNBQKBNR w KQkq - 0 1 x"),
        Err(FenError::FieldCount)
    );
}

#[test]
fn a_double_space_makes_an_empty_field() {
    assert_eq!(
        ChessState::from_fen("8/8/8/8/8/8/8/8  w - - 0"),
        Err(FenError::SideToMove)
    );
}

#[test]
fn a_bad_placement_is_reported() {
    assert_eq!(ChessState::from_fen("8/8/8/8/8/8/8 w - - 0 1"), Err(FenError::Placement));
    assert_eq!(ChessState::from_fen("8/8/8/8/8/8/8/8/8 w - - 0 1"), Err(FenError::Placement));
    assert_eq!(ChessState::from_fen("8/8/8/8/8/8/8/7 w - - 0 1"), Err(FenError::Placement));
    assert_eq!(ChessState::from_fen("8/8/8/8/8/8/8/9 w - - 0 1"), Err(FenError::Placement));
    assert_eq!(ChessState::from_fen("8/8/8/8/8/8/8/44P w - - 0 1"), Err(FenError::Placement));
    assert_eq!(ChessState::from_fen("8/8/8/8/8/8/8/PPPPPPPPP w - - 0 1"), Err(FenError::Placement));
    assert_eq!(ChessState::from_fen("8/8/8/8/8/8/8/7x w - - 0 1"), Err(FenError::Placement));
    assert_eq!(ChessState::from_fen("8/8/8/8/8/8/8/70 w - - 0 1"), Err(FenError::Placement));
}

#[test]
fn a_bad_side_to_move_is_reported() {
    assert_eq!(ChessState::from_fen("8/8/8/8/8/8/8/8 x - - 0 1"), Err(FenError::SideToMove));
    assert_eq!(ChessState::from_fen("8/8/8/8/8/8/8/8 W - - 0 1"), Err(FenError::SideToMove));
    assert_eq!(ChessState::from_fen("8/8/8/8/8/8/8/8 wb - - 0 1"), Err(FenError::SideToMove));
}

#[test]
fn bad_castling_rights_are_reported() {
    assert_eq!(ChessState::from_fen("8/8/8/8/8/8/8/8 w  - 0 1"), Err(FenError::Castling));
    assert_eq!(ChessState::from_fen("8/8/8/8/8/8/8/8 w KQx - 0 1"), Err(FenError::Castling));
    assert_eq!(ChessState::from_fen("8/8/8/8/8/8/8/8 w K- - 0 1"), Err(FenError::Castling));
}

#[test]
fn a_bad_en_passant_square_is_reported() {
    assert_eq!(ChessState::from_fen("8/8/8/8/8/8/8/8 w - e 0 1"), Err(FenError::EnPassant));
    assert_eq!(ChessState::from_fen("8/8/8/8/8/8/8/8 w - i3 0 1"), Err(FenError::EnPassant));
    assert_eq!(ChessState::from_fen("8/8/8/8/8/8/8/8 w - e9 0 1"), Err(FenError::EnPassant));
    assert_eq!(ChessState::from_fen("8/8/8/8/8/8/8/8 w - e33 0 1"), Err(FenError::EnPassant));
}

#[test]
fn bad_counters_are_reported() {
    assert_eq!(ChessState::from_fen("8/8/8/8/8/8/8/8 w - - x 1"), Err(FenError::HalfmoveClock));
    assert_eq!(ChessState::from_fen("8/8/8/8/8/8/8/8 w - - -1 1"), Err(FenError::HalfmoveClock));
    assert_eq!(
        ChessState::from_fen("8/8/8/8/8/8/8/8 w - - 4294967296 1"),
        Err(FenError::HalfmoveClock)
    );
    assert_eq!(ChessState::from_fen("8/8/8/8/8/8/8/8 w - - 0 1a"), Err(FenError::FullmoveNumber));
    assert_eq!(
        ChessState::from_fen("8/8/8/8/8/8/8/8 w - - 0 99999999999"),
        Err(FenError::FullmoveNumber)
    );
}

#[test]
fn the_first_bad_field_is_the_one_reported() {
    assert_eq!(ChessState::from_fen("9/8/8/8/8/8/8/8 x y z a b"), Err(FenError::Placement));
    assert_eq!(ChessState::from_fen("8/8/8/8/8/8/8/8 x y z a b"), Err(FenError::SideToMove));
    assert_eq!(ChessState::from_fen("8/8/8/8/8/8/8/8 w y z a b"), Err(FenError::Castling));
    assert_eq!(ChessState::from_fen("8/8/8/8/8/8/8/8 w - z a b"), Err(FenError::EnPassant));
    assert_eq!(ChessState::from_fen("8/8/8/8/8/8/8/8 w - - a b"), Err(FenError::HalfmoveClock));
    assert_eq!(ChessState::from_fen("8/8/8/8/8/8/8/8 w - - 0 b"), Err(FenError::FullmoveNumber));
}
