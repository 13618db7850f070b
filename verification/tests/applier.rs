use chess_engine::moves::{Move, PieceKind, Special};
use chess_engine::position::{CastlingRights, ChessState};

fn position(fen: &str) -> ChessState {
    ChessState::from_fen(fen).unwrap()
}

fn plain(from: (usize, usize), to: (usize, usize), piece: PieceKind, capture: bool) -> Move {
    Move { from, to, piece, capture, promotion: None, special: Special::Ordinary }
}

fn double_push(from: (usize, usize), to: (usize, usize)) -> Move {
    Move {
        from,
        to,
        piece: PieceKind::Pawn,
        capture: false,
        promotion: None,
        special: Special::DoublePawnPush,
    }
}

#[test]
fn a_move_empties_the_source_and_fills_the_destination() {
    let state = ChessState::new_board();
    let next = state.do_move(&plain((0, 1), (2, 2), PieceKind::Knight, false));
    assert_eq!(next.board[0][1], 0);
    assert_eq!(next.board[2][2], 3);
    assert!(!next.turn);
    assert_eq!(next.castling, state.castling);
    assert_eq!(next.halfmoves, state.halfmoves);
    assert_eq!(next.fullmoves, state.fullmoves);
    // nothing else has changed
    let mut expected = state.board;
    expected[0][1] = 0;
    expected[2][2] = 3;
    assert_eq!(next.board, expected);
    // the position that was moved from is untouched
    assert_eq!(state.board[0][1], 3);
    assert!(state.turn);
}

#[test]
fn a_double_pawn_push_sets_exactly_the_flag_of_its_file() {
    let state = ChessState::new_board();
    let next = state.do_move(&double_push((1, 4), (3, 4)));
    assert_eq!(next.en_passant, [false, false, false, false, true, false, false, false]);
    assert_eq!(next.board[3][4], 1);
    assert_eq!(next.board[1][4], 0);
}

#[test]
fn the_flag_is_cleared_after_one_ply_when_it_is_not_used() {
    let state = ChessState::new_board();
    let first = state.do_move(&double_push((1, 4), (3, 4)));
    let second = first.do_move(&plain((7, 1), (5, 2), PieceKind::Knight, false));
    assert_eq!(second.en_passant, [false; 8]);
}

#[test]
fn the_flag_is_cleared_after_a_single_pawn_push() {
    let state = ChessState::new_board();
    let first = state.do_move(&double_push((1, 4), (3, 4)));
    let second = first.do_move(&plain((6, 0), (5, 0), PieceKind::Pawn, false));
    assert_eq!(second.en_passant, [false; 8]);
}

#[test]
fn a_second_double_push_replaces_the_flag() {
    let state = ChessState::new_board();
    let first = state.do_move(&double_push((1, 4), (3, 4)));
    let second = first.do_move(&double_push((6, 3), (4, 3)));
    assert_eq!(second.en_passant, [false, false, false, true, false, false, false, false]);
}

#[test]
fn the_flag_is_cleared_when_it_is_used() {
    let state = position("7k/8/8/3pP3/8/8/8/4K3 w - d6 0 1");
    assert_eq!(state.en_passant, [false, false, false, true, false, false, false, false]);
    let capture = Move {
        from: (4, 4),
        to: (5, 3),
        piece: PieceKind::Pawn,
        capture: true,
        promotion: None,
        special: Special::EnPassantCapture,
    };
    let next = state.do_move(&capture);
    assert_eq!(next.en_passant, [false; 8]);
    // the captured pawn stood beside the capturing one, not on the destination
    assert_eq!(next.board[4][3], 0);
    assert_eq!(next.board[4][4], 0);
    assert_eq!(next.board[5][3], 1);
}

#[test]
fn black_captures_in_passing_downwards() {
    let state = position("7k/8/8/8/3pP3/8/8/4K3 b - e3 0 1");
    let capture = Move {
        from: (3, 3),
        to: (2, 4),
        piece: PieceKind::Pawn,
        capture: true,
        promotion: None,
        special: Special::EnPassantCapture,
    };
    assert!(state.get_all_possible_moves().contains(&capture));
    let next = state.do_move(&capture);
    assert_eq!(next.board[3][4], 0);
    assert_eq!(next.board[3][3], 0);
    assert_eq!(next.board[2][4], -1);
}

#[test]
fn castling_kingside_moves_king_and_rook() {
    let state = position("r3k2r/8/8/8/8/8/8/R3K2R w KQkq - 0 1");
    let castle = Move {
        from: (0, 4),
        to: (0, 6),
        piece: PieceKind::King,
        capture: false,
        promotion: None,
        special: Special::CastleKingside,
    };
    let next = state.do_move(&castle);
    assert_eq!(next.board[0], [2, 0, 0, 0, 0, 2, 6, 0]);
    assert_eq!(
        next.castling,
        CastlingRights {
            white_kingside: false,
            white_queenside: false,
            black_kingside: true,
            black_queenside: true,
        }
    );
}

#[test]
fn castling_queenside_moves_king_and_rook() {
    let state = position("r3k2r/8/8/8/8/8/8/R3K2R b KQkq - 0 1");
    let castle = Move {
        from: (7, 4),
        to: (7, 2),
        piece: PieceKind::King,
        capture: false,
        promotion: None,
        special: Special::CastleQueenside,
    };
    let next = state.do_move(&castle);
    assert_eq!(next.board[7], [0, 0, -6, -2, 0, 0, 0, -2]);
    assert_eq!(
        next.castling,
        CastlingRights {
            white_kingside: true,
            white_queenside: true,
            black_kingside: false,
            black_queenside: false,
        }
    );
    assert!(next.turn);
}

#[test]
fn a_king_move_removes_both_rights_of_its_side() {
    let state = position("r3k2r/8/8/8/8/8/8/R3K2R w KQkq - 0 1");
    let next = state.do_move(&plain((0, 4), (1, 4), PieceKind::King, false));
    assert!(!next.castling.white_kingside && !next.castling.white_queenside);
    assert!(next.castling.black_kingside && next.castling.black_queenside);
}

#[test]
fn a_rook_move_removes_the_right_of_its_wing() {
    let state = position("r3k2r/8/8/8/8/8/8/R3K2R w KQkq - 0 1");
    let next = state.do_move(&plain((0, 7), (0, 6), PieceKind::Rook, false));
    assert!(!next.castling.white_kingside);
    assert!(next.castling.white_queenside);
    let other = state.do_move(&plain((0, 0), (0, 1), PieceKind::Rook, false));
    assert!(other.castling.white_kingside);
    assert!(!other.castling.white_queenside);
}

#[test]
fn a_bishop_move_keeps_all_rights() {
    let state = position("r3k2r/8/8/8/8/8/8/R1B1K2R w KQkq - 0 1");
    let next = state.do_move(&plain((0, 2), (1, 3), PieceKind::Bishop, false));
    assert_eq!(next.castling, state.castling);
}

#[test]
fn capturing_a_rook_on_its_home_square_removes_the_right() {
    let state = position("r3k2r/8/8/8/8/8/8/R3K2R w KQkq - 0 1");
    let next = state.do_move(&plain((0, 7), (7, 7), PieceKind::Rook, true));
    assert!(!next.castling.black_kingside);
    assert!(next.castling.black_queenside);
    assert!(!next.castling.white_kingside);
    assert_eq!(next.board[7][7], 2);
}

#[test]
fn rights_are_never_granted_again() {
    let state = position("r3k2r/8/8/8/8/8/8/R3K2R w - - 0 1");
    for m in state.get_all_possible_moves().iter() {
        let next = state.do_move(m);
        assert!(!next.castling.white_kingside && !next.castling.white_queenside);
        assert!(!next.castling.black_kingside && !next.castling.black_queenside);
    }
}

#[test]
fn a_promotion_places_the_new_piece() {
    let state = position("7k/1P6/8/8/8/8/8/4K3 w - - 0 1");
    let queen = Move {
        from: (6, 1),
        to: (7, 1),
        piece: PieceKind::Pawn,
        capture: false,
        promotion: Some(PieceKind::Queen),
        special: Special::Ordinary,
    };
    let next = state.do_move(&queen);
    assert_eq!(next.board[7][1], 5);
    assert_eq!(next.board[6][1], 0);
    let knight = Move { promotion: Some(PieceKind::Knight), ..queen };
    assert_eq!(state.do_move(&knight).board[7][1], 3);
}

#[test]
fn a_black_promotion_places_a_black_piece() {
    let state = position("7k/8/8/8/8/8/1p6/4K3 b - - 0 1");
    let rook = Move {
        from: (1, 1),
        to: (0, 1),
        piece: PieceKind::Pawn,
        capture: false,
        promotion: Some(PieceKind::Rook),
        special: Special::Ordinary,
    };
    assert_eq!(state.do_move(&rook).board[0][1], -2);
}

#[test]
fn a_copy_is_equal_to_the_position() {
    let state = position("r3k2r/pppq1ppp/2npbn2/2b1p3/2B1P3/2NPBN2/PPPQ1PPP/R3K2R b Kq e3 4 9");
    assert_eq!(state.copy(), state);
}

#[test]
fn piece_codes_follow_the_order_of_the_kinds() {
    assert_eq!(PieceKind::Pawn.code(), 1);
    assert_eq!(PieceKind::Rook.code(), 2);
    assert_eq!(PieceKind::Knight.code(), 3);
    assert_eq!(PieceKind::Bishop.code(), 4);
    assert_eq!(PieceKind::Queen.code(), 5);
    assert_eq!(PieceKind::King.code(), 6);
    assert_eq!(PieceKind::from_code(-4), Some(PieceKind::Bishop));
    assert_eq!(PieceKind::from_code(6), Some(PieceKind::King));
    assert_eq!(PieceKind::from_code(0), None);
    assert_eq!(PieceKind::from_code(7), None);
}

#[test]
fn capturing_a_king_on_its_home_square_removes_both_rights() {
    // A move that is tried out may take the king.
    let state = position("r3k2r/8/8/8/8/8/8/R3K2R w KQkq - 0 1");
    let tried = state.do_move(&plain((0, 4), (1, 4), PieceKind::King, false));
    let taken = position("r3k2r/4R3/8/8/8/8/8/4K3 w kq - 0 1")
        .do_move(&plain((6, 4), (7, 4), PieceKind::Rook, true));
    assert!(!tried.castling.white_kingside);
    assert!(!taken.castling.black_kingside && !taken.castling.black_queenside);
    assert_eq!(taken.board[7][4], 2);
}

#[test]
fn a_king_that_moves_from_another_square_loses_its_rights_too() {
    // The description grants a right although the king stands on d1.
    let state = position("7k/8/8/8/8/8/8/3K3R w K - 0 1");
    assert!(state.castling.white_kingside);
    let up = state.do_move(&plain((0, 3), (1, 3), PieceKind::King, false));
    assert!(!up.castling.white_kingside && !up.castling.white_queenside);
    let home = state.do_move(&plain((0, 3), (0, 4), PieceKind::King, false));
    assert!(!home.castling.white_kingside && !home.castling.white_queenside);
    // back on move with the king on e1, white does not castle
    let back = home.do_move(&plain((7, 7), (7, 6), PieceKind::King, false));
    assert!(back
        .get_all_possible_moves()
        .iter()
        .all(|m| m.special == Special::Ordinary));
}

#[test]
fn a_rook_that_comes_to_the_corner_brings_no_right() {
    // The description grants a right although the rook stands on g1.
    let state = position("7k/8/8/8/8/8/8/4K1R1 w K - 0 1");
    let next = state.do_move(&plain((0, 6), (0, 7), PieceKind::Rook, false));
    assert!(!next.castling.white_kingside);
    let back = next.do_move(&plain((7, 7), (7, 6), PieceKind::King, false));
    assert!(back
        .get_all_possible_moves()
        .iter()
        .all(|m| m.special == Special::Ordinary));
}

#[test]
fn a_black_king_move_removes_the_black_rights_only() {
    let state = position("r3k2r/8/8/8/8/8/8/R3K2R b KQkq - 0 1");
    let next = state.do_move(&plain((7, 4), (6, 4), PieceKind::King, false));
    assert!(!next.castling.black_kingside && !next.castling.black_queenside);
    assert!(next.castling.white_kingside && next.castling.white_queenside);
}
