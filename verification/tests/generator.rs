use chess_engine::moves::{Move, PieceKind, Special};
use chess_engine::position::ChessState;

fn position(fen: &str) -> ChessState {
    ChessState::from_fen(fen).unwrap()
}

fn plain(from: (usize, usize), to: (usize, usize), piece: PieceKind, capture: bool) -> Move {
    Move { from, to, piece, capture, promotion: None, special: Special::Ordinary }
}

#[test]
fn starting_position_has_twenty_legal_moves() {
    let state = ChessState::new_board();
    let moves = state.get_all_possible_moves();
    assert_eq!(moves.len(), 20);
}

#[test]
fn starting_position_moves_are_pawn_pushes_and_knight_jumps() {
    let state = ChessState::new_board();
    let moves = state.get_all_possible_moves();
    let pawns = moves.iter().filter(|m| m.piece == PieceKind::Pawn).count();
    let knights = moves.iter().filter(|m| m.piece == PieceKind::Knight).count();
    assert_eq!(pawns, 16);
    assert_eq!(knights, 4);
    assert_eq!(
        moves[0],
        Move {
            from: (1, 0),
            to: (3, 0),
            piece: PieceKind::Pawn,
            capture: false,
            promotion: None,
            special: Special::DoublePawnPush,
        }
    );
    assert_eq!(moves[1], plain((1, 0), (2, 0), PieceKind::Pawn, false));
    assert_eq!(moves[16], plain((0, 1), (2, 0), PieceKind::Knight, false));
    assert_eq!(moves[17], plain((0, 1), (2, 2), PieceKind::Knight, false));
    assert_eq!(moves[18], plain((0, 6), (2, 5), PieceKind::Knight, false));
    assert_eq!(moves[19], plain((0, 6), (2, 7), PieceKind::Knight, false));
}

#[test]
fn black_has_twenty_moves_after_a_white_move() {
    let state = position("rnbqkbnr/pppppppp/8/8/4P3/8/PPPP1PPP/RNBQKBNR b KQkq e3 0 1");
    let moves = state.get_all_possible_moves();
    assert_eq!(moves.len(), 20);
    assert!(moves.contains(&Move {
        from: (6, 4),
        to: (4, 4),
        piece: PieceKind::Pawn,
        capture: false,
        promotion: None,
        special: Special::DoublePawnPush,
    }));
    assert!(moves.contains(&plain((6, 4), (5, 4), PieceKind::Pawn, false)));
}

#[test]
fn pinned_rook_moves_along_its_file_only() {
    // White king e1, white rook e2, black queen e8: the rook is pinned on the e-file.
    let state = position("4q2k/8/8/8/8/8/4R3/4K3 w - - 0 1");
    let moves = state.get_all_possible_moves();
    let rook: Vec<&Move> = moves.iter().filter(|m| m.piece == PieceKind::Rook).collect();
    assert_eq!(rook.len(), 6);
    for m in rook.iter() {
        assert_eq!(m.from, (1, 4));
        assert_eq!(m.to.1, 4);
    }
    assert!(moves.contains(&plain((1, 4), (7, 4), PieceKind::Rook, true)));
    assert!(moves.contains(&plain((1, 4), (2, 4), PieceKind::Rook, false)));
    assert!(!moves.contains(&plain((1, 4), (1, 3), PieceKind::Rook, false)));
}

#[test]
fn unpinned_rook_moves_along_rank_and_file() {
    let state = position("7k/8/8/8/8/8/4R3/4K3 w - - 0 1");
    let moves = state.get_all_possible_moves();
    let rook = moves.iter().filter(|m| m.piece == PieceKind::Rook).count();
    // six squares up the file, seven along the rank
    assert_eq!(rook, 13);
    // the rook's moves along the rank come before those along the file
    let first = moves.iter().find(|m| m.piece == PieceKind::Rook).unwrap();
    assert_eq!(*first, plain((1, 4), (1, 5), PieceKind::Rook, false));
}

#[test]
fn vertical_pin_lists_the_pinned_rook() {
    let state = position("4q2k/8/8/8/8/8/4R3/4K3 w - - 0 1");
    let vertical = ChessState::vertical_pin(state.board, (0, 4), 1);
    assert_eq!(vertical, vec![(1, 4)]);
    assert!(ChessState::horisontal_pin(state.board, (0, 4), 1).is_empty());
    assert!(ChessState::left_diagonal_pin(state.board, (0, 4), 1).is_empty());
    assert!(ChessState::right_diagonal_pin(state.board, (0, 4), 1).is_empty());
}

#[test]
fn a_bishop_does_not_pin_along_a_file() {
    let state = position("4b2k/8/8/8/8/8/4R3/4K3 w - - 0 1");
    assert!(ChessState::vertical_pin(state.board, (0, 4), 1).is_empty());
}

#[test]
fn two_pieces_in_front_of_the_king_are_not_pinned() {
    let state = position("4q2k/8/8/8/8/4N3/4R3/4K3 w - - 0 1");
    assert!(ChessState::vertical_pin(state.board, (0, 4), 1).is_empty());
}

#[test]
fn diagonal_pins_are_told_apart() {
    // White king e1; white bishop d2 with black bishop a5 behind it (towards the a-file);
    // white knight f2 with black queen h4 behind it (towards the h-file).
    let state = position("7k/8/8/b7/7q/8/3B1N2/4K3 w - - 0 1");
    assert_eq!(ChessState::left_diagonal_pin(state.board, (0, 4), 1), vec![(1, 3)]);
    assert_eq!(ChessState::right_diagonal_pin(state.board, (0, 4), 1), vec![(1, 5)]);
    let moves = state.get_all_possible_moves();
    // the pinned knight does not move at all
    assert_eq!(moves.iter().filter(|m| m.piece == PieceKind::Knight).count(), 0);
    // the pinned bishop keeps to the diagonal of the pin: c3, b4 and the capture on a5
    let bishop: Vec<&Move> = moves.iter().filter(|m| m.piece == PieceKind::Bishop).collect();
    assert_eq!(bishop.len(), 3);
    assert!(moves.contains(&plain((1, 3), (4, 0), PieceKind::Bishop, true)));
}

#[test]
fn knight_in_the_corner_has_two_moves() {
    let state = position("7k/8/8/8/8/8/8/N3K3 w - - 0 1");
    let moves = state.get_all_possible_moves();
    let knight: Vec<&Move> = moves.iter().filter(|m| m.piece == PieceKind::Knight).collect();
    assert_eq!(knight.len(), 2);
    assert!(moves.contains(&plain((0, 0), (1, 2), PieceKind::Knight, false)));
    assert!(moves.contains(&plain((0, 0), (2, 1), PieceKind::Knight, false)));
}

#[test]
fn knight_reaches_the_h_file() {
    let state = position("7k/8/8/8/8/5N2/8/4K3 w - - 0 1");
    let moves = state.get_all_possible_moves();
    assert!(moves.contains(&plain((2, 5), (3, 7), PieceKind::Knight, false)));
    assert!(moves.contains(&plain((2, 5), (1, 7), PieceKind::Knight, false)));
    assert_eq!(moves.iter().filter(|m| m.piece == PieceKind::Knight).count(), 7);
}

#[test]
fn king_on_the_edge_does_not_wrap_around() {
    let state = position("7k/8/8/8/8/8/8/K7 w - - 0 1");
    let moves = state.get_all_possible_moves();
    assert_eq!(moves.len(), 3);
    for m in moves.iter() {
        assert!(m.to.0 <= 1 && m.to.1 <= 1);
    }
}

#[test]
fn king_does_not_step_onto_a_danger_square() {
    // Black rook on b8 attacks the whole b-file.
    let state = position("1r5k/8/8/8/8/8/8/K7 w - - 0 1");
    let moves = state.get_all_possible_moves();
    assert_eq!(moves, vec![plain((0, 0), (1, 0), PieceKind::King, false)]);
}

#[test]
fn in_check_only_moves_that_end_the_check_are_legal() {
    // White king e1 is checked by the rook on e8; the bishop on c1 can block on e3.
    let state = position("4r2k/8/8/8/8/8/8/2B1K3 w - - 0 1");
    assert!(state.check());
    let moves = state.get_all_possible_moves();
    let expected = vec![
        plain((0, 2), (2, 4), PieceKind::Bishop, false),
        plain((0, 4), (0, 5), PieceKind::King, false),
        plain((0, 4), (0, 3), PieceKind::King, false),
        plain((0, 4), (1, 3), PieceKind::King, false),
        plain((0, 4), (1, 5), PieceKind::King, false),
    ];
    assert_eq!(moves.len(), expected.len());
    for m in expected.iter() {
        assert!(moves.contains(m), "missing {:?}", m);
    }
}

#[test]
fn no_legal_move_leaves_the_own_king_attacked() {
    let fens = [
        "rnbqkbnr/pppppppp/8/8/8/8/PPPPPPPP/RNBQKBNR w KQkq - 0 1",
        "4r2k/8/8/8/8/8/8/2B1K3 w - - 0 1",
        "r3k2r/pppq1ppp/2npbn2/2b1p3/2B1P3/2NPBN2/PPPQ1PPP/R3K2R w KQkq - 0 1",
        "r3k2r/pppq1ppp/2npbn2/2b1p3/2B1P3/2NPBN2/PPPQ1PPP/R3K2R b KQkq - 0 1",
        "8/8/8/KPp4r/8/8/8/7k w - c6 0 1",
        "4q2k/8/8/8/8/8/4R3/4K3 w - - 0 1",
        "7k/8/8/b7/7q/8/3B1N2/4K3 w - - 0 1",
    ];
    for fen in fens.iter() {
        let state = position(fen);
        let sign: i8 = if state.turn { 1 } else { -1 };
        for m in state.get_all_possible_moves().iter() {
            let next = state.do_move(m);
            assert!(ChessState::king_is_safe(next.board, sign), "{} {:?}", fen, m);
        }
    }
}

#[test]
fn capture_in_passing_is_generated_when_the_flag_is_set() {
    let state = position("7k/8/8/3pP3/8/8/8/4K3 w - d6 0 1");
    let moves = state.get_all_possible_moves();
    assert!(moves.contains(&Move {
        from: (4, 4),
        to: (5, 3),
        piece: PieceKind::Pawn,
        capture: true,
        promotion: None,
        special: Special::EnPassantCapture,
    }));
}

#[test]
fn capture_in_passing_is_not_generated_without_the_flag() {
    let state = position("7k/8/8/3pP3/8/8/8/4K3 w - - 0 1");
    let moves = state.get_all_possible_moves();
    assert!(moves.iter().all(|m| m.special != Special::EnPassantCapture));
    assert!(moves.contains(&plain((4, 4), (5, 4), PieceKind::Pawn, false)));
}

#[test]
fn capture_in_passing_that_uncovers_the_king_is_not_legal() {
    // King a5, pawn b5, black pawn c5 has just advanced two squares, black rook h5.
    let state = position("8/8/8/KPp4r/8/8/8/7k w - c6 0 1");
    assert!(!state.check());
    let raw = state.raw_get_all_possible_moves();
    assert!(raw.iter().any(|m| m.special == Special::EnPassantCapture));
    let moves = state.get_all_possible_moves();
    assert!(moves.iter().all(|m| m.special != Special::EnPassantCapture));
    assert!(moves.contains(&plain((4, 1), (5, 1), PieceKind::Pawn, false)));
}

#[test]
fn pawn_promotes_to_four_pieces_on_the_last_rank() {
    let state = position("7k/1P6/8/8/8/8/8/4K3 w - - 0 1");
    let moves = state.get_all_possible_moves();
    let promotions: Vec<Option<PieceKind>> =
        moves.iter().filter(|m| m.piece == PieceKind::Pawn).map(|m| m.promotion).collect();
    assert_eq!(
        promotions,
        vec![
            Some(PieceKind::Rook),
            Some(PieceKind::Bishop),
            Some(PieceKind::Knight),
            Some(PieceKind::Queen),
        ]
    );
}

#[test]
fn black_pawn_promotes_by_capture() {
    let state = position("7k/8/8/8/8/8/1p6/2N1K3 b - - 0 1");
    let moves = state.get_all_possible_moves();
    let pawn: Vec<&Move> = moves.iter().filter(|m| m.piece == PieceKind::Pawn).collect();
    assert_eq!(pawn.len(), 8);
    assert!(moves.contains(&Move {
        from: (1, 1),
        to: (0, 2),
        piece: PieceKind::Pawn,
        capture: true,
        promotion: Some(PieceKind::Queen),
        special: Special::Ordinary,
    }));
}

#[test]
fn blocked_pawn_has_no_push() {
    let state = position("7k/8/8/8/8/4n3/4P3/4K3 w - - 0 1");
    let moves = state.get_all_possible_moves();
    assert_eq!(moves.iter().filter(|m| m.piece == PieceKind::Pawn).count(), 0);
}

#[test]
fn double_push_needs_two_empty_squares() {
    let state = position("7k/8/8/8/4n3/8/4P3/4K3 w - - 0 1");
    let moves = state.get_all_possible_moves();
    let pawn: Vec<&Move> = moves.iter().filter(|m| m.piece == PieceKind::Pawn).collect();
    assert_eq!(pawn.len(), 1);
    assert_eq!(*pawn[0], plain((1, 4), (2, 4), PieceKind::Pawn, false));
}

#[test]
fn both_castling_moves_are_legal_when_nothing_is_in_the_way() {
    let state = position("r3k2r/8/8/8/8/8/8/R3K2R w KQkq - 0 1");
    let moves = state.get_all_possible_moves();
    let kingside = Move {
        from: (0, 4),
        to: (0, 6),
        piece: PieceKind::King,
        capture: false,
        promotion: None,
        special: Special::CastleKingside,
    };
    let queenside = Move {
        from: (0, 4),
        to: (0, 2),
        piece: PieceKind::King,
        capture: false,
        promotion: None,
        special: Special::CastleQueenside,
    };
    assert!(moves.contains(&kingside));
    assert!(moves.contains(&queenside));
    // castling comes last, kingside first
    assert_eq!(moves[moves.len() - 2], kingside);
    assert_eq!(moves[moves.len() - 1], queenside);
}

#[test]
fn black_castles_on_its_own_back_rank() {
    let state = position("r3k2r/8/8/8/8/8/8/R3K2R b KQkq - 0 1");
    let moves = state.get_all_possible_moves();
    assert!(moves.contains(&Move {
        from: (7, 4),
        to: (7, 6),
        piece: PieceKind::King,
        capture: false,
        promotion: None,
        special: Special::CastleKingside,
    }));
    assert!(moves.contains(&Move {
        from: (7, 4),
        to: (7, 2),
        piece: PieceKind::King,
        capture: false,
        promotion: None,
        special: Special::CastleQueenside,
    }));
}

#[test]
fn no_castling_without_the_right() {
    let state = position("r3k2r/8/8/8/8/8/8/R3K2R w Qkq - 0 1");
    let moves = state.get_all_possible_moves();
    assert!(moves.iter().all(|m| m.special != Special::CastleKingside));
    assert!(moves.iter().any(|m| m.special == Special::CastleQueenside));
    let none = position("r3k2r/8/8/8/8/8/8/R3K2R w - - 0 1");
    assert!(none
        .get_all_possible_moves()
        .iter()
        .all(|m| m.special == Special::Ordinary));
}

#[test]
fn no_castling_through_an_attacked_square() {
    // The black rook on f8 attacks f1, which the king would cross.
    let state = position("5r1k/8/8/8/8/8/8/R3K2R w KQ - 0 1");
    let moves = state.get_all_possible_moves();
    assert!(moves.iter().all(|m| m.special != Special::CastleKingside));
    assert!(moves.iter().any(|m| m.special == Special::CastleQueenside));
}

#[test]
fn no_castling_onto_an_attacked_square() {
    // The black rook on c8 attacks c1, where the king would land.
    let state = position("2r4k/8/8/8/8/8/8/R3K2R w KQ - 0 1");
    let moves = state.get_all_possible_moves();
    assert!(moves.iter().all(|m| m.special != Special::CastleQueenside));
    assert!(moves.iter().any(|m| m.special == Special::CastleKingside));
}

#[test]
fn no_castling_out_of_check() {
    let state = position("4r2k/8/8/8/8/8/8/R3K2R w KQ - 0 1");
    assert!(state.check());
    let moves = state.get_all_possible_moves();
    assert!(moves.iter().all(|m| m.special == Special::Ordinary));
}

#[test]
fn castling_queenside_is_legal_when_only_the_b_file_is_attacked() {
    // The black rook on b8 attacks b1, which the rook crosses but the king does not.
    let state = position("1r5k/8/8/8/8/8/8/R3K2R w KQ - 0 1");
    let moves = state.get_all_possible_moves();
    assert!(moves.iter().any(|m| m.special == Special::CastleQueenside));
}

#[test]
fn no_castling_with_a_piece_between_king_and_rook() {
    let state = position("7k/8/8/8/8/8/8/RN2K1NR w KQ - 0 1");
    let moves = state.get_all_possible_moves();
    assert!(moves.iter().all(|m| m.special == Special::Ordinary));
}

#[test]
fn no_castling_without_the_rook_on_its_home_square() {
    let state = position("7k/8/8/8/8/8/8/4K3 w KQ - 0 1");
    let moves = state.get_all_possible_moves();
    assert_eq!(moves.len(), 5);
    assert!(moves.iter().all(|m| m.special == Special::Ordinary));
}

#[test]
fn checkmate_is_terminal_and_in_check() {
    // Fool's mate.
    let state = position("rnb1kbnr/pppp1ppp/8/4p3/6Pq/5P2/PPPPP2P/RNBQKBNR w KQkq - 1 3");
    assert!(state.check());
    assert!(state.is_terminal());
    assert!(state.get_all_possible_moves().is_empty());
}

#[test]
fn stalemate_is_terminal_and_not_in_check() {
    let state = position("7k/5Q2/6K1/8/8/8/8/8 b - - 0 1");
    assert!(!state.check());
    assert!(state.is_terminal());
}

#[test]
fn find_positions_lists_squares_rank_by_rank() {
    let state = ChessState::new_board();
    assert_eq!(ChessState::find_positions(state.board, 2), vec![(0, 0), (0, 7)]);
    assert_eq!(ChessState::find_positions(state.board, -3), vec![(7, 1), (7, 6)]);
    assert_eq!(ChessState::find_positions(state.board, 1).len(), 8);
    assert_eq!(ChessState::find_position(state.board, 6), Some((0, 4)));
    assert_eq!(ChessState::find_position(state.board, -6), Some((7, 4)));
    assert_eq!(ChessState::find_position(state.board, 2), Some((0, 0)));
}

#[test]
fn find_position_of_an_absent_piece_is_none() {
    let state = ChessState::empty_board();
    assert_eq!(ChessState::find_position(state.board, 6), None);
    assert!(ChessState::find_positions(state.board, 6).is_empty());
}

#[test]
fn a_side_without_a_king_moves_its_other_pieces() {
    let state = position("7k/8/8/8/8/8/8/N7 w - - 0 1");
    assert!(!state.check());
    assert_eq!(state.get_all_possible_moves().len(), 2);
}

#[test]
fn directional_moves_stop_before_friends_and_on_enemies() {
    let state = position("7k/8/8/4p3/8/8/4R3/4K3 w - - 0 1");
    let up = ChessState::directional_moves(state.board, (1, 4), (1, 0), true);
    assert_eq!(up, vec![(2, 4), (3, 4), (4, 4)]);
    let down = ChessState::directional_moves(state.board, (1, 4), (-1, 0), true);
    assert!(down.is_empty());
    let right = ChessState::directional_moves(state.board, (1, 4), (0, 1), true);
    assert_eq!(right, vec![(1, 5), (1, 6), (1, 7)]);
}

#[test]
fn piece_generators_follow_the_given_squares_and_pins() {
    let state = position("7k/8/8/8/8/8/4R3/4K3 w - - 0 1");
    let none: Vec<(usize, usize)> = Vec::new();
    let pinned = vec![(1usize, 4usize)];
    let squares = vec![(1usize, 4usize)];
    let free = ChessState::straight_moves(
        &state, 1, &none, &none, &none, &none, &squares, true, PieceKind::Rook,
    );
    assert_eq!(free.len(), 13);
    let on_file = ChessState::straight_moves(
        &state, 1, &pinned, &none, &none, &none, &squares, true, PieceKind::Rook,
    );
    assert_eq!(on_file.len(), 6);
    assert!(on_file.iter().all(|m| m.to.1 == 4));
    let on_rank = ChessState::straight_moves(
        &state, 1, &none, &pinned, &none, &none, &squares, true, PieceKind::Rook,
    );
    assert_eq!(on_rank.len(), 7);
    assert!(on_rank.iter().all(|m| m.to.0 == 1));
    let stuck = ChessState::straight_moves(
        &state, 1, &none, &none, &pinned, &none, &squares, true, PieceKind::Rook,
    );
    assert!(stuck.is_empty());
    let diagonal = ChessState::diagonal_moves(
        &state, 1, &none, &none, &none, &none, &squares, true, PieceKind::Bishop,
    );
    // from e2: d1, f1 and d3, c4, b5, a6 and f3, g4, h5
    assert_eq!(diagonal.len(), 9);
    let knight = ChessState::knight_moves(&state, 1, &none, &none, &none, &none, &squares);
    // from e2: c1, g1, c3, g3, d4, f4
    assert_eq!(knight.len(), 6);
    let held = ChessState::knight_moves(&state, 1, &none, &none, &none, &pinned, &squares);
    assert!(held.is_empty());
}

#[test]
fn pawn_generators_answer_for_their_own_colour() {
    let state = ChessState::new_board();
    let none: Vec<(usize, usize)> = Vec::new();
    let white = ChessState::white_pawn_moves(&state, 1, &none, &none, &none, &none, &vec![(1, 3)]);
    assert_eq!(white.len(), 2);
    assert_eq!(white[0].to, (3, 3));
    assert_eq!(white[0].special, Special::DoublePawnPush);
    assert_eq!(white[1].to, (2, 3));
    let black = ChessState::black_pawn_moves(&state, -1, &none, &none, &none, &none, &vec![(6, 3)]);
    assert_eq!(black.len(), 2);
    assert_eq!(black[0].to, (4, 3));
    assert_eq!(black[1].to, (5, 3));
    let pinned = vec![(1usize, 3usize)];
    let held = ChessState::white_pawn_moves(&state, 1, &none, &pinned, &none, &none, &vec![(1, 3)]);
    assert!(held.is_empty());
    let on_file =
        ChessState::white_pawn_moves(&state, 1, &pinned, &none, &none, &none, &vec![(1, 3)]);
    assert_eq!(on_file.len(), 2);
}

#[test]
fn a_move_from_outside_is_played_only_if_it_is_legal() {
    let state = ChessState::new_board();
    let push = plain((1, 4), (2, 4), PieceKind::Pawn, false);
    assert_eq!(state.legal_successor(&push), Some(state.do_move(&push)));
    // a pawn does not move three squares
    assert_eq!(state.legal_successor(&plain((1, 4), (4, 4), PieceKind::Pawn, false)), None);
    // the same squares with a wrong description are another move
    assert_eq!(state.legal_successor(&plain((1, 4), (2, 4), PieceKind::Rook, false)), None);
    assert_eq!(state.legal_successor(&plain((1, 4), (2, 4), PieceKind::Pawn, true)), None);
    // nor does a pinned piece leave its line
    let pinned = position("4q2k/8/8/8/8/8/4R3/4K3 w - - 0 1");
    assert_eq!(pinned.legal_successor(&plain((1, 4), (1, 0), PieceKind::Rook, false)), None);
    assert!(pinned.legal_successor(&plain((1, 4), (7, 4), PieceKind::Rook, true)).is_some());
}

#[test]
fn moves_are_compared_field_by_field() {
    let push = plain((1, 4), (2, 4), PieceKind::Pawn, false);
    assert!(push.same(&push));
    assert!(!push.same(&plain((1, 4), (2, 4), PieceKind::Pawn, true)));
    assert!(!push.same(&plain((1, 4), (3, 4), PieceKind::Pawn, false)));
    assert!(!push.same(&plain((1, 3), (2, 4), PieceKind::Pawn, false)));
    assert!(!push.same(&Move { promotion: Some(PieceKind::Queen), ..push }));
    assert!(!push.same(&Move { special: Special::DoublePawnPush, ..push }));
    let queen = Move { promotion: Some(PieceKind::Queen), ..push };
    assert!(queen.same(&queen));
    assert!(!queen.same(&Move { promotion: Some(PieceKind::Rook), ..push }));
    assert!(push.is_well_formed());
    assert!(!plain((8, 0), (0, 0), PieceKind::Rook, false).is_well_formed());
    assert!(!plain((0, 0), (0, 8), PieceKind::Rook, false).is_well_formed());
}

#[test]
fn a_position_is_well_formed_when_its_codes_and_flags_are() {
    let mut state = ChessState::new_board();
    assert!(state.is_well_formed());
    state.en_passant[2] = true;
    assert!(state.is_well_formed());
    state.en_passant[5] = true;
    assert!(!state.is_well_formed());
    state.en_passant[5] = false;
    state.board[3][3] = 7;
    assert!(!state.is_well_formed());
    state.board[3][3] = -6;
    assert!(state.is_well_formed());
}

#[test]
fn no_move_is_generated_twice() {
    let fens = [
        "rnbqkbnr/pppppppp/8/8/8/8/PPPPPPPP/RNBQKBNR w KQkq - 0 1",
        "r3k2r/pppq1ppp/2npbn2/2b1p3/2B1P3/2NPBN2/PPPQ1PPP/R3K2R w KQkq - 0 1",
        "r3k2r/pppq1ppp/2npbn2/2b1p3/2B1P3/2NPBN2/PPPQ1PPP/R3K2R b KQkq - 0 1",
        "2n4k/1P6/8/8/8/8/1p6/2N1K3 w - - 0 1",
        "7k/8/8/3Q4/8/8/8/4K3 w - - 0 1",
    ];
    for fen in fens.iter() {
        let moves = position(fen).get_all_possible_moves();
        for i in 0..moves.len() {
            for j in 0..i {
                assert_ne!(moves[i], moves[j], "{}", fen);
            }
        }
    }
}

#[test]
fn a_lone_queen_in_the_centre_has_twenty_seven_moves() {
    let state = position("7k/8/8/3Q4/8/8/8/4K3 w - - 0 1");
    let moves = state.get_all_possible_moves();
    assert_eq!(moves.iter().filter(|m| m.piece == PieceKind::Queen).count(), 27);
    // the queen's moves along ranks and files come before those along diagonals
    let first = moves.iter().find(|m| m.piece == PieceKind::Queen).unwrap();
    assert_eq!(first.to, (4, 4));
}
