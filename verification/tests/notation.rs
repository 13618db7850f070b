use chess_engine::moves::{Move, PieceKind, Special};
use chess_engine::position::ChessState;
use chess_engine::translator::{
    classify_move, lan_to_uci, parse_lan, parse_uci, slice_to_coord, uci_to_lan, NotationError,
};

fn position(fen: &str) -> ChessState {
    ChessState::from_fen(fen).unwrap()
}

fn text(s: &str) -> String {
    s.to_string()
}

#[test]
fn a_pawn_push_is_written_without_a_piece_letter() {
    let m = Move {
        from: (1, 4),
        to: (3, 4),
        piece: PieceKind::Pawn,
        capture: false,
        promotion: None,
        special: Special::DoublePawnPush,
    };
    assert_eq!(m.to_lan(), "e2-e4");
    assert_eq!(m.to_uci(), "e2e4");
}

#[test]
fn a_piece_capture_is_written_with_letter_and_cross() {
    let m = Move {
        from: (0, 1),
        to: (2, 2),
        piece: PieceKind::Knight,
        capture: true,
        promotion: None,
        special: Special::Ordinary,
    };
    assert_eq!(m.to_lan(), "Nb1xc3");
    assert_eq!(m.to_uci(), "b1c3");
}

#[test]
fn a_promotion_is_written_with_the_letter_of_the_new_piece() {
    let m = Move {
        from: (6, 0),
        to: (7, 1),
        piece: PieceKind::Pawn,
        capture: true,
        promotion: Some(PieceKind::Queen),
        special: Special::Ordinary,
    };
    assert_eq!(m.to_lan(), "a7xb8Q");
    assert_eq!(m.to_uci(), "a7b8q");
}

#[test]
fn castling_is_written_with_its_token_and_the_kings_squares() {
    let kingside = Move {
        from: (0, 4),
        to: (0, 6),
        piece: PieceKind::King,
        capture: false,
        promotion: None,
        special: Special::CastleKingside,
    };
    assert_eq!(kingside.to_lan(), "O-O");
    assert_eq!(kingside.to_uci(), "e1g1");
    let queenside = Move {
        from: (7, 4),
        to: (7, 2),
        piece: PieceKind::King,
        capture: false,
        promotion: None,
        special: Special::CastleQueenside,
    };
    assert_eq!(queenside.to_lan(), "O-O-O");
    assert_eq!(queenside.to_uci(), "e8c8");
}

#[test]
fn verbose_text_translates_to_coordinates() {
    let state = ChessState::new_board();
    assert_eq!(lan_to_uci(&state, &text("e2-e4")), Ok(text("e2e4")));
    assert_eq!(lan_to_uci(&state, &text("Ng1-f3")), Ok(text("g1f3")));
}

#[test]
fn coordinates_translate_to_verbose_text() {
    let state = ChessState::new_board();
    assert_eq!(uci_to_lan(&state, &text("e2e4")), Ok(text("e2-e4")));
    assert_eq!(uci_to_lan(&state, &text("g1f3")), Ok(text("Ng1-f3")));
    let capture = position("7k/8/8/3p4/4P3/8/8/4K3 w - - 0 1");
    assert_eq!(uci_to_lan(&capture, &text("e4d5")), Ok(text("e4xd5")));
}

#[test]
fn castling_translates_both_ways() {
    let white = position("r3k2r/8/8/8/8/8/8/R3K2R w KQkq - 0 1");
    assert_eq!(lan_to_uci(&white, &text("O-O")), Ok(text("e1g1")));
    assert_eq!(lan_to_uci(&white, &text("O-O-O")), Ok(text("e1c1")));
    assert_eq!(uci_to_lan(&white, &text("e1g1")), Ok(text("O-O")));
    assert_eq!(uci_to_lan(&white, &text("e1c1")), Ok(text("O-O-O")));
    let black = position("r3k2r/8/8/8/8/8/8/R3K2R b KQkq - 0 1");
    assert_eq!(lan_to_uci(&black, &text("O-O")), Ok(text("e8g8")));
    assert_eq!(lan_to_uci(&black, &text("O-O-O")), Ok(text("e8c8")));
    assert_eq!(uci_to_lan(&black, &text("e8c8")), Ok(text("O-O-O")));
}

#[test]
fn a_rook_that_goes_from_e1_to_g1_does_not_castle() {
    let state = position("7k/8/8/8/8/8/8/K3R3 w - - 0 1");
    assert_eq!(uci_to_lan(&state, &text("e1g1")), Ok(text("Re1-g1")));
    let m = parse_uci(&state, &text("e1g1")).unwrap();
    assert_eq!(m.special, Special::Ordinary);
    assert_eq!(m.piece, PieceKind::Rook);
}

#[test]
fn promotions_translate_both_ways() {
    let state = position("2n4k/1P6/8/8/8/8/8/4K3 w - - 0 1");
    assert_eq!(lan_to_uci(&state, &text("b7-b8Q")), Ok(text("b7b8q")));
    assert_eq!(lan_to_uci(&state, &text("b7xc8N")), Ok(text("b7c8n")));
    assert_eq!(uci_to_lan(&state, &text("b7b8r")), Ok(text("b7-b8R")));
    assert_eq!(uci_to_lan(&state, &text("b7c8b")), Ok(text("b7xc8B")));
}

#[test]
fn a_capture_in_passing_is_read_from_the_board() {
    let state = position("7k/8/8/3pP3/8/8/8/4K3 w - d6 0 1");
    let m = parse_uci(&state, &text("e5d6")).unwrap();
    assert_eq!(m.special, Special::EnPassantCapture);
    assert!(m.capture);
    assert_eq!(uci_to_lan(&state, &text("e5d6")), Ok(text("e5xd6")));
    assert_eq!(parse_lan(&state, &text("e5xd6")), Ok(m));
}

#[test]
fn a_double_push_is_read_from_the_board() {
    let state = ChessState::new_board();
    let m = parse_uci(&state, &text("d2d4")).unwrap();
    assert_eq!(m.special, Special::DoublePawnPush);
    let black = position("rnbqkbnr/pppppppp/8/8/4P3/8/PPPP1PPP/RNBQKBNR b KQkq e3 0 1");
    assert_eq!(parse_uci(&black, &text("d7d5")).unwrap().special, Special::DoublePawnPush);
    assert_eq!(parse_uci(&black, &text("d7d6")).unwrap().special, Special::Ordinary);
}

#[test]
fn every_generated_move_survives_the_round_trip() {
    let fens = [
        "rnbqkbnr/pppppppp/8/8/8/8/PPPPPPPP/RNBQKBNR w KQkq - 0 1",
        "r3k2r/pppq1ppp/2npbn2/2b1p3/2B1P3/2NPBN2/PPPQ1PPP/R3K2R w KQkq - 0 1",
        "r3k2r/pppq1ppp/2npbn2/2b1p3/2B1P3/2NPBN2/PPPQ1PPP/R3K2R b KQkq - 0 1",
        "2n4k/1P6/8/8/8/8/1p6/2N1K3 w - - 0 1",
        "2n4k/1P6/8/8/8/8/1p6/2N1K3 b - - 0 1",
        "7k/8/8/3pP3/8/8/8/4K3 w - d6 0 1",
        "7k/8/8/8/3pP3/8/8/4K3 b - e3 0 1",
    ];
    for fen in fens.iter() {
        let state = position(fen);
        let moves = state.get_all_possible_moves();
        assert!(!moves.is_empty());
        for m in moves.iter() {
            let uci = m.to_uci();
            let lan = m.to_lan();
            assert_eq!(parse_uci(&state, &uci), Ok(*m), "{} {}", fen, uci);
            assert_eq!(parse_lan(&state, &lan), Ok(*m), "{} {}", fen, lan);
            assert_eq!(lan_to_uci(&state, &lan), Ok(uci.clone()));
            assert_eq!(uci_to_lan(&state, &uci), Ok(lan));
        }
    }
}

#[test]
fn malformed_coordinates_are_refused() {
    let state = ChessState::new_board();
    assert_eq!(parse_uci(&state, &text("")), Err(NotationError::Malformed));
    assert_eq!(parse_uci(&state, &text("e2")), Err(NotationError::Malformed));
    assert_eq!(parse_uci(&state, &text("e2e9")), Err(NotationError::Malformed));
    assert_eq!(parse_uci(&state, &text("i2e4")), Err(NotationError::Malformed));
    assert_eq!(parse_uci(&state, &text("e2e4k")), Err(NotationError::Malformed));
    assert_eq!(parse_uci(&state, &text("e2e4Q")), Err(NotationError::Malformed));
    assert_eq!(parse_uci(&state, &text("e2e4qq")), Err(NotationError::Malformed));
    assert_eq!(uci_to_lan(&state, &text("e2-e4")), Err(NotationError::Malformed));
}

#[test]
fn an_empty_source_square_is_refused() {
    let state = ChessState::new_board();
    assert_eq!(parse_uci(&state, &text("e4e5")), Err(NotationError::EmptySource));
    assert_eq!(parse_lan(&state, &text("e4-e5")), Err(NotationError::EmptySource));
    assert_eq!(lan_to_uci(&state, &text("Ne4-f6")), Err(NotationError::EmptySource));
}

#[test]
fn malformed_verbose_text_is_refused() {
    let state = ChessState::new_board();
    assert_eq!(parse_lan(&state, &text("")), Err(NotationError::Malformed));
    assert_eq!(parse_lan(&state, &text("e2e4")), Err(NotationError::Malformed));
    assert_eq!(parse_lan(&state, &text("O-O-")), Err(NotationError::Malformed));
    assert_eq!(parse_lan(&state, &text("Ng1-f9")), Err(NotationError::Malformed));
    assert_eq!(parse_lan(&state, &text("e7-e8K")), Err(NotationError::Malformed));
}

#[test]
fn verbose_text_that_contradicts_the_board_is_refused() {
    let state = ChessState::new_board();
    // the piece on g1 is a knight, not a bishop
    assert_eq!(parse_lan(&state, &text("Bg1-f3")), Err(NotationError::Mismatch));
    // nothing is captured on e4
    assert_eq!(parse_lan(&state, &text("e2xe4")), Err(NotationError::Mismatch));
    // a pawn move needs no piece letter, and the separator is '-' or 'x'
    assert_eq!(parse_lan(&state, &text("e2+e4")), Err(NotationError::Mismatch));
    // the king cannot castle while it is read as making a plain step
    assert_eq!(parse_lan(&state, &text("Ke1-g1")), Err(NotationError::Mismatch));
}

#[test]
fn castling_text_needs_the_king_on_its_home_square() {
    let state = position("7k/8/8/8/8/8/8/K3R3 w - - 0 1");
    assert_eq!(parse_lan(&state, &text("O-O")), Err(NotationError::Mismatch));
    let empty = position("7k/8/8/8/8/8/8/K7 w - - 0 1");
    assert_eq!(parse_lan(&empty, &text("O-O")), Err(NotationError::EmptySource));
}

#[test]
fn a_square_is_read_from_file_letter_and_rank_digit() {
    assert_eq!(slice_to_coord('a', '1'), Some((0, 0)));
    assert_eq!(slice_to_coord('e', '4'), Some((3, 4)));
    assert_eq!(slice_to_coord('h', '8'), Some((7, 7)));
    assert_eq!(slice_to_coord('i', '1'), None);
    assert_eq!(slice_to_coord('a', '9'), None);
    assert_eq!(slice_to_coord('a', '0'), None);
    assert_eq!(slice_to_coord('A', '1'), None);
}

#[test]
fn the_board_decides_the_kind_of_move() {
    let state = ChessState::new_board();
    assert_eq!(classify_move(&state.board, (3, 3), (4, 3), None), None);
    let m = classify_move(&state.board, (0, 4), (0, 6), None).unwrap();
    assert_eq!(m.piece, PieceKind::King);
    assert_eq!(m.special, Special::CastleKingside);
    assert!(!m.capture);
}
