use chess_engine::chessbot::{ChessBot, MinimaxBot};
use chess_engine::moves::{Move, PieceKind, Special};
use chess_engine::position::ChessState;

fn position(fen: &str) -> ChessState {
    ChessState::from_fen(fen).unwrap()
}

fn bot(depth: u8) -> MinimaxBot {
    MinimaxBot { player: true, max_depth: depth }
}

/// Plain minimax without pruning, written out for comparison.
fn minimax(state: ChessState, depth: u8, maximize: bool) -> i32 {
    let moves = state.get_all_possible_moves();
    if depth == 0 || moves.is_empty() {
        return ChessState::eval(state);
    }
    let mut best = if maximize { i32::MIN } else { i32::MAX };
    for m in moves.iter() {
        let value = minimax(state.do_move(m), depth - 1, !maximize);
        if (maximize && value > best) || (!maximize && value < best) {
            best = value;
        }
    }
    best
}

#[test]
fn the_starting_position_scores_zero() {
    assert_eq!(ChessState::eval(ChessState::new_board()), 0);
}

#[test]
fn mobility_counts_the_legal_moves_of_a_side() {
    let state = ChessState::new_board();
    assert_eq!(state.mobility(true), 20);
    assert_eq!(state.mobility(false), -20);
    let open = state.do_move(&Move {
        from: (1, 4),
        to: (3, 4),
        piece: PieceKind::Pawn,
        capture: false,
        promotion: None,
        special: Special::DoublePawnPush,
    });
    // after e4 white has 30 moves: queen 4, bishop 5, king 1, knights 5, pawns 15
    assert_eq!(open.mobility(true), 30);
    assert_eq!(open.mobility(false), -20);
    assert_eq!(ChessState::eval(open), 10);
}

#[test]
fn a_mated_white_scores_the_lowest_value() {
    let state = position("rnb1kbnr/pppp1ppp/8/4p3/6Pq/5P2/PPPPP2P/RNBQKBNR w KQkq - 1 3");
    assert_eq!(ChessState::eval(state), i32::MIN);
}

#[test]
fn a_mated_black_scores_the_highest_value() {
    let state = position("R6k/6pp/8/8/8/8/8/4K3 b - - 0 1");
    assert!(state.check() && state.is_terminal());
    assert_eq!(ChessState::eval(state), i32::MAX);
}

#[test]
fn a_stalemated_side_scores_by_mobility() {
    let state = position("7k/5Q2/6K1/8/8/8/8/8 b - - 0 1");
    assert!(state.is_terminal() && !state.check());
    let white = state.mobility(true);
    assert!(white > 0);
    assert_eq!(state.mobility(false), 0);
    assert_eq!(ChessState::eval(state), white);
}

#[test]
fn depth_one_search_picks_the_first_move_with_the_best_score() {
    let state = ChessState::new_board();
    let moves = state.get_all_possible_moves();
    assert_eq!(moves.len(), 20);
    let mut best_score = i32::MIN;
    let mut best_move = None;
    for m in moves.iter() {
        let score = ChessState::eval(state.do_move(m));
        if score > best_score {
            best_score = score;
            best_move = Some(*m);
        }
    }
    let found = bot(1).minimax_search(state);
    assert_eq!(found.1, best_score);
    assert_eq!(found.0, best_move);
    // e2-e4 and e2-e3 both open ten more moves; the double push is generated first
    assert_eq!(best_score, 10);
    assert_eq!(
        found.0,
        Some(Move {
            from: (1, 4),
            to: (3, 4),
            piece: PieceKind::Pawn,
            capture: false,
            promotion: None,
            special: Special::DoublePawnPush,
        })
    );
}

#[test]
fn depth_one_search_for_black_picks_the_lowest_score() {
    let state = position("rnbqkbnr/pppppppp/8/8/4P3/8/PPPP1PPP/RNBQKBNR b KQkq e3 0 1");
    let mut best_score = i32::MAX;
    let mut best_move = None;
    for m in state.get_all_possible_moves().iter() {
        let score = ChessState::eval(state.do_move(m));
        if score < best_score {
            best_score = score;
            best_move = Some(*m);
        }
    }
    let found = bot(1).minimax_search(state);
    assert_eq!(found.1, best_score);
    assert_eq!(found.0, best_move);
}

#[test]
fn pruning_does_not_change_the_value() {
    let fens = [
        "rnbqkbnr/pppppppp/8/8/8/8/PPPPPPPP/RNBQKBNR w KQkq - 0 1",
        "r3k2r/8/8/8/8/8/8/R3K2R w KQkq - 0 1",
        "7k/8/8/b7/7q/8/3B1N2/4K3 w - - 0 1",
        "7k/8/8/b7/7q/8/3B1N2/4K3 b - - 0 1",
    ];
    for fen in fens.iter() {
        let state = position(fen);
        for depth in 0..3u8 {
            let found = bot(depth).minimax_search(state);
            assert_eq!(found.1, minimax(state, depth, state.turn), "{} at depth {}", fen, depth);
        }
    }
}

#[test]
fn search_at_depth_zero_returns_the_score_and_no_move() {
    let state = ChessState::new_board();
    assert_eq!(bot(0).minimax_search(state), (None, 0));
}

#[test]
fn search_without_a_legal_move_returns_the_score_and_no_move() {
    let mated = position("rnb1kbnr/pppp1ppp/8/4p3/6Pq/5P2/PPPPP2P/RNBQKBNR w KQkq - 1 3");
    assert_eq!(bot(3).minimax_search(mated), (None, i32::MIN));
    let stalemate = position("7k/5Q2/6K1/8/8/8/8/8 b - - 0 1");
    let found = bot(2).minimax_search(stalemate);
    assert_eq!(found.0, None);
    assert_eq!(found.1, ChessState::eval(stalemate));
}

#[test]
fn search_is_repeatable() {
    let state = position("r3k2r/pppq1ppp/2npbn2/2b1p3/2B1P3/2NPBN2/PPPQ1PPP/R3K2R w KQkq - 0 1");
    let first = bot(2).minimax_search(state);
    let second = bot(2).minimax_search(state);
    assert_eq!(first, second);
}

#[test]
fn search_finds_a_mate_in_one() {
    // Back-rank mate: Ra1-a8.
    let state = position("7k/6pp/8/8/8/8/8/R3K3 w - - 0 1");
    let found = bot(1).minimax_search(state);
    assert_eq!(found.1, i32::MAX);
    assert_eq!(
        found.0,
        Some(Move {
            from: (0, 0),
            to: (7, 0),
            piece: PieceKind::Rook,
            capture: false,
            promotion: None,
            special: Special::Ordinary,
        })
    );
}

#[test]
fn a_mate_score_stays_when_the_search_goes_deeper() {
    let state = position("7k/6pp/8/8/8/8/8/R3K3 w - - 0 1");
    for depth in 1..4u8 {
        assert_eq!(bot(depth).minimax_search(state).1, i32::MAX, "depth {}", depth);
    }
}

#[test]
fn black_finds_its_mate_with_the_lowest_score() {
    let state = position("r3k3/8/8/8/8/8/6PP/7K b - - 0 1");
    let found = bot(1).minimax_search(state);
    assert_eq!(found.1, i32::MIN);
    assert_eq!(found.0.map(|m| m.to), Some((0, 0)));
    assert_eq!(bot(2).minimax_search(state).1, i32::MIN);
}

#[test]
fn the_first_move_is_chosen_when_every_move_loses_at_once() {
    // White has three moves, and after each of them the rook mates on b1. Every reply
    // scores the lowest value; the first move generated attains it and is chosen.
    let state = position("1r6/8/8/8/8/6k1/2P5/7K w - - 0 1");
    let moves = state.get_all_possible_moves();
    assert_eq!(moves.len(), 3);
    assert_eq!(minimax(state, 2, true), i32::MIN);
    assert_eq!(bot(2).minimax_search(state), (Some(moves[0]), i32::MIN));
    assert_eq!(
        moves[0],
        Move {
            from: (1, 2),
            to: (3, 2),
            piece: PieceKind::Pawn,
            capture: false,
            promotion: None,
            special: Special::DoublePawnPush,
        }
    );
    assert_eq!(bot(3).minimax_search(state), (Some(moves[0]), i32::MIN));
}

#[test]
fn black_also_gets_a_move_when_every_move_loses_at_once() {
    // The mirror image: black to move, white mates on b8 whatever black plays.
    let state = position("7k/2p5/6K1/8/8/8/8/1R6 b - - 0 1");
    let moves = state.get_all_possible_moves();
    assert_eq!(moves.len(), 3);
    assert_eq!(bot(2).minimax_search(state), (Some(moves[0]), i32::MAX));
}

#[test]
fn a_move_comes_back_whenever_there_is_one() {
    let fens = [
        "rnbqkbnr/pppppppp/8/8/8/8/PPPPPPPP/RNBQKBNR w KQkq - 0 1",
        "1r6/8/8/8/8/6k1/2P5/7K w - - 0 1",
        "7k/2p5/6K1/8/8/8/8/1R6 b - - 0 1",
        "7k/6pp/8/8/8/8/8/R3K3 w - - 0 1",
        "r3k3/8/8/8/8/8/6PP/7K b - - 0 1",
    ];
    for fen in fens.iter() {
        let state = position(fen);
        let moves = state.get_all_possible_moves();
        for depth in 1..3u8 {
            let found = bot(depth).minimax_search(state);
            assert!(moves.contains(&found.0.unwrap()), "{} at depth {}", fen, depth);
        }
        assert_eq!(bot(0).minimax_search(state).0, None);
    }
}

#[test]
fn the_bot_answers_with_the_move_of_its_search() {
    let state = ChessState::new_board();
    let player = bot(1);
    assert_eq!(player.respond(state), player.minimax_search(state).0);
}

#[test]
fn the_chosen_move_is_legal() {
    let state = position("r3k2r/pppq1ppp/2npbn2/2b1p3/2B1P3/2NPBN2/PPPQ1PPP/R3K2R b KQkq - 0 1");
    let found = bot(2).minimax_search(state);
    assert!(state.get_all_possible_moves().contains(&found.0.unwrap()));
}
