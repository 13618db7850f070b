use chess_engine::board::SquareSet;
use chess_engine::position::ChessState;

fn position(fen: &str) -> ChessState {
    ChessState::from_fen(fen).unwrap()
}

fn squares(set: &SquareSet) -> Vec<(usize, usize)> {
    let mut found = Vec::new();
    for r in 0..8 {
        for c in 0..8 {
            if set.contains(&(r, c)) {
                found.push((r, c));
            }
        }
    }
    found
}

#[test]
fn a_white_pawn_attacks_the_two_squares_diagonally_ahead() {
    let state = position("8/8/8/8/8/8/4P3/8 w - - 0 1");
    let danger = ChessState::danger_squares(state.board, 1);
    assert_eq!(squares(&danger), vec![(2, 3), (2, 5)]);
}

#[test]
fn a_black_pawn_attacks_towards_the_first_rank() {
    let state = position("8/8/8/8/8/8/7p/8 w - - 0 1");
    let danger = ChessState::danger_squares(state.board, -1);
    assert_eq!(squares(&danger), vec![(0, 6)]);
    assert!(squares(&ChessState::danger_squares(state.board, 1)).is_empty());
}

#[test]
fn a_rook_attacks_up_to_and_including_the_first_occupied_square() {
    let state = position("8/8/8/8/8/8/8/R2n3k w - - 0 1");
    let danger = ChessState::danger_squares(state.board, 1);
    assert_eq!(
        squares(&danger),
        vec![(0, 1), (0, 2), (0, 3), (1, 0), (2, 0), (3, 0), (4, 0), (5, 0), (6, 0), (7, 0)]
    );
}

#[test]
fn a_rook_defends_the_friendly_piece_that_blocks_it() {
    let state = position("8/8/8/8/8/8/8/R2N4 w - - 0 1");
    let ray = ChessState::danger_squares_from_position(state.board, (0, 1), (0, 0));
    assert_eq!(squares(&ray), vec![(0, 1), (0, 2), (0, 3)]);
}

#[test]
fn a_knight_attacks_its_eight_jumps() {
    let state = position("8/8/8/8/3N4/8/8/8 w - - 0 1");
    let danger = ChessState::danger_squares(state.board, 1);
    assert_eq!(
        squares(&danger),
        vec![(1, 2), (1, 4), (2, 1), (2, 5), (4, 1), (4, 5), (5, 2), (5, 4)]
    );
}

#[test]
fn a_knight_in_the_corner_attacks_two_squares() {
    let state = position("8/8/8/8/8/8/8/7N w - - 0 1");
    let danger = ChessState::danger_squares(state.board, 1);
    assert_eq!(squares(&danger), vec![(1, 5), (2, 6)]);
}

#[test]
fn a_king_attacks_the_squares_around_it() {
    let state = position("8/8/8/8/8/8/8/K7 w - - 0 1");
    let danger = ChessState::danger_squares(state.board, 1);
    assert_eq!(squares(&danger), vec![(0, 1), (1, 0), (1, 1)]);
}

#[test]
fn a_bishop_attacks_along_both_diagonals() {
    let state = position("8/8/8/8/8/8/1B6/8 w - - 0 1");
    let danger = ChessState::danger_squares(state.board, 1);
    assert_eq!(
        squares(&danger),
        vec![(0, 0), (0, 2), (2, 0), (2, 2), (3, 3), (4, 4), (5, 5), (6, 6), (7, 7)]
    );
}

#[test]
fn a_queen_attacks_along_lines_and_diagonals() {
    let state = position("8/8/8/8/8/8/8/Q7 w - - 0 1");
    let danger = ChessState::danger_squares(state.board, 1);
    assert_eq!(squares(&danger).len(), 21);
}

#[test]
fn the_starting_position_has_the_third_rank_attacked_by_white() {
    let state = ChessState::new_board();
    let danger = ChessState::danger_squares(state.board, 1);
    for c in 0..8 {
        assert!(danger.contains(&(2, c)));
        assert!(!danger.contains(&(3, c)));
    }
    // the rooks in the corners are not defended
    assert!(!danger.contains(&(0, 0)));
    assert!(danger.contains(&(0, 1)));
}

#[test]
fn a_square_set_holds_what_was_inserted() {
    let mut set = SquareSet::new();
    assert!(!set.contains(&(3, 4)));
    set.insert((3, 4));
    assert!(set.contains(&(3, 4)));
    assert!(!set.contains(&(4, 3)));
    assert!(!set.contains(&(9, 9)));
    let mut other = SquareSet::new();
    other.insert((0, 0));
    set.extend(&other);
    assert!(set.contains(&(0, 0)) && set.contains(&(3, 4)));
}

#[test]
fn the_king_of_the_starting_position_is_safe() {
    let state = ChessState::new_board();
    assert!(ChessState::king_is_safe(state.board, 1));
    assert!(ChessState::king_is_safe(state.board, -1));
    assert!(!state.check());
}
