//! The search: a depth-limited minimax with alpha-beta pruning.
use crate::moves::Move;
use crate::position::ChessState;
use vstd::prelude::*;

verus! {

/// A player that searches to a fixed depth.
pub struct MinimaxBot {
    pub player: bool,
    pub max_depth: u8,
}

/// A player: it answers a position with a move, or with none when it has
/// none to offer.
pub trait ChessBot {
    fn respond(&self, state: ChessState) -> (reply: Option<Move>)
        requires
            state.wf(),
        ensures
            reply matches Some(m) ==> state.legal_moves().contains(m),
    ;
}

/// The value that every other value beats: the lowest for the maximiser, the
/// highest for the minimiser.
pub open spec fn worst(maximize: bool) -> int {
    if maximize {
        i32::MIN as int
    } else {
        i32::MAX as int
    }
}

/// Whether the value `a` is strictly better than `b` for the maximiser, or
/// else for the minimiser.
pub open spec fn better(maximize: bool, a: int, b: int) -> bool {
    if maximize {
        a > b
    } else {
        a < b
    }
}

/// The minimax value of a position searched `depth` plies deep: its score
/// when the depth is used up or no legal move exists, else the best of the
/// values of its successors, which are searched for the other side.
pub open spec fn minimax(state: ChessState, depth: nat, maximize: bool) -> int
    decreases depth, 1nat, 0nat,
{
    if depth == 0 || state.legal_moves().len() == 0 {
        state.score()
    } else {
        best_of(state, depth, maximize, state.legal_moves().len())
    }
}

/// The best value among the successors by the first `n` legal moves, and
/// `worst(maximize)` if there is none.
pub open spec fn best_of(state: ChessState, depth: nat, maximize: bool, n: nat) -> int
    decreases depth, 0nat, n,
{
    if depth == 0 || n == 0 || n > state.legal_moves().len() {
        worst(maximize)
    } else {
        let rest = best_of(state, depth, maximize, (n - 1) as nat);
        let value = minimax(
            state.after(state.legal_moves()[n - 1]),
            (depth - 1) as nat,
            !maximize,
        );
        if better(maximize, value, rest) {
            value
        } else {
            rest
        }
    }
}

/// The move chosen among the first `n` legal moves: the first one whose
/// successor has the best value among them. The first move is chosen to
/// begin with, and a later one takes its place only by a strictly better
/// value.
pub open spec fn choice(state: ChessState, depth: nat, maximize: bool, n: nat) -> Option<Move>
    decreases n,
{
    if depth == 0 || n == 0 || n > state.legal_moves().len() {
        None
    } else {
        let rest = best_of(state, depth, maximize, (n - 1) as nat);
        let value = minimax(
            state.after(state.legal_moves()[n - 1]),
            (depth - 1) as nat,
            !maximize,
        );
        if n == 1 || better(maximize, value, rest) {
            Some(state.legal_moves()[n - 1])
        } else {
            choice(state, depth, maximize, (n - 1) as nat)
        }
    }
}

/// The move that a search of `depth` plies chooses: the first legal move
/// whose successor attains the minimax value; none only at depth zero or
/// without a legal move.
pub open spec fn best_move(state: ChessState, depth: nat, maximize: bool) -> Option<Move> {
    choice(state, depth, maximize, state.legal_moves().len())
}

/// What a search with the window `(alpha, beta)` tells about the minimax
/// value `exact`: a result inside the window is exact, a result at or below
/// `alpha` is an upper bound, a result at or above `beta` a lower bound.
pub open spec fn within_window(found: int, exact: int, alpha: int, beta: int) -> bool {
    &&& found <= alpha ==> exact <= found
    &&& found >= beta ==> exact >= found
    &&& alpha < found < beta ==> found == exact
}

/// Minimax values are scores.
pub proof fn lemma_minimax_range(state: ChessState, depth: nat, maximize: bool)
    ensures
        i32::MIN <= minimax(state, depth, maximize) <= i32::MAX,
    decreases depth, 1nat, 0nat,
{
    state.lemma_score_range();
    if depth > 0 && state.legal_moves().len() > 0 {
        lemma_best_range(state, depth, maximize, state.legal_moves().len());
    }
}

/// The best value among successors is a score.
pub proof fn lemma_best_range(state: ChessState, depth: nat, maximize: bool, n: nat)
    ensures
        i32::MIN <= best_of(state, depth, maximize, n) <= i32::MAX,
    decreases depth, 0nat, n,
{
    if !(depth == 0 || n == 0 || n > state.legal_moves().len()) {
        lemma_best_range(state, depth, maximize, (n - 1) as nat);
        lemma_minimax_range(
            state.after(state.legal_moves()[n - 1]),
            (depth - 1) as nat,
            !maximize,
        );
    }
}

/// The best value only gets better as more moves are looked at.
pub proof fn lemma_best_monotone(state: ChessState, depth: nat, maximize: bool, a: nat, b: nat)
    requires
        a <= b <= state.legal_moves().len(),
    ensures
        !better(maximize, best_of(state, depth, maximize, a), best_of(state, depth, maximize, b)),
    decreases b,
{
    if a < b && depth > 0 {
        lemma_best_monotone(state, depth, maximize, a, (b - 1) as nat);
    }
}

/// While the best value stays the same, so does the chosen move.
pub proof fn lemma_choice_stable(state: ChessState, depth: nat, maximize: bool, a: nat, b: nat)
    requires
        1 <= a <= b <= state.legal_moves().len(),
        best_of(state, depth, maximize, a) == best_of(state, depth, maximize, b),
    ensures
        choice(state, depth, maximize, a) == choice(state, depth, maximize, b),
    decreases b,
{
    if a < b && depth > 0 {
        lemma_best_monotone(state, depth, maximize, a, (b - 1) as nat);
        lemma_best_monotone(state, depth, maximize, (b - 1) as nat, b);
        lemma_choice_stable(state, depth, maximize, a, (b - 1) as nat);
    }
}

/// A chosen move is one of the legal moves.
pub proof fn lemma_choice_legal(state: ChessState, depth: nat, maximize: bool, n: nat)
    ensures
        choice(state, depth, maximize, n) matches Some(m) ==> state.legal_moves().contains(m),
    decreases n,
{
    if !(depth == 0 || n == 0 || n > state.legal_moves().len()) {
        lemma_choice_legal(state, depth, maximize, (n - 1) as nat);
        assert(state.legal_moves().contains(state.legal_moves()[n - 1]));
    }
}

/// The value of the successor by the `i`-th legal move, searched one ply less
/// deep for the other side.
pub open spec fn child_value(state: ChessState, depth: nat, maximize: bool, i: int) -> int {
    minimax(state.after(state.legal_moves()[i]), (depth - 1) as nat, !maximize)
}

/// No successor among the first `n` beats the best value among them.
pub proof fn lemma_best_bounds(state: ChessState, depth: nat, maximize: bool, n: nat, i: int)
    requires
        depth > 0,
        0 <= i < n <= state.legal_moves().len(),
    ensures
        !better(maximize, child_value(state, depth, maximize, i), best_of(state, depth, maximize, n)),
    decreases n,
{
    if i < n - 1 {
        lemma_best_bounds(state, depth, maximize, (n - 1) as nat, i);
    }
}

/// Whether the `i`-th legal move is the first whose successor has the value
/// `value`: every earlier successor is strictly worse.
pub open spec fn first_with_value(
    state: ChessState,
    depth: nat,
    maximize: bool,
    i: int,
    value: int,
) -> bool {
    &&& 0 <= i < state.legal_moves().len()
    &&& child_value(state, depth, maximize, i) == value
    &&& forall|j: int|
        0 <= j < i ==> better(maximize, value, #[trigger] child_value(state, depth, maximize, j))
}

/// A move is always chosen among the first `n` legal moves when there is
/// one: the first whose successor attains the best value among them.
pub proof fn lemma_choice_is_first_best(state: ChessState, depth: nat, maximize: bool, n: nat)
    requires
        depth > 0,
        0 < n <= state.legal_moves().len(),
    ensures
        choice(state, depth, maximize, n) matches Some(m) && exists|i: int|
            0 <= i < n && state.legal_moves()[i] == m && #[trigger] first_with_value(
                state,
                depth,
                maximize,
                i,
                best_of(state, depth, maximize, n),
            ),
    decreases n,
{
    let best = best_of(state, depth, maximize, n);
    let rest = best_of(state, depth, maximize, (n - 1) as nat);
    let value = child_value(state, depth, maximize, n - 1);
    if better(maximize, value, rest) {
        assert forall|j: int| 0 <= j < n - 1 implies better(
            maximize,
            value,
            #[trigger] child_value(state, depth, maximize, j),
        ) by {
            lemma_best_bounds(state, depth, maximize, (n - 1) as nat, j);
        }
        assert(first_with_value(state, depth, maximize, n - 1, best));
    } else if n == 1 {
        // The only successor has the worst value, and attains it.
        lemma_minimax_range(
            state.after(state.legal_moves()[0]),
            (depth - 1) as nat,
            !maximize,
        );
        assert(first_with_value(state, depth, maximize, 0, best));
    } else {
        lemma_choice_is_first_best(state, depth, maximize, (n - 1) as nat);
        let m = choice(state, depth, maximize, (n - 1) as nat)->0;
        let i = choose|i: int|
            0 <= i < n - 1 && state.legal_moves()[i] == m && #[trigger] first_with_value(
                state,
                depth,
                maximize,
                i,
                rest,
            );
        assert(first_with_value(state, depth, maximize, i, best));
    }
}

/// What the search returns, stated of the legal moves themselves. At depth
/// zero or without a legal move the value is the score of the position and
/// no move is chosen. Else no successor beats the value, and the chosen move
/// is the first legal move whose successor attains it; so a move is chosen
/// whenever there is one.
pub proof fn search_picks_first_best(state: ChessState, depth: nat, maximize: bool)
    ensures
        best_move(state, depth, maximize) is None <==> depth == 0 || state.legal_moves().len()
            == 0,
        depth == 0 || state.legal_moves().len() == 0 ==> minimax(state, depth, maximize)
            == state.score(),
        depth > 0 ==> forall|i: int|
            0 <= i < state.legal_moves().len() ==> !better(
                maximize,
                #[trigger] child_value(state, depth, maximize, i),
                minimax(state, depth, maximize),
            ),
        best_move(state, depth, maximize) matches Some(m) ==> exists|i: int|
            0 <= i < state.legal_moves().len() && state.legal_moves()[i] == m
                && #[trigger] first_with_value(
                state,
                depth,
                maximize,
                i,
                minimax(state, depth, maximize),
            ),
{
    let n = state.legal_moves().len();
    if depth > 0 {
        assert forall|i: int| 0 <= i < n implies !better(
            maximize,
            #[trigger] child_value(state, depth, maximize, i),
            minimax(state, depth, maximize),
        ) by {
            lemma_best_bounds(state, depth, maximize, n, i);
        }
        if n > 0 {
            lemma_choice_is_first_best(state, depth, maximize, n);
        }
    }
}

/// Search determinism: two results that both meet the contract of the search
/// for one position and one depth are the same pair of move and score.
pub proof fn search_is_deterministic(
    state: ChessState,
    depth: nat,
    first: (Option<Move>, i32),
    second: (Option<Move>, i32),
)
    requires
        first.1 == minimax(state, depth, state.turn),
        first.0 == best_move(state, depth, state.turn),
        second.1 == minimax(state, depth, state.turn),
        second.0 == best_move(state, depth, state.turn),
    ensures
        first == second,
{
}

/// Whether `value` is one of the two mate scores.
pub open spec fn is_mate_score(value: int) -> bool {
    value == i32::MIN || value == i32::MAX
}

/// A mate score found at some depth is found again one ply deeper: searching
/// deeper never lessens a forced mate.
pub proof fn mate_score_persists(state: ChessState, depth: nat, maximize: bool)
    requires
        is_mate_score(minimax(state, depth, maximize)),
    ensures
        minimax(state, depth + 1, maximize) == minimax(state, depth, maximize),
    decreases depth, 1nat, 0nat,
{
    state.lemma_score_range();
    if depth > 0 && state.legal_moves().len() > 0 {
        lemma_best_mate_persists(state, depth, maximize, state.legal_moves().len());
    }
}

/// A mate score that is the best value among the first `n` successors stays
/// the best value among them one ply deeper.
pub proof fn lemma_best_mate_persists(state: ChessState, depth: nat, maximize: bool, n: nat)
    requires
        depth > 0,
        n <= state.legal_moves().len(),
        is_mate_score(best_of(state, depth, maximize, n)),
    ensures
        best_of(state, depth + 1, maximize, n) == best_of(state, depth, maximize, n),
    decreases depth, 0nat, n,
{
    if n > 0 {
        let next = state.after(state.legal_moves()[n - 1]);
        let rest = best_of(state, depth, maximize, (n - 1) as nat);
        let value = minimax(next, (depth - 1) as nat, !maximize);
        let rest_deeper = best_of(state, depth + 1, maximize, (n - 1) as nat);
        let value_deeper = minimax(next, depth, !maximize);
        lemma_best_range(state, depth, maximize, (n - 1) as nat);
        lemma_best_range(state, depth + 1, maximize, (n - 1) as nat);
        lemma_minimax_range(next, (depth - 1) as nat, !maximize);
        lemma_minimax_range(next, depth, !maximize);
        if is_mate_score(rest) {
            lemma_best_mate_persists(state, depth, maximize, (n - 1) as nat);
        }
        if is_mate_score(value) {
            mate_score_persists(next, (depth - 1) as nat, !maximize);
        }
    }
}

impl MinimaxBot {
    /// The maximiser's search of `state` to `depth` plies within the window
    /// `(alpha, beta)`. It stops looking at further moves once the best value
    /// found reaches `beta`.
    fn max_value(&self, state: ChessState, depth: u8, alpha: i32, beta: i32) -> (found: (
        Option<Move>,
        i32,
    ))
        requires
            state.wf(),
            alpha < beta,
        ensures
            within_window(found.1 as int, minimax(state, depth as nat, true), alpha as int, beta as int),
            found.0 is None <==> depth == 0 || state.legal_moves().len() == 0,
            (alpha < found.1 || alpha == i32::MIN) && found.1 == minimax(state, depth as nat, true)
                ==> found.0
                == best_move(state, depth as nat, true),
        decreases depth,
    {
        let moves = state.get_all_possible_moves();
        if depth == 0 || moves.len() == 0 {
            return (None, ChessState::eval(state));
        }
        let ghost d = depth as nat;
        let ghost n = moves@.len();
        let mut alpha_clone: i32 = alpha;
        let mut best: (Option<Move>, i32) = (None, i32::MIN);
        let mut i: usize = 0;
        while i < moves.len()
            invariant
                i <= moves.len(),
                state.wf(),
                depth > 0,
                d == depth,
                n == moves@.len(),
                moves@ == state.legal_moves(),
                forall|j: int| 0 <= j < moves@.len() ==> state.is_pseudo_legal(#[trigger] moves@[j]),
                alpha < beta,
                alpha_clone == (if best.1 > alpha { best.1 } else { alpha }),
                alpha_clone < beta,
                best_of(state, d, true, i as nat) <= best.1,
                best.0 is None <==> i == 0,
                i == 0 ==> best.1 == i32::MIN,
                best.1 > alpha || alpha == i32::MIN ==> best.1 == best_of(state, d, true, i as nat)
                    && best.0 == choice(
                    state,
                    d,
                    true,
                    i as nat,
                ),
            decreases moves.len() - i,
        {
            let m: Move = moves[i];
            let next = state.do_move(&m);
            let res = self.min_value(next, depth - 1, alpha_clone, beta);
            proof {
                lemma_minimax_range(next, (d - 1) as nat, false);
                lemma_best_range(state, d, true, i as nat);
            }
            if i == 0 || res.1 > best.1 {
                best = (Some(m), res.1);
                if best.1 > alpha_clone {
                    alpha_clone = best.1;
                }
            }
            if alpha_clone >= beta {
                proof {
                    lemma_best_monotone(state, d, true, (i + 1) as nat, n);
                    if best.1 == minimax(state, d, true) {
                        lemma_choice_stable(state, d, true, (i + 1) as nat, n);
                    }
                }
                return best;
            }
            i += 1;
        }
        best
    }

    /// The minimiser's search of `state` to `depth` plies within the window
    /// `(alpha, beta)`. It stops looking at further moves once the best value
    /// found reaches `alpha`.
    fn min_value(&self, state: ChessState, depth: u8, alpha: i32, beta: i32) -> (found: (
        Option<Move>,
        i32,
    ))
        requires
            state.wf(),
            alpha < beta,
        ensures
            within_window(found.1 as int, minimax(state, depth as nat, false), alpha as int, beta as int),
            found.0 is None <==> depth == 0 || state.legal_moves().len() == 0,
            (found.1 < beta || beta == i32::MAX) && found.1 == minimax(state, depth as nat, false)
                ==> found.0
                == best_move(state, depth as nat, false),
        decreases depth,
    {
        let moves = state.get_all_possible_moves();
        if depth == 0 || moves.len() == 0 {
            return (None, ChessState::eval(state));
        }
        let ghost d = depth as nat;
        let ghost n = moves@.len();
        let mut beta_clone: i32 = beta;
        let mut best: (Option<Move>, i32) = (None, i32::MAX);
        let mut i: usize = 0;
        while i < moves.len()
            invariant
                i <= moves.len(),
                state.wf(),
                depth > 0,
                d == depth,
                n == moves@.len(),
                moves@ == state.legal_moves(),
                forall|j: int| 0 <= j < moves@.len() ==> state.is_pseudo_legal(#[trigger] moves@[j]),
                alpha < beta,
                beta_clone == (if best.1 < beta { best.1 } else { beta }),
                alpha < beta_clone,
                best_of(state, d, false, i as nat) >= best.1,
                best.0 is None <==> i == 0,
                i == 0 ==> best.1 == i32::MAX,
                best.1 < beta || beta == i32::MAX ==> best.1 == best_of(state, d, false, i as nat)
                    && best.0 == choice(
                    state,
                    d,
                    false,
                    i as nat,
                ),
            decreases moves.len() - i,
        {
            let m: Move = moves[i];
            let next = state.do_move(&m);
            let res = self.max_value(next, depth - 1, alpha, beta_clone);
            proof {
                lemma_minimax_range(next, (d - 1) as nat, true);
                lemma_best_range(state, d, false, i as nat);
            }
            if i == 0 || res.1 < best.1 {
                best = (Some(m), res.1);
                if best.1 < beta_clone {
                    beta_clone = best.1;
                }
            }
            if beta_clone <= alpha {
                proof {
                    lemma_best_monotone(state, d, false, (i + 1) as nat, n);
                    if best.1 == minimax(state, d, false) {
                        lemma_choice_stable(state, d, false, (i + 1) as nat, n);
                    }
                }
                return best;
            }
            i += 1;
        }
        best
    }

    /// The search: the minimax value of `state` at the depth `max_depth`, the
    /// side to move choosing, together with the first move that attains it.
    ///
    /// White maximises and black minimises. A move comes back whenever the
    /// depth is not zero and a legal move exists, even when every move loses
    /// at once; no move comes back only at depth zero or without a legal
    /// move.
    pub fn minimax_search(&self, state: ChessState) -> (found: (Option<Move>, i32))
        requires
            state.wf(),
        ensures
            found.1 == minimax(state, self.max_depth as nat, state.turn),
            found.0 == best_move(state, self.max_depth as nat, state.turn),
            found.0 is None <==> self.max_depth == 0 || state.legal_moves().len() == 0,
            found.0 matches Some(m) ==> state.legal_moves().contains(m),
    {
        let found = if state.turn {
            self.max_value(state, self.max_depth, i32::MIN, i32::MAX)
        } else {
            self.min_value(state, self.max_depth, i32::MIN, i32::MAX)
        };
        proof {
            let d = self.max_depth as nat;
            let n = state.legal_moves().len();
            lemma_minimax_range(state, d, state.turn);
            lemma_choice_legal(state, d, state.turn, n);
        }
        found
    }
}

impl ChessBot for MinimaxBot {
    /// The move that the search chooses.
    fn respond(&self, state: ChessState) -> (reply: Option<Move>)
        ensures
            reply == best_move(state, self.max_depth as nat, state.turn),
            reply is None <==> self.max_depth == 0 || state.legal_moves().len() == 0,
    {
        let res = self.minimax_search(state);
        res.0
    }
}

} // verus!
