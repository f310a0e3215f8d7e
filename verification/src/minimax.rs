//! The minimax decision procedure: a recursive exhaustive search over
//! the remaining game tree, scoring terminal boards with a depth
//! adjustment so that faster wins and slower losses are preferred, and
//! selecting the first maximal move in row-major enumeration order.

use vstd::prelude::*;

use crate::board::{
    Board, GameState, Player, State, board_full, cell_index, lemma_count_empty_bounds,
    lemma_count_empty_positive, lemma_mark_no_new_win, lemma_num_empty_update,
    lemma_win_yields_winner, lemma_wins_winner_some, num_empty, spec_move_is_valid, spec_outcome,
    spec_winner, wins,
};
use crate::game::{GamePlayer, Move};

verus! {

/// The search favors the player `me`; its moves maximize the score,
/// the opponent's minimize it.
pub struct Minimax {
    me: Player,
}

/// The two alternating search postures: take the worst child score for
/// the favored player, or the best.
#[derive(Debug, Clone, Copy, PartialEq, Eq, Structural)]
pub enum MinMax {
    Min,
    Max,
}

impl MinMax {
    pub open spec fn spec_other(self) -> MinMax {
        match self {
            MinMax::Min => MinMax::Max,
            MinMax::Max => MinMax::Min,
        }
    }

    pub fn other(self) -> (r: MinMax)
        ensures
            r == self.spec_other(),
    {
        match self {
            MinMax::Min => MinMax::Max,
            MinMax::Max => MinMax::Min,
        }
    }
}

/// The element a fold over child scores starts from: nothing seen yet
/// beats it.
pub open spec fn fold_identity(kind: MinMax) -> int {
    match kind {
        MinMax::Min => i32::MAX as int,
        MinMax::Max => i32::MIN as int,
    }
}

/// One folding step: keep the smaller or the larger of the two scores.
pub open spec fn fold_combine(kind: MinMax, a: int, b: int) -> int {
    match kind {
        MinMax::Min => if a <= b {
            a
        } else {
            b
        },
        MinMax::Max => if a >= b {
            a
        } else {
            b
        },
    }
}

/// The score of a terminal board seen `depth` moves below the search
/// root: `10 - depth` when the favored player has won, `-(10 - depth)`
/// when the opponent has, `0` for a tie; `None` when the board is not
/// terminal.
pub open spec fn terminal_score(c: Seq<State>, me: Player, depth: nat) -> Option<int> {
    match spec_winner(c) {
        Some(w) => Some(
            if w == me {
                10 - (depth as int)
            } else {
                -(10 - (depth as int))
            },
        ),
        None => if board_full(c) {
            Some(0)
        } else {
            None
        },
    }
}

/// The minimax score of a board: the terminal score if the board is
/// terminal, otherwise the fold of the scores of all successor boards,
/// one per empty cell, each explored one ply deeper in the opposite
/// posture.
pub open spec fn spec_minimax(c: Seq<State>, turn: Player, me: Player, depth: nat, kind: MinMax) -> int
    decreases num_empty(c), 10int,
{
    match terminal_score(c, me, depth) {
        Some(s) => s,
        None => spec_search(c, turn, me, depth, kind, 0),
    }
}

/// The fold of the successor scores over the cells with index at least
/// `i`, in row-major order.
pub open spec fn spec_search(
    c: Seq<State>,
    turn: Player,
    me: Player,
    depth: nat,
    kind: MinMax,
    i: int,
) -> int
    decreases num_empty(c), 9 - i,
    via spec_search_decreases
{
    if i < 0 || i >= 9 || c.len() != 9 {
        fold_identity(kind)
    } else if c[i] == State::Empty {
        fold_combine(
            kind,
            spec_minimax(
                c.update(i, State::Player(turn)),
                turn.spec_other(),
                me,
                depth + 1,
                kind.spec_other(),
            ),
            spec_search(c, turn, me, depth, kind, i + 1),
        )
    } else {
        spec_search(c, turn, me, depth, kind, i + 1)
    }
}

#[via_fn]
proof fn spec_search_decreases(
    c: Seq<State>,
    turn: Player,
    me: Player,
    depth: nat,
    kind: MinMax,
    i: int,
) {
    if 0 <= i < 9 && c.len() == 9 && c[i] == State::Empty {
        lemma_num_empty_update(c, i, turn);
        lemma_count_empty_positive(c, i, 9);
        lemma_count_empty_bounds(c.update(i, State::Player(turn)), 9);
    }
}

/// The score the top-level selection assigns to playing on cell `i`:
/// the resulting board searched one ply down, starting in the
/// minimizing posture.
pub open spec fn child_value(c: Seq<State>, turn: Player, me: Player, i: int) -> int {
    spec_minimax(c.update(i, State::Player(turn)), turn.spec_other(), me, 1, MinMax::Min)
}

/// The move the top-level selection picks among the empty cells with
/// index at least `i`: the first one, in row-major order, whose score
/// no later move strictly beats.
pub open spec fn spec_choice_from(c: Seq<State>, turn: Player, me: Player, i: int) -> Option<Move>
    decreases 9 - i,
{
    if i < 0 || i >= 9 {
        None
    } else if c[i] != State::Empty {
        spec_choice_from(c, turn, me, i + 1)
    } else {
        match spec_choice_from(c, turn, me, i + 1) {
            None => Some(((((i / 3) as usize), ((i % 3) as usize)))),
            Some(m2) => if child_value(c, turn, me, cell_index(m2.0 as int, m2.1 as int))
                > child_value(c, turn, me, i) {
                Some(m2)
            } else {
                Some(((((i / 3) as usize), ((i % 3) as usize))))
            },
        }
    }
}

/// The move the minimax player picks on a board: the first legal move
/// whose searched score is maximal.
pub open spec fn spec_choice(c: Seq<State>, turn: Player, me: Player) -> Option<Move> {
    spec_choice_from(c, turn, me, 0)
}

/// A fresh board with the move applied; the given board is untouched.
pub fn make_move(board: &Board, m: Move) -> (r: Board)
    requires
        board.wf(),
    ensures
        r.wf(),
        spec_move_is_valid(board@, m.0 as int, m.1 as int) ==> {
            &&& r@.cells == board@.cells.update(
                cell_index(m.0 as int, m.1 as int),
                State::Player(board@.turn),
            )
            &&& r@.turn == board@.turn.spec_other()
        },
        !spec_move_is_valid(board@, m.0 as int, m.1 as int) ==> r@ == board@,
{
    let mut new_board = board.clone();
    let _ = new_board.make_move(m.0, m.1);
    new_board
}

impl Minimax {
    /// The favored player.
    pub closed spec fn spec_me(&self) -> Player {
        self.me
    }

    pub fn new(me: Player) -> (r: Self)
        ensures
            r.spec_me() == me,
    {
        Minimax { me }
    }

    /// The terminal score of a board `depth` moves below the root, or
    /// `None` when play continues.
    pub fn is_end_of_game(&self, board: &Board, depth: usize) -> (r: Option<i32>)
        requires
            board.wf(),
            depth <= 9,
        ensures
            match r {
                Some(v) => terminal_score(board@.cells, self.spec_me(), depth as nat) == Some(
                    v as int,
                ),
                None => terminal_score(board@.cells, self.spec_me(), depth as nat) is None,
            },
    {
        let d = depth as i32;
        match board.check_winner() {
            GameState::Winner(w) => Some(
                if w == self.me {
                    10 - d
                } else {
                    -(10 - d)
                },
            ),
            GameState::Tie => Some(0),
            GameState::InProgress => None,
        }
    }

    /// The recursive search: returns exactly the minimax score of the
    /// board.
    pub fn minimax(&self, board: &Board, depth: usize, kind: MinMax) -> (r: i32)
        requires
            board.wf(),
            depth + num_empty(board@.cells) <= 9,
        ensures
            r as int == spec_minimax(board@.cells, board@.turn, self.spec_me(), depth as nat, kind),
        decreases num_empty(board@.cells),
    {
        proof {
            lemma_count_empty_bounds(board@.cells, 9);
        }
        if let Some(score) = self.is_end_of_game(board, depth) {
            return score;
        }
        let ghost c = board@.cells;
        let ghost turn = board@.turn;
        let ghost me = self.spec_me();
        proof {
            lemma_search_bounds(c, turn, me, depth as nat, kind, 0);
        }
        let mut acc: i32 = match kind {
            MinMax::Min => i32::MAX,
            MinMax::Max => i32::MIN,
        };
        let mut i: usize = 0;
        while i < 9
            invariant
                board.wf(),
                c == board@.cells,
                turn == board@.turn,
                me == self.spec_me(),
                depth + num_empty(c) <= 9,
                num_empty(c) >= 0,
                i <= 9,
                terminal_score(c, me, depth as nat) is None,
                fold_combine(
                    kind,
                    acc as int,
                    spec_search(c, turn, me, depth as nat, kind, i as int),
                ) == spec_search(c, turn, me, depth as nat, kind, 0),
            decreases 9 - i,
        {
            let m: Move = (i / 3, i % 3);
            proof {
                assert(3 * (i as int / 3) + (i as int % 3) == i as int && 0 <= i as int % 3 < 3
                    && 0 <= i as int / 3 < 3) by (nonlinear_arith)
                    requires
                        0 <= i < 9,
                ;
            }
            match board.query_board(m) {
                State::Empty => {
                    let b = make_move(board, m);
                    proof {
                        lemma_num_empty_update(c, i as int, turn);
                        lemma_count_empty_bounds(b@.cells, 9);
                    }
                    let v = self.minimax(&b, depth + 1, kind.other());
                    let ghost prev = acc as int;
                    match kind {
                        MinMax::Min => {
                            if v < acc {
                                acc = v;
                            }
                        },
                        MinMax::Max => {
                            if v > acc {
                                acc = v;
                            }
                        },
                    }
                    proof {
                        assert(spec_search(c, turn, me, depth as nat, kind, i as int)
                            == fold_combine(
                            kind,
                            v as int,
                            spec_search(c, turn, me, depth as nat, kind, i + 1),
                        ));
                        assert(acc as int == fold_combine(kind, prev, v as int));
                    }
                },
                _ => {
                    proof {
                        assert(spec_search(c, turn, me, depth as nat, kind, i as int)
                            == spec_search(c, turn, me, depth as nat, kind, i + 1));
                    }
                },
            }
            i = i + 1;
        }
        acc
    }
}

impl Minimax {
    /// Selects the move whose searched score is greatest, breaking ties
    /// toward the earlier cell in row-major enumeration order. Must not
    /// be asked to move on a board without legal moves.
    pub fn choose_move(&self, board: &Board) -> (m: Move)
        requires
            board.wf(),
            num_empty(board@.cells) > 0,
        ensures
            spec_choice(board@.cells, board@.turn, self.spec_me()) == Some(m),
            spec_move_is_valid(board@, m.0 as int, m.1 as int),
    {
        let ghost c = board@.cells;
        let ghost turn = board@.turn;
        let ghost me = self.spec_me();
        proof {
            lemma_count_empty_bounds(c, 9);
        }
        let mut best: Option<(Move, i32)> = None;
        let mut i: usize = 0;
        while i < 9
            invariant
                board.wf(),
                c == board@.cells,
                turn == board@.turn,
                me == self.spec_me(),
                0 < num_empty(c) <= 9,
                i <= 9,
                match best {
                    None => spec_choice_from(c, turn, me, 0) == spec_choice_from(
                        c,
                        turn,
                        me,
                        i as int,
                    ) && crate::board::count_empty_upto(c, i as int) == 0,
                    Some(p) => {
                        &&& p.0.0 < 3
                        &&& p.0.1 < 3
                        &&& c[cell_index(p.0.0 as int, p.0.1 as int)] == State::Empty
                        &&& p.1 as int == child_value(
                            c,
                            turn,
                            me,
                            cell_index(p.0.0 as int, p.0.1 as int),
                        )
                        &&& match spec_choice_from(c, turn, me, i as int) {
                            None => spec_choice_from(c, turn, me, 0) == Some(p.0),
                            Some(m2) => spec_choice_from(c, turn, me, 0) == (if child_value(
                                c,
                                turn,
                                me,
                                cell_index(m2.0 as int, m2.1 as int),
                            ) > p.1 as int {
                                Some(m2)
                            } else {
                                Some(p.0)
                            }),
                        }
                    },
                },
            decreases 9 - i,
        {
            let m: Move = (i / 3, i % 3);
            proof {
                assert(3 * (i as int / 3) + (i as int % 3) == i as int && 0 <= i as int % 3 < 3
                    && 0 <= i as int / 3 < 3) by (nonlinear_arith)
                    requires
                        0 <= i < 9,
                ;
            }
            match board.query_board(m) {
                State::Empty => {
                    let b = make_move(board, m);
                    proof {
                        lemma_num_empty_update(c, i as int, turn);
                        lemma_count_empty_bounds(b@.cells, 9);
                    }
                    let v = self.minimax(&b, 1, MinMax::Min);
                    assert(v as int == child_value(c, turn, me, i as int));
                    match best {
                        None => {
                            best = Some((m, v));
                        },
                        Some(p) => {
                            if v > p.1 {
                                best = Some((m, v));
                            }
                        },
                    }
                },
                _ => {},
            }
            i = i + 1;
        }
        match best {
            Some(p) => p.0,
            None => {
                proof {
                    assert(false);
                }
                vstd::pervasive::unreached()
            },
        }
    }
}

impl GamePlayer for Minimax {
    /// The minimax player's move: the first maximal move of the search.
    fn make_move(&self, board: &Board) -> (m: Move)
        ensures
            spec_choice(board@.cells, board@.turn, self.spec_me()) == Some(m),
    {
        self.choose_move(board)
    }

    fn name(&self) -> (r: &'static str) {
        "Minimax"
    }
}

/// The minimax score of a board lies between `depth - 10` and
/// `10 - depth`: a win or loss `k` plies down scores `10 - depth - k`
/// in absolute value, and a tie scores zero.
pub proof fn lemma_minimax_bounds(c: Seq<State>, turn: Player, me: Player, depth: nat, kind: MinMax)
    requires
        c.len() == 9,
        depth + num_empty(c) <= 9,
    ensures
        (depth as int) - 10 <= spec_minimax(c, turn, me, depth, kind) <= 10 - (depth as int),
    decreases num_empty(c), 10int,
{
    lemma_count_empty_bounds(c, 9);
    if terminal_score(c, me, depth) is None {
        assert(!board_full(c));
        lemma_search_bounds(c, turn, me, depth, kind, 0);
    }
}

/// The fold over the cells with index at least `i` stays between
/// `depth + 1 - 10` and `9 - depth` as soon as one empty cell
/// contributes; with none it is the fold's identity.
pub proof fn lemma_search_bounds(
    c: Seq<State>,
    turn: Player,
    me: Player,
    depth: nat,
    kind: MinMax,
    i: int,
)
    requires
        c.len() == 9,
        depth + num_empty(c) <= 9,
        0 <= i <= 9,
    ensures
        (exists|j: int| i <= j < 9 && c[j] == State::Empty) ==> (depth as int) + 1 - 10
            <= spec_search(c, turn, me, depth, kind, i) <= 9 - (depth as int),
        !(exists|j: int| i <= j < 9 && c[j] == State::Empty) ==> spec_search(
            c,
            turn,
            me,
            depth,
            kind,
            i,
        ) == fold_identity(kind),
    decreases num_empty(c), 9 - i,
{
    lemma_count_empty_bounds(c, 9);
    if i < 9 {
        lemma_search_bounds(c, turn, me, depth, kind, i + 1);
        if c[i] == State::Empty {
            lemma_num_empty_update(c, i, turn);
            lemma_count_empty_positive(c, i, 9);
            lemma_count_empty_bounds(c.update(i, State::Player(turn)), 9);
            lemma_minimax_bounds(
                c.update(i, State::Player(turn)),
                turn.spec_other(),
                me,
                depth + 1,
                kind.spec_other(),
            );
            assert(i <= i < 9 && c[i] == State::Empty);
        } else {
            assert forall|j: int| i <= j < 9 && c[j] == State::Empty implies i + 1 <= j < 9 && c[j]
                == State::Empty by {}
        }
    }
}

/// Cell `i` is empty and playing it completes a line for `t`.
pub open spec fn winning_cell(c: Seq<State>, t: Player, i: int) -> bool {
    0 <= i < 9 && c[i] == State::Empty && wins(c.update(i, State::Player(t)), t)
}

/// The mark `t` can win with a single move.
pub open spec fn has_winning_cell(c: Seq<State>, t: Player) -> bool {
    exists|i: int| winning_cell(c, t, i)
}

/// What the top-level selection returns: `None` exactly when no empty
/// cell with index at least `i` remains; otherwise an empty cell whose
/// score no other empty cell strictly exceeds, and the earliest cell
/// achieving that score.
pub proof fn lemma_choice_from_is_max(c: Seq<State>, turn: Player, me: Player, i: int)
    requires
        c.len() == 9,
        0 <= i <= 9,
    ensures
        (spec_choice_from(c, turn, me, i) is None) <==> (forall|j: int|
            i <= j < 9 ==> c[j] != State::Empty),
        match spec_choice_from(c, turn, me, i) {
            None => true,
            Some(m) => {
                &&& m.0 < 3
                &&& m.1 < 3
                &&& i <= cell_index(m.0 as int, m.1 as int) < 9
                &&& c[cell_index(m.0 as int, m.1 as int)] == State::Empty
                &&& forall|j: int|
                    i <= j < 9 && c[j] == State::Empty ==> child_value(c, turn, me, j)
                        <= child_value(c, turn, me, cell_index(m.0 as int, m.1 as int))
                &&& forall|j: int|
                    i <= j < cell_index(m.0 as int, m.1 as int) && c[j] == State::Empty
                        ==> child_value(c, turn, me, j) < child_value(
                        c,
                        turn,
                        me,
                        cell_index(m.0 as int, m.1 as int),
                    )
            },
        },
    decreases 9 - i,
{
    if i < 9 {
        lemma_choice_from_is_max(c, turn, me, i + 1);
        if c[i] == State::Empty {
            assert(3 * (i / 3) + (i % 3) == i && 0 <= i % 3 < 3 && 0 <= i / 3 < 3)
                by (nonlinear_arith)
                requires
                    0 <= i < 9,
            ;
        }
    }
}

/// Playing a winning cell on a board still in progress yields the top
/// score the selection can see: a win on the very next ply.
proof fn lemma_winning_child_value(c: Seq<State>, turn: Player, w: int)
    requires
        c.len() == 9,
        spec_outcome(c) == GameState::InProgress,
        winning_cell(c, turn, w),
    ensures
        child_value(c, turn, turn, w) == 9,
{
    let c1 = c.update(w, State::Player(turn));
    assert(!wins(c1, turn.spec_other())) by {
        if wins(c1, turn.spec_other()) {
            lemma_mark_no_new_win(c, w, turn, turn.spec_other());
            lemma_wins_winner_some(c, turn.spec_other());
        }
    }
    lemma_win_yields_winner(c1, turn);
}

/// Playing any non-winning cell scores strictly less than a win on the
/// next ply.
proof fn lemma_nonwinning_child_value(c: Seq<State>, turn: Player, j: int)
    requires
        c.len() == 9,
        spec_outcome(c) == GameState::InProgress,
        0 <= j < 9,
        c[j] == State::Empty,
        !winning_cell(c, turn, j),
    ensures
        child_value(c, turn, turn, j) <= 8,
{
    let c1 = c.update(j, State::Player(turn));
    assert(spec_winner(c1) is None) by {
        if spec_winner(c1) is Some {
            let p = spec_winner(c1)->Some_0;
            assert(wins(c1, p));
            if p != turn {
                lemma_mark_no_new_win(c, j, turn, p);
                lemma_wins_winner_some(c, p);
            }
        }
    }
    lemma_count_empty_bounds(c, 9);
    lemma_num_empty_update(c, j, turn);
    if !board_full(c1) {
        lemma_search_bounds(c1, turn.spec_other(), turn, 1, MinMax::Min, 0);
        let e = choose|e: int| 0 <= e < 9 && c1[e] == State::Empty;
        assert(0 <= e < 9 && c1[e] == State::Empty);
    }
}

/// For the minimizing posture, the fold is at most any single child's
/// score.
proof fn lemma_search_le_child(c: Seq<State>, turn: Player, me: Player, depth: nat, i: int, k: int)
    requires
        c.len() == 9,
        depth + num_empty(c) <= 9,
        0 <= i <= k < 9,
        c[k] == State::Empty,
    ensures
        spec_search(c, turn, me, depth, MinMax::Min, i) <= spec_minimax(
            c.update(k, State::Player(turn)),
            turn.spec_other(),
            me,
            depth + 1,
            MinMax::Max,
        ),
    decreases 9 - i,
{
    if i < k {
        lemma_search_le_child(c, turn, me, depth, i + 1, k);
    }
}

/// For the minimizing posture, the fold stays at or above any bound
/// that every child's score respects.
proof fn lemma_search_min_lower(
    c: Seq<State>,
    turn: Player,
    me: Player,
    depth: nat,
    i: int,
    lo: int,
)
    requires
        c.len() == 9,
        depth + num_empty(c) <= 9,
        0 <= i <= 9,
        lo <= i32::MAX as int,
        forall|k: int|
            i <= k < 9 && c[k] == State::Empty ==> spec_minimax(
                c.update(k, State::Player(turn)),
                turn.spec_other(),
                me,
                depth + 1,
                MinMax::Max,
            ) >= lo,
    ensures
        spec_search(c, turn, me, depth, MinMax::Min, i) >= lo,
    decreases 9 - i,
{
    if i < 9 {
        lemma_search_min_lower(c, turn, me, depth, i + 1, lo);
    }
}

/// On a board still in progress where the player to move can complete a
/// line at once, the selection picks such a cell.
pub proof fn lemma_selects_immediate_win(c: Seq<State>, turn: Player)
    requires
        c.len() == 9,
        spec_outcome(c) == GameState::InProgress,
        has_winning_cell(c, turn),
    ensures
        match spec_choice(c, turn, turn) {
            Some(m) => winning_cell(c, turn, cell_index(m.0 as int, m.1 as int)),
            None => false,
        },
{
    let w = choose|i: int| winning_cell(c, turn, i);
    lemma_winning_child_value(c, turn, w);
    lemma_choice_from_is_max(c, turn, turn, 0);
    match spec_choice(c, turn, turn) {
        Some(m) => {
            let k = cell_index(m.0 as int, m.1 as int);
            if !winning_cell(c, turn, k) {
                lemma_nonwinning_child_value(c, turn, k);
            }
        },
        None => {},
    }
}

/// With exactly one cell the opponent could win on next turn, and no
/// immediate win available to the mover, the selection plays that cell,
/// and afterwards the opponent has no immediate win left.
#[verifier::rlimit(100)]
pub proof fn lemma_selects_block(c: Seq<State>, turn: Player, e: int)
    requires
        c.len() == 9,
        spec_outcome(c) == GameState::InProgress,
        !has_winning_cell(c, turn),
        winning_cell(c, turn.spec_other(), e),
        forall|f: int| f != e ==> !winning_cell(c, turn.spec_other(), f),
    ensures
        match spec_choice(c, turn, turn) {
            Some(m) => cell_index(m.0 as int, m.1 as int) == e && !has_winning_cell(
                c.update(e, State::Player(turn)),
                turn.spec_other(),
            ),
            None => false,
        },
{
    let o = turn.spec_other();
    let c1 = c.update(e, State::Player(turn));
    lemma_count_empty_bounds(c, 9);
    lemma_num_empty_update(c, e, turn);

    // No completed line at all on a board still in progress.
    assert(!wins(c, turn) && !wins(c, o)) by {
        if wins(c, turn) {
            lemma_wins_winner_some(c, turn);
        }
        if wins(c, o) {
            lemma_wins_winner_some(c, o);
        }
    }

    // Blocking removes the only threat and creates none.
    assert(!has_winning_cell(c1, o)) by {
        if has_winning_cell(c1, o) {
            let f = choose|f: int| winning_cell(c1, o, f);
            assert(f != e);
            assert(c1.update(f, State::Player(o)) =~= c.update(f, State::Player(o)).update(
                e,
                State::Player(turn),
            ));
            lemma_mark_no_new_win(c.update(f, State::Player(o)), e, turn, o);
            assert(winning_cell(c, o, f));
        }
    }

    // The blocking move completes no line for either side.
    assert(spec_winner(c1) is None) by {
        if spec_winner(c1) is Some {
            let p = spec_winner(c1)->Some_0;
            assert(wins(c1, p));
            if p == turn {
                assert(winning_cell(c, turn, e));
                assert(false);
            } else {
                lemma_mark_no_new_win(c, e, turn, p);
                assert(false);
            }
        }
    }

    // The blocking move scores at least -7: the opponent cannot answer
    // with an immediate win any more.
    assert(child_value(c, turn, turn, e) >= -7) by {
        if !board_full(c1) {
            assert forall|f: int| 0 <= f < 9 && c1[f] == State::Empty implies spec_minimax(
                c1.update(f, State::Player(o)),
                o.spec_other(),
                turn,
                2,
                MinMax::Max,
            ) >= -7 by {
                let g = c1.update(f, State::Player(o));
                assert(spec_winner(g) is None) by {
                    if spec_winner(g) is Some {
                        let p = spec_winner(g)->Some_0;
                        assert(wins(g, p));
                        if p == o {
                            assert(winning_cell(c1, o, f));
                        } else {
                            lemma_mark_no_new_win(c1, f, o, p);
                        }
                    }
                }
                lemma_num_empty_update(c1, f, o);
                if !board_full(g) {
                    lemma_search_bounds(g, o.spec_other(), turn, 2, MinMax::Max, 0);
                    let w2 = choose|w2: int| 0 <= w2 < 9 && g[w2] == State::Empty;
                    assert(0 <= w2 < 9 && g[w2] == State::Empty);
                }
            }
            lemma_search_min_lower(c1, o, turn, 1, 0, -7);
        }
    }

    // Any other move leaves the threat standing and scores at most -8.
    assert forall|j: int| 0 <= j < 9 && c[j] == State::Empty && j != e implies child_value(
        c,
        turn,
        turn,
        j,
    ) <= -8 by {
        let cj = c.update(j, State::Player(turn));
        lemma_num_empty_update(c, j, turn);
        // the threat at e persists
        assert(wins(cj.update(e, State::Player(o)), o)) by {
            crate::board::lemma_wins_update_elsewhere(
                c.update(e, State::Player(o)),
                o,
                j,
                State::Player(turn),
            );
            assert(c.update(e, State::Player(o)).update(j, State::Player(turn)) =~= cj.update(
                e,
                State::Player(o),
            ));
        }
        // the move itself finishes nothing
        assert(spec_winner(cj) is None) by {
            if spec_winner(cj) is Some {
                let p = spec_winner(cj)->Some_0;
                assert(wins(cj, p));
                if p == turn {
                    assert(winning_cell(c, turn, j));
                } else {
                    lemma_mark_no_new_win(c, j, turn, p);
                }
            }
        }
        assert(cj[e] == State::Empty);
        // the opponent's reply at e is an immediate win worth -8
        assert(spec_minimax(cj.update(e, State::Player(o)), o.spec_other(), turn, 2, MinMax::Max)
            == -8) by {
            let g = cj.update(e, State::Player(o));
            assert(!wins(g, turn)) by {
                if wins(g, turn) {
                    lemma_mark_no_new_win(cj, e, o, turn);
                }
            }
            lemma_win_yields_winner(g, o);
        }
        lemma_search_le_child(cj, o, turn, 1, 0, e);
    }

    // The selection therefore picks the blocking cell.
    lemma_winning_cell_in_range(c, o, e);
    lemma_choice_from_is_max(c, turn, turn, 0);
    match spec_choice(c, turn, turn) {
        Some(m) => {
            let k = cell_index(m.0 as int, m.1 as int);
            assert(k == e);
        },
        None => {
            assert(c[e] == State::Empty);
        },
    }
}

/// For the maximizing posture, the fold is at least any single child's
/// score.
proof fn lemma_search_ge_child(c: Seq<State>, turn: Player, me: Player, depth: nat, i: int, k: int)
    requires
        c.len() == 9,
        depth + num_empty(c) <= 9,
        0 <= i <= k < 9,
        c[k] == State::Empty,
    ensures
        spec_search(c, turn, me, depth, MinMax::Max, i) >= spec_minimax(
            c.update(k, State::Player(turn)),
            turn.spec_other(),
            me,
            depth + 1,
            MinMax::Min,
        ),
    decreases 9 - i,
{
    if i < k {
        lemma_search_ge_child(c, turn, me, depth, i + 1, k);
    }
}

/// For the maximizing posture, the fold equals the score of one of the
/// contributing children, as soon as there is one.
proof fn lemma_search_max_achieved(c: Seq<State>, turn: Player, me: Player, depth: nat, i: int)
    requires
        c.len() == 9,
        depth + num_empty(c) <= 9,
        0 <= i <= 9,
        exists|j: int| i <= j < 9 && c[j] == State::Empty,
    ensures
        exists|k: int|
            i <= k < 9 && c[k] == State::Empty && spec_search(c, turn, me, depth, MinMax::Max, i)
                == spec_minimax(
                c.update(k, State::Player(turn)),
                turn.spec_other(),
                me,
                depth + 1,
                MinMax::Min,
            ),
    decreases 9 - i,
{
    let j0 = choose|j: int| i <= j < 9 && c[j] == State::Empty;
    if c[i] == State::Empty {
        lemma_num_empty_update(c, i, turn);
        lemma_count_empty_positive(c, i, 9);
        lemma_count_empty_bounds(c.update(i, State::Player(turn)), 9);
        lemma_minimax_bounds(
            c.update(i, State::Player(turn)),
            turn.spec_other(),
            me,
            depth + 1,
            MinMax::Min,
        );
        lemma_search_bounds(c, turn, me, depth, MinMax::Max, i + 1);
        if exists|j: int| i + 1 <= j < 9 && c[j] == State::Empty {
            lemma_search_max_achieved(c, turn, me, depth, i + 1);
            let k2 = choose|k: int|
                i + 1 <= k < 9 && c[k] == State::Empty && spec_search(
                    c,
                    turn,
                    me,
                    depth,
                    MinMax::Max,
                    i + 1,
                ) == spec_minimax(
                    c.update(k, State::Player(turn)),
                    turn.spec_other(),
                    me,
                    depth + 1,
                    MinMax::Min,
                );
            if spec_search(c, turn, me, depth, MinMax::Max, i) != spec_minimax(
                c.update(i, State::Player(turn)),
                turn.spec_other(),
                me,
                depth + 1,
                MinMax::Min,
            ) {
                assert(i + 1 <= k2 < 9 && c[k2] == State::Empty && spec_search(
                    c,
                    turn,
                    me,
                    depth,
                    MinMax::Max,
                    i,
                ) == spec_minimax(
                    c.update(k2, State::Player(turn)),
                    turn.spec_other(),
                    me,
                    depth + 1,
                    MinMax::Min,
                ));
            }
        }
    } else {
        assert(i + 1 <= j0 < 9 && c[j0] == State::Empty);
        lemma_search_max_achieved(c, turn, me, depth, i + 1);
    }
}

/// Two scores agree in sign: both positive, both zero, or both
/// negative.
pub open spec fn same_sign(a: int, b: int) -> bool {
    &&& (a > 0 <==> b > 0)
    &&& (a == 0 <==> b == 0)
}

/// The sign of a board's minimax score does not depend on the depth the
/// search root is counted from: the depth adjustment breaks ties within
/// the same kind of outcome but never turns a winning line into a
/// losing one.
pub proof fn lemma_minimax_sign_shift(
    c: Seq<State>,
    turn: Player,
    me: Player,
    d1: nat,
    d2: nat,
    kind: MinMax,
)
    requires
        c.len() == 9,
        d1 + num_empty(c) <= 9,
        d2 + num_empty(c) <= 9,
    ensures
        same_sign(spec_minimax(c, turn, me, d1, kind), spec_minimax(c, turn, me, d2, kind)),
    decreases num_empty(c), 10int,
{
    lemma_count_empty_bounds(c, 9);
    if terminal_score(c, me, d1) is None {
        assert(!board_full(c));
        let j = choose|j: int| 0 <= j < 9 && c[j] == State::Empty;
        assert(0 <= j < 9 && c[j] == State::Empty);
        lemma_search_sign_shift(c, turn, me, d1, d2, kind, 0);
    }
}

proof fn lemma_search_sign_shift(
    c: Seq<State>,
    turn: Player,
    me: Player,
    d1: nat,
    d2: nat,
    kind: MinMax,
    i: int,
)
    requires
        c.len() == 9,
        d1 + num_empty(c) <= 9,
        d2 + num_empty(c) <= 9,
        0 <= i <= 9,
    ensures
        (exists|j: int| i <= j < 9 && c[j] == State::Empty) ==> same_sign(
            spec_search(c, turn, me, d1, kind, i),
            spec_search(c, turn, me, d2, kind, i),
        ),
    decreases num_empty(c), 9 - i,
{
    if i < 9 {
        lemma_search_sign_shift(c, turn, me, d1, d2, kind, i + 1);
        lemma_search_bounds(c, turn, me, d1, kind, i + 1);
        lemma_search_bounds(c, turn, me, d2, kind, i + 1);
        if c[i] == State::Empty {
            let c1 = c.update(i, State::Player(turn));
            lemma_num_empty_update(c, i, turn);
            lemma_count_empty_positive(c, i, 9);
            lemma_count_empty_bounds(c1, 9);
            lemma_minimax_sign_shift(c1, turn.spec_other(), me, (d1 + 1) as nat, (d2 + 1) as nat, kind.spec_other());
            lemma_minimax_bounds(c1, turn.spec_other(), me, (d1 + 1) as nat, kind.spec_other());
            lemma_minimax_bounds(c1, turn.spec_other(), me, (d2 + 1) as nat, kind.spec_other());
            assert(i <= i < 9 && c[i] == State::Empty);
        }
    }
}

/// The inductive heart of "minimax never loses": on a board still in
/// progress whose minimax score for the mover is nonnegative, the
/// selected move never hands the game to the opponent. Either the board
/// after the move is finished without a loss, or, whatever legal reply
/// the opponent makes, the board after the reply is again finished
/// without a loss or still in progress with a nonnegative minimax score
/// for the mover.
#[verifier::rlimit(100)]
pub proof fn lemma_never_losing_choice(c: Seq<State>, m: Player)
    requires
        c.len() == 9,
        spec_outcome(c) == GameState::InProgress,
        spec_minimax(c, m, m, 0, MinMax::Max) >= 0,
    ensures
        match spec_choice(c, m, m) {
            None => false,
            Some(mv) => ({
                let k = cell_index(mv.0 as int, mv.1 as int);
                let c1 = c.update(k, State::Player(m));
                &&& spec_outcome(c1) != GameState::Winner(m.spec_other())
                &&& (spec_outcome(c1) == GameState::InProgress ==> forall|f: int|
                    0 <= f < 9 && c1[f] == State::Empty ==> ({
                        let c2 = c1.update(f, State::Player(m.spec_other()));
                        &&& spec_outcome(c2) != GameState::Winner(m.spec_other())
                        &&& (spec_outcome(c2) == GameState::InProgress ==> spec_minimax(
                            c2,
                            m,
                            m,
                            0,
                            MinMax::Max,
                        ) >= 0)
                    }))
            }),
        },
{
    let o = m.spec_other();
    lemma_count_empty_bounds(c, 9);
    assert(!board_full(c));
    let j0 = choose|j: int| 0 <= j < 9 && c[j] == State::Empty;
    assert(0 <= j0 < 9 && c[j0] == State::Empty);
    lemma_choice_from_is_max(c, m, m, 0);
    let mv = spec_choice(c, m, m)->Some_0;
    let k = cell_index(mv.0 as int, mv.1 as int);
    let c1 = c.update(k, State::Player(m));
    lemma_num_empty_update(c, k, m);

    // The fold's value is achieved by some child and dominated by the
    // selected one, so the selected child scores the fold's value.
    assert(child_value(c, m, m, k) >= 0) by {
        lemma_search_max_achieved(c, m, m, 0, 0);
        let ka = choose|ka: int|
            0 <= ka < 9 && c[ka] == State::Empty && spec_search(c, m, m, 0, MinMax::Max, 0)
                == spec_minimax(
                c.update(ka, State::Player(m)),
                m.spec_other(),
                m,
                1,
                MinMax::Min,
            );
        lemma_search_ge_child(c, m, m, 0, 0, k);
        assert(child_value(c, m, m, ka) <= child_value(c, m, m, k));
    }

    if spec_winner(c1) is Some {
        let p = spec_winner(c1)->Some_0;
        assert(terminal_score(c1, m, 1) == Some(if p == m { 9int } else { -9int }));
        assert(p == m);
    } else if board_full(c1) {
        assert(spec_outcome(c1) == GameState::Tie);
    } else {
        assert(spec_outcome(c1) == GameState::InProgress);
        assert forall|f: int| 0 <= f < 9 && c1[f] == State::Empty implies ({
            let c2 = c1.update(f, State::Player(m.spec_other()));
            &&& spec_outcome(c2) != GameState::Winner(m.spec_other())
            &&& (spec_outcome(c2) == GameState::InProgress ==> spec_minimax(
                c2,
                m,
                m,
                0,
                MinMax::Max,
            ) >= 0)
        }) by {
            let c2 = c1.update(f, State::Player(o));
            lemma_num_empty_update(c1, f, o);
            lemma_search_le_child(c1, o, m, 1, 0, f);
            assert(spec_minimax(c2, m, m, 2, MinMax::Max) >= 0);
            if spec_winner(c2) is Some {
                let p = spec_winner(c2)->Some_0;
                assert(terminal_score(c2, m, 2) == Some(if p == m { 8int } else { -8int }));
                assert(p == m);
            } else if board_full(c2) {
                assert(spec_outcome(c2) == GameState::Tie);
            } else {
                lemma_minimax_sign_shift(c2, m, m, 2, 0, MinMax::Max);
            }
        }
    }
}

/// A winning cell is one of the nine cells and is empty.
proof fn lemma_winning_cell_in_range(c: Seq<State>, t: Player, i: int)
    requires
        winning_cell(c, t, i),
    ensures
        0 <= i < 9,
        c[i] == State::Empty,
{
}

} // verus!
