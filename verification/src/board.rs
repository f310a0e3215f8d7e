//! The 3x3 board: cell states, turn tracking, move validation and
//! application, and terminal-state detection.

use vstd::prelude::*;

use crate::game::Move;

verus! {

/// One of the two marks a move can place.
#[derive(Debug, Clone, Copy, PartialEq, Eq, Structural)]
pub enum Player {
    X,
    O,
}

/// What a single cell holds.
#[derive(Debug, Clone, Copy, PartialEq, Eq, Structural)]
pub enum State {
    Empty,
    Player(Player),
}

/// The outcome of evaluating a board: still open, won, or drawn.
#[derive(Debug, Clone, PartialEq, Eq, Structural)]
pub enum GameState {
    InProgress,
    Winner(Player),
    Tie,
}

/// Whether an attempted move was applied or rejected.
#[derive(Debug, Clone, Copy, PartialEq, Eq, Structural)]
pub enum MoveKind {
    Valid,
    Invalid,
}

impl Player {
    /// The opposing mark.
    pub open spec fn spec_other(self) -> Player {
        match self {
            Player::X => Player::O,
            Player::O => Player::X,
        }
    }

    pub fn other(self) -> (r: Player)
        ensures
            r == self.spec_other(),
    {
        match self {
            Player::X => Player::O,
            Player::O => Player::X,
        }
    }
}

/// The mathematical content of a board: nine cells in row-major order
/// and the mark whose turn it is.
pub struct BoardView {
    pub cells: Seq<State>,
    pub turn: Player,
}

/// A 3x3 grid plus the player to move. Cells are stored row-major:
/// the cell at row `x`, column `y` sits at index `3 * x + y`.
#[derive(Debug)]
pub struct Board {
    board: Vec<State>,
    turn: Player,
}

/// Index of the cell at row `x`, column `y`.
pub open spec fn cell_index(x: int, y: int) -> int {
    3 * x + y
}

/// A move is legal when both coordinates are in range and the target
/// cell is empty.
pub open spec fn spec_move_is_valid(v: BoardView, x: int, y: int) -> bool {
    0 <= x < 3 && 0 <= y < 3 && v.cells[cell_index(x, y)] == State::Empty
}

/// The three cells `i`, `j`, `k` all hold the mark `p`.
pub open spec fn three_in_line(c: Seq<State>, p: Player, i: int, j: int, k: int) -> bool {
    c[i] == State::Player(p) && c[j] == State::Player(p) && c[k] == State::Player(p)
}

/// The mark `p` owns one of the 8 winning lines: 3 rows, 3 columns,
/// 2 diagonals.
pub open spec fn wins(c: Seq<State>, p: Player) -> bool {
    ||| three_in_line(c, p, 0, 1, 2)
    ||| three_in_line(c, p, 3, 4, 5)
    ||| three_in_line(c, p, 6, 7, 8)
    ||| three_in_line(c, p, 0, 3, 6)
    ||| three_in_line(c, p, 1, 4, 7)
    ||| three_in_line(c, p, 2, 5, 8)
    ||| three_in_line(c, p, 0, 4, 8)
    ||| three_in_line(c, p, 2, 4, 6)
}

/// The owner of the line `i`, `j`, `k`, if those three cells hold one
/// and the same mark.
pub open spec fn line_winner(c: Seq<State>, i: int, j: int, k: int) -> Option<Player> {
    match c[i] {
        State::Empty => None,
        State::Player(p) => if c[j] == State::Player(p) && c[k] == State::Player(p) {
            Some(p)
        } else {
            None
        },
    }
}

pub open spec fn first_some(a: Option<Player>, b: Option<Player>) -> Option<Player> {
    if a is Some {
        a
    } else {
        b
    }
}

/// The winner reported for a board: the 8 lines are examined in a fixed
/// order (rows top to bottom, then columns left to right, then the two
/// diagonals) and the first completed line decides.
pub open spec fn spec_winner(c: Seq<State>) -> Option<Player> {
    first_some(
        line_winner(c, 0, 1, 2),
        first_some(
            line_winner(c, 3, 4, 5),
            first_some(
                line_winner(c, 6, 7, 8),
                first_some(
                    line_winner(c, 0, 3, 6),
                    first_some(
                        line_winner(c, 1, 4, 7),
                        first_some(
                            line_winner(c, 2, 5, 8),
                            first_some(line_winner(c, 0, 4, 8), line_winner(c, 2, 4, 6)),
                        ),
                    ),
                ),
            ),
        ),
    )
}

/// No cell is empty.
pub open spec fn board_full(c: Seq<State>) -> bool {
    forall|i: int| 0 <= i < 9 ==> c[i] != State::Empty
}

/// The outcome of a board: a completed line names the winner; otherwise
/// a full board is a tie and anything else is still in progress.
pub open spec fn spec_outcome(c: Seq<State>) -> GameState {
    match spec_winner(c) {
        Some(p) => GameState::Winner(p),
        None => if board_full(c) {
            GameState::Tie
        } else {
            GameState::InProgress
        },
    }
}

/// How many of the first `n` cells are empty.
pub open spec fn count_empty_upto(c: Seq<State>, n: int) -> int
    decreases n,
{
    if n <= 0 {
        0
    } else {
        count_empty_upto(c, n - 1) + if c[n - 1] == State::Empty {
            1int
        } else {
            0int
        }
    }
}

/// How many of the nine cells are empty.
pub open spec fn num_empty(c: Seq<State>) -> int {
    count_empty_upto(c, 9)
}

/// The legal moves of a board whose cell index is at least `i`, in
/// row-major order.
pub open spec fn moves_from(c: Seq<State>, i: int) -> Seq<Move>
    decreases 9 - i,
{
    if i < 0 || i >= 9 {
        Seq::empty()
    } else {
        let rest = moves_from(c, i + 1);
        if c[i] == State::Empty {
            seq![(((i / 3) as usize), ((i % 3) as usize))] + rest
        } else {
            rest
        }
    }
}

/// All legal moves of a board, in row-major order.
pub open spec fn spec_moves(c: Seq<State>) -> Seq<Move> {
    moves_from(c, 0)
}

impl View for Board {
    type V = BoardView;

    closed spec fn view(&self) -> BoardView {
        BoardView { cells: self.board@, turn: self.turn }
    }
}

impl Board {
    /// A board is well formed when it has exactly nine cells.
    pub open spec fn wf(&self) -> bool {
        self@.cells.len() == 9
    }

    /// The empty board; X moves first.
    pub fn new() -> (r: Self)
        ensures
            r.wf(),
            r@.turn == Player::X,
            forall|i: int| 0 <= i < 9 ==> r@.cells[i] == State::Empty,
            num_empty(r@.cells) == 9,
            spec_outcome(r@.cells) == GameState::InProgress,
    {
        let mut cells: Vec<State> = Vec::new();
        let mut i: usize = 0;
        while i < 9
            invariant
                i <= 9,
                cells@.len() == i,
                forall|j: int| 0 <= j < i ==> cells@[j] == State::Empty,
            decreases 9 - i,
        {
            cells.push(State::Empty);
            i = i + 1;
        }
        let r = Board { board: cells, turn: Player::X };
        proof {
            reveal_with_fuel(count_empty_upto, 10);
        }
        r
    }

    /// A board with the given cells, row by row, and the given player to
    /// move; anything but exactly nine cells is refused.
    pub fn from_cells(cells: Vec<State>, turn: Player) -> (r: Option<Board>)
        ensures
            match r {
                Some(b) => b.wf() && b@.cells == cells@ && b@.turn == turn && cells@.len() == 9,
                None => cells@.len() != 9,
            },
    {
        if cells.len() == 9 {
            Some(Board { board: cells, turn })
        } else {
            None
        }
    }

    pub fn move_is_valid(&self, x: usize, y: usize) -> (r: bool)
        requires
            self.wf(),
        ensures
            r == spec_move_is_valid(self@, x as int, y as int),
    {
        if x >= 3 || y >= 3 {
            return false;
        }
        match self.board[3 * x + y] {
            State::Empty => true,
            _ => false,
        }
    }

    /// The mark whose turn it is.
    pub fn turn(&self) -> (r: Player)
        ensures
            r == self@.turn,
    {
        self.turn
    }

    /// Applies a move for the player to move: on a legal cell the mark is
    /// placed and the turn flips; otherwise nothing changes and the move
    /// is rejected.
    pub fn make_move(&mut self, x: usize, y: usize) -> (r: MoveKind)
        requires
            old(self).wf(),
        ensures
            final(self).wf(),
            spec_move_is_valid(old(self)@, x as int, y as int) ==> {
                &&& r == MoveKind::Valid
                &&& final(self)@.cells == old(self)@.cells.update(
                    cell_index(x as int, y as int),
                    State::Player(old(self)@.turn),
                )
                &&& final(self)@.turn == old(self)@.turn.spec_other()
            },
            !spec_move_is_valid(old(self)@, x as int, y as int) ==> {
                &&& r == MoveKind::Invalid
                &&& final(self)@ == old(self)@
            },
    {
        if self.move_is_valid(x, y) {
            let turn = self.turn;
            self.board.set(3 * x + y, State::Player(turn));
            self.next_turn();
            MoveKind::Valid
        } else {
            MoveKind::Invalid
        }
    }

    /// The state of the cell at the given coordinates.
    pub fn query_board(&self, m: Move) -> (r: State)
        requires
            self.wf(),
            m.0 < 3,
            m.1 < 3,
        ensures
            r == self@.cells[cell_index(m.0 as int, m.1 as int)],
    {
        self.board[3 * m.0 + m.1]
    }

    /// All empty cells, enumerated row by row.
    pub fn available_moves(&self) -> (r: Vec<Move>)
        requires
            self.wf(),
        ensures
            r@ == spec_moves(self@.cells),
            r@.len() == num_empty(self@.cells),
            forall|j: int|
                0 <= j < r@.len() ==> spec_move_is_valid(self@, r@[j].0 as int, r@[j].1 as int),
    {
        let ghost c = self@.cells;
        let mut moves: Vec<Move> = Vec::new();
        let mut i: usize = 0;
        while i < 9
            invariant
                self.wf(),
                c == self@.cells,
                i <= 9,
                moves@ + moves_from(c, i as int) == spec_moves(c),
                moves@.len() == count_empty_upto(c, i as int),
                forall|j: int|
                    0 <= j < moves@.len() ==> spec_move_is_valid(
                        self@,
                        moves@[j].0 as int,
                        moves@[j].1 as int,
                    ),
            decreases 9 - i,
        {
            let x = i / 3;
            let y = i % 3;
            assert(3 * (i as int / 3) + (i as int % 3) == i as int && 0 <= i as int % 3 < 3
                && 0 <= i as int / 3 < 3) by (nonlinear_arith)
                requires
                    0 <= i < 9,
            ;
            match self.query_board((x, y)) {
                State::Empty => {
                    moves.push((x, y));
                },
                _ => {},
            }
            assert(count_empty_upto(c, i + 1) == count_empty_upto(c, i as int) + if c[i as int]
                == State::Empty {
                1int
            } else {
                0int
            });
            assert(moves@ + moves_from(c, i + 1) == spec_moves(c)) by {
                if c[i as int] == State::Empty {
                    assert(moves_from(c, i as int) == seq![((x, y))] + moves_from(c, i + 1));
                    assert(moves@ =~= moves@.drop_last() + seq![((x, y))]);
                    assert(moves@.drop_last() + (seq![((x, y))] + moves_from(c, i + 1)) =~= (
                    moves@.drop_last() + seq![((x, y))]) + moves_from(c, i + 1));
                }
            }
            i = i + 1;
        }
        proof {
            assert(moves@ + moves_from(c, 9) =~= moves@);
        }
        moves
    }

    /// True when no empty cell remains.
    pub fn out_of_moves(&self) -> (r: bool)
        requires
            self.wf(),
        ensures
            r == (num_empty(self@.cells) == 0),
    {
        self.available_moves().is_empty()
    }

    /// Evaluates the board: rows, then columns, then the two diagonals
    /// are checked for three identical marks; failing that, a full board
    /// is a tie and any other board is still in progress.
    pub fn check_winner(&self) -> (r: GameState)
        requires
            self.wf(),
        ensures
            r == spec_outcome(self@.cells),
    {
        if let Some(p) = self.line_check(0, 1, 2) {
            return GameState::Winner(p);
        }
        if let Some(p) = self.line_check(3, 4, 5) {
            return GameState::Winner(p);
        }
        if let Some(p) = self.line_check(6, 7, 8) {
            return GameState::Winner(p);
        }
        if let Some(p) = self.line_check(0, 3, 6) {
            return GameState::Winner(p);
        }
        if let Some(p) = self.line_check(1, 4, 7) {
            return GameState::Winner(p);
        }
        if let Some(p) = self.line_check(2, 5, 8) {
            return GameState::Winner(p);
        }
        if let Some(p) = self.line_check(0, 4, 8) {
            return GameState::Winner(p);
        }
        if let Some(p) = self.line_check(2, 4, 6) {
            return GameState::Winner(p);
        }
        if self.out_of_moves() {
            assert(board_full(self@.cells)) by {
                assert forall|i: int| 0 <= i < 9 implies self@.cells[i] != State::Empty by {
                    if self@.cells[i] == State::Empty {
                        lemma_count_empty_positive(self@.cells, i, 9);
                    }
                }
            }
            GameState::Tie
        } else {
            assert(!board_full(self@.cells)) by {
                if board_full(self@.cells) {
                    lemma_full_has_no_empty(self@.cells);
                }
            }
            GameState::InProgress
        }
    }

    /// Checks one line of three cells for a common mark.
    fn line_check(&self, i: usize, j: usize, k: usize) -> (r: Option<Player>)
        requires
            self.wf(),
            i < 9,
            j < 9,
            k < 9,
        ensures
            r == line_winner(self@.cells, i as int, j as int, k as int),
    {
        match self.board[i] {
            State::Empty => None,
            State::Player(p) => {
                if self.board[j] == State::Player(p) && self.board[k] == State::Player(p) {
                    Some(p)
                } else {
                    None
                }
            },
        }
    }

    fn next_turn(&mut self)
        ensures
            final(self)@.cells == old(self)@.cells,
            final(self)@.turn == old(self)@.turn.spec_other(),
    {
        self.turn = self.turn.other();
    }
}

impl Clone for Board {
    /// An independent copy: the search explores hypothetical successors
    /// on copies and never mutates a shared board.
    fn clone(&self) -> (r: Board)
        ensures
            r@ == self@,
    {
        let mut cells: Vec<State> = Vec::new();
        let mut i: usize = 0;
        while i < self.board.len()
            invariant
                i <= self.board@.len(),
                cells@.len() == i,
                forall|j: int| 0 <= j < i ==> cells@[j] == self.board@[j],
            decreases self.board@.len() - i,
        {
            cells.push(self.board[i]);
            i = i + 1;
        }
        let r = Board { board: cells, turn: self.turn };
        proof {
            assert(r@.cells =~= self@.cells);
        }
        r
    }
}

/// If some cell below `n` is empty, the empty count up to `n` is positive.
pub proof fn lemma_count_empty_positive(c: Seq<State>, i: int, n: int)
    requires
        0 <= i < n,
        c[i] == State::Empty,
    ensures
        count_empty_upto(c, n) >= 1,
    decreases n,
{
    lemma_count_empty_bounds(c, n);
    if i < n - 1 {
        lemma_count_empty_positive(c, i, n - 1);
    } else {
        lemma_count_empty_bounds(c, n - 1);
    }
}

/// The empty count is nonnegative and at most `n`.
pub proof fn lemma_count_empty_bounds(c: Seq<State>, n: int)
    ensures
        0 <= count_empty_upto(c, n),
        count_empty_upto(c, n) <= if n >= 0 {
            n
        } else {
            0
        },
    decreases n,
{
    if n > 0 {
        lemma_count_empty_bounds(c, n - 1);
    }
}

/// On a full board the empty count is zero.
pub proof fn lemma_full_has_no_empty(c: Seq<State>)
    requires
        board_full(c),
    ensures
        num_empty(c) == 0,
{
    lemma_count_empty_zero(c, 9);
}

proof fn lemma_count_empty_zero(c: Seq<State>, n: int)
    requires
        n <= 9,
        forall|i: int| 0 <= i < 9 ==> c[i] != State::Empty,
    ensures
        count_empty_upto(c, n) == 0,
    decreases n,
{
    if n > 0 {
        lemma_count_empty_zero(c, n - 1);
    }
}

/// Placing a mark on an empty cell lowers the empty count by one.
pub proof fn lemma_num_empty_update(c: Seq<State>, i: int, p: Player)
    requires
        c.len() == 9,
        0 <= i < 9,
        c[i] == State::Empty,
    ensures
        num_empty(c.update(i, State::Player(p))) == num_empty(c) - 1,
{
    lemma_count_empty_update(c, i, p, 9);
}

proof fn lemma_count_empty_update(c: Seq<State>, i: int, p: Player, n: int)
    requires
        c.len() == 9,
        0 <= i < 9,
        n <= 9,
        c[i] == State::Empty,
    ensures
        count_empty_upto(c.update(i, State::Player(p)), n) == count_empty_upto(c, n) - if i < n {
            1int
        } else {
            0int
        },
    decreases n,
{
    if n > 0 {
        lemma_count_empty_update(c, i, p, n - 1);
    }
}

/// A mark that owns a line is reported: the winner evaluation never
/// returns `None` on such a board.
pub proof fn lemma_wins_winner_some(c: Seq<State>, p: Player)
    requires
        wins(c, p),
    ensures
        spec_winner(c) is Some,
{
}

/// A mark placed by one player never completes a line for the other.
pub proof fn lemma_mark_no_new_win(c: Seq<State>, i: int, t: Player, p: Player)
    requires
        c.len() == 9,
        0 <= i < 9,
        p != t,
        wins(c.update(i, State::Player(t)), p),
    ensures
        wins(c, p),
{
}

/// A completed line survives an update to a cell the line does not use:
/// a cell that does not hold the winning mark.
pub proof fn lemma_wins_update_elsewhere(c: Seq<State>, p: Player, i: int, v: State)
    requires
        c.len() == 9,
        0 <= i < 9,
        wins(c, p),
        c[i] != State::Player(p),
    ensures
        wins(c.update(i, v), p),
{
}

/// A mark that owns a line in a board where the other mark owns none is
/// the winner the evaluation reports.
pub proof fn lemma_win_yields_winner(c: Seq<State>, p: Player)
    requires
        c.len() == 9,
        wins(c, p),
        !wins(c, p.spec_other()),
    ensures
        spec_outcome(c) == GameState::Winner(p),
{
    assert(p.spec_other() != p);
}

/// A reported winner always owns a line.
pub proof fn lemma_winner_has_line(c: Seq<State>, p: Player)
    requires
        spec_outcome(c) == GameState::Winner(p),
    ensures
        wins(c, p),
{
}

/// With no completed line, a full board is a tie and any other board is
/// still in progress.
pub proof fn lemma_no_line_outcome(c: Seq<State>)
    requires
        c.len() == 9,
        !wins(c, Player::X),
        !wins(c, Player::O),
    ensures
        spec_outcome(c) == if board_full(c) {
            GameState::Tie
        } else {
            GameState::InProgress
        },
{
    assert(spec_winner(c) is None) by {
        if spec_winner(c) is Some {
            let p = spec_winner(c)->Some_0;
            assert(wins(c, p));
        }
    }
}

} // verus!
