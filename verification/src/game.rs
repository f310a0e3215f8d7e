//! The orchestrator: alternates turns between two players, applies their
//! moves, and reports the end state.

use vstd::prelude::*;

use crate::board::{
    Board, BoardView, GameState, MoveKind, Player, State, board_full, lemma_count_empty_positive,
    lemma_num_empty_update, num_empty, spec_move_is_valid, spec_outcome,
};

verus! {

/// A pair of zero-based row/column coordinates, each in [0, 3).
pub type Move = (usize, usize);

/// The capability a player variant offers: given a board with at least
/// one empty cell, produce a legal move. The orchestrator never asks a
/// player to move on a board without legal moves, and relies on every
/// player returning a move the board accepts.
pub trait GamePlayer {
    fn make_move(&self, board: &Board) -> (m: Move)
        requires
            board.wf(),
            num_empty(board@.cells) > 0,
        ensures
            spec_move_is_valid(board@, m.0 as int, m.1 as int),
    ;

    fn name(&self) -> (r: &'static str);
}

/// A board together with the two players that take turns on it.
pub struct Game<PX: GamePlayer, PO: GamePlayer> {
    board: Board,
    player_x: PX,
    player_o: PO,
}

/// The result of a finished game.
#[derive(Debug, Clone, PartialEq, Eq, Structural)]
pub enum EndGame {
    Winner(Player),
    Tie,
}

/// Evidence that a board is not finished yet.
pub struct OnGoing {}

impl EndGame {
    /// Reads a finished outcome out of a board evaluation; a board still
    /// in progress is refused.
    pub fn from_state(value: GameState) -> (r: Result<EndGame, OnGoing>)
        ensures
            match r {
                Ok(e) => match e {
                    EndGame::Winner(p) => value == GameState::Winner(p),
                    EndGame::Tie => value == GameState::Tie,
                },
                Err(_) => value == GameState::InProgress,
            },
    {
        match value {
            GameState::InProgress => Err(OnGoing {  }),
            GameState::Winner(p) => Ok(EndGame::Winner(p)),
            GameState::Tie => Ok(EndGame::Tie),
        }
    }
}

impl<PX: GamePlayer, PO: GamePlayer> Game<PX, PO> {
    /// The game's board, as a mathematical value.
    pub closed spec fn spec_board(&self) -> BoardView {
        self.board@
    }

    pub closed spec fn spec_player_x(&self) -> PX {
        self.player_x
    }

    pub closed spec fn spec_player_o(&self) -> PO {
        self.player_o
    }

    pub open spec fn wf(&self) -> bool {
        self.spec_board().cells.len() == 9
    }

    /// A fresh game: empty board, X to move.
    pub fn new(player_x: PX, player_o: PO) -> (r: Self)
        ensures
            r.wf(),
            r.spec_board().turn == Player::X,
            forall|i: int| 0 <= i < 9 ==> r.spec_board().cells[i] == State::Empty,
            spec_outcome(r.spec_board().cells) == GameState::InProgress,
            r.spec_player_x() == player_x,
            r.spec_player_o() == player_o,
    {
        Game { board: Board::new(), player_x, player_o }
    }

    /// The current board, for evaluation or display.
    pub fn board(&self) -> (r: &Board)
        ensures
            r@ == self.spec_board(),
    {
        &self.board
    }

    /// Plays the game out from the current board: the player to move is
    /// asked for a move, the move is applied, the board is evaluated,
    /// and the first evaluation that is no longer in progress is the
    /// result.
    pub fn play_game(&mut self) -> (r: EndGame)
        requires
            old(self).wf(),
            spec_outcome(old(self).spec_board().cells) == GameState::InProgress,
        ensures
            final(self).wf(),
            match r {
                EndGame::Winner(p) => spec_outcome(final(self).spec_board().cells)
                    == GameState::Winner(p),
                EndGame::Tie => spec_outcome(final(self).spec_board().cells) == GameState::Tie,
            },
    {
        loop
            invariant
                self.wf(),
                spec_outcome(self.spec_board().cells) == GameState::InProgress,
            decreases num_empty(self.spec_board().cells),
        {
            let ghost prev = self.spec_board();
            proof {
                assert(!board_full(prev.cells));
                let j = choose|j: int| 0 <= j < 9 && prev.cells[j] == State::Empty;
                lemma_count_empty_positive(prev.cells, j, 9);
            }
            let m: Move = match self.board.turn() {
                Player::X => self.player_x.make_move(&self.board),
                Player::O => self.player_o.make_move(&self.board),
            };
            let applied = self.board.make_move(m.0, m.1);
            match applied {
                MoveKind::Valid => (),
                MoveKind::Invalid => {
                    proof {
                        assert(false);
                    }
                },
            }
            proof {
                lemma_num_empty_update(prev.cells, 3 * (m.0 as int) + (m.1 as int), prev.turn);
            }
            match EndGame::from_state(self.board.check_winner()) {
                Ok(end) => {
                    return end;
                },
                Err(_) => {},
            }
        }
    }

    /// Plays `n` games from fresh boards with the same two players and
    /// tallies the results: wins for X, wins for O, and ties.
    pub fn run_games(n: usize, player_x: PX, player_o: PO) -> (r: (usize, usize, usize))
        ensures
            r.0 + r.1 + r.2 == n,
    {
        let mut game = Game::new(player_x, player_o);
        let mut xs: usize = 0;
        let mut os: usize = 0;
        let mut ties: usize = 0;
        let mut i: usize = 0;
        while i < n
            invariant
                i <= n,
                xs + os + ties == i,
                game.wf(),
            decreases n - i,
        {
            game.board = Board::new();
            match game.play_game() {
                EndGame::Tie => ties = ties + 1,
                EndGame::Winner(Player::X) => xs = xs + 1,
                EndGame::Winner(Player::O) => os = os + 1,
            }
            i = i + 1;
        }
        (xs, os, ties)
    }
}

impl<P: GamePlayer> Game<P, P> {
    /// The player whose turn it is; offered where both seats hold the
    /// same player variant.
    pub fn current_player(&self) -> (r: &P)
        ensures
            *r == if self.spec_board().turn == Player::X {
                self.spec_player_x()
            } else {
                self.spec_player_o()
            },
    {
        match self.board.turn() {
            Player::X => &self.player_x,
            Player::O => &self.player_o,
        }
    }
}

} // verus!
