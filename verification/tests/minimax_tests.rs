use tictactoe::board::{Board, GameState, MoveKind, Player, State};
use tictactoe::game::{Game, GamePlayer};
use tictactoe::minimax::{make_move, MinMax, Minimax};
use tictactoe::random::Random;

fn board_with(marks: &[(usize, usize, Player)], turn: Player) -> Board {
    let mut cells = vec![State::Empty; 9];
    for &(x, y, p) in marks {
        cells[3 * x + y] = State::Player(p);
    }
    Board::from_cells(cells, turn).unwrap()
}

#[test]
fn terminal_scores_follow_the_depth_adjusted_formula() {
    let x_won = board_with(
        &[(0, 0, Player::X), (0, 1, Player::X), (0, 2, Player::X)],
        Player::O,
    );
    let as_x = Minimax::new(Player::X);
    let as_o = Minimax::new(Player::O);
    assert_eq!(as_x.is_end_of_game(&x_won, 3), Some(7));
    assert_eq!(as_o.is_end_of_game(&x_won, 3), Some(-7));
    assert_eq!(as_x.is_end_of_game(&x_won, 0), Some(10));

    let tie = board_with(
        &[
            (0, 0, Player::X),
            (0, 1, Player::O),
            (0, 2, Player::X),
            (1, 0, Player::X),
            (1, 1, Player::O),
            (1, 2, Player::O),
            (2, 0, Player::O),
            (2, 1, Player::X),
            (2, 2, Player::X),
        ],
        Player::X,
    );
    assert_eq!(as_x.is_end_of_game(&tie, 5), Some(0));

    let open = board_with(&[(1, 1, Player::X)], Player::O);
    assert_eq!(as_o.is_end_of_game(&open, 1), None);
}

#[test]
fn search_scores_an_immediate_win_as_nine() {
    // X completes the top row by playing (0, 2): a win one ply down.
    let board = board_with(
        &[
            (0, 0, Player::X),
            (0, 1, Player::X),
            (1, 0, Player::O),
            (1, 1, Player::O),
            (2, 0, Player::X),
            (2, 1, Player::O),
            (2, 2, Player::X),
        ],
        Player::X,
    );
    let me = Minimax::new(Player::X);
    assert_eq!(me.minimax(&board, 0, MinMax::Max), 9);
}

#[test]
fn the_empty_board_is_worth_a_tie() {
    // Optimal play from the empty board draws: the full-tree search
    // scores it zero. Together with the proven step property that a
    // nonnegative-valued position never turns into a loss, this is the
    // root case of "minimax never loses".
    let me = Minimax::new(Player::X);
    assert_eq!(me.minimax(&Board::new(), 0, MinMax::Max), 0);
}

#[test]
fn minimax_takes_the_winning_move() {
    let board = board_with(
        &[
            (0, 0, Player::X),
            (0, 1, Player::X),
            (1, 0, Player::O),
            (1, 1, Player::O),
        ],
        Player::X,
    );
    let me = Minimax::new(Player::X);
    assert_eq!(me.choose_move(&board), (0, 2));
}

#[test]
fn minimax_blocks_the_opponents_threat() {
    // O threatens (0, 2); X cannot win at once and must block there.
    let board = board_with(
        &[(0, 0, Player::O), (0, 1, Player::O), (1, 0, Player::X), (2, 2, Player::X)],
        Player::X,
    );
    let me = Minimax::new(Player::X);
    assert_eq!(me.choose_move(&board), (0, 2));
}

#[test]
fn decide_move_is_deterministic() {
    let board = board_with(&[(0, 0, Player::X), (2, 2, Player::O)], Player::X);
    let me = Minimax::new(Player::X);
    let first = me.make_move(&board);
    let second = me.make_move(&board);
    assert_eq!(first, second);
    assert_eq!(me.choose_move(&board), first);
}

#[test]
fn minimax_against_minimax_fills_the_board_and_ties() {
    let mut board = Board::new();
    let x = Minimax::new(Player::X);
    let o = Minimax::new(Player::O);
    let mut moves_made = 0;
    while board.check_winner() == GameState::InProgress {
        let m = match board.turn() {
            Player::X => x.choose_move(&board),
            Player::O => o.choose_move(&board),
        };
        if moves_made == 0 {
            // All opening moves tie under optimal play, so the row-major
            // tie-break settles on the first corner.
            assert_eq!(m, (0, 0));
        }
        assert_eq!(board.make_move(m.0, m.1), MoveKind::Valid);
        moves_made += 1;
    }
    assert_eq!(moves_made, 9);
    assert!(board.out_of_moves());
    assert_eq!(board.check_winner(), GameState::Tie);
}

#[test]
fn game_of_two_minimax_players_is_a_tie() {
    let (xs, os, ties) = Game::run_games(1, Minimax::new(Player::X), Minimax::new(Player::O));
    assert_eq!((xs, os, ties), (0, 0, 1));
}

#[test]
fn minimax_as_o_never_loses_to_random() {
    let (xs, _os, _ties) = Game::run_games(25, Random::new(), Minimax::new(Player::O));
    assert_eq!(xs, 0);
}

#[test]
fn minimax_as_x_never_loses_to_random() {
    let (_xs, os, _ties) = Game::run_games(5, Minimax::new(Player::X), Random::new());
    assert_eq!(os, 0);
}

#[test]
fn cloning_for_the_search_leaves_the_original_board_untouched() {
    let board = board_with(&[(1, 1, Player::X)], Player::O);
    let child = make_move(&board, (0, 0));
    assert_eq!(child.query_board((0, 0)), State::Player(Player::O));
    assert_eq!(child.turn(), Player::X);
    assert_eq!(board.query_board((0, 0)), State::Empty);
    assert_eq!(board.turn(), Player::O);
}

#[test]
fn search_postures_alternate() {
    assert_eq!(MinMax::Min.other(), MinMax::Max);
    assert_eq!(MinMax::Max.other(), MinMax::Min);
}

#[test]
fn random_plays_a_legal_move() {
    let board = board_with(
        &[
            (0, 0, Player::X),
            (0, 1, Player::O),
            (0, 2, Player::X),
            (1, 0, Player::O),
            (1, 1, Player::X),
            (1, 2, Player::O),
            (2, 0, Player::O),
            (2, 1, Player::X),
        ],
        Player::X,
    );
    for _ in 0..10 {
        let m = Random::new().make_move(&board);
        assert_eq!(m, (2, 2));
    }
    let names: (&str, &str) = (Random::new().name(), Minimax::new(Player::X).name());
    assert_eq!(names, ("Random", "Minimax"));
}
