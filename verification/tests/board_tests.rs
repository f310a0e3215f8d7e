use tictactoe::board::{Board, GameState, MoveKind, Player, State};

fn empty_cells() -> Vec<State> {
    vec![State::Empty; 9]
}

fn board_with(marks: &[(usize, usize, Player)], turn: Player) -> Board {
    let mut cells = empty_cells();
    for &(x, y, p) in marks {
        cells[3 * x + y] = State::Player(p);
    }
    Board::from_cells(cells, turn).unwrap()
}

#[test]
fn test_win_checker() {
    let board = board_with(
        &[(0, 0, Player::X), (0, 1, Player::X), (0, 2, Player::X)],
        Player::X,
    );
    assert_eq!(board.check_winner(), GameState::Winner(Player::X));

    let board = board_with(
        &[(0, 0, Player::O), (1, 1, Player::O), (2, 2, Player::O)],
        Player::X,
    );
    assert_eq!(board.check_winner(), GameState::Winner(Player::O));

    let board = board_with(
        &[(2, 0, Player::X), (1, 1, Player::X), (0, 2, Player::X)],
        Player::X,
    );
    assert_eq!(board.check_winner(), GameState::Winner(Player::X));
}

#[test]
fn column_and_row_wins_are_detected() {
    for i in 0..3 {
        let row = board_with(
            &[(i, 0, Player::O), (i, 1, Player::O), (i, 2, Player::O)],
            Player::X,
        );
        assert_eq!(row.check_winner(), GameState::Winner(Player::O));
        let col = board_with(
            &[(0, i, Player::X), (1, i, Player::X), (2, i, Player::X)],
            Player::O,
        );
        assert_eq!(col.check_winner(), GameState::Winner(Player::X));
    }
}

#[test]
fn full_board_without_line_is_tie() {
    // X O X / X O O / O X X: no three in a row anywhere.
    let board = board_with(
        &[
            (0, 0, Player::X),
            (0, 1, Player::O),
            (0, 2, Player::X),
            (1, 0, Player::X),
            (1, 1, Player::O),
            (1, 2, Player::O),
            (2, 0, Player::O),
            (2, 1, Player::X),
            (2, 2, Player::X),
        ],
        Player::X,
    );
    assert_eq!(board.check_winner(), GameState::Tie);
    assert!(board.out_of_moves());
}

#[test]
fn open_board_without_line_is_in_progress() {
    let board = board_with(&[(0, 0, Player::X), (1, 1, Player::O)], Player::X);
    assert_eq!(board.check_winner(), GameState::InProgress);
    // Re-evaluating the unchanged board yields the same result.
    assert_eq!(board.check_winner(), GameState::InProgress);
}

#[test]
fn new_board_is_empty_and_x_moves_first() {
    let board = Board::new();
    assert_eq!(board.turn(), Player::X);
    assert_eq!(board.check_winner(), GameState::InProgress);
    assert_eq!(board.available_moves().len(), 9);
    for x in 0..3 {
        for y in 0..3 {
            assert_eq!(board.query_board((x, y)), State::Empty);
        }
    }
}

#[test]
fn legal_move_marks_cell_and_flips_turn() {
    let mut board = Board::new();
    assert_eq!(board.make_move(1, 1), MoveKind::Valid);
    assert_eq!(board.query_board((1, 1)), State::Player(Player::X));
    assert_eq!(board.turn(), Player::O);
    assert_eq!(board.make_move(0, 2), MoveKind::Valid);
    assert_eq!(board.query_board((0, 2)), State::Player(Player::O));
    assert_eq!(board.turn(), Player::X);
}

#[test]
fn occupied_cell_is_rejected_and_nothing_changes() {
    let mut board = Board::new();
    assert_eq!(board.make_move(1, 1), MoveKind::Valid);
    assert_eq!(board.make_move(1, 1), MoveKind::Invalid);
    assert_eq!(board.query_board((1, 1)), State::Player(Player::X));
    assert_eq!(board.turn(), Player::O);
}

#[test]
fn out_of_range_move_is_rejected_and_nothing_changes() {
    let mut board = Board::new();
    assert_eq!(board.make_move(3, 0), MoveKind::Invalid);
    assert_eq!(board.make_move(0, 3), MoveKind::Invalid);
    assert_eq!(board.make_move(17, 29), MoveKind::Invalid);
    assert_eq!(board.turn(), Player::X);
    for x in 0..3 {
        for y in 0..3 {
            assert_eq!(board.query_board((x, y)), State::Empty);
        }
    }
}

#[test]
fn move_validity_checks_range_and_occupancy() {
    let mut board = Board::new();
    assert!(board.move_is_valid(2, 2));
    assert!(!board.move_is_valid(3, 2));
    assert!(!board.move_is_valid(2, 3));
    board.make_move(2, 2);
    assert!(!board.move_is_valid(2, 2));
}

#[test]
fn available_moves_are_row_major() {
    let board = board_with(&[(0, 1, Player::X), (1, 0, Player::O), (2, 2, Player::X)], Player::X);
    assert_eq!(
        board.available_moves(),
        vec![(0, 0), (0, 2), (1, 1), (1, 2), (2, 0), (2, 1)]
    );
}

#[test]
fn from_cells_refuses_wrong_length() {
    assert!(Board::from_cells(vec![State::Empty; 8], Player::X).is_none());
    assert!(Board::from_cells(vec![State::Empty; 10], Player::O).is_none());
    assert!(Board::from_cells(vec![State::Empty; 9], Player::O).is_some());
}

#[test]
fn other_swaps_the_marks() {
    assert_eq!(Player::X.other(), Player::O);
    assert_eq!(Player::O.other(), Player::X);
}

#[test]
fn first_line_in_fixed_order_decides() {
    // Both the top row of X and the bottom row of O are complete; rows
    // are checked top to bottom, so X is reported.
    let board = board_with(
        &[
            (0, 0, Player::X),
            (0, 1, Player::X),
            (0, 2, Player::X),
            (2, 0, Player::O),
            (2, 1, Player::O),
            (2, 2, Player::O),
        ],
        Player::X,
    );
    assert_eq!(board.check_winner(), GameState::Winner(Player::X));
}
