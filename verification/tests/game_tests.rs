use tictactoe::board::{GameState, Player};
use tictactoe::game::{EndGame, Game, GamePlayer};
use tictactoe::human::HumanPlayer;
use tictactoe::minimax::Minimax;
use tictactoe::random::Random;

#[test]
fn finished_states_convert_and_open_boards_are_refused() {
    assert!(matches!(
        EndGame::from_state(GameState::Winner(Player::X)),
        Ok(EndGame::Winner(Player::X))
    ));
    assert!(matches!(
        EndGame::from_state(GameState::Winner(Player::O)),
        Ok(EndGame::Winner(Player::O))
    ));
    assert!(matches!(EndGame::from_state(GameState::Tie), Ok(EndGame::Tie)));
    assert!(EndGame::from_state(GameState::InProgress).is_err());
}

#[test]
fn playing_a_fresh_game_of_two_minimax_players_ties() {
    let mut game = Game::new(Minimax::new(Player::X), Minimax::new(Player::O));
    assert!(matches!(game.play_game(), EndGame::Tie));
}

#[test]
fn current_player_follows_the_turn() {
    let game = Game::new(Minimax::new(Player::X), Minimax::new(Player::O));
    assert_eq!(game.current_player().name(), "Minimax");
}

#[test]
fn run_games_tallies_every_game() {
    let (xs, os, ties) = Game::run_games(8, Random::new(), Random::new());
    assert_eq!(xs + os + ties, 8);
}

#[test]
fn human_players_can_be_constructed() {
    let _p: HumanPlayer = HumanPlayer::new();
}
