use tictactoe::human::parse_move;

#[test]
fn well_formed_entries_parse_to_zero_based_moves() {
    assert_eq!(parse_move("1,1"), Some((0, 0)));
    assert_eq!(parse_move("2,3"), Some((1, 2)));
    assert_eq!(parse_move("3,1"), Some((2, 0)));
    assert_eq!(parse_move("12,34"), Some((11, 33)));
}

#[test]
fn anything_after_a_second_comma_is_ignored() {
    assert_eq!(parse_move("1,2,9"), Some((0, 1)));
    assert_eq!(parse_move("1,2,nonsense"), Some((0, 1)));
}

#[test]
fn entries_without_two_numbers_are_refused() {
    assert_eq!(parse_move(""), None);
    assert_eq!(parse_move("12"), None);
    assert_eq!(parse_move(","), None);
    assert_eq!(parse_move("1,"), None);
    assert_eq!(parse_move(",2"), None);
    assert_eq!(parse_move("a,b"), None);
    assert_eq!(parse_move("1,,2"), None);
    assert_eq!(parse_move("1, 2"), None);
    assert_eq!(parse_move("-1,2"), None);
}

#[test]
fn zero_coordinates_are_refused() {
    assert_eq!(parse_move("0,1"), None);
    assert_eq!(parse_move("1,0"), None);
}

#[test]
fn numbers_beyond_the_word_size_are_refused() {
    assert_eq!(parse_move("99999999999999999999,1"), None);
    assert_eq!(parse_move("1,99999999999999999999"), None);
}
