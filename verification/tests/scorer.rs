use scrabby::score::{base_points, BONUS_LENGTH, BONUS_POINTS};
use scrabby::{Board, Direction, Position, Word};
use std::borrow::Cow;

fn word(row: usize, column: usize, direction: Direction, text: &str) -> Word {
    Word::new(Position::new(21, row, column), direction, Cow::Borrowed(text))
}

#[test]
fn letter_premiums_multiply_single_letters() {
    let board = Board::new(21);
    // H and O lie on double letter squares: 4 * 2 + 1 + 1 + 1 + 1 * 2
    assert_eq!(word(11, 11, Direction::Right, "HELLO").get_score(&board, None), 13);
    // row 7 has no letter premium and the word starts behind its triple word square
    assert_eq!(word(7, 1, Direction::Right, "HELLO").get_score(&board, None), 8);
}

#[test]
fn word_premiums_multiply_the_whole_word() {
    let board = Board::new(21);
    // the corner is a quadruple word square, the fourth square a double letter square
    let hello = word(0, 0, Direction::Right, "HELLO");
    assert_eq!(hello.get_score(&board, None), (4 + 1 + 1 + 2 + 1) * 4);
    // two word premiums on one word multiply each other: 3 at column 0, 2 at column 7
    assert_eq!(word(7, 0, Direction::Right, "RADICAL").get_score(&board, None), 10 * 3);
    assert_eq!(word(7, 0, Direction::Right, "RADICALS").get_score(&board, None), 11 * 3 * 2 + 50);
}

#[test]
fn bonus_for_the_bonus_length_is_added_once_and_never_multiplied() {
    assert_eq!(BONUS_LENGTH, 8);
    assert_eq!(BONUS_POINTS, 50);
    let board = Board::new(21);
    // column 7 of row 7 doubles the word
    assert_eq!(word(7, 1, Direction::Right, "RADICALS").get_score(&board, None), 11 * 2 + 50);
    assert_eq!(word(7, 1, Direction::Right, "RADICAL").get_score(&board, None), 10 * 2);
    assert_eq!(word(7, 1, Direction::Right, "RADICALLY").get_score(&board, None), 15 * 2);
    // scored as a crossing, a word of the bonus length earns no bonus
    assert_eq!(word(7, 1, Direction::Right, "RADICALS").get_score(&board, Some(6)), 11 * 2);
    assert_eq!(word(7, 1, Direction::Right, "RADICALS").get_score(&board, Some(0)), 11);
}

#[test]
fn scoring_spends_nothing_and_committing_spends_the_premiums() {
    let mut board = Board::new(21);
    let hello = word(11, 11, Direction::Right, "HELLO");
    assert_eq!(hello.get_score(&board, None), 13);
    assert_eq!(hello.get_score(&board, None), 13);
    board.make_move(hello.position, &hello.word, hello.direction);
    assert_eq!(hello.get_score(&board, None), 8);
    assert_eq!(hello.get_score(&board, None), 8);
}

#[test]
fn committed_word_of_the_bonus_length_keeps_the_bonus() {
    let mut board = Board::new(21);
    let radicals = word(7, 1, Direction::Right, "RADICALS");
    board.make_move(radicals.position, &radicals.word, radicals.direction);
    assert_eq!(radicals.get_score(&board, None), 11 + 50);
}

#[test]
fn crossings_are_scored_for_their_shared_letter() {
    let mut board = Board::new(21);
    board.make_move(Position::new(21, 11, 11), "RUST", Direction::Right);
    // O is new below the T of RUST and has no neighbour to its sides
    assert_eq!(word(11, 14, Direction::Down, "TO").get_score(&board, None), 2);
    // US below RU: the word scores 1 + 1 * 3, the crossing RU 2, the crossing US 1 + 1 * 3
    assert_eq!(word(12, 11, Direction::Right, "US").get_score(&board, None), 4 + 2 + 4);
}

#[test]
fn crossing_takes_the_word_premium_of_the_shared_square_only() {
    let mut board = Board::new(21);
    board.make_move(Position::new(21, 11, 10), "AT", Direction::Right);
    // E comes to lie on the double word square above A: BE scores (3 + 1) * 2 and the
    // crossing EA (1 + 1) * 2
    assert_eq!(word(10, 9, Direction::Right, "BE").get_score(&board, None), 8 + 4);
    let crossing = word(10, 10, Direction::Down, "EA");
    assert_eq!(crossing.get_score(&board, Some(0)), 4);
    // the A lies on the board already: no premium counts for it
    assert_eq!(crossing.get_score(&board, Some(1)), 2);
    assert_eq!(crossing.get_score(&board, None), 4);
    assert_eq!(base_points(&crossing, &board, Some(0)), Some(4));
    assert_eq!(base_points(&crossing, &board, Some(1)), Some(2));
    assert_eq!(base_points(&crossing, &board, None), Some(4));
}

#[test]
fn premiums_count_on_free_squares_only() {
    let mut board = Board::new(21);
    board.make_move(Position::new(21, 0, 0), "AT", Direction::Right);
    // the quadruple word square of the corner is spent; the fourth square doubles the E
    assert_eq!(word(0, 0, Direction::Right, "ATE").get_score(&board, None), 3);
    assert_eq!(word(0, 0, Direction::Right, "ATOE").get_score(&board, None), 1 + 1 + 1 + 2);
}

#[test]
fn letters_off_the_board_score_their_face_value() {
    let board = Board::new(21);
    // the last square of the board is a quadruple word square
    assert_eq!(word(20, 20, Direction::Down, "QI").get_score(&board, None), (10 + 1) * 4);
    assert_eq!(word(20, 20, Direction::Right, "QI").get_score(&board, None), (10 + 1) * 4);
}

#[test]
fn a_blank_scores_nothing() {
    let board = Board::new(21);
    assert_eq!(word(7, 1, Direction::Right, "A B").get_score(&board, None), 4);
    assert_eq!(word(7, 1, Direction::Right, "   ").get_score(&board, None), 0);
    assert_eq!(word(7, 1, Direction::Right, "").get_score(&board, None), 0);
}

#[test]
fn checked_score_is_the_score_where_it_fits() {
    let board = Board::new(21);
    assert_eq!(word(11, 11, Direction::Right, "HELLO").checked_score(&board, None), Some(13));
    let premiums = vec![255u8; 441];
    let rich = Board::with_premiums(21, premiums.clone(), premiums).unwrap();
    // 255 * 10 for the letter, times 255 for the word
    assert_eq!(word(0, 0, Direction::Right, "Q").checked_score(&rich, None), Some(650_250));
    // five word premiums of 255 are more than the machine's number holds
    assert_eq!(word(0, 0, Direction::Right, "QQQQQ").checked_score(&rich, None), None);
    // a word of blanks scores nothing, whatever its factors are
    assert_eq!(word(0, 0, Direction::Right, "      ").checked_score(&rich, None), Some(0));
}
