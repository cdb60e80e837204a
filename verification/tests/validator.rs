use scrabby::computer;
use scrabby::{Board, Direction, Position, Word};
use std::borrow::Cow;

const WORDS: [&str; 12] = [
    "RUST", "RADICAL", "HELLO", "ARE", "US", "TO", "DUST", "CAB", "BAD", "TOE", "RUSTS", "TRUST",
];

fn init_board() -> Board {
    let mut b = Board::new(Board::DEFAULT_SS_BOARD_SIZE);
    b.make_move(Position::new(b.size(), 11, 11), "RUST", Direction::Right);
    b.make_move(Position::new(b.size(), 11, 11), "RADICAL", Direction::Down);
    b
}

fn word(row: usize, column: usize, direction: Direction, text: &str) -> Word {
    Word::new(Position::new(21, row, column), direction, Cow::Borrowed(text))
}

#[test]
fn perpendicular_verification() {
    let b = init_board();
    assert_eq!(
        computer::verify_move(
            &b,
            &Word::new(
                Position::new(b.size(), 10, 12),
                Direction::Right,
                Cow::Borrowed("RUST")
            ),
            &WORDS
        ),
        false
    );
}

#[test]
fn boundary_words_of_a_parallel_play() {
    let b = init_board();
    let w = word(10, 12, Direction::Right, "RUST");
    assert_eq!(computer::find_boundary_word(&b, &w, 0, Direction::Down), "RU");
    assert_eq!(computer::find_boundary_word(&b, &w, 1, Direction::Down), "US");
    assert_eq!(computer::find_boundary_word(&b, &w, 2, Direction::Down), "ST");
    assert_eq!(computer::find_boundary_word(&b, &w, 3, Direction::Down), "");
    assert_eq!(computer::find_boundary_word(&b, &w, 0, Direction::Right), "RUST");
}

#[test]
fn a_crossing_play_is_legal() {
    let b = init_board();
    assert!(computer::verify_move(&b, &word(11, 14, Direction::Down, "TO"), &WORDS));
    assert!(computer::verify_move(&b, &word(16, 10, Direction::Right, "CAB"), &WORDS));
}

#[test]
fn a_word_that_the_lexicon_lacks_is_illegal() {
    let b = init_board();
    assert!(!computer::verify_move(&b, &word(11, 14, Direction::Down, "TA"), &WORDS));
    assert!(!computer::verify_move(&b, &word(11, 14, Direction::Down, "TO"), &["RUST"]));
}

#[test]
fn a_play_that_meets_a_different_tile_is_illegal() {
    let b = init_board();
    assert!(!computer::verify_move(&b, &word(11, 11, Direction::Right, "BAD"), &WORDS));
    assert!(!computer::verify_move(&b, &word(11, 12, Direction::Down, "TO"), &WORDS));
}

#[test]
fn a_play_is_read_with_the_tiles_before_and_behind_it() {
    let b = init_board();
    // an S behind RUST forms RUSTS
    assert!(computer::verify_move(&b, &word(11, 15, Direction::Right, "S"), &WORDS));
    // a T before RUST forms TRUST
    assert!(computer::verify_move(&b, &word(11, 10, Direction::Right, "T"), &WORDS));
    // an E behind RUST forms RUSTE
    assert!(!computer::verify_move(&b, &word(11, 15, Direction::Right, "E"), &WORDS));
    // TO behind RUST forms RUSTTO, although TO is a word
    assert!(!computer::verify_move(&b, &word(11, 15, Direction::Right, "TO"), &WORDS));
}

#[test]
fn a_word_played_before_is_accepted_without_the_lexicon() {
    let b = init_board();
    // TO crosses RUST, which no lexicon word but a play of the history is
    assert!(computer::verify_move(&b, &word(11, 14, Direction::Down, "TO"), &["TO"]));
    // laying RUST on itself forms RUST along and RADICAL across
    assert!(computer::verify_move(&b, &word(11, 11, Direction::Right, "RUST"), &["X"]));
    assert!(computer::is_accepted(&b, &["X"], "RADICAL"));
    assert!(computer::is_accepted(&b, &["X"], ""));
    assert!(computer::is_accepted(&b, &["X"], "X"));
    assert!(!computer::is_accepted(&b, &["X"], "RAD"));
}

#[test]
fn a_play_needs_a_square_behind_its_last_letter() {
    let empty = Board::new(21);
    assert!(computer::verify_move(&empty, &word(0, 16, Direction::Right, "RUST"), &WORDS));
    assert!(!computer::verify_move(&empty, &word(0, 17, Direction::Right, "RUST"), &WORDS));
    assert!(!computer::verify_move(&empty, &word(0, 19, Direction::Right, "RUST"), &WORDS));
    assert!(computer::verify_move(&empty, &word(16, 0, Direction::Down, "RUST"), &WORDS));
    assert!(!computer::verify_move(&empty, &word(17, 0, Direction::Down, "RUST"), &WORDS));
    assert!(!computer::verify_move(&empty, &word(20, 20, Direction::Down, "RUST"), &WORDS));
}

#[test]
fn a_play_of_no_tiles_or_of_another_board_is_illegal() {
    let b = init_board();
    assert!(!computer::verify_move(&b, &word(0, 0, Direction::Right, "rust"), &WORDS));
    assert!(!computer::verify_move(&b, &word(0, 0, Direction::Right, "RÜST"), &WORDS));
    let elsewhere = Word::new(Position::new(15, 0, 0), Direction::Right, Cow::Borrowed("RUST"));
    assert!(!computer::verify_move(&b, &elsewhere, &WORDS));
}

#[test]
fn a_play_without_letters_is_legal_where_it_stands_on_the_board() {
    let b = init_board();
    assert!(computer::verify_move(&b, &word(0, 0, Direction::Right, ""), &WORDS));
    assert!(computer::verify_move(&b, &word(11, 12, Direction::Down, ""), &[]));
}
