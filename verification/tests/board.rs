use scrabby::computer;
use scrabby::{Board, Direction, Letter, Position, Word};
use std::borrow::Cow;

#[test]
fn new_board_is_empty() {
    let board = Board::new(Board::DEFAULT_SS_BOARD_SIZE);
    assert_eq!(Board::DEFAULT_SS_BOARD_SIZE, 21);
    assert_eq!(board.size(), 21);
    assert!(board.moves().is_empty());
    assert!(board.iter_letters().is_empty());
    assert!(board.enumerate_letters().is_empty());
    for index in 0..441 {
        assert_eq!(board.get(Position::at(21, index)), None);
    }
}

#[test]
fn board_without_squares() {
    let board = Board::new(0);
    assert_eq!(board.size(), 0);
    assert_eq!(board.get(Position::new(21, 0, 0)), None);
    assert!(board.enumerate_letters().is_empty());
}

#[test]
fn make_move_lays_the_tiles_and_records_the_play() {
    let mut board = Board::new(21);
    board.make_move(Position::new(21, 11, 11), "HELLO", Direction::Right);
    assert_eq!(board.get(Position::new(21, 11, 10)), None);
    assert_eq!(board.get(Position::new(21, 11, 11)), Some(Letter::H));
    assert_eq!(board.get(Position::new(21, 11, 12)), Some(Letter::E));
    assert_eq!(board.get(Position::new(21, 11, 13)), Some(Letter::L));
    assert_eq!(board.get(Position::new(21, 11, 14)), Some(Letter::L));
    assert_eq!(board.get(Position::new(21, 11, 15)), Some(Letter::O));
    assert_eq!(board.get(Position::new(21, 11, 16)), None);
    assert_eq!(board.get(Position::new(21, 12, 11)), None);
    assert_eq!(board.moves().len(), 1);
    assert_eq!(
        board.moves()[0],
        Word::new(Position::new(21, 11, 11), Direction::Right, Cow::Borrowed("HELLO"))
    );
    board.make_move(Position::new(21, 10, 12), "HE", Direction::Down);
    assert_eq!(board.get(Position::new(21, 10, 12)), Some(Letter::H));
    assert_eq!(board.get(Position::new(21, 11, 12)), Some(Letter::E));
    assert_eq!(board.moves().len(), 2);
    assert_eq!(board.moves()[1].word, "HE");
    assert_eq!(board.moves()[1].direction, Direction::Down);
    assert_eq!(board.moves()[1].position.as_index(), 222);
}

#[test]
fn letters_come_in_the_order_of_the_squares() {
    let mut board = Board::new(21);
    board.make_move(Position::new(21, 11, 11), "RUST", Direction::Right);
    board.make_move(Position::new(21, 11, 11), "RADICAL", Direction::Down);
    let letters = board.iter_letters();
    assert_eq!(
        letters,
        "RUSTADICAL".chars().map(Letter::from_char).collect::<Vec<_>>()
    );
    let found = board.enumerate_letters();
    let places: Vec<usize> = found.iter().map(|entry| entry.0.as_index()).collect();
    assert_eq!(places, vec![242, 243, 244, 245, 263, 284, 305, 326, 347, 368]);
    assert_eq!(found.iter().map(|entry| entry.1).collect::<Vec<_>>(), letters);
    assert!(found.iter().all(|entry| entry.0.board_size() == 21));
}

#[test]
fn set_changes_one_square() {
    let mut board = Board::new(21);
    board.set(Position::new(21, 2, 3), Some(Letter::Q));
    assert_eq!(board.get(Position::new(21, 2, 3)), Some(Letter::Q));
    assert_eq!(board.iter_letters(), vec![Letter::Q]);
    assert!(board.moves().is_empty());
    board.set(Position::new(21, 2, 3), None);
    assert_eq!(board.get(Position::new(21, 2, 3)), None);
    assert!(board.iter_letters().is_empty());
}

#[test]
fn can_place_tells_what_make_move_takes() {
    let mut board = Board::new(21);
    board.make_move(Position::new(21, 11, 11), "RUST", Direction::Right);
    // crossing a tile of the same letter
    assert!(board.can_place(Position::new(21, 11, 11), "RADICAL", Direction::Down));
    // meeting a different tile
    assert!(!board.can_place(Position::new(21, 11, 11), "ADD", Direction::Down));
    // touching the right edge is still on the board
    assert!(board.can_place(Position::new(21, 0, 17), "RUST", Direction::Right));
    // running over the right edge is not
    assert!(!board.can_place(Position::new(21, 0, 18), "RUST", Direction::Right));
    // touching and running over the lower edge
    assert!(board.can_place(Position::new(21, 17, 0), "RUST", Direction::Down));
    assert!(!board.can_place(Position::new(21, 18, 0), "RUST", Direction::Down));
    // characters that are no tiles
    assert!(!board.can_place(Position::new(21, 0, 0), "rust", Direction::Right));
    // a position of another board
    assert!(!board.can_place(Position::new(15, 0, 0), "RUST", Direction::Right));
    // nothing to lay
    assert!(board.can_place(Position::new(21, 20, 20), "", Direction::Right));
    // a blank tile
    assert!(board.can_place(Position::new(21, 0, 0), "A B", Direction::Right));
}

#[test]
fn a_blank_is_laid_as_a_blank() {
    let mut board = Board::new(21);
    board.make_move(Position::new(21, 0, 0), "A B", Direction::Right);
    assert_eq!(board.get(Position::new(21, 0, 1)), Some(Letter::Blank));
    assert!(board.can_place(Position::new(21, 0, 1), " ", Direction::Down));
    assert!(!board.can_place(Position::new(21, 0, 1), "C", Direction::Down));
}

#[test]
fn boards_with_premiums_of_the_caller() {
    assert!(Board::with_premiums(2, vec![1, 2, 3, 4], vec![1, 1, 1, 2]).is_some());
    assert!(Board::with_premiums(2, vec![1, 2, 3], vec![1, 1, 1, 2]).is_none());
    assert!(Board::with_premiums(2, vec![1, 2, 3, 4], vec![1, 1, 1, 2, 1]).is_none());
    assert!(Board::with_premiums(2, vec![1, 0, 3, 4], vec![1, 1, 1, 2]).is_none());
    assert!(Board::with_premiums(2, vec![1, 2, 3, 4], vec![1, 1, 1, 0]).is_none());
    assert!(Board::with_premiums(0, vec![], vec![]).is_some());
    assert!(Board::with_premiums(usize::MAX, vec![], vec![]).is_none());
    let board = Board::with_premiums(2, vec![1, 2, 3, 4], vec![5, 6, 7, 8]).unwrap();
    assert_eq!(board.size(), 2);
    assert!(board.iter_letters().is_empty());
    assert!(board.moves().is_empty());
    assert_eq!(board.letter_premium(Position::new(2, 1, 0)), 3);
    assert_eq!(board.word_premium(Position::new(2, 1, 1)), 8);
    assert_eq!(board.word_premium(Position::new(21, 1, 1)), 1);
}

#[test]
fn word_new_owns_its_text() {
    let text = String::from("RADICAL");
    let borrowed = Word::new(Position::new(21, 1, 2), Direction::Down, Cow::Borrowed(&text));
    let owned = Word::new(Position::new(21, 1, 2), Direction::Down, Cow::Owned(text.clone()));
    assert_eq!(borrowed.word, "RADICAL");
    assert_eq!(borrowed, owned);
    assert_eq!(borrowed.position, Position::new(21, 1, 2));
    assert_eq!(borrowed.direction, Direction::Down);
    let copy = borrowed.duplicate();
    assert_eq!(copy, borrowed);
}

#[test]
fn overlay_reads_the_word_before_the_board() {
    let mut board = Board::new(21);
    board.make_move(Position::new(21, 11, 11), "RUST", Direction::Right);
    let word = Word::new(Position::new(21, 10, 12), Direction::Down, Cow::Borrowed("QUA"));
    assert_eq!(computer::get_with_word(&board, &word, Position::new(21, 10, 12)), Some(Letter::Q));
    assert_eq!(computer::get_with_word(&board, &word, Position::new(21, 11, 12)), Some(Letter::U));
    assert_eq!(computer::get_with_word(&board, &word, Position::new(21, 12, 12)), Some(Letter::A));
    assert_eq!(computer::get_with_word(&board, &word, Position::new(21, 13, 12)), None);
    assert_eq!(computer::get_with_word(&board, &word, Position::new(21, 9, 12)), None);
    assert_eq!(computer::get_with_word(&board, &word, Position::new(21, 11, 11)), Some(Letter::R));
    assert_eq!(computer::get_with_word(&board, &word, Position::new(21, 11, 13)), Some(Letter::S));
    assert_eq!(computer::get_with_word(&board, &word, Position::new(21, 10, 13)), None);
    // the board is left as it was
    assert_eq!(board.get(Position::new(21, 10, 12)), None);
}

#[test]
fn committed_word_is_read_again() {
    let mut board = Board::new(21);
    let word = Word::new(Position::new(21, 11, 11), Direction::Right, Cow::Borrowed("HELLO"));
    board.make_move(word.position, &word.word, word.direction);
    assert_eq!(computer::find_boundary_word(&board, &word, 0, Direction::Right), "HELLO");
    assert_eq!(computer::find_boundary_word(&board, &word, 4, Direction::Right), "HELLO");
    let down = Word::new(Position::new(21, 11, 11), Direction::Down, Cow::Borrowed("HAT"));
    board.make_move(down.position, &down.word, down.direction);
    assert_eq!(computer::find_boundary_word(&board, &down, 0, Direction::Down), "HAT");
    assert_eq!(computer::find_boundary_word(&board, &down, 0, Direction::Right), "HELLO");
    assert_eq!(computer::find_boundary_word(&board, &down, 1, Direction::Right), "");
}

#[test]
fn committed_word_with_a_neighbour_is_read_with_it() {
    let mut board = Board::new(21);
    board.make_move(Position::new(21, 11, 11), "HELLO", Direction::Right);
    let more = Word::new(Position::new(21, 11, 16), Direction::Right, Cow::Borrowed("S"));
    board.make_move(more.position, &more.word, more.direction);
    assert_eq!(computer::find_boundary_word(&board, &more, 0, Direction::Right), "HELLOS");
}
