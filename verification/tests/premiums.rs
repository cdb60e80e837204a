use scrabby::premium::{default_letter_premium, default_word_premium};
use scrabby::{Board, Position};

const WORD_ROWS: [&str; 21] = [
    "4......3.....3......4",
    ".2......2...2......2.",
    "..2......2.2......2..",
    "...3......3......3...",
    "....2...........2....",
    ".....2.........2.....",
    "......2.......2......",
    "3......2.....2......3",
    ".2.................2.",
    "..2...............2..",
    "...3......2......3...",
    "..2...............2..",
    ".2.................2.",
    "3......2.....2......3",
    "......2.......2......",
    ".....2.........2.....",
    "....2...........2....",
    "...3......3......3...",
    "..2......2.2......2..",
    ".2......2...2......2.",
    "4......3.....3......4",
];

const LETTER_ROWS: [&str; 21] = [
    "...2......2......2...",
    "....3...........3....",
    ".....4.........4.....",
    "2.....2.......2.....2",
    ".3......3...3......3.",
    "..4......2.2......4..",
    "...2......2......2...",
    ".....................",
    "....3...3...3...3....",
    ".....2...2.2...2.....",
    "2.....2.......2.....2",
    ".....2...2.2...2.....",
    "....3...3...3...3....",
    ".....................",
    "...2......2......2...",
    "..4......2.2......4..",
    ".3......3...3......3.",
    "2.....2.......2.....2",
    ".....4.........4.....",
    "....3...........3....",
    "...2......2......2...",
];

fn drawn(rows: &[&str; 21], row: usize, column: usize) -> u8 {
    let c = rows[row].as_bytes()[column];
    if c == b'.' {
        1
    } else {
        c - b'0'
    }
}

#[test]
fn default_word_premiums_follow_the_drawing() {
    for row in 0..21 {
        for column in 0..21 {
            assert_eq!(
                default_word_premium(row * 21 + column),
                drawn(&WORD_ROWS, row, column),
                "row {row} column {column}"
            );
        }
    }
}

#[test]
fn default_letter_premiums_follow_the_drawing() {
    for row in 0..21 {
        for column in 0..21 {
            assert_eq!(
                default_letter_premium(row * 21 + column),
                drawn(&LETTER_ROWS, row, column),
                "row {row} column {column}"
            );
        }
    }
}

#[test]
fn squares_behind_the_drawing_have_no_premium() {
    assert_eq!(default_word_premium(441), 1);
    assert_eq!(default_letter_premium(441), 1);
    assert_eq!(default_word_premium(usize::MAX), 1);
    assert_eq!(default_letter_premium(usize::MAX), 1);
}

#[test]
fn default_premiums_are_mirrored() {
    for row in 0..21 {
        for column in 0..21 {
            let here = row * 21 + column;
            assert_eq!(default_word_premium(here), default_word_premium(row * 21 + 20 - column));
            assert_eq!(default_word_premium(here), default_word_premium((20 - row) * 21 + column));
            assert_eq!(
                default_letter_premium(here),
                default_letter_premium(row * 21 + 20 - column)
            );
            assert_eq!(
                default_letter_premium(here),
                default_letter_premium((20 - row) * 21 + column)
            );
        }
    }
}

#[test]
fn a_new_board_has_the_default_premiums() {
    let board = Board::new(21);
    assert_eq!(board.word_premium(Position::new(21, 0, 0)), 4);
    assert_eq!(board.word_premium(Position::new(21, 10, 10)), 2);
    assert_eq!(board.letter_premium(Position::new(21, 2, 5)), 4);
    assert_eq!(board.letter_premium(Position::new(21, 11, 11)), 2);
    assert_eq!(board.letter_premium(Position::new(21, 7, 7)), 1);
}

#[test]
fn a_board_of_another_size_reads_the_drawing_along_the_index() {
    let board = Board::new(15);
    assert_eq!(board.word_premium(Position::new(15, 0, 7)), 3);
    assert_eq!(board.word_premium(Position::new(15, 1, 7)), 2);
    assert_eq!(board.letter_premium(Position::new(15, 0, 3)), 2);
    let large = Board::new(22);
    assert_eq!(large.word_premium(Position::at(22, 441)), 1);
    assert_eq!(large.word_premium(Position::at(22, 440)), 4);
}
