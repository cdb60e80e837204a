use scrabby::computer::{self, GenerationError};
use scrabby::{Board, Direction, Letter, Position, Word};
use std::borrow::Cow;

const WORDS: [&str; 14] = [
    "RUST", "RADICAL", "HELLO", "ARE", "US", "TO", "DUST", "CAB", "BAD", "TOE", "RUSTS", "TRUST",
    "DEAF", "FACED",
];

fn init_board() -> Board {
    let mut b = Board::new(Board::DEFAULT_SS_BOARD_SIZE);
    b.make_move(Position::new(b.size(), 11, 11), "RUST", Direction::Right);
    b.make_move(Position::new(b.size(), 11, 11), "RADICAL", Direction::Down);
    b
}

fn rack(text: &str) -> Vec<Letter> {
    text.chars().map(Letter::from_char).collect()
}

#[test]
fn common_test() {
    // Create a board
    let mut board = Board::new(Board::DEFAULT_SS_BOARD_SIZE);

    // Make a move
    board.make_move(Position::new(21, 11, 11), "HELLO", Direction::Right);

    // Get the best moves with a given rack
    let best_moves = computer::best_moves(&board, &rack("AOEPDOI"), &WORDS).unwrap();
    println!("There are {} moves we can make", best_moves.count());
}

#[test]
fn rack_with_exact_tiles() {
    assert!(computer::can_create_word(&rack("CAB"), "CAB"));
    assert!(computer::can_create_word(&rack("BCA"), "CAB"));
    assert!(computer::can_create_word(&rack("ABCDEFG"), "FACED"));
    assert!(!computer::can_create_word(&rack("ABCDEFG"), "RUST"));
    assert!(!computer::can_create_word(&rack("A"), "AA"));
    assert!(computer::can_create_word(&rack("AA"), "AA"));
    assert!(computer::can_create_word(&rack("AAB"), "AA"));
    assert!(computer::can_create_word(&rack(""), ""));
    assert!(computer::can_create_word(&rack("XYZ"), ""));
    assert!(!computer::can_create_word(&rack(""), "A"));
}

#[test]
fn rack_with_blanks() {
    assert!(computer::can_create_word(&rack("AB "), "CAB"));
    assert!(!computer::can_create_word(&rack("AB "), "CABS"));
    assert!(computer::can_create_word(&rack("AB  "), "CABS"));
    assert!(computer::can_create_word(&rack("   "), "CAB"));
    assert!(!computer::can_create_word(&rack("  "), "CAB"));
    assert!(computer::can_create_word(&rack("A "), "AA"));
    assert!(!computer::can_create_word(&rack("B "), "AA"));
    // surplus blanks stay unused
    assert!(computer::can_create_word(&rack("CAB   "), "CAB"));
}

#[test]
fn rack_and_words_with_a_blank_character() {
    // a needed blank takes a blank tile, and nothing else stands for it
    assert!(computer::can_create_word(&rack(" "), " "));
    assert!(!computer::can_create_word(&rack("A"), " "));
    assert!(!computer::can_create_word(&rack("A"), "A "));
    assert!(computer::can_create_word(&rack("A "), "A "));
    assert!(!computer::can_create_word(&rack(" "), "A "));
    assert!(computer::can_create_word(&rack("  "), "A "));
}

#[test]
fn rack_spells_no_text_that_is_no_tile_text() {
    assert!(!computer::can_create_word(&rack("CAB"), "cab"));
    assert!(!computer::can_create_word(&rack("   "), "C-B"));
    assert!(!computer::can_create_word(&rack(""), "é"));
}

#[test]
fn placements_around_an_anchor() {
    let mut board = Board::new(Board::DEFAULT_SS_BOARD_SIZE);
    board.make_move(Position::new(board.size(), 11, 11), "HELLO", Direction::Right);

    // "EWE" can be orientated 4 different ways around the 'E' in "HELLO".
    // 2 from the first 'E' and 2 from the second 'E'. 2 vertically and 2 horizontally.
    let positions =
        computer::get_move_positions(&board, Position::new(board.size(), 11, 12), "EWE");
    assert_eq!(positions.len(), 4);
    let expected = vec![
        Word::new(Position::new(21, 11, 12), Direction::Down, Cow::Borrowed("EWE")),
        Word::new(Position::new(21, 9, 12), Direction::Down, Cow::Borrowed("EWE")),
        Word::new(Position::new(21, 11, 12), Direction::Right, Cow::Borrowed("EWE")),
        Word::new(Position::new(21, 11, 10), Direction::Right, Cow::Borrowed("EWE")),
    ];
    assert_eq!(positions, expected);
}

#[test]
fn placements_are_not_checked() {
    let mut board = Board::new(21);
    board.make_move(Position::new(21, 1, 1), "AT", Direction::Right);
    // the A at (1, 1): the third letter of BRA would start two squares before it
    let found = computer::get_move_positions(&board, Position::new(21, 1, 1), "BRA");
    // downwards there is no square two rows above row 1; to the right the start wraps
    // into row 0 and is handed out all the same
    assert_eq!(
        found,
        vec![Word::new(Position::at(21, 20), Direction::Right, Cow::Borrowed("BRA"))]
    );
    assert!(!computer::verify_move(&board, &found[0], &["BRA"]));
    // no letter of the word is the tile
    assert!(computer::get_move_positions(&board, Position::new(21, 1, 1), "TOT").is_empty());
    assert!(computer::get_move_positions(&board, Position::new(21, 1, 1), "").is_empty());
}

#[test]
fn empty_lexicon_is_an_error() {
    let b = init_board();
    let none: [&str; 0] = [];
    assert_eq!(
        computer::best_moves(&b, &rack("ABCDEFG"), &none).err(),
        Some(GenerationError::EmptyLexicon)
    );
}

#[test]
fn empty_board_has_no_moves() {
    let board = Board::new(21);
    let moves = computer::best_moves(&board, &rack("ABCDEFG"), &WORDS).unwrap();
    assert_eq!(moves.count(), 0);
}

#[test]
fn moves_are_legal_and_descend() {
    let b = init_board();
    let letters = rack("ABCDEFG");
    let moves = computer::best_moves(&b, &letters, &WORDS).unwrap().into_vec();
    assert!(!moves.is_empty());
    let mut last = u32::MAX;
    for m in &moves {
        assert!(computer::verify_move(&b, m, &WORDS));
        assert!(b.can_place(m.position, &m.word, m.direction));
        let points = m.get_score(&b, None);
        assert!(points <= last);
        last = points;
    }
}

#[test]
fn moves_of_a_small_lexicon() {
    let b = init_board();
    let moves =
        computer::best_moves(&b, &rack("ABCDEFG"), &["CAB", "BAD", "XYZ"]).unwrap().into_vec();
    let shown: Vec<(usize, Direction, &str, u32)> = moves
        .iter()
        .map(|m| (m.position.as_index(), m.direction, m.word.as_str(), m.get_score(&b, None)))
        .collect();
    assert_eq!(
        shown,
        vec![
            (346, Direction::Right, "CAB", 13),
            (346, Direction::Right, "BAD", 10),
            (326, Direction::Right, "CAB", 7),
            (282, Direction::Right, "BAD", 6),
        ]
    );
}

#[test]
fn moves_come_one_by_one() {
    let b = init_board();
    let letters = rack("ABCDEFG");
    let mut moves = computer::best_moves(&b, &letters, &["CAB", "BAD"]).unwrap();
    let first = moves.next_move().unwrap();
    assert_eq!(first, Word::new(Position::at(21, 346), Direction::Right, Cow::Borrowed("CAB")));
    let second = moves.next_move().unwrap();
    assert_eq!(second.word, "BAD");
    assert_eq!(moves.count(), 2);
    let mut again = computer::best_moves(&b, &letters, &["CAB", "BAD"]).unwrap();
    let mut n = 0;
    while again.next_move().is_some() {
        n += 1;
    }
    assert_eq!(n, 4);
    assert_eq!(again.next_move(), None);
}

#[test]
fn moves_with_the_same_points_keep_the_order_of_their_making() {
    let mut board = Board::new(21);
    board.make_move(Position::new(21, 7, 8), "AA", Direction::Right);
    // around each A of the board: AA downwards from it and onto it, then AA to the
    // right from it and onto it; to the right only the play on the two tiles
    // themselves is legal, and it is made around each of them
    let moves = computer::best_moves(&board, &rack("A"), &["AA"]).unwrap().into_vec();
    let shown: Vec<(usize, Direction, u32)> = moves
        .iter()
        .map(|m| (m.position.as_index(), m.direction, m.get_score(&board, None)))
        .collect();
    assert_eq!(
        shown,
        vec![
            // the new A lies on a triple letter square
            (155, Direction::Down, 4),
            (134, Direction::Down, 2),
            (155, Direction::Right, 2),
            (156, Direction::Down, 2),
            (135, Direction::Down, 2),
            (155, Direction::Right, 2),
        ]
    );
}

#[test]
fn scenario_of_two_crossing_plays() {
    let mut board = Board::new(21);
    assert!(board.can_place(Position::new(21, 11, 11), "HELLO", Direction::Right));
    board.make_move(Position::new(21, 11, 11), "HELLO", Direction::Right);
    // RADICAL ends on the first L of HELLO
    assert!(board.can_place(Position::new(21, 5, 13), "RADICAL", Direction::Down));
    board.make_move(Position::new(21, 5, 13), "RADICAL", Direction::Down);
    assert_eq!(board.iter_letters().len(), 11);
    let lexicon = ["HELLO", "RADICAL", "CAB", "BAD", "FACED", "DEAF", "BEG", "AHA", "ELF"];
    let letters = rack("ABCDEFG");
    let moves = computer::best_moves(&board, &letters, &lexicon).unwrap().into_vec();
    let mut last = u32::MAX;
    for m in &moves {
        assert!(computer::verify_move(&board, m, &lexicon));
        assert!(lexicon.contains(&m.word.as_str()));
        let points = m.get_score(&board, None);
        assert!(points <= last);
        last = points;
    }
    // each move can be made, and is then read from the board again
    for m in &moves {
        let mut next = board.clone();
        assert!(next.can_place(m.position, &m.word, m.direction));
        next.make_move(m.position, &m.word, m.direction);
        assert_eq!(next.moves().len(), 3);
        assert_eq!(computer::find_boundary_word(&next, m, 0, m.direction), m.word);
    }
    assert!(moves.iter().any(|m| m.word == "FACED"));
    assert!(moves.iter().any(|m| m.word == "CAB"));
    // no L of the board has room for an E before it and an F behind it
    assert!(moves.iter().all(|m| m.word != "ELF"));
    assert!(moves.iter().all(|m| m.word != "HELLO"));
}

fn count(text: &str, c: char) -> usize {
    text.chars().filter(|&x| x == c).count()
}

/// Whether the letters of `word` are contained in `tiles` once each blank of `tiles`
/// stands for a letter that is short.
fn contained(tiles: &str, word: &str) -> bool {
    let short: usize = ('A'..='Z')
        .map(|c| count(word, c).saturating_sub(count(tiles, c)))
        .sum::<usize>()
        + count(word, ' ');
    short <= count(tiles, ' ')
}

#[test]
fn rack_spells_what_it_contains() {
    let racks = [
        "", "A", " ", "AB", "A ", "  ", "ABC", "AB ", "A  ", "AAB", "BBA ", "CAB  ", "ABCDEFG",
    ];
    let words = [
        "", "A", "B", " ", "AA", "AB", "BA", "A ", " A", "ABC", "CAB", "CABS", "AAB", "ABBA",
        "FACED", "BADGE", "DECAF ", "   ",
    ];
    for tiles in racks {
        for word in words {
            assert_eq!(
                computer::can_create_word(&rack(tiles), word),
                contained(tiles, word),
                "rack {tiles:?} word {word:?}"
            );
        }
    }
}

#[test]
fn moves_descend_on_several_boards() {
    let starts = [(0usize, 0usize), (7, 3), (10, 10), (16, 16), (3, 12)];
    for (row, column) in starts {
        for direction in [Direction::Right, Direction::Down] {
            let mut board = Board::new(21);
            board.make_move(Position::new(21, row, column), "FACE", direction);
            let letters = rack("ABCDEF ");
            let moves = computer::best_moves(&board, &letters, &WORDS).unwrap().into_vec();
            let points: Vec<u32> = moves.iter().map(|m| m.get_score(&board, None)).collect();
            assert!(points.windows(2).all(|pair| pair[0] >= pair[1]));
            for m in &moves {
                assert!(computer::verify_move(&board, m, &WORDS));
                assert!(board.can_place(m.position, &m.word, m.direction));
            }
        }
    }
}
