use scrabby::letter::{is_tile_word, same_text, tile_at, tile_count};
use scrabby::Letter;

#[test]
fn letter_from_char() {
    assert_eq!(Letter::from_char('J'), Letter::J);
}

#[test]
fn char_from_letter() {
    assert_eq!(Letter::H.to_char(), 'H');
}

#[test]
fn blank_is_the_space() {
    assert_eq!(Letter::from_char(' '), Letter::Blank);
    assert_eq!(Letter::Blank.to_char(), ' ');
    assert_eq!(Letter::Blank.raw_score(), 0);
}

#[test]
fn every_letter_round_trips() {
    for (place, c) in ('A'..='Z').enumerate() {
        let letter = Letter::from_char(c);
        assert_eq!(letter.to_char(), c);
        assert_eq!(letter.ordinal(), place);
        assert_eq!(letter.as_str(), c.to_string());
    }
    assert_eq!(Letter::Blank.ordinal(), 26);
    assert_eq!(Letter::Blank.as_str(), " ");
}

#[test]
fn face_values() {
    let expected = [
        ('A', 1), ('B', 3), ('C', 3), ('D', 2), ('E', 1), ('F', 4), ('G', 2), ('H', 4), ('I', 1),
        ('J', 8), ('K', 5), ('L', 1), ('M', 3), ('N', 1), ('O', 1), ('P', 3), ('Q', 10), ('R', 1),
        ('S', 1), ('T', 1), ('U', 1), ('V', 4), ('W', 4), ('X', 8), ('Y', 4), ('Z', 10),
    ];
    for (c, score) in expected {
        assert_eq!(Letter::from_char(c).raw_score(), score);
    }
}

#[test]
fn tile_characters() {
    assert!(Letter::accepts('A'));
    assert!(Letter::accepts('Z'));
    assert!(Letter::accepts(' '));
    assert!(!Letter::accepts('a'));
    assert!(!Letter::accepts('@'));
    assert!(!Letter::accepts('['));
    assert!(!Letter::accepts('1'));
    assert!(!Letter::accepts('É'));
}

#[test]
fn tile_words() {
    assert!(is_tile_word(""));
    assert!(is_tile_word("HELLO"));
    assert!(is_tile_word("A B"));
    assert!(!is_tile_word("Hello"));
    assert!(!is_tile_word("HELLO!"));
    assert!(!is_tile_word("CAFÉ"));
    assert_eq!(tile_count("HELLO"), 5);
    assert_eq!(tile_at("HELLO", 1), Letter::E);
    assert_eq!(tile_at("A B", 1), Letter::Blank);
}

#[test]
fn letters_are_ordered_as_the_alphabet() {
    assert!(Letter::A < Letter::B);
    assert!(Letter::Z < Letter::Blank);
}

#[test]
fn same_text_compares_characters() {
    assert!(same_text("", ""));
    assert!(same_text("RUST", "RUST"));
    assert!(!same_text("RUST", "RUSTS"));
    assert!(!same_text("RUST", "DUST"));
    assert!(!same_text("RUST", "rust"));
    assert!(same_text("CAFÉ", "CAFÉ"));
    assert!(!same_text("CAFÉ", "CAFE"));
}
