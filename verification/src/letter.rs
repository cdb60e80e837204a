use vstd::prelude::*;
use vstd::string::StringSliceAdditionalSpecFns;

verus! {

/// A tile: one of the twenty-six letters, or the blank.
#[derive(Debug, Clone, Copy, PartialEq, Eq, Structural, PartialOrd, Ord)]
pub enum Letter {
    A,
    B,
    C,
    D,
    E,
    F,
    G,
    H,
    I,
    J,
    K,
    L,
    M,
    N,
    O,
    P,
    Q,
    R,
    S,
    T,
    U,
    V,
    W,
    X,
    Y,
    Z,
    Blank,
}

impl Letter {
    /// The characters that stand for a tile: `'A'` to `'Z'`, and the space for the blank.
    pub open spec fn is_tile_char(c: char) -> bool {
        c == ' ' || ('A' <= c && c <= 'Z')
    }

    /// The tile that a character stands for. Every character that is no capital letter
    /// is mapped to the blank; only the space is a tile character among them.
    pub open spec fn spec_from_char(c: char) -> Letter {
        match c {
            'A' => Letter::A,
            'B' => Letter::B,
            'C' => Letter::C,
            'D' => Letter::D,
            'E' => Letter::E,
            'F' => Letter::F,
            'G' => Letter::G,
            'H' => Letter::H,
            'I' => Letter::I,
            'J' => Letter::J,
            'K' => Letter::K,
            'L' => Letter::L,
            'M' => Letter::M,
            'N' => Letter::N,
            'O' => Letter::O,
            'P' => Letter::P,
            'Q' => Letter::Q,
            'R' => Letter::R,
            'S' => Letter::S,
            'T' => Letter::T,
            'U' => Letter::U,
            'V' => Letter::V,
            'W' => Letter::W,
            'X' => Letter::X,
            'Y' => Letter::Y,
            'Z' => Letter::Z,
            _ => Letter::Blank,
        }
    }

    /// The character that stands for a tile.
    pub open spec fn spec_to_char(self) -> char {
        match self {
            Letter::A => 'A',
            Letter::B => 'B',
            Letter::C => 'C',
            Letter::D => 'D',
            Letter::E => 'E',
            Letter::F => 'F',
            Letter::G => 'G',
            Letter::H => 'H',
            Letter::I => 'I',
            Letter::J => 'J',
            Letter::K => 'K',
            Letter::L => 'L',
            Letter::M => 'M',
            Letter::N => 'N',
            Letter::O => 'O',
            Letter::P => 'P',
            Letter::Q => 'Q',
            Letter::R => 'R',
            Letter::S => 'S',
            Letter::T => 'T',
            Letter::U => 'U',
            Letter::V => 'V',
            Letter::W => 'W',
            Letter::X => 'X',
            Letter::Y => 'Y',
            Letter::Z => 'Z',
            Letter::Blank => ' ',
        }
    }

    /// The face value of a tile.
    pub open spec fn spec_raw_score(self) -> u8 {
        match self {
            Letter::A => 1,
            Letter::B => 3,
            Letter::C => 3,
            Letter::D => 2,
            Letter::E => 1,
            Letter::F => 4,
            Letter::G => 2,
            Letter::H => 4,
            Letter::I => 1,
            Letter::J => 8,
            Letter::K => 5,
            Letter::L => 1,
            Letter::M => 3,
            Letter::N => 1,
            Letter::O => 1,
            Letter::P => 3,
            Letter::Q => 10,
            Letter::R => 1,
            Letter::S => 1,
            Letter::T => 1,
            Letter::U => 1,
            Letter::V => 4,
            Letter::W => 4,
            Letter::X => 8,
            Letter::Y => 4,
            Letter::Z => 10,
            Letter::Blank => 0,
        }
    }

    /// The place of a tile in the alphabet, the blank last.
    pub open spec fn spec_ordinal(self) -> usize {
        match self {
            Letter::A => 0,
            Letter::B => 1,
            Letter::C => 2,
            Letter::D => 3,
            Letter::E => 4,
            Letter::F => 5,
            Letter::G => 6,
            Letter::H => 7,
            Letter::I => 8,
            Letter::J => 9,
            Letter::K => 10,
            Letter::L => 11,
            Letter::M => 12,
            Letter::N => 13,
            Letter::O => 14,
            Letter::P => 15,
            Letter::Q => 16,
            Letter::R => 17,
            Letter::S => 18,
            Letter::T => 19,
            Letter::U => 20,
            Letter::V => 21,
            Letter::W => 22,
            Letter::X => 23,
            Letter::Y => 24,
            Letter::Z => 25,
            Letter::Blank => 26,
        }
    }

    /// Whether `c` stands for a tile.
    pub fn accepts(c: char) -> (ok: bool)
        ensures
            ok == Self::is_tile_char(c),
    {
        c == ' ' || ('A' <= c && c <= 'Z')
    }

    /// The tile that a tile character stands for.
    #[verifier::when_used_as_spec(spec_from_char)]
    pub fn from_char(c: char) -> (letter: Letter)
        requires
            Self::is_tile_char(c),
        ensures
            letter == Self::spec_from_char(c),
    {
        match c {
            'A' => Letter::A,
            'B' => Letter::B,
            'C' => Letter::C,
            'D' => Letter::D,
            'E' => Letter::E,
            'F' => Letter::F,
            'G' => Letter::G,
            'H' => Letter::H,
            'I' => Letter::I,
            'J' => Letter::J,
            'K' => Letter::K,
            'L' => Letter::L,
            'M' => Letter::M,
            'N' => Letter::N,
            'O' => Letter::O,
            'P' => Letter::P,
            'Q' => Letter::Q,
            'R' => Letter::R,
            'S' => Letter::S,
            'T' => Letter::T,
            'U' => Letter::U,
            'V' => Letter::V,
            'W' => Letter::W,
            'X' => Letter::X,
            'Y' => Letter::Y,
            'Z' => Letter::Z,
            _ => Letter::Blank,
        }
    }

    /// The character that stands for the tile.
    #[verifier::when_used_as_spec(spec_to_char)]
    pub fn to_char(self) -> (c: char)
        ensures
            c == self.spec_to_char(),
    {
        match self {
            Letter::A => 'A',
            Letter::B => 'B',
            Letter::C => 'C',
            Letter::D => 'D',
            Letter::E => 'E',
            Letter::F => 'F',
            Letter::G => 'G',
            Letter::H => 'H',
            Letter::I => 'I',
            Letter::J => 'J',
            Letter::K => 'K',
            Letter::L => 'L',
            Letter::M => 'M',
            Letter::N => 'N',
            Letter::O => 'O',
            Letter::P => 'P',
            Letter::Q => 'Q',
            Letter::R => 'R',
            Letter::S => 'S',
            Letter::T => 'T',
            Letter::U => 'U',
            Letter::V => 'V',
            Letter::W => 'W',
            Letter::X => 'X',
            Letter::Y => 'Y',
            Letter::Z => 'Z',
            Letter::Blank => ' ',
        }
    }

    /// The character of a tile as a text of one character.
    pub fn as_str(self) -> (text: &'static str)
        ensures
            text@ == seq![self.spec_to_char()],
    {
        match self {
            Letter::A => {
                proof {
                    reveal_strlit("A");
                }
                "A"
            },
            Letter::B => {
                proof {
                    reveal_strlit("B");
                }
                "B"
            },
            Letter::C => {
                proof {
                    reveal_strlit("C");
                }
                "C"
            },
            Letter::D => {
                proof {
                    reveal_strlit("D");
                }
                "D"
            },
            Letter::E => {
                proof {
                    reveal_strlit("E");
                }
                "E"
            },
            Letter::F => {
                proof {
                    reveal_strlit("F");
                }
                "F"
            },
            Letter::G => {
                proof {
                    reveal_strlit("G");
                }
                "G"
            },
            Letter::H => {
                proof {
                    reveal_strlit("H");
                }
                "H"
            },
            Letter::I => {
                proof {
                    reveal_strlit("I");
                }
                "I"
            },
            Letter::J => {
                proof {
                    reveal_strlit("J");
                }
                "J"
            },
            Letter::K => {
                proof {
                    reveal_strlit("K");
                }
                "K"
            },
            Letter::L => {
                proof {
                    reveal_strlit("L");
                }
                "L"
            },
            Letter::M => {
                proof {
                    reveal_strlit("M");
                }
                "M"
            },
            Letter::N => {
                proof {
                    reveal_strlit("N");
                }
                "N"
            },
            Letter::O => {
                proof {
                    reveal_strlit("O");
                }
                "O"
            },
            Letter::P => {
                proof {
                    reveal_strlit("P");
                }
                "P"
            },
            Letter::Q => {
                proof {
                    reveal_strlit("Q");
                }
                "Q"
            },
            Letter::R => {
                proof {
                    reveal_strlit("R");
                }
                "R"
            },
            Letter::S => {
                proof {
                    reveal_strlit("S");
                }
                "S"
            },
            Letter::T => {
                proof {
                    reveal_strlit("T");
                }
                "T"
            },
            Letter::U => {
                proof {
                    reveal_strlit("U");
                }
                "U"
            },
            Letter::V => {
                proof {
                    reveal_strlit("V");
                }
                "V"
            },
            Letter::W => {
                proof {
                    reveal_strlit("W");
                }
                "W"
            },
            Letter::X => {
                proof {
                    reveal_strlit("X");
                }
                "X"
            },
            Letter::Y => {
                proof {
                    reveal_strlit("Y");
                }
                "Y"
            },
            Letter::Z => {
                proof {
                    reveal_strlit("Z");
                }
                "Z"
            },
            Letter::Blank => {
                proof {
                    reveal_strlit(" ");
                }
                " "
            },
        }
    }

    /// The face value of the tile.
    #[verifier::when_used_as_spec(spec_raw_score)]
    pub fn raw_score(self) -> (score: u8)
        ensures
            score == self.spec_raw_score(),
    {
        match self {
            Letter::A => 1,
            Letter::B => 3,
            Letter::C => 3,
            Letter::D => 2,
            Letter::E => 1,
            Letter::F => 4,
            Letter::G => 2,
            Letter::H => 4,
            Letter::I => 1,
            Letter::J => 8,
            Letter::K => 5,
            Letter::L => 1,
            Letter::M => 3,
            Letter::N => 1,
            Letter::O => 1,
            Letter::P => 3,
            Letter::Q => 10,
            Letter::R => 1,
            Letter::S => 1,
            Letter::T => 1,
            Letter::U => 1,
            Letter::V => 4,
            Letter::W => 4,
            Letter::X => 8,
            Letter::Y => 4,
            Letter::Z => 10,
            Letter::Blank => 0,
        }
    }

    /// The place of the tile in the alphabet, the blank last.
    #[verifier::when_used_as_spec(spec_ordinal)]
    pub fn ordinal(self) -> (k: usize)
        ensures
            k == self.spec_ordinal(),
    {
        match self {
            Letter::A => 0,
            Letter::B => 1,
            Letter::C => 2,
            Letter::D => 3,
            Letter::E => 4,
            Letter::F => 5,
            Letter::G => 6,
            Letter::H => 7,
            Letter::I => 8,
            Letter::J => 9,
            Letter::K => 10,
            Letter::L => 11,
            Letter::M => 12,
            Letter::N => 13,
            Letter::O => 14,
            Letter::P => 15,
            Letter::Q => 16,
            Letter::R => 17,
            Letter::S => 18,
            Letter::T => 19,
            Letter::U => 20,
            Letter::V => 21,
            Letter::W => 22,
            Letter::X => 23,
            Letter::Y => 24,
            Letter::Z => 25,
            Letter::Blank => 26,
        }
    }
}

/// A text all of whose characters stand for tiles.
pub open spec fn is_tile_text(text: Seq<char>) -> bool {
    forall|i: int| 0 <= i < text.len() ==> Letter::is_tile_char(#[trigger] text[i])
}

/// The tiles that a text asks for, one for each character.
pub open spec fn letters_of(text: Seq<char>) -> Seq<Letter> {
    Seq::new(text.len(), |i: int| Letter::spec_from_char(text[i]))
}

/// A tile text holds ASCII characters only, so its bytes are its characters.
pub proof fn lemma_tile_text_is_ascii(text: Seq<char>)
    requires
        is_tile_text(text),
    ensures
        vstd::utf8::is_ascii_chars(text),
{
    assert forall|i: int| 0 <= i < text.len() implies '\0' <= #[trigger] text[i] <= '\u{7f}' by {
        assert(Letter::is_tile_char(text[i]));
    }
}

/// Whether every character of `word` stands for a tile.
pub fn is_tile_word(word: &str) -> (ok: bool)
    ensures
        ok == is_tile_text(word@),
{
    if !word.is_ascii() {
        proof {
            if is_tile_text(word@) {
                lemma_tile_text_is_ascii(word@);
            }
        }
        return false;
    }
    proof {
        vstd::string::is_ascii_spec_bytes(word);
    }
    let bytes = word.as_bytes();
    let mut i: usize = 0;
    while i < bytes.len()
        invariant
            i <= bytes@.len(),
            bytes@.len() == word@.len(),
            forall|j: int| 0 <= j < word@.len() ==> bytes@[j] == #[trigger] word@[j] as u8,
            forall|j: int| 0 <= j < word@.len() ==> '\0' <= #[trigger] word@[j] <= '\u{7f}',
            forall|j: int| 0 <= j < i ==> Letter::is_tile_char(#[trigger] word@[j]),
        decreases bytes@.len() - i,
    {
        let b = bytes[i];
        if !(b == 32 || (65 <= b && b <= 90)) {
            assert(!Letter::is_tile_char(word@[i as int]));
            return false;
        }
        assert(Letter::is_tile_char(word@[i as int]));
        i += 1;
    }
    true
}

/// Whether two texts hold the same characters.
pub fn same_text(a: &str, b: &str) -> (same: bool)
    ensures
        same == (a@ == b@),
{
    let x = a.as_bytes();
    let y = b.as_bytes();
    if x.len() != y.len() {
        return false;
    }
    let mut i: usize = 0;
    while i < x.len()
        invariant
            i <= x@.len(),
            x@.len() == y@.len(),
            x@ == a.spec_bytes(),
            y@ == b.spec_bytes(),
            forall|j: int| 0 <= j < i ==> x@[j] == y@[j],
        decreases x@.len() - i,
    {
        if x[i] != y[i] {
            return false;
        }
        i += 1;
    }
    proof {
        assert(x@ =~= y@);
        vstd::utf8::encode_utf8_decode_utf8(a@);
        vstd::utf8::encode_utf8_decode_utf8(b@);
    }
    true
}

/// The number of characters of a tile text.
pub fn tile_count(word: &str) -> (n: usize)
    requires
        is_tile_text(word@),
    ensures
        n == word@.len(),
{
    proof {
        lemma_tile_text_is_ascii(word@);
        vstd::string::is_ascii_spec_bytes(word);
    }
    word.as_bytes().len()
}

/// The tile that the character at place `i` of a tile text stands for.
pub fn tile_at(word: &str, i: usize) -> (letter: Letter)
    requires
        is_tile_text(word@),
        i < word@.len(),
    ensures
        letter == Letter::spec_from_char(word@[i as int]),
{
    proof {
        lemma_tile_text_is_ascii(word@);
        vstd::string::is_ascii_spec_bytes(word);
    }
    let b = word.as_bytes()[i];
    assert(Letter::is_tile_char(word@[i as int]));
    Letter::from_char(b as char)
}

/// Turning a tile into its character and back gives the tile again, and the character
/// of every tile is a tile character.
pub proof fn lemma_letter_char_letter(letter: Letter)
    ensures
        Letter::is_tile_char(letter.spec_to_char()),
        Letter::spec_from_char(letter.spec_to_char()) == letter,
{
}

/// Turning a tile character into its tile and back gives the character again.
pub proof fn lemma_char_letter_char(c: char)
    requires
        Letter::is_tile_char(c),
    ensures
        Letter::spec_from_char(c).spec_to_char() == c,
{
}

/// No tile is worth more than ten points, the blank is worth nothing, and the tiles
/// stand at twenty-seven different places of the alphabet.
pub proof fn lemma_letter_bounds(letter: Letter)
    ensures
        letter.spec_raw_score() <= 10,
        letter == Letter::Blank ==> letter.spec_raw_score() == 0,
        letter.spec_ordinal() < 27,
        letter == Letter::Blank <==> letter.spec_ordinal() == 26,
{
}

/// Tiles at the same place of the alphabet are the same tile.
pub proof fn lemma_ordinal_injective(a: Letter, b: Letter)
    requires
        a.spec_ordinal() == b.spec_ordinal(),
    ensures
        a == b,
{
}

} // verus!
