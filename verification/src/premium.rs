use vstd::prelude::*;

verus! {

/// The side of the board that the default premium layouts are drawn for.
pub const LAYOUT_SIZE: usize = 21;

/// The distance of a row or column of the layout from the nearer edge.
pub open spec fn spec_fold(k: usize) -> usize {
    if k <= 10 {
        k
    } else {
        (20 - k) as usize
    }
}

/// The word premium of the default layout in its upper left quarter, middle row and
/// middle column included. The quarter is the same read by rows or by columns.
pub open spec fn spec_word_quarter(row: usize, column: usize) -> u8 {
    let (a, b) = if row <= column {
        (row, column)
    } else {
        (column, row)
    };
    match (a, b) {
        (0, 0) => 4,
        (0, 7) => 3,
        (1, 1) => 2,
        (1, 8) => 2,
        (2, 2) => 2,
        (2, 9) => 2,
        (3, 3) => 3,
        (3, 10) => 3,
        (4, 4) => 2,
        (5, 5) => 2,
        (6, 6) => 2,
        (7, 7) => 2,
        (10, 10) => 2,
        _ => 1,
    }
}

/// The letter premium of the default layout in its upper left quarter, middle row and
/// middle column included. The quarter is the same read by rows or by columns.
pub open spec fn spec_letter_quarter(row: usize, column: usize) -> u8 {
    let (a, b) = if row <= column {
        (row, column)
    } else {
        (column, row)
    };
    match (a, b) {
        (0, 3) => 2,
        (0, 10) => 2,
        (1, 4) => 3,
        (2, 5) => 4,
        (3, 6) => 2,
        (4, 8) => 3,
        (5, 9) => 2,
        (6, 10) => 2,
        (8, 8) => 3,
        (9, 9) => 2,
        _ => 1,
    }
}

/// The word premium of the default layout in a row and a column of its twenty-one:
/// the quarter, mirrored left to right and top to bottom.
pub open spec fn spec_word_layout(row: usize, column: usize) -> u8 {
    spec_word_quarter(spec_fold(row), spec_fold(column))
}

/// The letter premium of the default layout, mirrored as the word premium.
pub open spec fn spec_letter_layout(row: usize, column: usize) -> u8 {
    spec_letter_quarter(spec_fold(row), spec_fold(column))
}

/// The default word premium of the square at `index`: the layout, read row by row
/// along the index, and one on every square behind it.
pub open spec fn spec_default_word_premium(index: usize) -> u8 {
    if index < LAYOUT_SIZE * LAYOUT_SIZE {
        spec_word_layout(index / LAYOUT_SIZE, index % LAYOUT_SIZE)
    } else {
        1
    }
}

/// The default letter premium of the square at `index`, read as the word premium.
pub open spec fn spec_default_letter_premium(index: usize) -> u8 {
    if index < LAYOUT_SIZE * LAYOUT_SIZE {
        spec_letter_layout(index / LAYOUT_SIZE, index % LAYOUT_SIZE)
    } else {
        1
    }
}

/// The default word premiums of the first `squares` squares.
pub open spec fn default_word_table(squares: int) -> Seq<u8> {
    Seq::new(squares as nat, |index: int| spec_default_word_premium(index as usize))
}

/// The default letter premiums of the first `squares` squares.
pub open spec fn default_letter_table(squares: int) -> Seq<u8> {
    Seq::new(squares as nat, |index: int| spec_default_letter_premium(index as usize))
}

#[verifier::when_used_as_spec(spec_fold)]
fn fold(k: usize) -> (d: usize)
    requires
        k < LAYOUT_SIZE,
    ensures
        d == spec_fold(k),
{
    if k <= 10 {
        k
    } else {
        20 - k
    }
}

fn word_quarter(row: usize, column: usize) -> (premium: u8)
    ensures
        premium == spec_word_quarter(row, column),
{
    let (a, b) = if row <= column {
        (row, column)
    } else {
        (column, row)
    };
    match (a, b) {
        (0, 0) => 4,
        (0, 7) => 3,
        (1, 1) => 2,
        (1, 8) => 2,
        (2, 2) => 2,
        (2, 9) => 2,
        (3, 3) => 3,
        (3, 10) => 3,
        (4, 4) => 2,
        (5, 5) => 2,
        (6, 6) => 2,
        (7, 7) => 2,
        (10, 10) => 2,
        _ => 1,
    }
}

fn letter_quarter(row: usize, column: usize) -> (premium: u8)
    ensures
        premium == spec_letter_quarter(row, column),
{
    let (a, b) = if row <= column {
        (row, column)
    } else {
        (column, row)
    };
    match (a, b) {
        (0, 3) => 2,
        (0, 10) => 2,
        (1, 4) => 3,
        (2, 5) => 4,
        (3, 6) => 2,
        (4, 8) => 3,
        (5, 9) => 2,
        (6, 10) => 2,
        (8, 8) => 3,
        (9, 9) => 2,
        _ => 1,
    }
}

/// The default word premium of the square at `index`.
#[verifier::when_used_as_spec(spec_default_word_premium)]
pub fn default_word_premium(index: usize) -> (premium: u8)
    ensures
        premium == spec_default_word_premium(index),
        1 <= premium <= 4,
{
    if index < LAYOUT_SIZE * LAYOUT_SIZE {
        word_quarter(fold(index / LAYOUT_SIZE), fold(index % LAYOUT_SIZE))
    } else {
        1
    }
}

/// The default letter premium of the square at `index`.
#[verifier::when_used_as_spec(spec_default_letter_premium)]
pub fn default_letter_premium(index: usize) -> (premium: u8)
    ensures
        premium == spec_default_letter_premium(index),
        1 <= premium <= 4,
{
    if index < LAYOUT_SIZE * LAYOUT_SIZE {
        letter_quarter(fold(index / LAYOUT_SIZE), fold(index % LAYOUT_SIZE))
    } else {
        1
    }
}

/// The default layouts read the same from the left and from the right, from the top
/// and from the bottom, and hold premiums from one to four.
pub proof fn lemma_default_layout_mirrored(row: usize, column: usize)
    requires
        row < LAYOUT_SIZE,
        column < LAYOUT_SIZE,
    ensures
        spec_word_layout(row, column) == spec_word_layout(row, (20 - column) as usize),
        spec_word_layout(row, column) == spec_word_layout((20 - row) as usize, column),
        spec_letter_layout(row, column) == spec_letter_layout(row, (20 - column) as usize),
        spec_letter_layout(row, column) == spec_letter_layout((20 - row) as usize, column),
        1 <= spec_word_layout(row, column) <= 4,
        1 <= spec_letter_layout(row, column) <= 4,
{
}

} // verus!
