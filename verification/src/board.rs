pub use crate::geometry::{Direction, Position};
use crate::geometry::lemma_side_fits;
use crate::grid::{
    lemma_commit_consistent, lemma_in_line_length, lemma_in_line_squares, lemma_laid_ends,
    lemma_laid_step, lemma_stride_positive, Grid, Play,
};
use crate::letter::{is_tile_word, tile_at, tile_count, Letter};
use crate::premium::{
    default_letter_premium, default_letter_table, default_word_premium, default_word_table,
};
use std::borrow::Cow;
use vstd::prelude::*;

verus! {

/// A word with its place on a board: a candidate, or a play that was made.
#[derive(Debug, Clone, PartialEq, Eq, PartialOrd, Ord)]
pub struct Word {
    pub position: Position,
    pub direction: Direction,
    pub word: String,
}

/// The play of a text from a position along a direction.
pub open spec fn play_at(position: Position, direction: Direction, text: Seq<char>) -> Play {
    Play { start: position.spec_index(), size: position.spec_board_size(), direction, text }
}

impl View for Word {
    type V = Play;

    open spec fn view(&self) -> Play {
        play_at(self.position, self.direction, self.word@)
    }
}

/// The plays that a sequence of words stands for.
pub open spec fn plays_of(words: Seq<Word>) -> Seq<Play> {
    Seq::new(words.len(), |k: int| words[k]@)
}

impl Word {
    /// The word with the given place, direction and text.
    pub fn new(position: Position, direction: Direction, word: Cow<'_, str>) -> (made: Word)
        ensures
            made.position == position,
            made.direction == direction,
            made.word@ == word@,
    {
        let text = match word {
            Cow::Borrowed(borrowed) => borrowed.to_owned(),
            Cow::Owned(owned) => owned,
        };
        Word { position, direction, word: text }
    }

    /// A second word with the same place, direction and text.
    pub fn duplicate(&self) -> (copy: Word)
        ensures
            copy == *self,
    {
        Word { position: self.position, direction: self.direction, word: self.word.clone() }
    }
}

/// The squares of a board with the tiles on them, its premium tables, and the plays
/// that were made on it.
#[derive(Debug, Clone)]
pub struct Board {
    inner: Vec<Option<Letter>>,
    moves: Vec<Word>,
    size: usize,
    letter_premium: Vec<u8>,
    word_premium: Vec<u8>,
}

impl View for Board {
    type V = Grid;

    closed spec fn view(&self) -> Grid {
        Grid {
            size: self.size as int,
            cells: self.inner@,
            letter_premium: self.letter_premium@,
            word_premium: self.word_premium@,
            history: Seq::new(self.moves@.len(), |k: int| self.moves@[k]@),
        }
    }
}

impl Board {
    /// The size of the board that the default premiums are laid out for.
    pub const DEFAULT_SS_BOARD_SIZE: usize = 21;

    /// The tables of the board have the shape of the board.
    pub open spec fn wf(&self) -> bool {
        self@.wf()
    }

    /// The squares of a board can be counted.
    pub proof fn lemma_countable(&self)
        requires
            self.wf(),
        ensures
            self@.size * self@.size <= usize::MAX,
    {
        assert(self.inner.len() == self.inner@.len());
    }

    /// An empty board of `size` rows and columns with the default premiums.
    pub fn new(size: usize) -> (board: Board)
        requires
            size * size <= usize::MAX,
        ensures
            board.wf(),
            board@ == Grid::blank(
                size as int,
                default_letter_table(size * size),
                default_word_table(size * size),
            ),
    {
        let squares = size * size;
        let mut inner: Vec<Option<Letter>> = Vec::new();
        let mut letter_premium: Vec<u8> = Vec::new();
        let mut word_premium: Vec<u8> = Vec::new();
        let mut index: usize = 0;
        while index < squares
            invariant
                index <= squares,
                inner@.len() == index,
                letter_premium@.len() == index,
                word_premium@.len() == index,
                forall|i: int| 0 <= i < index ==> inner@[i] is None,
                forall|i: int|
                    0 <= i < index ==> #[trigger] letter_premium@[i] == default_letter_premium(
                        i as usize,
                    ),
                forall|i: int|
                    0 <= i < index ==> #[trigger] word_premium@[i] == default_word_premium(
                        i as usize,
                    ),
                forall|i: int| 0 <= i < index ==> #[trigger] letter_premium@[i] >= 1,
                forall|i: int| 0 <= i < index ==> #[trigger] word_premium@[i] >= 1,
            decreases squares - index,
        {
            inner.push(None);
            letter_premium.push(default_letter_premium(index));
            word_premium.push(default_word_premium(index));
            index += 1;
        }
        let board = Board { inner, moves: Vec::new(), size, letter_premium, word_premium };
        proof {
            let blank = Grid::blank(
                size as int,
                default_letter_table(size * size),
                default_word_table(size * size),
            );
            assert(board@.cells =~= blank.cells);
            assert(board@.letter_premium =~= blank.letter_premium);
            assert(board@.word_premium =~= blank.word_premium);
            assert(board@.history =~= blank.history);
        }
        board
    }

    /// An empty board with premium tables of the caller's, where they have one entry
    /// for each square and hold no zero.
    pub fn with_premiums(size: usize, letter_premium: Vec<u8>, word_premium: Vec<u8>) -> (made:
        Option<Board>)
        ensures
            match made {
                Some(board) => board.wf() && board@ == Grid::blank(
                    size as int,
                    letter_premium@,
                    word_premium@,
                ),
                None => !Grid::blank(size as int, letter_premium@, word_premium@).wf(),
            },
    {
        let squares = match size.checked_mul(size) {
            Some(squares) => squares,
            None => {
                assert(letter_premium.len() == letter_premium@.len());
                return None;
            },
        };
        if letter_premium.len() != squares || word_premium.len() != squares {
            return None;
        }
        let mut inner: Vec<Option<Letter>> = Vec::new();
        let mut index: usize = 0;
        while index < squares
            invariant
                index <= squares,
                squares == letter_premium@.len(),
                squares == word_premium@.len(),
                inner@.len() == index,
                forall|i: int| 0 <= i < index ==> inner@[i] is None,
                forall|i: int| 0 <= i < index ==> letter_premium@[i] >= 1,
                forall|i: int| 0 <= i < index ==> word_premium@[i] >= 1,
            decreases squares - index,
        {
            if letter_premium[index] == 0 || word_premium[index] == 0 {
                return None;
            }
            inner.push(None);
            index += 1;
        }
        let ghost blank = Grid::blank(size as int, letter_premium@, word_premium@);
        let board = Board { inner, moves: Vec::new(), size, letter_premium, word_premium };
        proof {
            assert(board@.cells =~= blank.cells);
            assert(board@.history =~= blank.history);
        }
        Some(board)
    }

    /// The number of rows, and of columns, of the board.
    pub fn size(&self) -> (size: usize)
        ensures
            size == self@.size,
    {
        self.size
    }

    /// The plays made so far, the first one first.
    pub fn moves(&self) -> (moves: &[Word])
        ensures
            moves@.len() == self@.history.len(),
            forall|k: int| 0 <= k < moves@.len() ==> #[trigger] moves@[k]@ == self@.history[k],
    {
        self.moves.as_slice()
    }

    /// The tiles on the board, in the order of their squares.
    pub fn iter_letters(&self) -> (letters: Vec<Letter>)
        ensures
            letters@.len() == self@.occupied(self@.cells.len() as int).len(),
            forall|k: int|
                0 <= k < letters@.len() ==> #[trigger] letters@[k] == self@.occupied(
                    self@.cells.len() as int,
                )[k].1,
    {
        let mut letters: Vec<Letter> = Vec::new();
        let mut index: usize = 0;
        while index < self.inner.len()
            invariant
                index <= self.inner@.len(),
                letters@.len() == self@.occupied(index as int).len(),
                forall|k: int|
                    0 <= k < letters@.len() ==> #[trigger] letters@[k] == self@.occupied(
                        index as int,
                    )[k].1,
            decreases self.inner@.len() - index,
        {
            if let Some(tile) = self.inner[index] {
                letters.push(tile);
            }
            index += 1;
        }
        letters
    }

    /// The squares that hold a tile, each with its tile, in the order of the squares.
    pub fn enumerate_letters(&self) -> (found: Vec<(Position, Letter)>)
        requires
            self.wf(),
        ensures
            found@.len() == self@.occupied(self@.cells.len() as int).len(),
            forall|k: int|
                0 <= k < found@.len() ==> {
                    &&& (#[trigger] found@[k]).0.wf()
                    &&& found@[k].0.spec_board_size() == self@.size
                    &&& found@[k].0.spec_index() == self@.occupied(self@.cells.len() as int)[k].0
                    &&& found@[k].1 == self@.occupied(self@.cells.len() as int)[k].1
                },
    {
        let mut found: Vec<(Position, Letter)> = Vec::new();
        let mut index: usize = 0;
        while index < self.inner.len()
            invariant
                self.wf(),
                index <= self.inner@.len(),
                found@.len() == self@.occupied(index as int).len(),
                forall|k: int|
                    0 <= k < found@.len() ==> {
                        &&& (#[trigger] found@[k]).0.wf()
                        &&& found@[k].0.spec_board_size() == self@.size
                        &&& found@[k].0.spec_index() == self@.occupied(index as int)[k].0
                        &&& found@[k].1 == self@.occupied(index as int)[k].1
                    },
            decreases self.inner@.len() - index,
        {
            if let Some(tile) = self.inner[index] {
                found.push((Position::at(self.size, index), tile));
            }
            index += 1;
        }
        found
    }

    /// Whether `word` can be laid from `position` along `direction`: whether
    /// `make_move` may be called with these three.
    pub fn can_place(&self, position: Position, word: &str, direction: Direction) -> (ok: bool)
        requires
            self.wf(),
        ensures
            ok == self@.placeable(play_at(position, direction, word@)),
    {
        let ghost play = play_at(position, direction, word@);
        proof {
            use_type_invariant(position);
            position.lemma_wf();
        }
        let side = position.board_size();
        if side != self.size || !is_tile_word(word) {
            return false;
        }
        let len = tile_count(word);
        if len == 0 {
            return true;
        }
        if len > side {
            proof {
                if play.in_line() {
                    lemma_in_line_length(play);
                }
            }
            return false;
        }
        proof {
            lemma_side_fits(side);
            lemma_stride_positive(play);
        }
        if position.try_add_direction(direction, (len - 1) as isize).is_none() {
            return false;
        }
        let mut at = position;
        let mut i: usize = 0;
        while i < len
            invariant
                self.wf(),
                play.wf(),
                play.in_line(),
                play.size == self@.size,
                play == play_at(position, direction, word@),
                len == play.len(),
                i <= len,
                i < len ==> at.spec_index() == play.square(i as int),
                at.wf(),
                at.spec_board_size() == play.size,
                forall|j: int|
                    0 <= j < i ==> (#[trigger] self@.cell(play.square(j)) matches Some(tile)
                        ==> tile == play.letter(j)),
            decreases len - i,
        {
            let wanted = tile_at(word, i);
            if let Some(tile) = self.get(at) {
                if tile != wanted {
                    assert(self@.cell(play.square(i as int)) == Some(tile));
                    assert(play.letter(i as int) == wanted);
                    assert(!self@.agrees(play));
                    return false;
                }
            }
            i += 1;
            if i < len {
                proof {
                    lemma_in_line_squares(play, i as int);
                    assert(play.stride() * i == play.stride() * (i - 1) + play.stride() * 1)
                        by (nonlinear_arith);
                }
                at = at.add_direction(direction, 1);
            }
        }
        true
    }

    /// Lays `word` from `position` along `direction` and records the play.
    pub fn make_move(&mut self, position: Position, word: &str, direction: Direction)
        requires
            old(self).wf(),
            old(self)@.placeable(play_at(position, direction, word@)),
        ensures
            final(self).wf(),
            final(self)@ == old(self)@.commit(play_at(position, direction, word@)),
            old(self)@.consistent() ==> final(self)@.consistent(),
    {
        let ghost play = play_at(position, direction, word@);
        let ghost before = self@;
        proof {
            use_type_invariant(position);
            lemma_stride_positive(play);
            lemma_laid_ends(before, play);
        }
        let len = tile_count(word);
        let mut at = position;
        let mut i: usize = 0;
        while i < len
            invariant
                before.wf(),
                before.placeable(play),
                play.stride() >= 1,
                play.direction == direction,
                play.text == word@,
                len == play.len(),
                i <= len,
                i < len ==> at.spec_index() == play.square(i as int),
                at.wf(),
                at.spec_board_size() == play.size,
                self.inner@ == before.laid(play.prefix(i as int)),
                self.moves == old(self).moves,
                self.size == old(self).size,
                self.letter_premium == old(self).letter_premium,
                self.word_premium == old(self).word_premium,
                before == old(self)@,
            decreases len - i,
        {
            proof {
                lemma_in_line_squares(play, i as int);
                lemma_laid_step(before, play, i as int);
            }
            self.inner.set(at.as_index(), Some(tile_at(word, i)));
            i += 1;
            if i < len {
                proof {
                    lemma_in_line_squares(play, i as int);
                    assert(play.stride() * i == play.stride() * (i - 1) + play.stride() * 1)
                        by (nonlinear_arith);
                }
                at = at.add_direction(direction, 1);
            }
        }
        self.moves.push(Word { position, direction, word: word.to_owned() });
        proof {
            assert(self@.history =~= before.history.push(play));
            assert(self@ == before.commit(play));
            if before.consistent() {
                lemma_commit_consistent(before, play);
            }
        }
    }

    /// The tile on a square, if there is one.
    pub fn get(&self, position: Position) -> (tile: Option<Letter>)
        ensures
            tile == self@.cell(position.spec_index()),
    {
        let index = position.as_index();
        if index < self.inner.len() {
            self.inner[index]
        } else {
            None
        }
    }

    /// Puts a tile on a square, or clears it. The record of plays is left as it is.
    pub fn set(&mut self, position: Position, letter: Option<Letter>)
        requires
            old(self).wf(),
            position.spec_index() < old(self)@.cells.len(),
        ensures
            final(self).wf(),
            final(self)@ == (Grid {
                cells: old(self)@.cells.update(position.spec_index(), letter),
                ..old(self)@
            }),
    {
        let index = position.as_index();
        self.inner.set(index, letter);
        assert(self@.history =~= old(self)@.history);
    }

    /// The letter premium of a square; one outside the board.
    pub fn letter_premium(&self, position: Position) -> (premium: u8)
        ensures
            premium == self@.letter_premium_at(position.spec_index()),
    {
        let index = position.as_index();
        if index < self.letter_premium.len() {
            self.letter_premium[index]
        } else {
            1
        }
    }

    /// The word premium of a square; one outside the board.
    pub fn word_premium(&self, position: Position) -> (premium: u8)
        ensures
            premium == self@.word_premium_at(position.spec_index()),
    {
        let index = position.as_index();
        if index < self.word_premium.len() {
            self.word_premium[index]
        } else {
            1
        }
    }
}

} // verus!
