use crate::geometry::{
    lemma_step_by_between, lemma_step_by_rows_columns, on_board, step_by, Direction,
};
use crate::letter::{is_tile_text, Letter};
use vstd::arithmetic::div_mod::{lemma_fundamental_div_mod, lemma_fundamental_div_mod_converse};
use vstd::prelude::*;

verus! {

/// A word laid on a board of a given size: where its first letter stands, which way it
/// runs, and its text.
pub struct Play {
    pub start: int,
    pub size: int,
    pub direction: Direction,
    pub text: Seq<char>,
}

impl Play {
    /// The first letter stands on the board, and every character is a tile.
    pub open spec fn wf(self) -> bool {
        &&& 0 <= self.size
        &&& on_board(self.size, self.start)
        &&& is_tile_text(self.text)
    }

    /// The number of letters.
    pub open spec fn len(self) -> int {
        self.text.len() as int
    }

    /// How far apart in the index two neighbouring letters lie.
    pub open spec fn stride(self) -> int {
        self.direction.spec_offset(self.size)
    }

    /// The index of the square under the letter at place `i`.
    pub open spec fn square(self, i: int) -> int {
        self.start + self.stride() * i
    }

    /// The tile at place `i`.
    pub open spec fn letter(self, i: int) -> Letter {
        Letter::spec_from_char(self.text[i])
    }

    /// The place of the letter that lies on the square `index`, where one does.
    pub open spec fn place_of(self, index: int) -> Option<int> {
        let d = index - self.start;
        if self.stride() > 0 && d >= 0 && d % self.stride() == 0 && d / self.stride()
            < self.len() {
            Some(d / self.stride())
        } else {
            None
        }
    }

    /// Every letter stands on the board, and a word to the right stays in its row.
    pub open spec fn in_line(self) -> bool {
        self.len() == 0 || step_by(self.size, self.direction, self.start, self.len() - 1) is Some
    }

    /// As `in_line`, with one more square behind the last letter.
    pub open spec fn fits(self) -> bool {
        step_by(self.size, self.direction, self.start, self.len()) is Some
    }

    /// The first `n` letters of the play.
    pub open spec fn prefix(self, n: int) -> Play {
        Play { text: self.text.take(n), ..self }
    }
}

/// A board as a mathematical value: the squares row by row, the two premium tables
/// of the same shape, and the plays made so far.
pub struct Grid {
    pub size: int,
    pub cells: Seq<Option<Letter>>,
    pub letter_premium: Seq<u8>,
    pub word_premium: Seq<u8>,
    pub history: Seq<Play>,
}

impl Grid {
    /// The three tables have one entry for each square, and no premium is zero.
    pub open spec fn wf(self) -> bool {
        &&& 0 <= self.size
        &&& self.cells.len() == self.size * self.size
        &&& self.letter_premium.len() == self.cells.len()
        &&& self.word_premium.len() == self.cells.len()
        &&& forall|i: int| 0 <= i < self.cells.len() ==> #[trigger] self.letter_premium[i] >= 1
        &&& forall|i: int| 0 <= i < self.cells.len() ==> #[trigger] self.word_premium[i] >= 1
    }

    /// The board of the given size and premiums on which no play was made.
    pub open spec fn blank(size: int, letter_premium: Seq<u8>, word_premium: Seq<u8>) -> Grid {
        Grid {
            size,
            cells: Seq::new((size * size) as nat, |index: int| None),
            letter_premium,
            word_premium,
            history: Seq::empty(),
        }
    }

    /// The tile on a square; nothing outside the board.
    pub open spec fn cell(self, index: int) -> Option<Letter> {
        if 0 <= index < self.cells.len() {
            self.cells[index]
        } else {
            None
        }
    }

    /// The letter premium of a square; one outside the board.
    pub open spec fn letter_premium_at(self, index: int) -> int {
        if 0 <= index < self.letter_premium.len() {
            self.letter_premium[index] as int
        } else {
            1
        }
    }

    /// The word premium of a square; one outside the board.
    pub open spec fn word_premium_at(self, index: int) -> int {
        if 0 <= index < self.word_premium.len() {
            self.word_premium[index] as int
        } else {
            1
        }
    }

    /// What a square would read if `play` were laid: the play's own letter where it
    /// covers the square, the board's tile elsewhere.
    pub open spec fn overlay(self, play: Play, index: int) -> Option<Letter> {
        match play.place_of(index) {
            Some(i) => Some(play.letter(i)),
            None => self.cell(index),
        }
    }

    /// No letter of the play meets a different tile.
    pub open spec fn agrees(self, play: Play) -> bool {
        forall|i: int|
            0 <= i < play.len() ==> (#[trigger] self.cell(play.square(i)) matches Some(tile)
                ==> tile == play.letter(i))
    }

    /// The play can be laid: it is a play on this board, all in one line, and meets no
    /// different tile.
    pub open spec fn placeable(self, play: Play) -> bool {
        &&& play.size == self.size
        &&& play.wf()
        &&& play.in_line()
        &&& self.agrees(play)
    }

    /// The squares once `play` is laid.
    pub open spec fn laid(self, play: Play) -> Seq<Option<Letter>> {
        Seq::new(self.cells.len(), |index: int| self.overlay(play, index))
    }

    /// The board after `play` was laid and recorded.
    pub open spec fn commit(self, play: Play) -> Grid {
        Grid { cells: self.laid(play), history: self.history.push(play), ..self }
    }

    /// The squares before `below` that hold a tile, each with its tile, in the order
    /// of the index.
    pub open spec fn occupied(self, below: int) -> Seq<(int, Letter)>
        decreases below,
    {
        if below <= 0 {
            Seq::empty()
        } else {
            match self.cell(below - 1) {
                Some(tile) => self.occupied(below - 1).push((below - 1, tile)),
                None => self.occupied(below - 1),
            }
        }
    }

    /// The play at place `k` of the history still reads on the board.
    pub open spec fn records(self, k: int) -> bool {
        let play = self.history[k];
        &&& play.size == self.size
        &&& play.wf()
        &&& play.in_line()
        &&& forall|i: int|
            0 <= i < play.len() ==> #[trigger] self.cell(play.square(i)) == Some(play.letter(i))
    }

    /// Some recorded play has a letter on the square `index`.
    pub open spec fn accounted(self, index: int) -> bool {
        exists|k: int, i: int|
            0 <= k < self.history.len() && 0 <= i < self.history[k].len()
                && #[trigger] self.history[k].square(i) == index
    }

    /// The tiles on the board are those of the recorded plays, no more and no fewer.
    pub open spec fn consistent(self) -> bool {
        &&& forall|k: int| 0 <= k < self.history.len() ==> #[trigger] self.records(k)
        &&& forall|index: int|
            0 <= index < self.cells.len() && #[trigger] self.cells[index] is Some
                ==> self.accounted(index)
    }
}

/// A play on a board has a board with squares, and its stride is at least one.
pub proof fn lemma_stride_positive(play: Play)
    requires
        0 <= play.size,
        on_board(play.size, play.start),
    ensures
        play.size >= 1,
        play.stride() >= 1,
{
    assert(play.size != 0) by (nonlinear_arith)
        requires
            0 <= play.start < play.size * play.size,
    ;
}

/// The letter at place `i` lies on its own square, and on no other.
pub proof fn lemma_place_of_square(play: Play, i: int)
    requires
        play.stride() >= 1,
        0 <= i < play.len(),
    ensures
        play.place_of(play.square(i)) == Some(i),
{
    let s = play.stride();
    vstd::arithmetic::mul::lemma_mul_is_commutative(s, i);
    lemma_fundamental_div_mod_converse(s * i, s, i, 0);
}

/// A square on which a letter lies is the square of that letter.
pub proof fn lemma_square_of_place(play: Play, index: int)
    requires
        play.place_of(index) is Some,
    ensures
        0 <= play.place_of(index)->0 < play.len(),
        play.square(play.place_of(index)->0) == index,
{
    let s = play.stride();
    let d = index - play.start;
    lemma_fundamental_div_mod(d, s);
    assert(0 <= d / s) by {
        vstd::arithmetic::div_mod::lemma_div_pos_is_pos(d, s);
    }
}

/// A first part of a play covers a square where the whole play covers it with one
/// of its first letters.
pub proof fn lemma_prefix_place(play: Play, n: int, index: int)
    requires
        0 <= n <= play.len(),
    ensures
        play.prefix(n).place_of(index) == match play.place_of(index) {
            Some(i) => if i < n {
                Some(i)
            } else {
                None
            },
            None => None,
        },
{
}

/// Every letter of a play in line stands on a square of the board.
pub proof fn lemma_in_line_squares(play: Play, i: int)
    requires
        play.wf(),
        play.in_line(),
        0 <= i < play.len(),
    ensures
        on_board(play.size, play.square(i)),
        step_by(play.size, play.direction, play.start, i) == Some(play.square(i)),
{
    lemma_stride_positive(play);
    lemma_step_by_between(play.size, play.direction, play.start, play.len() - 1, i);
}

/// Each entry of `occupied` is a square of the board before `below` with its tile, and
/// the entries come in the order of the squares.
pub proof fn lemma_occupied(grid: Grid, below: int, k: int)
    requires
        0 <= k < grid.occupied(below).len(),
    ensures
        0 <= grid.occupied(below)[k].0 < below,
        grid.occupied(below)[k].0 < grid.cells.len(),
        grid.cell(grid.occupied(below)[k].0) == Some(grid.occupied(below)[k].1),
        k + 1 < grid.occupied(below).len() ==> grid.occupied(below)[k].0 < grid.occupied(
            below,
        )[k + 1].0,
    decreases below,
{
    if below > 0 {
        let before = grid.occupied(below - 1);
        if k < before.len() {
            lemma_occupied(grid, below - 1, k);
        }
    }
}

/// On a board on which no play was made, the tiles are those of the recorded plays:
/// there are none of either.
pub proof fn lemma_blank_consistent(size: int, letter_premium: Seq<u8>, word_premium: Seq<u8>)
    ensures
        Grid::blank(size, letter_premium, word_premium).consistent(),
{
}

/// Laying no letter leaves the squares as they are, and the first `len` letters of
/// a play are the play.
pub proof fn lemma_laid_ends(grid: Grid, play: Play)
    ensures
        grid.laid(play.prefix(0)) == grid.cells,
        play.prefix(play.len()) == play,
{
    assert(grid.laid(play.prefix(0)) =~= grid.cells);
    assert(play.text.take(play.len()) =~= play.text);
}

/// Laying one more letter of a play changes the square under that letter and no other.
pub proof fn lemma_laid_step(grid: Grid, play: Play, i: int)
    requires
        play.stride() >= 1,
        0 <= i < play.len(),
        0 <= play.square(i) < grid.cells.len(),
    ensures
        grid.laid(play.prefix(i + 1)) == grid.laid(play.prefix(i)).update(
            play.square(i),
            Some(play.letter(i)),
        ),
{
    let before = grid.laid(play.prefix(i));
    let after = grid.laid(play.prefix(i + 1));
    let target = play.square(i);
    assert forall|index: int| 0 <= index < grid.cells.len() implies #[trigger] after[index]
        == before.update(target, Some(play.letter(i)))[index] by {
        lemma_prefix_place(play, i, index);
        lemma_prefix_place(play, i + 1, index);
        if index == target {
            lemma_place_of_square(play, i);
        } else if play.place_of(index) is Some {
            lemma_square_of_place(play, index);
        }
    }
    assert(after =~= before.update(target, Some(play.letter(i))));
}

/// A board whose tiles are those of its recorded plays stays so when a play that can
/// be laid is laid and recorded.
pub proof fn lemma_commit_consistent(grid: Grid, play: Play)
    requires
        grid.wf(),
        grid.consistent(),
        grid.placeable(play),
    ensures
        grid.commit(play).wf(),
        grid.commit(play).consistent(),
{
    let next = grid.commit(play);
    lemma_stride_positive(play);
    assert forall|k: int| 0 <= k < next.history.len() implies #[trigger] next.records(k) by {
        let recorded = next.history[k];
        if k < grid.history.len() {
            assert(grid.records(k));
            assert forall|i: int| 0 <= i < recorded.len() implies #[trigger] next.cell(
                recorded.square(i),
            ) == Some(recorded.letter(i)) by {
                let index = recorded.square(i);
                lemma_in_line_squares(recorded, i);
                assert(grid.cell(index) == Some(recorded.letter(i)));
                if play.place_of(index) is Some {
                    lemma_square_of_place(play, index);
                    assert(grid.cell(play.square(play.place_of(index)->0)) == Some(
                        recorded.letter(i),
                    ));
                }
            }
        } else {
            assert(recorded == play);
            assert forall|i: int| 0 <= i < play.len() implies #[trigger] next.cell(
                play.square(i),
            ) == Some(play.letter(i)) by {
                lemma_in_line_squares(play, i);
                lemma_place_of_square(play, i);
            }
        }
    }
    assert forall|index: int|
        0 <= index < next.cells.len() && #[trigger] next.cells[index] is Some
        implies next.accounted(index) by {
        if play.place_of(index) is Some {
            lemma_square_of_place(play, index);
            let i = play.place_of(index)->0;
            let k = grid.history.len() as int;
            assert(next.history[k].square(i) == index);
        } else {
            assert(grid.cells[index] is Some);
            assert(grid.accounted(index));
            let (k, i) = choose|k: int, i: int|
                0 <= k < grid.history.len() && 0 <= i < grid.history[k].len()
                    && #[trigger] grid.history[k].square(i) == index;
            assert(next.history[k].square(i) == index);
        }
    }
}

/// A play in line has no more letters than the board has rows.
pub proof fn lemma_in_line_length(play: Play)
    requires
        play.wf(),
        play.in_line(),
    ensures
        play.len() <= play.size,
{
    lemma_stride_positive(play);
    if play.len() > 0 {
        lemma_step_by_rows_columns(play.size, play.direction, play.start, play.len() - 1);
        lemma_step_by_rows_columns(play.size, play.direction, play.start, 0);
    }
}

} // verus!
