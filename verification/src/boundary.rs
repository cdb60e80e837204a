use crate::geometry::{lemma_step_by_chain, on_board, step_by, Direction};
use crate::grid::{
    lemma_in_line_squares, lemma_place_of_square, lemma_square_of_place, lemma_stride_positive,
    Grid, Play,
};
use crate::letter::lemma_char_letter_char;
use vstd::prelude::*;

verus! {

/// How many squares in a row, directly before `index` along `axis`, read a tile once
/// `play` is laid.
pub open spec fn reach_back(grid: Grid, play: Play, axis: Direction, index: int) -> nat
    decreases index,
{
    match step_by(grid.size, axis, index, -1) {
        Some(before) => if before < index && grid.overlay(play, before) is Some {
            1 + reach_back(grid, play, axis, before)
        } else {
            0
        },
        None => 0,
    }
}

/// How many squares in a row, directly behind `index` along `axis`, read a tile once
/// `play` is laid.
pub open spec fn reach_ahead(grid: Grid, play: Play, axis: Direction, index: int) -> nat
    decreases grid.size * grid.size - index,
{
    match step_by(grid.size, axis, index, 1) {
        Some(behind) => if index < behind && grid.overlay(play, behind) is Some {
            1 + reach_ahead(grid, play, axis, behind)
        } else {
            0
        },
        None => 0,
    }
}

/// The run of tiles through `index` along `axis` that the board would read once `play`
/// is laid: from the first square of the run, as far as tiles follow one another.
pub open spec fn boundary_play(grid: Grid, play: Play, axis: Direction, index: int) -> Play {
    let stride = axis.spec_offset(grid.size);
    let back = reach_back(grid, play, axis, index);
    let ahead = reach_ahead(grid, play, axis, index);
    let start = index - stride * back;
    Play {
        start,
        size: grid.size,
        direction: axis,
        text: Seq::new(
            back + 1 + ahead,
            |j: int| grid.overlay(play, start + stride * j)->0.spec_to_char(),
        ),
    }
}

/// The word that laying `play` forms through `index` along `axis`: the text of the run
/// where it has more than one letter, and no text where the tile on `index` stands alone.
pub open spec fn boundary_text(grid: Grid, play: Play, axis: Direction, index: int) -> Seq<
    char,
> {
    let run = boundary_play(grid, play, axis, index);
    if run.len() > 1 {
        run.text
    } else {
        Seq::empty()
    }
}

/// The `j` squares before `index` that the run reaches: each is one step further back,
/// reads a tile, and the run goes on from it as far as it went from `index`.
pub proof fn lemma_reach_back(grid: Grid, play: Play, axis: Direction, index: int, j: int)
    requires
        on_board(grid.size, index),
        0 <= j <= reach_back(grid, play, axis, index),
    ensures
        step_by(grid.size, axis, index, -j) == Some(index - axis.spec_offset(grid.size) * j),
        j >= 1 ==> grid.overlay(play, index - axis.spec_offset(grid.size) * j) is Some,
        reach_back(grid, play, axis, index - axis.spec_offset(grid.size) * j) == reach_back(
            grid,
            play,
            axis,
            index,
        ) - j,
    decreases j,
{
    let stride = axis.spec_offset(grid.size);
    if j == 0 {
        assert(stride * 0 == 0);
    } else {
        let before = step_by(grid.size, axis, index, -1)->0;
        assert(before == index - stride) by {
            assert(stride * (-1) == -stride) by (nonlinear_arith);
        }
        lemma_reach_back(grid, play, axis, before, j - 1);
        assert(stride * j == stride + stride * (j - 1)) by (nonlinear_arith);
        assert(stride * (-j) == -(stride * j)) by (nonlinear_arith);
        assert(stride * (-(j - 1)) == -(stride * (j - 1))) by (nonlinear_arith);
        lemma_step_by_chain(grid.size, axis, index, -1, -(j - 1));
    }
}

/// The `j` squares behind `index` that the run reaches: each is one step further on,
/// reads a tile, and the run goes on from it as far as it went from `index`.
pub proof fn lemma_reach_ahead(grid: Grid, play: Play, axis: Direction, index: int, j: int)
    requires
        on_board(grid.size, index),
        0 <= j <= reach_ahead(grid, play, axis, index),
    ensures
        step_by(grid.size, axis, index, j) == Some(index + axis.spec_offset(grid.size) * j),
        j >= 1 ==> grid.overlay(play, index + axis.spec_offset(grid.size) * j) is Some,
        reach_ahead(grid, play, axis, index + axis.spec_offset(grid.size) * j) == reach_ahead(
            grid,
            play,
            axis,
            index,
        ) - j,
    decreases j,
{
    let stride = axis.spec_offset(grid.size);
    if j == 0 {
        assert(stride * 0 == 0);
    } else {
        let behind = step_by(grid.size, axis, index, 1)->0;
        assert(behind == index + stride) by {
            assert(stride * 1 == stride) by (nonlinear_arith);
        }
        lemma_reach_ahead(grid, play, axis, behind, j - 1);
        assert(stride * j == stride + stride * (j - 1)) by (nonlinear_arith);
        lemma_step_by_chain(grid.size, axis, index, 1, j - 1);
    }
}

/// Every square of the run through a square that reads a tile reads a tile, lies on
/// the board, and is reached from the first square of the run step by step.
pub proof fn lemma_boundary_squares(grid: Grid, play: Play, axis: Direction, index: int, j: int)
    requires
        on_board(grid.size, index),
        grid.overlay(play, index) is Some,
        0 <= j < boundary_play(grid, play, axis, index).len(),
    ensures
        on_board(grid.size, boundary_play(grid, play, axis, index).square(j)),
        grid.overlay(play, boundary_play(grid, play, axis, index).square(j)) is Some,
        step_by(grid.size, axis, boundary_play(grid, play, axis, index).start, j) == Some(
            boundary_play(grid, play, axis, index).square(j),
        ),
{
    let stride = axis.spec_offset(grid.size);
    let back = reach_back(grid, play, axis, index) as int;
    let run = boundary_play(grid, play, axis, index);
    lemma_reach_back(grid, play, axis, index, back);
    assert(run.square(j) == index + stride * (j - back)) by (nonlinear_arith)
        requires
            run.square(j) == index - stride * back + stride * j,
    ;
    if j <= back {
        lemma_reach_back(grid, play, axis, index, back - j);
        assert(stride * (j - back) == -(stride * (back - j))) by (nonlinear_arith);
        assert(stride * (-back) == -(stride * back)) by (nonlinear_arith);
        assert(stride * (-(back - j)) == -(stride * (back - j))) by (nonlinear_arith);
        // from the first square, `j` steps forward undo `j` of the `back` steps
        assert(step_by(grid.size, axis, run.start, j) == Some(run.square(j))) by {
            if axis == Direction::Right {
                assert(run.start / grid.size == index / grid.size);
                assert(run.square(j) / grid.size == index / grid.size);
            }
        }
    } else {
        lemma_reach_ahead(grid, play, axis, index, j - back);
        assert(stride * back + stride * (j - back) == stride * j) by (nonlinear_arith);
        assert(stride * (-back) == -(stride * back)) by (nonlinear_arith);
        assert(step_by(grid.size, axis, run.start, j) == Some(run.square(j))) by {
            if axis == Direction::Right {
                assert(run.start / grid.size == index / grid.size);
                assert(run.square(j) / grid.size == index / grid.size);
            }
        }
    }
}

/// No tile stands directly before the first letter of the play.
pub open spec fn free_before(grid: Grid, play: Play) -> bool {
    match step_by(grid.size, play.direction, play.start, -1) {
        Some(before) => grid.cell(before) is None,
        None => true,
    }
}

/// No tile stands directly behind the last letter of the play.
pub open spec fn free_behind(grid: Grid, play: Play) -> bool {
    match step_by(grid.size, play.direction, play.square(play.len() - 1), 1) {
        Some(behind) => grid.cell(behind) is None,
        None => true,
    }
}

/// On the board with the play laid, the run goes on from the letter at place `i` to
/// the last letter of the play and, where no tile stands behind that, no further.
proof fn lemma_run_along_play(grid: Grid, play: Play, i: int)
    requires
        grid.wf(),
        grid.placeable(play),
        free_behind(grid, play),
        0 <= i < play.len(),
    ensures
        reach_ahead(grid.commit(play), play, play.direction, play.square(i)) == play.len() - 1
            - i,
    decreases play.len() - i,
{
    let after = grid.commit(play);
    let stride = play.stride();
    lemma_stride_positive(play);
    lemma_in_line_squares(play, i);
    assert(stride * 1 == stride) by (nonlinear_arith);
    assert(stride * (i + 1) == stride * i + stride) by (nonlinear_arith);
    if i + 1 < play.len() {
        lemma_in_line_squares(play, i + 1);
        lemma_place_of_square(play, i + 1);
        lemma_step_by_chain(grid.size, play.direction, play.start, i, 1);
        lemma_run_along_play(grid, play, i + 1);
    } else {
        let next = step_by(grid.size, play.direction, play.square(i), 1);
        if next is Some {
            let behind = next->0;
            if play.place_of(behind) is Some {
                lemma_square_of_place(play, behind);
                let place = play.place_of(behind)->0;
                assert(false) by (nonlinear_arith)
                    requires
                        stride >= 1,
                        place < i + 1,
                        play.start + stride * place == play.start + stride * i + stride,
                ;
            }
            assert(after.cell(behind) == grid.overlay(play, behind));
        }
    }
}

/// On the board with the play laid, the run reaches back from the letter at place `i`
/// to the first letter of the play and, where no tile stands before that, no further.
proof fn lemma_run_back_along_play(grid: Grid, play: Play, i: int)
    requires
        grid.wf(),
        grid.placeable(play),
        free_before(grid, play),
        0 <= i < play.len(),
    ensures
        reach_back(grid.commit(play), play, play.direction, play.square(i)) == i,
    decreases i,
{
    let after = grid.commit(play);
    let stride = play.stride();
    lemma_stride_positive(play);
    lemma_in_line_squares(play, i);
    assert(stride * (-1) == -stride) by (nonlinear_arith);
    assert(stride * (i - 1) == stride * i - stride) by (nonlinear_arith);
    if i > 0 {
        lemma_in_line_squares(play, i - 1);
        lemma_place_of_square(play, i - 1);
        lemma_step_by_chain(grid.size, play.direction, play.start, i, -1);
        lemma_run_back_along_play(grid, play, i - 1);
    } else {
        assert(stride * 0 == 0);
        let previous = step_by(grid.size, play.direction, play.start, -1);
        if previous is Some {
            let before = previous->0;
            assert(play.place_of(before) is None);
            assert(after.cell(before) == grid.overlay(play, before));
        }
    }
}

/// A play that was laid is read again from the board. Where it has two letters or
/// more, and no tile stood directly before its first letter or behind its last one,
/// the word that the board shows along its direction through the square of any of its
/// letters is its text.
pub proof fn lemma_committed_word_is_read(grid: Grid, play: Play, i: int)
    requires
        grid.wf(),
        grid.placeable(play),
        play.len() >= 2,
        free_before(grid, play),
        free_behind(grid, play),
        0 <= i < play.len(),
    ensures
        boundary_text(grid.commit(play), play, play.direction, play.square(i)) == play.text,
{
    let after = grid.commit(play);
    let stride = play.stride();
    lemma_stride_positive(play);
    lemma_run_along_play(grid, play, i);
    lemma_run_back_along_play(grid, play, i);
    let run = boundary_play(after, play, play.direction, play.square(i));
    assert(run.start == play.start);
    assert(run.text =~= play.text) by {
        assert forall|j: int| 0 <= j < play.len() implies run.text[j] == play.text[j] by {
            lemma_place_of_square(play, j);
            lemma_char_letter_char(play.text[j]);
        }
    }
}

} // verus!
