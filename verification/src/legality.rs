use crate::boundary::boundary_text;
use crate::geometry::{lemma_step_by_between, lemma_step_by_rows_columns, step_by};
use crate::grid::{lemma_stride_positive, Grid, Play};
use vstd::prelude::*;

verus! {

/// The words of a lexicon as texts.
pub open spec fn lexicon_texts(words: Seq<&str>) -> Seq<Seq<char>> {
    Seq::new(words.len(), |i: int| words[i]@)
}

/// Some play of the board's history has the text `text`.
pub open spec fn played(grid: Grid, text: Seq<char>) -> bool {
    exists|k: int| 0 <= k < grid.history.len() && (#[trigger] grid.history[k]).text == text
}

/// A word formed on the board is accepted where the lexicon holds it or it was played
/// before; that no word is formed is accepted too.
pub open spec fn accepted(grid: Grid, lexicon: Seq<Seq<char>>, text: Seq<char>) -> bool {
    text.len() == 0 || lexicon.contains(text) || played(grid, text)
}

/// The word that the play forms along its own direction, with the tiles that stand
/// directly before and behind it, is accepted.
pub open spec fn extension_accepted(grid: Grid, play: Play, lexicon: Seq<Seq<char>>) -> bool {
    play.len() > 0 ==> accepted(
        grid,
        lexicon,
        boundary_text(grid, play, play.direction, play.start),
    )
}

/// The word that the play forms across its letter at place `i` is accepted.
pub open spec fn crossing_accepted(
    grid: Grid,
    play: Play,
    lexicon: Seq<Seq<char>>,
    i: int,
) -> bool {
    accepted(
        grid,
        lexicon,
        boundary_text(grid, play, play.direction.spec_opposite(), play.square(i)),
    )
}

/// The rules of a legal play: it is a play of tiles on this board; one step behind its
/// last letter there is still a square of its line; it meets no different tile; and
/// every word that it forms, along its direction and across each of its letters, is
/// accepted.
pub open spec fn legal(grid: Grid, play: Play, lexicon: Seq<Seq<char>>) -> bool {
    &&& play.size == grid.size
    &&& play.wf()
    &&& play.fits()
    &&& grid.agrees(play)
    &&& extension_accepted(grid, play, lexicon)
    &&& forall|i: int| 0 <= i < play.len() ==> #[trigger] crossing_accepted(grid, play, lexicon, i)
}

/// The legal plays among `plays`, from the place `from` on, in their order.
pub open spec fn legal_from(
    grid: Grid,
    lexicon: Seq<Seq<char>>,
    plays: Seq<Play>,
    from: int,
) -> Seq<Play>
    decreases plays.len() - from,
{
    if from < 0 || from >= plays.len() {
        Seq::empty()
    } else if legal(grid, plays[from], lexicon) {
        seq![plays[from]] + legal_from(grid, lexicon, plays, from + 1)
    } else {
        legal_from(grid, lexicon, plays, from + 1)
    }
}

/// The place in `plays` of the legal play that `legal_from` lists at place `k`.
pub open spec fn legal_place(
    grid: Grid,
    lexicon: Seq<Seq<char>>,
    plays: Seq<Play>,
    from: int,
    k: int,
) -> int
    decreases plays.len() - from,
{
    if from < 0 || from >= plays.len() {
        from
    } else if legal(grid, plays[from], lexicon) {
        if k <= 0 {
            from
        } else {
            legal_place(grid, lexicon, plays, from + 1, k - 1)
        }
    } else {
        legal_place(grid, lexicon, plays, from + 1, k)
    }
}

/// What `legal_from` lists is legal, stands in `plays` at or behind `from`, and keeps
/// the order that it has in `plays`.
pub proof fn lemma_legal_from(
    grid: Grid,
    lexicon: Seq<Seq<char>>,
    plays: Seq<Play>,
    from: int,
    k: int,
)
    requires
        0 <= from,
        0 <= k < legal_from(grid, lexicon, plays, from).len(),
    ensures
        from <= legal_place(grid, lexicon, plays, from, k) < plays.len(),
        legal_from(grid, lexicon, plays, from)[k] == plays[legal_place(
            grid,
            lexicon,
            plays,
            from,
            k,
        )],
        legal(grid, legal_from(grid, lexicon, plays, from)[k], lexicon),
        k + 1 < legal_from(grid, lexicon, plays, from).len() ==> legal_place(
            grid,
            lexicon,
            plays,
            from,
            k,
        ) < legal_place(grid, lexicon, plays, from, k + 1),
    decreases plays.len() - from,
{
    if from < plays.len() {
        let rest = legal_from(grid, lexicon, plays, from + 1);
        if legal(grid, plays[from], lexicon) {
            if k > 0 {
                lemma_legal_from(grid, lexicon, plays, from + 1, k - 1);
            } else if k + 1 < legal_from(grid, lexicon, plays, from).len() {
                lemma_legal_from(grid, lexicon, plays, from + 1, 0);
            }
        } else {
            lemma_legal_from(grid, lexicon, plays, from + 1, k);
        }
    }
}

/// A play that fits is in line, and so is each of its squares and the one behind them.
pub proof fn lemma_fits_in_line(play: Play, i: int)
    requires
        play.wf(),
        play.fits(),
        0 <= i <= play.len(),
    ensures
        play.in_line(),
        step_by(play.size, play.direction, play.start, i) == Some(play.square(i)),
{
    lemma_stride_positive(play);
    lemma_step_by_between(play.size, play.direction, play.start, play.len(), i);
    if play.len() > 0 {
        lemma_step_by_between(play.size, play.direction, play.start, play.len(), play.len() - 1);
    }
}

/// A play that fits has fewer letters than the board has rows.
pub proof fn lemma_fits_length(play: Play)
    requires
        play.wf(),
        play.fits(),
    ensures
        play.len() < play.size,
{
    lemma_stride_positive(play);
    lemma_step_by_rows_columns(play.size, play.direction, play.start, play.len());
    lemma_step_by_rows_columns(play.size, play.direction, play.start, 0);
}

/// Every legal play can be laid: all its letters stand on squares of the board, in
/// one line, and none meets a different tile.
pub proof fn lemma_legal_placeable(grid: Grid, play: Play, lexicon: Seq<Seq<char>>)
    requires
        legal(grid, play, lexicon),
    ensures
        grid.placeable(play),
{
    lemma_fits_in_line(play, 0);
}

} // verus!
