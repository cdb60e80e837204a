use crate::board::{Board, Word};
use crate::boundary::{boundary_play, reach_back};
use crate::computer::find_boundary;
use crate::geometry::{on_board, Position};
use crate::grid::{
    lemma_in_line_squares, lemma_place_of_square, lemma_stride_positive, Grid, Play,
};
use crate::letter::{lemma_letter_bounds, tile_at, tile_count};
use vstd::prelude::*;

verus! {

/// The length of a word that earns the bonus.
pub const BONUS_LENGTH: usize = 8;

/// The bonus for a play of `BONUS_LENGTH` letters.
pub const BONUS_POINTS: u32 = 50;

/// The letter of a crossing that a scoring call is made for, as a place in the word.
pub open spec fn spec_secondary(secondary: Option<usize>) -> Option<int> {
    match secondary {
        Some(place) => Some(place as int),
        None => None,
    }
}

/// Whether the premiums of the square under the letter at place `i` count: the square
/// is still free on the board, and the call is made for the play itself or, where it
/// is made for a crossing of another play, for this one letter of it.
pub open spec fn premium_counts(grid: Grid, play: Play, secondary: Option<int>, i: int) -> bool {
    (secondary is None || secondary == Some(i)) && grid.cell(play.square(i)) is None
}

/// The points of the letter at place `i`: its face value, times the letter premium of
/// its square where premiums count.
pub open spec fn letter_value(grid: Grid, play: Play, secondary: Option<int>, i: int) -> int {
    play.letter(i).spec_raw_score() * if premium_counts(grid, play, secondary, i) {
        grid.letter_premium_at(play.square(i))
    } else {
        1
    }
}

/// The factor that the square under the letter at place `i` gives the word: its word
/// premium where premiums count.
pub open spec fn word_factor(grid: Grid, play: Play, secondary: Option<int>, i: int) -> int {
    if premium_counts(grid, play, secondary, i) {
        grid.word_premium_at(play.square(i))
    } else {
        1
    }
}

/// The points of the first `n` letters.
pub open spec fn letter_sum(grid: Grid, play: Play, secondary: Option<int>, n: int) -> int
    decreases n,
{
    if n <= 0 {
        0
    } else {
        letter_sum(grid, play, secondary, n - 1) + letter_value(grid, play, secondary, n - 1)
    }
}

/// The factors of the first `n` squares, multiplied.
pub open spec fn word_product(grid: Grid, play: Play, secondary: Option<int>, n: int) -> int
    decreases n,
{
    if n <= 0 {
        1
    } else {
        word_product(grid, play, secondary, n - 1) * word_factor(grid, play, secondary, n - 1)
    }
}

/// The points of the word itself: the points of its letters times the word's factors.
pub open spec fn base_score(grid: Grid, play: Play, secondary: Option<int>) -> int {
    letter_sum(grid, play, secondary, play.len()) * word_product(
        grid,
        play,
        secondary,
        play.len(),
    )
}

/// The points of the word that the play forms across its letter at place `i`: none
/// where the letter lies off the board, on a tile that was there before, or alone on
/// its crossing axis; else the points of the crossing word, scored for that one letter.
pub open spec fn cross_score(grid: Grid, play: Play, i: int) -> int {
    let index = play.square(i);
    let across = play.direction.spec_opposite();
    let run = boundary_play(grid, play, across, index);
    if on_board(grid.size, index) && grid.cell(index) is None && run.len() > 1 {
        base_score(grid, run, Some(reach_back(grid, play, across, index) as int))
    } else {
        0
    }
}

/// The points of the crossings of the first `n` letters.
pub open spec fn cross_sum(grid: Grid, play: Play, n: int) -> int
    decreases n,
{
    if n <= 0 {
        0
    } else {
        cross_sum(grid, play, n - 1) + cross_score(grid, play, n - 1)
    }
}

/// The bonus that a play earns by its length.
pub open spec fn bonus(play: Play) -> int {
    if play.len() == BONUS_LENGTH {
        BONUS_POINTS as int
    } else {
        0
    }
}

/// The score of a play. Scored for itself, it is the points of the word, then those
/// of its crossings, then the bonus. Scored as the crossing of another play, for one
/// shared letter, it is the points of the word alone.
pub open spec fn score(grid: Grid, play: Play, secondary: Option<int>) -> int {
    match secondary {
        None => base_score(grid, play, None) + cross_sum(grid, play, play.len()) + bonus(play),
        Some(_) => base_score(grid, play, secondary),
    }
}

/// A score that fits the machine's number, or none.
pub open spec fn checked(points: int) -> Option<u32> {
    if 0 <= points <= u32::MAX {
        Some(points as u32)
    } else {
        None
    }
}

/// The points by which a play is ranked: its score, or the largest number of the
/// machine where the score is larger.
pub open spec fn capped_score(grid: Grid, play: Play) -> u32 {
    match checked(score(grid, play, None)) {
        Some(points) => points,
        None => u32::MAX,
    }
}

/// What one letter adds: points from none to 2550, and a factor from one to 255.
pub proof fn lemma_letter_points(grid: Grid, play: Play, secondary: Option<int>, i: int)
    requires
        grid.wf(),
    ensures
        0 <= letter_value(grid, play, secondary, i) <= 2550,
        1 <= word_factor(grid, play, secondary, i) <= 255,
{
    lemma_letter_bounds(play.letter(i));
    let raw = play.letter(i).spec_raw_score() as int;
    let premium = grid.letter_premium_at(play.square(i));
    assert(0 <= raw * premium <= 2550) by (nonlinear_arith)
        requires
            0 <= raw <= 10,
            1 <= premium <= 255,
    ;
}

/// The points of the letters are not negative, and the factors multiply to one or more.
pub proof fn lemma_score_parts(grid: Grid, play: Play, secondary: Option<int>, n: int)
    requires
        grid.wf(),
    ensures
        0 <= letter_sum(grid, play, secondary, n),
        1 <= word_product(grid, play, secondary, n),
    decreases n,
{
    if n > 0 {
        lemma_score_parts(grid, play, secondary, n - 1);
        lemma_letter_points(grid, play, secondary, n - 1);
        let before = word_product(grid, play, secondary, n - 1);
        let factor = word_factor(grid, play, secondary, n - 1);
        assert(1 <= before * factor) by (nonlinear_arith)
            requires
                1 <= before,
                1 <= factor,
        ;
    }
}

/// The points of a word are not negative.
pub proof fn lemma_base_score_sign(grid: Grid, play: Play, secondary: Option<int>)
    requires
        grid.wf(),
    ensures
        0 <= base_score(grid, play, secondary),
{
    lemma_score_parts(grid, play, secondary, play.len());
    let sum = letter_sum(grid, play, secondary, play.len());
    let product = word_product(grid, play, secondary, play.len());
    assert(0 <= sum * product) by (nonlinear_arith)
        requires
            0 <= sum,
            1 <= product,
    ;
}

/// The crossings take no points away.
pub proof fn lemma_cross_sum_sign(grid: Grid, play: Play, n: int)
    requires
        grid.wf(),
    ensures
        0 <= cross_score(grid, play, n),
        0 <= cross_sum(grid, play, n),
    decreases n,
{
    let across = play.direction.spec_opposite();
    let index = play.square(n);
    lemma_base_score_sign(
        grid,
        boundary_play(grid, play, across, index),
        Some(reach_back(grid, play, across, index) as int),
    );
    if n > 0 {
        lemma_cross_sum_sign(grid, play, n - 1);
    }
}

/// No score is negative.
pub proof fn lemma_score_sign(grid: Grid, play: Play, secondary: Option<int>)
    requires
        grid.wf(),
    ensures
        0 <= score(grid, play, secondary),
{
    lemma_base_score_sign(grid, play, secondary);
    lemma_base_score_sign(grid, play, None);
    lemma_cross_sum_sign(grid, play, play.len());
}

/// The face values of the first `n` letters of a play, added.
pub open spec fn face_value(play: Play, n: int) -> int
    decreases n,
{
    if n <= 0 {
        0
    } else {
        face_value(play, n - 1) + play.letter(n - 1).spec_raw_score()
    }
}

/// On the board on which a play was laid, its first `n` letters score their face
/// values, its squares give no factor, and it has no crossings to score.
proof fn lemma_laid_parts(grid: Grid, play: Play, n: int)
    requires
        grid.wf(),
        grid.placeable(play),
        0 <= n <= play.len(),
    ensures
        letter_sum(grid.commit(play), play, None, n) == face_value(play, n),
        word_product(grid.commit(play), play, None, n) == 1,
        cross_sum(grid.commit(play), play, n) == 0,
    decreases n,
{
    if n > 0 {
        lemma_laid_parts(grid, play, n - 1);
        lemma_stride_positive(play);
        lemma_in_line_squares(play, n - 1);
        lemma_place_of_square(play, n - 1);
        let after = grid.commit(play);
        assert(after.cell(play.square(n - 1)) == Some(play.letter(n - 1)));
    }
}

/// Laying a play spends the premiums of its squares: scored again on the board on
/// which it was laid, the play is worth the face values of its letters and the bonus
/// of its length, whatever premiums and crossings it scored before. Scoring alone
/// spends nothing: the score is a function of the board and the play.
pub proof fn lemma_laid_play_scores_face_value(grid: Grid, play: Play)
    requires
        grid.wf(),
        grid.placeable(play),
    ensures
        score(grid.commit(play), play, None) == face_value(play, play.len()) + bonus(play),
{
    lemma_laid_parts(grid, play, play.len());
}

/// The bonus is added once, behind everything that is multiplied: a play of
/// `BONUS_LENGTH` letters scores `BONUS_POINTS` more than its word and its crossings,
/// a play of another length scores those alone, and a crossing scores no bonus.
pub proof fn lemma_bonus_added_once(grid: Grid, play: Play, place: int)
    ensures
        play.len() == BONUS_LENGTH ==> score(grid, play, None) == base_score(grid, play, None)
            + cross_sum(grid, play, play.len()) + BONUS_POINTS,
        play.len() != BONUS_LENGTH ==> score(grid, play, None) == base_score(grid, play, None)
            + cross_sum(grid, play, play.len()),
        score(grid, play, Some(place)) == base_score(grid, play, Some(place)),
{
}

/// The square one letter further along a word, where it still lies on the board.
fn advance(at: Position, stride: usize) -> (next: Option<Position>)
    requires
        stride >= 1,
    ensures
        match next {
            Some(to) => to.wf() && to.spec_board_size() == at.spec_board_size() && to.spec_index()
                == at.spec_index() + stride,
            None => !on_board(at.spec_board_size(), at.spec_index() + stride),
        },
{
    let side = at.board_size();
    let index = at.as_index();
    if side * side - index > stride {
        Some(Position::at(side, index + stride))
    } else {
        None
    }
}

/// The points of the word itself, where they fit the machine's number.
pub fn base_points(word: &Word, board: &Board, secondary: Option<usize>) -> (points: Option<u32>)
    requires
        board.wf(),
        word@.wf(),
        word@.size == board@.size,
    ensures
        points == checked(base_score(board@, word@, spec_secondary(secondary))),
{
    let ghost grid = board@;
    let ghost play = word@;
    let ghost chosen = spec_secondary(secondary);
    proof {
        use_type_invariant(word.position);
        lemma_stride_positive(play);
    }
    let len = tile_count(word.word.as_str());
    let stride = word.direction.offset(word.position.board_size());
    let mut sum: u64 = 0;
    let mut sum_over = false;
    let mut product: u64 = 1;
    let mut product_over = false;
    let mut cursor: Option<Position> = Some(word.position);
    let mut i: usize = 0;
    while i < len
        invariant
            board.wf(),
            grid == board@,
            play == word@,
            chosen == spec_secondary(secondary),
            play.wf(),
            play.size == grid.size,
            len == play.len(),
            stride == play.stride(),
            stride >= 1,
            i <= len,
            match cursor {
                Some(at) => at.wf() && at.spec_board_size() == grid.size && at.spec_index()
                    == play.square(i as int),
                None => !on_board(grid.size, play.square(i as int)) && play.square(i as int) >= 0,
            },
            sum_over ==> letter_sum(grid, play, chosen, i as int) > u32::MAX,
            !sum_over ==> sum == letter_sum(grid, play, chosen, i as int) && sum <= u32::MAX,
            product_over ==> word_product(grid, play, chosen, i as int) > u32::MAX,
            !product_over ==> product == word_product(grid, play, chosen, i as int) && 1
                <= product <= u32::MAX,
        decreases len - i,
    {
        let tile = tile_at(word.word.as_str(), i);
        let counts = match secondary {
            Some(place) => place == i,
            None => true,
        };
        let mut letter_premium: u8 = 1;
        let mut word_premium: u8 = 1;
        if counts {
            if let Some(at) = cursor {
                if board.get(at).is_none() {
                    letter_premium = board.letter_premium(at);
                    word_premium = board.word_premium(at);
                }
            }
        }
        proof {
            lemma_letter_points(grid, play, chosen, i as int);
            lemma_score_parts(grid, play, chosen, i as int);
            lemma_letter_bounds(tile);
            board.lemma_countable();
            assert(letter_premium == if premium_counts(grid, play, chosen, i as int) {
                grid.letter_premium_at(play.square(i as int))
            } else {
                1
            });
            assert(word_premium == word_factor(grid, play, chosen, i as int));
            assert(letter_premium >= 1 && word_premium >= 1);
        }
        let value: u64 = (tile.raw_score() as u64) * (letter_premium as u64);
        if !sum_over {
            sum = sum + value;
            if sum > u32::MAX as u64 {
                sum_over = true;
            }
        }
        if !product_over {
            assert(1 <= product * word_premium <= 0xffff_ffff * 255) by (nonlinear_arith)
                requires
                    1 <= product <= 0xffff_ffff,
                    1 <= word_premium <= 255,
            ;
            product = product * (word_premium as u64);
            if product > u32::MAX as u64 {
                product_over = true;
            }
        } else {
            let ghost before = word_product(grid, play, chosen, i as int);
            assert(before * word_premium >= before) by (nonlinear_arith)
                requires
                    before >= 1,
                    word_premium >= 1,
            ;
        }
        proof {
            assert(stride * (i + 1) == stride * i + stride) by (nonlinear_arith);
        }
        cursor = match cursor {
            Some(at) => advance(at, stride),
            None => None,
        };
        i += 1;
    }
    proof {
        lemma_score_parts(grid, play, chosen, len as int);
    }
    let ghost total_sum = letter_sum(grid, play, chosen, len as int);
    let ghost total_product = word_product(grid, play, chosen, len as int);
    if sum_over {
        assert(total_sum * total_product > u32::MAX) by (nonlinear_arith)
            requires
                total_sum > u32::MAX,
                total_product >= 1,
        ;
        return None;
    }
    if sum == 0 {
        assert(total_sum * total_product == 0) by (nonlinear_arith)
            requires
                total_sum == 0,
        ;
        return Some(0);
    }
    if product_over {
        assert(total_sum * total_product > u32::MAX) by (nonlinear_arith)
            requires
                total_sum >= 1,
                total_product > u32::MAX,
        ;
        return None;
    }
    assert(sum * product <= 0xffff_ffff * 0xffff_ffff) by (nonlinear_arith)
        requires
            0 <= sum <= 0xffff_ffff,
            0 <= product <= 0xffff_ffff,
    ;
    let total = sum * product;
    if total > u32::MAX as u64 {
        None
    } else {
        Some(total as u32)
    }
}

impl Word {
    /// The score of the word, where it fits the machine's number.
    pub fn checked_score(&self, board: &Board, secondary_common_letter: Option<usize>) -> (points:
        Option<u32>)
        requires
            board.wf(),
            self@.wf(),
            self@.size == board@.size,
        ensures
            points == checked(score(board@, self@, spec_secondary(secondary_common_letter))),
    {
        let ghost grid = board@;
        let ghost play = self@;
        let base = base_points(self, board, secondary_common_letter);
        if secondary_common_letter.is_some() {
            return base;
        }
        proof {
            use_type_invariant(self.position);
            lemma_stride_positive(play);
            lemma_base_score_sign(grid, play, None);
            lemma_cross_sum_sign(grid, play, play.len());
        }
        let len = tile_count(self.word.as_str());
        let stride = self.direction.offset(self.position.board_size());
        let across = self.direction.opposite();
        let mut crossings: u64 = 0;
        let mut over = false;
        let mut cursor: Option<Position> = Some(self.position);
        let mut i: usize = 0;
        while i < len
            invariant
                board.wf(),
                grid == board@,
                play == self@,
                play.wf(),
                play.size == grid.size,
                len == play.len(),
                stride == play.stride(),
                stride >= 1,
                across == play.direction.spec_opposite(),
                i <= len,
                match cursor {
                    Some(at) => at.wf() && at.spec_board_size() == grid.size && at.spec_index()
                        == play.square(i as int),
                    None => !on_board(grid.size, play.square(i as int)),
                },
                over ==> cross_sum(grid, play, i as int) > u32::MAX,
                !over ==> crossings == cross_sum(grid, play, i as int) && crossings <= u32::MAX,
            decreases len - i,
        {
            proof {
                lemma_cross_sum_sign(grid, play, i as int);
            }
            if let Some(at) = cursor {
                if board.get(at).is_none() {
                    proof {
                        lemma_place_of_square(play, i as int);
                        at.lemma_wf();
                    }
                    let (run, shared) = find_boundary(board, self, at, across);
                    if tile_count(run.word.as_str()) > 1 {
                        match base_points(&run, board, Some(shared)) {
                            Some(points) => {
                                if !over {
                                    crossings = crossings + points as u64;
                                    if crossings > u32::MAX as u64 {
                                        over = true;
                                    }
                                }
                            },
                            None => {
                                over = true;
                            },
                        }
                    }
                }
            }
            proof {
                assert(stride * (i + 1) == stride * i + stride) by (nonlinear_arith);
            }
            cursor = match cursor {
                Some(at) => advance(at, stride),
                None => None,
            };
            i += 1;
        }
        let extra: u64 = if len == BONUS_LENGTH {
            BONUS_POINTS as u64
        } else {
            0
        };
        match base {
            Some(points) => {
                if over {
                    None
                } else {
                    let total = points as u64 + crossings + extra;
                    if total > u32::MAX as u64 {
                        None
                    } else {
                        Some(total as u32)
                    }
                }
            },
            None => None,
        }
    }

    /// The score of the word: of a play, where `secondary_common_letter` is `None`, or
    /// of the crossing of another play, for its letter at the given place.
    pub fn get_score(&self, board: &Board, secondary_common_letter: Option<usize>) -> (points: u32)
        requires
            board.wf(),
            self@.wf(),
            self@.size == board@.size,
            score(board@, self@, spec_secondary(secondary_common_letter)) <= u32::MAX,
        ensures
            points == score(board@, self@, spec_secondary(secondary_common_letter)),
    {
        proof {
            lemma_score_sign(board@, self@, spec_secondary(secondary_common_letter));
        }
        match self.checked_score(board, secondary_common_letter) {
            Some(points) => points,
            None => 0,
        }
    }
}

} // verus!
