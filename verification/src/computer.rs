use crate::board::{plays_of, Board, Word};
use crate::boundary::{
    boundary_play, boundary_text, lemma_boundary_squares, lemma_reach_ahead, lemma_reach_back,
    reach_ahead, reach_back,
};
use crate::candidates::{
    anchor_candidates, candidates, candidates_around, lemma_placements_along, placements,
    placements_along,
};
use crate::geometry::{lemma_side_fits, on_board, Direction, Position};
use crate::grid::{lemma_occupied, lemma_place_of_square, lemma_stride_positive, Play};
use crate::legality::{
    accepted, crossing_accepted, legal, lemma_fits_in_line, lemma_fits_length, lexicon_texts,
};
use crate::letter::{
    is_tile_text, is_tile_word, lemma_char_letter_char, lemma_letter_bounds,
    lemma_letter_char_letter, lemma_ordinal_injective, letters_of, same_text, tile_at,
    tile_count, Letter,
};
pub use crate::moves::BestMoves;
use crate::rack::{greedy_covers, spells};
use crate::score::capped_score;
use vstd::prelude::*;
use vstd::string::StringExecFns;

verus! {

/// How many tiles of each letter a rack holds, at the letter's place in the alphabet.
fn tally(rack: &[Letter]) -> (counts: Vec<usize>)
    ensures
        counts@.len() == 27,
        forall|letter: Letter|
            counts@[letter.spec_ordinal() as int] == rack@.to_multiset().count(letter),
{
    let mut counts: Vec<usize> = Vec::new();
    let mut k: usize = 0;
    while k < 27
        invariant
            k <= 27,
            counts@.len() == k,
            forall|j: int| 0 <= j < k ==> counts@[j] == 0,
        decreases 27 - k,
    {
        counts.push(0);
        k += 1;
    }
    let mut i: usize = 0;
    proof {
        assert(rack@.take(0) =~= Seq::<Letter>::empty());
        rack@.take(0).to_multiset_ensures();
        assert forall|letter: Letter|
            counts@[letter.spec_ordinal() as int] == rack@.take(0).to_multiset().count(
                letter,
            ) by {
            lemma_letter_bounds(letter);
        }
    }
    while i < rack.len()
        invariant
            i <= rack@.len(),
            counts@.len() == 27,
            forall|letter: Letter|
                counts@[letter.spec_ordinal() as int] == rack@.take(i as int).to_multiset().count(
                    letter,
                ),
        decreases rack@.len() - i,
    {
        let tile = rack[i];
        let place = tile.ordinal();
        let ghost before = rack@.take(i as int);
        proof {
            lemma_letter_bounds(tile);
            before.to_multiset_ensures();
            assert(rack@.take(i + 1) =~= before.push(tile));
            assert(before.to_multiset().count(tile) <= before.to_multiset().len());
        }
        let ghost old_counts = counts@;
        counts.set(place, counts[place] + 1);
        proof {
            assert forall|letter: Letter|
                counts@[letter.spec_ordinal() as int] == rack@.take(i + 1).to_multiset().count(
                    letter,
                ) by {
                lemma_letter_bounds(letter);
                if letter.spec_ordinal() == place {
                    lemma_ordinal_injective(letter, tile);
                }
                assert(old_counts[letter.spec_ordinal() as int] == before.to_multiset().count(
                    letter,
                ));
            }
        }
        i += 1;
    }
    proof {
        assert(rack@.take(rack@.len() as int) =~= rack@);
    }
    counts
}

/// Whether the tiles of `rack` can spell `word`, a blank standing for any letter.
pub fn can_create_word(rack: &[Letter], word: &str) -> (ok: bool)
    ensures
        ok == spells(rack@, word@),
{
    if !is_tile_word(word) {
        return false;
    }
    let ghost needed = letters_of(word@);
    let mut counts = tally(rack);
    let ghost mut tiles = rack@.to_multiset();
    let len = tile_count(word);
    let blank = Letter::Blank.ordinal();
    let mut i: usize = 0;
    proof {
        assert(needed.skip(0) =~= needed);
    }
    while i < len
        invariant
            is_tile_text(word@),
            needed == letters_of(word@),
            len == word@.len(),
            blank == 26,
            i <= len,
            counts@.len() == 27,
            forall|letter: Letter| counts@[letter.spec_ordinal() as int] == tiles.count(letter),
            greedy_covers(rack@.to_multiset(), needed) == greedy_covers(
                tiles,
                needed.skip(i as int),
            ),
        decreases len - i,
    {
        let tile = tile_at(word, i);
        let place = tile.ordinal();
        let ghost rest = needed.skip(i as int);
        let ghost old_counts = counts@;
        let ghost old_tiles = tiles;
        proof {
            lemma_letter_bounds(tile);
            assert(rest[0] == tile);
            assert(rest.drop_first() =~= needed.skip(i + 1));
            assert(old_counts[place as int] == old_tiles.count(tile));
            assert(old_counts[26] == old_tiles.count(Letter::Blank));
        }
        let taken = if counts[place] > 0 {
            place
        } else if counts[blank] > 0 {
            blank
        } else {
            return false;
        };
        let ghost gone = if taken == place {
            tile
        } else {
            Letter::Blank
        };
        counts.set(taken, counts[taken] - 1);
        proof {
            tiles = old_tiles.remove(gone);
            assert forall|letter: Letter|
                counts@[letter.spec_ordinal() as int] == tiles.count(letter) by {
                lemma_letter_bounds(letter);
                if letter.spec_ordinal() == taken {
                    lemma_ordinal_injective(letter, gone);
                }
                assert(old_counts[letter.spec_ordinal() as int] == old_tiles.count(letter));
            }
        }
        i += 1;
    }
    proof {
        assert(needed.skip(len as int).len() == 0);
    }
    true
}

/// What the square at `position` would read if `word` were laid: the letter of `word`
/// that covers the square, or else the tile that the board holds there.
pub fn get_with_word(board: &Board, word: &Word, position: Position) -> (tile: Option<Letter>)
    requires
        is_tile_text(word.word@),
    ensures
        tile == board@.overlay(word@, position.spec_index()),
{
    let index = position.as_index();
    let start = word.position.as_index();
    if index >= start {
        let stride = word.direction.offset(word.position.board_size());
        let d = index - start;
        if d % stride == 0 {
            let place = d / stride;
            if place < tile_count(word.word.as_str()) {
                return Some(tile_at(word.word.as_str(), place));
            }
        }
    }
    board.get(position)
}

/// The run of tiles through the square `at` along `axis` that the board would read if
/// `word` were laid, as a word of its own, and the place of `at` in it.
pub fn find_boundary(board: &Board, word: &Word, at: Position, axis: Direction) -> (found: (
    Word,
    usize,
))
    requires
        board.wf(),
        is_tile_text(word.word@),
        at.spec_board_size() == board@.size,
        board@.overlay(word@, at.spec_index()) is Some,
    ensures
        found.0@ == boundary_play(board@, word@, axis, at.spec_index()),
        found.1 == reach_back(board@, word@, axis, at.spec_index()),
        found.0@.wf(),
{
    let ghost grid = board@;
    let ghost play = word@;
    let ghost index = at.spec_index();
    let ghost stride = axis.spec_offset(grid.size);
    proof {
        use_type_invariant(at);
        at.lemma_wf();
    }
    let mut first = at;
    let mut back: usize = 0;
    loop
        invariant
            stride >= 1,
            back <= index,
            grid == board@,
            play == word@,
            index == at.spec_index(),
            stride == axis.spec_offset(grid.size),
            is_tile_text(word.word@),
            first.wf(),
            first.spec_board_size() == grid.size,
            first.spec_index() == index - stride * back,
            0 <= back <= reach_back(grid, play, axis, index),
            on_board(grid.size, index),
        ensures
            back == reach_back(grid, play, axis, index),
        decreases first.spec_index(),
    {
        proof {
            lemma_reach_back(grid, play, axis, index, back as int);
            first.lemma_wf();
            assert(stride * (-1) == -stride) by (nonlinear_arith);
        }
        match first.try_add_direction(axis, -1) {
            None => {
                break ;
            },
            Some(before) => {
                if get_with_word(board, word, before).is_none() {
                    break ;
                }
                proof {
                    before.lemma_wf();
                    assert(stride * (back + 1) == stride * back + stride) by (nonlinear_arith);
                    assert(stride * (back + 1) >= back + 1) by (nonlinear_arith)
                        requires
                            stride >= 1,
                            back >= 0,
                    ;
                }
                first = before;
                back += 1;
            },
        }
    }
    let mut last = at;
    let mut ahead: usize = 0;
    loop
        invariant
            stride >= 1,
            index + ahead < grid.size * grid.size <= usize::MAX,
            grid == board@,
            play == word@,
            index == at.spec_index(),
            stride == axis.spec_offset(grid.size),
            is_tile_text(word.word@),
            last.wf(),
            last.spec_board_size() == grid.size,
            last.spec_index() == index + stride * ahead,
            0 <= ahead <= reach_ahead(grid, play, axis, index),
            on_board(grid.size, index),
        ensures
            ahead == reach_ahead(grid, play, axis, index),
        decreases grid.size * grid.size - last.spec_index(),
    {
        proof {
            lemma_reach_ahead(grid, play, axis, index, ahead as int);
            last.lemma_wf();
            assert(stride * 1 == stride) by (nonlinear_arith);
        }
        match last.try_add_direction(axis, 1) {
            None => {
                break ;
            },
            Some(behind) => {
                if get_with_word(board, word, behind).is_none() {
                    break ;
                }
                proof {
                    behind.lemma_wf();
                    assert(stride * (ahead + 1) == stride * ahead + stride) by (nonlinear_arith);
                    assert(stride * (ahead + 1) >= ahead + 1) by (nonlinear_arith)
                        requires
                            stride >= 1,
                            ahead >= 0,
                    ;
                }
                last = behind;
                ahead += 1;
            },
        }
    }
    let ghost run = boundary_play(grid, play, axis, index);
    let count = back + 1 + ahead;
    let mut text = String::new();
    let mut cursor = first;
    let mut j: usize = 0;
    while j < count
        invariant
            grid == board@,
            play == word@,
            index == at.spec_index(),
            run == boundary_play(grid, play, axis, index),
            is_tile_text(word.word@),
            on_board(grid.size, index),
            grid.overlay(play, index) is Some,
            count == run.len(),
            run.start == first.spec_index(),
            run.size == grid.size,
            run.direction == axis,
            j <= count,
            cursor.wf(),
            cursor.spec_board_size() == grid.size,
            j < count ==> cursor.spec_index() == run.square(j as int),
            text@ == run.text.take(j as int),
        decreases count - j,
    {
        proof {
            lemma_boundary_squares(grid, play, axis, index, j as int);
        }
        let tile = get_with_word(board, word, cursor).unwrap();
        text.append(tile.as_str());
        proof {
            assert(run.text.take(j + 1) =~= run.text.take(j as int).push(run.text[j as int]));
            assert(text@ =~= run.text.take(j + 1));
        }
        j += 1;
        if j < count {
            proof {
                lemma_boundary_squares(grid, play, axis, index, j as int);
                assert(run.stride() * j == run.stride() * (j - 1) + run.stride() * 1)
                    by (nonlinear_arith);
            }
            cursor = cursor.add_direction(axis, 1);
        }
    }
    proof {
        assert(run.text.take(count as int) =~= run.text);
        first.lemma_wf();
        assert forall|k: int| 0 <= k < run.text.len() implies Letter::is_tile_char(
            #[trigger] run.text[k],
        ) by {
            lemma_letter_char_letter(
                grid.overlay(play, run.start + stride * k)->0,
            );
        }
    }
    (Word { position: first, direction: axis, word: text }, back)
}

/// The word that laying `word` forms along `direction` through the square of its
/// letter at `word_offset`: empty where that letter has no neighbour on that axis.
pub fn find_boundary_word(
    board: &Board,
    word: &Word,
    word_offset: usize,
    direction: Direction,
) -> (text: String)
    requires
        board.wf(),
        word@.size == board@.size,
        is_tile_text(word.word@),
        word_offset < word@.len(),
        on_board(board@.size, word@.square(word_offset as int)),
    ensures
        text@ == boundary_text(board@, word@, direction, word@.square(word_offset as int)),
{
    proof {
        use_type_invariant(word.position);
        word.position.lemma_wf();
        lemma_stride_positive(word@);
        lemma_place_of_square(word@, word_offset as int);
    }
    let side = word.position.board_size();
    let stride = word.direction.offset(side);
    assert(0 <= word@.stride() * word_offset) by (nonlinear_arith)
        requires
            word@.stride() >= 1,
            word_offset >= 0,
    ;
    let at = Position::at(side, word.position.as_index() + stride * word_offset);
    let (run, _) = find_boundary(board, word, at, direction);
    if tile_count(run.word.as_str()) > 1 {
        run.word
    } else {
        String::new()
    }
}

/// The placements of `word` along one direction around the tile on `location`, added
/// to `found`.
fn place_along(
    found: &mut Vec<Word>,
    location: Position,
    tile: Letter,
    word: &str,
    direction: Direction,
)
    requires
        is_tile_text(word@),
    ensures
        plays_of(final(found)@) == plays_of(old(found)@) + placements_along(
            location.spec_index(),
            location.spec_board_size(),
            tile,
            word@,
            direction,
            word@.len() as int,
        ),
{
    proof {
        use_type_invariant(location);
        location.lemma_wf();
    }
    let ghost anchor = location.spec_index();
    let ghost size = location.spec_board_size();
    let side = location.board_size();
    let index = location.as_index();
    let stride = direction.offset(side);
    let len = tile_count(word);
    let mut i: usize = 0;
    proof {
        assert(plays_of(found@) =~= plays_of(old(found)@) + placements_along(
            anchor,
            size,
            tile,
            word@,
            direction,
            0,
        ));
    }
    while i < len
        invariant
            is_tile_text(word@),
            anchor == location.spec_index(),
            size == location.spec_board_size(),
            side == size,
            index == anchor,
            index < side * side <= usize::MAX,
            stride == direction.spec_offset(size),
            stride >= 1,
            len == word@.len(),
            i <= len,
            plays_of(found@) == plays_of(old(found)@) + placements_along(
                anchor,
                size,
                tile,
                word@,
                direction,
                i as int,
            ),
        decreases len - i,
    {
        let ghost before = plays_of(found@);
        if tile_at(word, i) == tile {
            proof {
                lemma_char_letter_char(word@[i as int]);
            }
            let back = stride.checked_mul(i);
            let fits = match back {
                Some(back) => back <= index,
                None => false,
            };
            if fits {
                let start = Position::at(side, index - back.unwrap());
                found.push(Word { position: start, direction, word: word.to_owned() });
                proof {
                    let play = Play {
                        start: anchor - stride * i,
                        size,
                        direction,
                        text: word@,
                    };
                    assert(plays_of(found@) =~= before.push(play));
                }
            }
        } else {
            proof {
                lemma_letter_char_letter(tile);
            }
        }
        i += 1;
    }
}

/// Every way to lay `word` so that one of its letters lies on the tile of `location`
/// and is that tile. The plays are not checked against the rules.
pub fn get_move_positions(board: &Board, location: Position, word: &str) -> (found: Vec<Word>)
    requires
        board.wf(),
        location.spec_board_size() == board@.size,
        board@.cell(location.spec_index()) is Some,
        is_tile_text(word@),
    ensures
        plays_of(found@) == placements(board@, location.spec_index(), word@),
{
    let tile = board.get(location).unwrap();
    let mut found: Vec<Word> = Vec::new();
    place_along(&mut found, location, tile, word, Direction::Down);
    place_along(&mut found, location, tile, word, Direction::Right);
    proof {
        assert(plays_of(Seq::<Word>::empty()) =~= Seq::<Play>::empty());
        assert(plays_of(found@) =~= placements(board@, location.spec_index(), word@));
    }
    found
}

/// Whether a word formed on the board is accepted: whether it is empty, a word of
/// the lexicon, or the text of a play made before.
pub fn is_accepted(board: &Board, word_list: &[&str], text: &str) -> (ok: bool)
    ensures
        ok == accepted(board@, lexicon_texts(word_list@), text@),
{
    let ghost lexicon = lexicon_texts(word_list@);
    if text.is_empty() {
        return true;
    }
    let mut i: usize = 0;
    while i < word_list.len()
        invariant
            i <= word_list@.len(),
            lexicon == lexicon_texts(word_list@),
            forall|j: int| 0 <= j < i ==> lexicon[j] != text@,
        decreases word_list@.len() - i,
    {
        if same_text(word_list[i], text) {
            assert(lexicon[i as int] == text@);
            return true;
        }
        i += 1;
    }
    let moves = board.moves();
    let mut k: usize = 0;
    while k < moves.len()
        invariant
            k <= moves@.len(),
            moves@.len() == board@.history.len(),
            forall|j: int| 0 <= j < moves@.len() ==> #[trigger] moves@[j]@ == board@.history[j],
            forall|j: int| 0 <= j < k ==> (#[trigger] board@.history[j]).text != text@,
        decreases moves@.len() - k,
    {
        assert(moves@[k as int]@ == board@.history[k as int]);
        if same_text(moves[k].word.as_str(), text) {
            assert(board@.history[k as int].text == text@);
            return true;
        }
        k += 1;
    }
    false
}

/// Whether `board_move` may be played on the board with this lexicon.
pub fn verify_move(board: &Board, board_move: &Word, word_list: &[&str]) -> (ok: bool)
    requires
        board.wf(),
    ensures
        ok == legal(board@, board_move@, lexicon_texts(word_list@)),
{
    let ghost grid = board@;
    let ghost play = board_move@;
    let ghost lexicon = lexicon_texts(word_list@);
    proof {
        use_type_invariant(board_move.position);
        board_move.position.lemma_wf();
    }
    let side = board_move.position.board_size();
    if side != board.size() || !is_tile_word(board_move.word.as_str()) {
        return false;
    }
    let len = tile_count(board_move.word.as_str());
    if len >= side {
        proof {
            if play.fits() {
                lemma_fits_length(play);
            }
        }
        return false;
    }
    proof {
        lemma_side_fits(side);
        lemma_stride_positive(play);
    }
    if board_move.position.try_add_direction(board_move.direction, len as isize).is_none() {
        return false;
    }
    if len == 0 {
        return true;
    }
    proof {
        lemma_place_of_square(play, 0);
        assert(play.stride() * 0 == 0);
    }
    let (along, _) = find_boundary(board, board_move, board_move.position, board_move.direction);
    if tile_count(along.word.as_str()) > 1 && !is_accepted(
        board,
        word_list,
        along.word.as_str(),
    ) {
        return false;
    }
    let across = board_move.direction.opposite();
    let mut at = board_move.position;
    let mut i: usize = 0;
    while i < len
        invariant
            board.wf(),
            grid == board@,
            play == board_move@,
            lexicon == lexicon_texts(word_list@),
            play.size == grid.size,
            play.wf(),
            play.fits(),
            play.stride() >= 1,
            len == play.len(),
            across == play.direction.spec_opposite(),
            i <= len,
            at.wf(),
            at.spec_board_size() == grid.size,
            i < len ==> at.spec_index() == play.square(i as int),
            forall|j: int|
                0 <= j < i ==> (#[trigger] grid.cell(play.square(j)) matches Some(tile)
                    ==> tile == play.letter(j)),
            forall|j: int| 0 <= j < i ==> #[trigger] crossing_accepted(grid, play, lexicon, j),
        decreases len - i,
    {
        let wanted = tile_at(board_move.word.as_str(), i);
        if let Some(tile) = board.get(at) {
            if tile != wanted {
                assert(grid.cell(play.square(i as int)) == Some(tile));
                assert(play.letter(i as int) == wanted);
                assert(!grid.agrees(play));
                return false;
            }
        }
        proof {
            lemma_place_of_square(play, i as int);
        }
        let (crossing, _) = find_boundary(board, board_move, at, across);
        if tile_count(crossing.word.as_str()) > 1 && !is_accepted(
            board,
            word_list,
            crossing.word.as_str(),
        ) {
            assert(!crossing_accepted(grid, play, lexicon, i as int));
            return false;
        }
        assert(crossing_accepted(grid, play, lexicon, i as int));
        i += 1;
        if i < len {
            proof {
                lemma_fits_in_line(play, i as int);
                assert(play.stride() * i == play.stride() * (i - 1) + play.stride() * 1)
                    by (nonlinear_arith);
            }
            at = at.add_direction(board_move.direction, 1);
        }
    }
    true
}

/// Why no moves were generated.
#[derive(Debug, Clone, Copy, PartialEq, Eq, Structural)]
pub enum GenerationError {
    /// The lexicon holds no word.
    EmptyLexicon,
}

/// The points by which a candidate is ranked.
fn ranking_points(board: &Board, word: &Word) -> (points: u32)
    requires
        board.wf(),
        word@.wf(),
        word@.size == board@.size,
    ensures
        points == capped_score(board@, word@),
{
    match word.checked_score(board, None) {
        Some(points) => points,
        None => u32::MAX,
    }
}

/// The moves that can be made on the board with the tiles of `letters` and one tile
/// that lies on the board already, the best first. An empty lexicon is an error.
pub fn best_moves<'a>(board: &'a Board, letters: &[Letter], word_list: &'a [&'a str]) -> (made:
    Result<BestMoves<'a>, GenerationError>)
    requires
        board.wf(),
    ensures
        match made {
            Ok(moves) => {
                &&& word_list@.len() > 0
                &&& moves.wf()
                &&& moves.grid() == board@
                &&& moves.lexicon() == lexicon_texts(word_list@)
                &&& moves.pool() == candidates(board@, letters@, lexicon_texts(word_list@))
                &&& moves.taken() == 0
            },
            Err(error) => word_list@.len() == 0 && error == GenerationError::EmptyLexicon,
        },
{
    if word_list.len() == 0 {
        return Err(GenerationError::EmptyLexicon);
    }
    let ghost grid = board@;
    let ghost lexicon = lexicon_texts(word_list@);
    let ghost squares = grid.cells.len() as int;
    let mut rack: Vec<Letter> = Vec::new();
    let mut r: usize = 0;
    while r < letters.len()
        invariant
            r <= letters@.len(),
            rack@ == letters@.take(r as int),
        decreases letters@.len() - r,
    {
        rack.push(letters[r]);
        proof {
            assert(letters@.take(r + 1) =~= letters@.take(r as int).push(letters@[r as int]));
        }
        r += 1;
    }
    proof {
        assert(letters@.take(letters@.len() as int) =~= letters@);
    }
    let anchors = board.enumerate_letters();
    let mut pool: Vec<Word> = Vec::new();
    let mut points: Vec<u32> = Vec::new();
    let mut m: usize = 0;
    proof {
        assert(plays_of(pool@) =~= candidates_around(grid, letters@, lexicon, 0));
    }
    while m < anchors.len()
        invariant
            board.wf(),
            grid == board@,
            lexicon == lexicon_texts(word_list@),
            squares == grid.cells.len(),
            rack@ == letters@,
            m <= anchors@.len(),
            anchors@.len() == grid.occupied(squares).len(),
            forall|k: int|
                0 <= k < anchors@.len() ==> {
                    &&& (#[trigger] anchors@[k]).0.wf()
                    &&& anchors@[k].0.spec_board_size() == grid.size
                    &&& anchors@[k].0.spec_index() == grid.occupied(squares)[k].0
                    &&& anchors@[k].1 == grid.occupied(squares)[k].1
                },
            plays_of(pool@) == candidates_around(grid, letters@, lexicon, m as int),
            points@.len() == pool@.len(),
            forall|k: int|
                0 <= k < pool@.len() ==> #[trigger] points@[k] == capped_score(grid, pool@[k]@),
        decreases anchors@.len() - m,
    {
        let (location, tile) = anchors[m];
        let ghost anchor = grid.occupied(squares)[m as int];
        let ghost around = plays_of(pool@);
        proof {
            lemma_occupied(grid, squares, m as int);
            assert(anchors@[m as int].0.spec_index() == anchor.0);
            location.lemma_wf();
        }
        rack.push(tile);
        let mut n: usize = 0;
        proof {
            assert(plays_of(pool@) =~= around + anchor_candidates(
                grid,
                letters@,
                lexicon,
                anchor,
                0,
            ));
        }
        while n < word_list.len()
            invariant
                board.wf(),
                grid == board@,
                lexicon == lexicon_texts(word_list@),
                rack@ == letters@.push(tile),
                n <= word_list@.len(),
                location.wf(),
                location.spec_board_size() == grid.size,
                location.spec_index() == anchor.0,
                tile == anchor.1,
                grid.size >= 1,
                0 <= anchor.0 < grid.size * grid.size,
                grid.cell(anchor.0) == Some(anchor.1),
                plays_of(pool@) == around + anchor_candidates(
                    grid,
                    letters@,
                    lexicon,
                    anchor,
                    n as int,
                ),
                points@.len() == pool@.len(),
                forall|k: int|
                    0 <= k < pool@.len() ==> #[trigger] points@[k] == capped_score(
                        grid,
                        pool@[k]@,
                    ),
            decreases word_list@.len() - n,
        {
            let word = word_list[n];
            assert(lexicon[n as int] == word@);
            if can_create_word(rack.as_slice(), word) {
                let mut found = get_move_positions(board, location, word);
                let ghost placed = placements(grid, anchor.0, word@);
                let ghost gathered = plays_of(pool@);
                let mut k: usize = 0;
                while k < found.len()
                    invariant
                        board.wf(),
                        grid == board@,
                        k <= found@.len(),
                        plays_of(found@) == placed,
                        placed == placements(grid, anchor.0, word@),
                        is_tile_text(word@),
                        grid.size >= 1,
                        0 <= anchor.0 < grid.size * grid.size,
                        points@.len() == pool@.len() + k,
                        forall|j: int|
                            0 <= j < pool@.len() ==> #[trigger] points@[j] == capped_score(
                                grid,
                                pool@[j]@,
                            ),
                        forall|j: int|
                            0 <= j < k ==> points@[pool@.len() + j] == capped_score(
                                grid,
                                found@[j]@,
                            ),
                    decreases found@.len() - k,
                {
                    proof {
                        let tile_here = grid.cell(anchor.0)->0;
                        let down = placements_along(
                            anchor.0,
                            grid.size,
                            tile_here,
                            word@,
                            Direction::Down,
                            word@.len() as int,
                        );
                        let right = placements_along(
                            anchor.0,
                            grid.size,
                            tile_here,
                            word@,
                            Direction::Right,
                            word@.len() as int,
                        );
                        assert(placed == down + right);
                        assert(placed.len() == found@.len());
                        assert(placed[k as int] == found@[k as int]@);
                        if k < down.len() {
                            lemma_placements_along(
                                anchor.0,
                                grid.size,
                                tile_here,
                                word@,
                                Direction::Down,
                                word@.len() as int,
                                k as int,
                            );
                        } else {
                            lemma_placements_along(
                                anchor.0,
                                grid.size,
                                tile_here,
                                word@,
                                Direction::Right,
                                word@.len() as int,
                                k - down.len(),
                            );
                        }
                    }
                    points.push(ranking_points(board, &found[k]));
                    k += 1;
                }
                let ghost scored = found@;
                let ghost held = pool@.len() as int;
                pool.append(&mut found);
                proof {
                    assert forall|j: int| 0 <= j < pool@.len() implies #[trigger] points@[j]
                        == capped_score(grid, pool@[j]@) by {
                        if j >= held {
                            assert(points@[held + (j - held)] == capped_score(
                                grid,
                                scored[j - held]@,
                            ));
                        }
                    }
                    assert(plays_of(pool@) =~= gathered + placed);
                    assert(gathered + placed =~= around + anchor_candidates(
                        grid,
                        letters@,
                        lexicon,
                        anchor,
                        n + 1,
                    ));
                }
            }
            n += 1;
        }
        rack.pop();
        proof {
            assert(rack@ =~= letters@);
        }
        m += 1;
    }
    Ok(BestMoves::ranked(board, word_list, pool, points))
}

} // verus!
