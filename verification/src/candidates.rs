use crate::geometry::Direction;
use crate::grid::{Grid, Play};
use crate::letter::Letter;
use crate::rack::spells;
use vstd::prelude::*;

verus! {

/// The plays of `text` along `direction` that put one of its first `n` letters on the
/// square `anchor`, where that letter is the character of `tile` and the play starts at
/// or behind the first square of the board. They come in the order of the letters.
pub open spec fn placements_along(
    anchor: int,
    size: int,
    tile: Letter,
    text: Seq<char>,
    direction: Direction,
    n: int,
) -> Seq<Play>
    decreases n,
{
    if n <= 0 {
        Seq::empty()
    } else {
        let before = placements_along(anchor, size, tile, text, direction, n - 1);
        let start = anchor - direction.spec_offset(size) * (n - 1);
        if text[n - 1] == tile.spec_to_char() && start >= 0 {
            before.push(Play { start, size, direction, text })
        } else {
            before
        }
    }
}

/// Every way to lay `text` so that one of its letters comes to lie on the tile of the
/// square `anchor` and is that tile: first the plays downwards, then those to the right.
/// Nothing else is asked of them: a play may run off the board or meet other tiles.
pub open spec fn placements(grid: Grid, anchor: int, text: Seq<char>) -> Seq<Play> {
    let tile = grid.cell(anchor)->0;
    placements_along(anchor, grid.size, tile, text, Direction::Down, text.len() as int)
        + placements_along(anchor, grid.size, tile, text, Direction::Right, text.len() as int)
}

/// The placements, around one occupied square, of those among the first `n` words of
/// the lexicon that the rack can spell together with the tile of that square.
pub open spec fn anchor_candidates(
    grid: Grid,
    rack: Seq<Letter>,
    lexicon: Seq<Seq<char>>,
    anchor: (int, Letter),
    n: int,
) -> Seq<Play>
    decreases n,
{
    if n <= 0 {
        Seq::empty()
    } else {
        let before = anchor_candidates(grid, rack, lexicon, anchor, n - 1);
        if spells(rack.push(anchor.1), lexicon[n - 1]) {
            before + placements(grid, anchor.0, lexicon[n - 1])
        } else {
            before
        }
    }
}

/// The candidates around the first `m` occupied squares of the board.
pub open spec fn candidates_around(
    grid: Grid,
    rack: Seq<Letter>,
    lexicon: Seq<Seq<char>>,
    m: int,
) -> Seq<Play>
    decreases m,
{
    if m <= 0 {
        Seq::empty()
    } else {
        candidates_around(grid, rack, lexicon, m - 1) + anchor_candidates(
            grid,
            rack,
            lexicon,
            grid.occupied(grid.cells.len() as int)[m - 1],
            lexicon.len() as int,
        )
    }
}

/// Every candidate play: around each occupied square in the order of the squares, for
/// each word of the lexicon in its order, the placements of the word.
pub open spec fn candidates(grid: Grid, rack: Seq<Letter>, lexicon: Seq<Seq<char>>) -> Seq<Play> {
    candidates_around(grid, rack, lexicon, grid.occupied(grid.cells.len() as int).len() as int)
}

/// Each placement is a play of the text on the board of the anchor, starting on it.
pub proof fn lemma_placements_along(
    anchor: int,
    size: int,
    tile: Letter,
    text: Seq<char>,
    direction: Direction,
    n: int,
    k: int,
)
    requires
        size >= 1,
        0 <= anchor < size * size,
        0 <= k < placements_along(anchor, size, tile, text, direction, n).len(),
    ensures
        placements_along(anchor, size, tile, text, direction, n)[k].size == size,
        placements_along(anchor, size, tile, text, direction, n)[k].text == text,
        placements_along(anchor, size, tile, text, direction, n)[k].direction == direction,
        0 <= placements_along(anchor, size, tile, text, direction, n)[k].start <= anchor,
    decreases n,
{
    if n > 0 {
        let before = placements_along(anchor, size, tile, text, direction, n - 1);
        if k < before.len() {
            lemma_placements_along(anchor, size, tile, text, direction, n - 1, k);
        } else {
            assert(direction.spec_offset(size) * (n - 1) >= 0) by (nonlinear_arith)
                requires
                    direction.spec_offset(size) >= 1,
                    n - 1 >= 0,
            ;
        }
    }
}

} // verus!
