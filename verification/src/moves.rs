use crate::board::{plays_of, Board, Word};
use crate::computer::verify_move;
use crate::grid::{Grid, Play};
use crate::legality::{
    legal, legal_from, legal_place, lemma_legal_from, lemma_legal_placeable, lexicon_texts,
};
use crate::ranking::{is_ranking, outranks, rank};
use crate::score::capped_score;
use vstd::prelude::*;

verus! {

/// The candidate plays of one board, rack and lexicon, ranked by their points. The
/// legal ones among them are handed out one by one, the best first; whether a
/// candidate is legal is found out only when its turn comes.
pub struct BestMoves<'a> {
    board: &'a Board,
    word_list: &'a [&'a str],
    pool: Vec<Word>,
    points: Vec<u32>,
    order: Vec<usize>,
    next: usize,
}

impl<'a> BestMoves<'a> {
    /// The candidates of `pool` with their points, ranked, none of which had its turn.
    pub(crate) fn ranked(
        board: &'a Board,
        word_list: &'a [&'a str],
        pool: Vec<Word>,
        points: Vec<u32>,
    ) -> (moves: BestMoves<'a>)
        requires
            board.wf(),
            points@.len() == pool@.len(),
            forall|k: int|
                0 <= k < pool@.len() ==> #[trigger] points@[k] == capped_score(board@, pool@[k]@),
        ensures
            moves.wf(),
            moves.grid() == board@,
            moves.lexicon() == lexicon_texts(word_list@),
            moves.pool() == plays_of(pool@),
            moves.taken() == 0,
    {
        let order = rank(&points);
        BestMoves { board, word_list, pool, points, order, next: 0 }
    }

    /// The board that the moves are for.
    pub closed spec fn grid(&self) -> Grid {
        self.board@
    }

    /// The lexicon that the moves are checked against.
    pub closed spec fn lexicon(&self) -> Seq<Seq<char>> {
        lexicon_texts(self.word_list@)
    }

    /// The candidates, in the order in which they were generated.
    pub closed spec fn pool(&self) -> Seq<Play> {
        plays_of(self.pool@)
    }

    /// The points of each candidate of the pool.
    pub closed spec fn points(&self) -> Seq<u32> {
        self.points@
    }

    /// The places of the pool in the order of the ranking.
    pub closed spec fn order(&self) -> Seq<usize> {
        self.order@
    }

    /// How many candidates of the ranking had their turn.
    pub closed spec fn taken(&self) -> int {
        self.next as int
    }

    /// Each candidate has its points, and the order is the ranking of the points.
    pub open spec fn wf(&self) -> bool {
        &&& self.grid().wf()
        &&& self.points().len() == self.pool().len()
        &&& forall|k: int|
            0 <= k < self.pool().len() ==> #[trigger] self.points()[k] == capped_score(
                self.grid(),
                self.pool()[k],
            )
        &&& is_ranking(self.order(), self.points())
        &&& 0 <= self.taken() <= self.order().len()
    }

    /// The candidates from the best to the weakest.
    pub open spec fn ranking(&self) -> Seq<Play> {
        Seq::new(self.order().len(), |k: int| self.pool()[self.order()[k] as int])
    }

    /// The moves that are still to come: the legal plays among the candidates that did
    /// not have their turn, the best first.
    pub open spec fn remaining(&self) -> Seq<Play> {
        legal_from(self.grid(), self.lexicon(), self.ranking(), self.taken())
    }

    /// Every move that is handed out is legal, and can be laid on the board: all its
    /// letters stand on squares of the board, and none meets a different tile.
    pub proof fn lemma_moves_playable(&self, k: int)
        requires
            self.wf(),
            0 <= k < self.remaining().len(),
        ensures
            legal(self.grid(), self.remaining()[k], self.lexicon()),
            self.grid().placeable(self.remaining()[k]),
    {
        lemma_legal_from(self.grid(), self.lexicon(), self.ranking(), self.taken(), k);
        lemma_legal_placeable(self.grid(), self.remaining()[k], self.lexicon());
    }

    /// The moves are handed out from the most points to the fewest: no move has more
    /// points than a move that is handed out before it.
    pub proof fn lemma_moves_descend(&self, j: int, k: int)
        requires
            self.wf(),
            0 <= j <= k < self.remaining().len(),
        ensures
            capped_score(self.grid(), self.remaining()[j]) >= capped_score(
                self.grid(),
                self.remaining()[k],
            ),
        decreases k - j,
    {
        if j < k {
            self.lemma_moves_descend(j + 1, k);
            let grid = self.grid();
            let ranked = self.ranking();
            lemma_legal_from(grid, self.lexicon(), ranked, self.taken(), j);
            lemma_legal_from(grid, self.lexicon(), ranked, self.taken(), j + 1);
            let a = legal_place(grid, self.lexicon(), ranked, self.taken(), j);
            let b = legal_place(grid, self.lexicon(), ranked, self.taken(), j + 1);
            assert(outranks(
                self.points(),
                self.order()[a] as int,
                self.order()[b] as int,
            ));
            assert(self.points()[self.order()[a] as int] == capped_score(
                grid,
                self.pool()[self.order()[a] as int],
            ));
            assert(self.points()[self.order()[b] as int] == capped_score(
                grid,
                self.pool()[self.order()[b] as int],
            ));
        }
    }

    /// The next move, if one is left.
    pub fn next_move(&mut self) -> (found: Option<Word>)
        requires
            old(self).wf(),
        ensures
            final(self).wf(),
            final(self).grid() == old(self).grid(),
            final(self).lexicon() == old(self).lexicon(),
            final(self).pool() == old(self).pool(),
            final(self).points() == old(self).points(),
            final(self).order() == old(self).order(),
            found is Some ==> final(self).taken() > old(self).taken(),
            match found {
                Some(word) => old(self).remaining().len() > 0 && word@ == old(self).remaining()[0]
                    && final(self).remaining() == old(self).remaining().drop_first(),
                None => old(self).remaining().len() == 0 && final(self).remaining().len() == 0,
            },
    {
        while self.next < self.order.len()
            invariant
                self.wf(),
                self.board == old(self).board,
                self.word_list == old(self).word_list,
                self.pool == old(self).pool,
                self.points == old(self).points,
                self.order == old(self).order,
                self.next >= old(self).next,
                self.remaining() == old(self).remaining(),
            decreases self.order@.len() - self.next,
        {
            let place = self.order[self.next];
            assert(0 <= self.order@[self.next as int] < self.points@.len());
            let ghost before = self.remaining();
            let ghost play = self.ranking()[self.next as int];
            assert(self.pool@[place as int]@ == play);
            self.next += 1;
            if verify_move(self.board, &self.pool[place], self.word_list) {
                let word = self.pool[place].duplicate();
                proof {
                    assert(before == seq![play] + self.remaining());
                    assert(before.drop_first() =~= self.remaining());
                }
                return Some(word);
            }
        }
        None
    }

    /// All the moves that are left, the best first.
    pub fn into_vec(self) -> (moves: Vec<Word>)
        requires
            self.wf(),
        ensures
            plays_of(moves@) == self.remaining(),
    {
        let mut source = self;
        let mut moves: Vec<Word> = Vec::new();
        proof {
            assert(plays_of(moves@) =~= Seq::<Play>::empty());
        }
        loop
            invariant
                source.wf(),
                plays_of(moves@) + source.remaining() == self.remaining(),
            ensures
                plays_of(moves@) == self.remaining(),
            decreases source.order().len() - source.taken(),
        {
            let ghost before = source.remaining();
            let ghost gathered = plays_of(moves@);
            match source.next_move() {
                Some(word) => {
                    moves.push(word);
                    proof {
                        assert(plays_of(moves@) =~= gathered.push(before[0]));
                        assert(gathered.push(before[0]) + before.drop_first() =~= gathered
                            + before);
                    }
                },
                None => {
                    proof {
                        assert(gathered + before =~= gathered);
                    }
                    break ;
                },
            }
        }
        moves
    }

    /// How many moves are left.
    pub fn count(self) -> (n: usize)
        requires
            self.wf(),
        ensures
            n == self.remaining().len(),
    {
        let moves = self.into_vec();
        assert(plays_of(moves@).len() == moves@.len());
        moves.len()
    }
}

} // verus!
