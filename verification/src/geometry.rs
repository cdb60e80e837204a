use vstd::arithmetic::div_mod::{
    lemma_div_is_ordered, lemma_fundamental_div_mod, lemma_fundamental_div_mod_converse,
};
use vstd::prelude::*;

verus! {

/// The two ways a word can run on the board.
#[derive(Debug, Clone, Copy, PartialEq, Eq, Structural, PartialOrd, Ord)]
pub enum Direction {
    Right,
    Down,
}

impl Direction {
    /// The other axis.
    pub open spec fn spec_opposite(&self) -> Direction {
        match *self {
            Direction::Right => Direction::Down,
            Direction::Down => Direction::Right,
        }
    }

    /// How far apart in the index two neighbouring squares of this axis lie.
    pub open spec fn spec_offset(&self, board_size: int) -> int {
        match *self {
            Direction::Right => 1,
            Direction::Down => board_size,
        }
    }

    /// The other axis: the one that crossing words run along.
    #[verifier::when_used_as_spec(spec_opposite)]
    pub fn opposite(&self) -> (other: Direction)
        ensures
            other == self.spec_opposite(),
    {
        match self {
            Direction::Right => Direction::Down,
            Direction::Down => Direction::Right,
        }
    }

    /// How far apart in the index two neighbouring squares of this axis lie.
    pub fn offset(&self, board_size: usize) -> (step: usize)
        ensures
            step == self.spec_offset(board_size as int),
    {
        match self {
            Direction::Right => 1,
            Direction::Down => board_size,
        }
    }
}

/// Whether `index` names a square of a board of `size` rows and columns.
pub open spec fn on_board(size: int, index: int) -> bool {
    0 <= index < size * size
}

/// The square reached from `from` by `amount` steps along `direction`, where there is
/// one: the index must stay on the board, and a step to the right may not leave the row.
pub open spec fn step_by(size: int, direction: Direction, from: int, amount: int) -> Option<int> {
    let to = from + direction.spec_offset(size) * amount;
    if on_board(size, to) && (direction == Direction::Right ==> to / size == from / size) {
        Some(to)
    } else {
        None
    }
}

/// A square of a board of a given size, held as its index: row times size plus column.
#[derive(Debug, Clone, Copy, PartialEq, Eq, Structural, PartialOrd, Ord)]
pub struct Position {
    index: usize,
    board_size: usize,
}

impl Position {
    /// Every position lies on its board, and the squares of that board can be counted.
    #[verifier::type_invariant]
    pub closed spec fn wf(self) -> bool {
        self.index < self.board_size * self.board_size <= usize::MAX
    }

    /// The index of the square.
    pub closed spec fn spec_index(self) -> int {
        self.index as int
    }

    /// The number of rows, and of columns, of the board that the square belongs to.
    pub closed spec fn spec_board_size(self) -> int {
        self.board_size as int
    }

    /// What `wf` says, over the two public names.
    pub proof fn lemma_wf(self)
        requires
            self.wf(),
        ensures
            self.spec_board_size() > 0,
            on_board(self.spec_board_size(), self.spec_index()),
            self.spec_board_size() * self.spec_board_size() <= usize::MAX,
    {
        assert(self.board_size > 0) by (nonlinear_arith)
            requires
                self.index < self.board_size * self.board_size,
        ;
    }

    /// A position is its index and its board size, nothing more.
    pub proof fn lemma_same(self, other: Position)
        requires
            self.spec_index() == other.spec_index(),
            self.spec_board_size() == other.spec_board_size(),
        ensures
            self == other,
    {
    }

    /// The square in a row and a column of a board of the given size.
    pub fn new(board_size: usize, row: usize, column: usize) -> (position: Position)
        requires
            row * board_size + column < board_size * board_size <= usize::MAX,
        ensures
            position.wf(),
            position.spec_board_size() == board_size,
            position.spec_index() == row * board_size + column,
    {
        assert(row * board_size <= row * board_size + column);
        Position { board_size, index: row * board_size + column }
    }

    /// The square with the given index on a board of the given size.
    pub fn at(board_size: usize, index: usize) -> (position: Position)
        requires
            index < board_size * board_size <= usize::MAX,
        ensures
            position.wf(),
            position.spec_board_size() == board_size,
            position.spec_index() == index,
    {
        Position { board_size, index }
    }

    /// The square with the given index on a board of the given size.
    pub fn from_index(&self, board_size: usize, index: usize) -> (position: Position)
        requires
            index < board_size * board_size <= usize::MAX,
        ensures
            position.wf(),
            position.spec_board_size() == board_size,
            position.spec_index() == index,
    {
        Position { board_size, index }
    }

    /// The row of the square, then its column.
    pub fn as_row_column(&self) -> (pair: (usize, usize))
        ensures
            pair.0 == self.spec_index() / self.spec_board_size(),
            pair.1 == self.spec_index() % self.spec_board_size(),
            pair.0 < self.spec_board_size(),
            pair.1 < self.spec_board_size(),
            self.spec_index() == pair.0 * self.spec_board_size() + pair.1,
    {
        proof {
            use_type_invariant(self);
            self.lemma_wf();
            let row = self.index as int / self.board_size as int;
            lemma_fundamental_div_mod(
                self.index as int,
                self.board_size as int,
            );
            assert(row < self.board_size) by (nonlinear_arith)
                requires
                    self.board_size * row <= self.index < self.board_size * self.board_size,
            ;
            vstd::arithmetic::mul::lemma_mul_is_commutative(row, self.board_size as int);
        }
        (self.index / self.board_size, self.index % self.board_size)
    }

    /// The index of the square: its row times the board size, plus its column.
    pub fn as_index(&self) -> (index: usize)
        ensures
            index == self.spec_index(),
            on_board(self.spec_board_size(), index as int),
    {
        proof {
            use_type_invariant(self);
        }
        self.index
    }

    /// The size of the board that the square belongs to.
    pub fn board_size(&self) -> (size: usize)
        ensures
            size == self.spec_board_size(),
            size > 0,
            size * size <= usize::MAX,
    {
        proof {
            use_type_invariant(self);
            self.lemma_wf();
        }
        self.board_size
    }

    /// The square `amount` rows further down, or up where `amount` is negative.
    pub fn add_row(self, amount: isize) -> (position: Position)
        requires
            on_board(self.spec_board_size(), self.spec_index() + amount * self.spec_board_size()),
        ensures
            position.wf(),
            position.spec_board_size() == self.spec_board_size(),
            position.spec_index() == self.spec_index() + amount * self.spec_board_size(),
    {
        self.moved(self.board_size, amount)
    }

    /// The square `amount` places further along the index.
    pub fn add_column(self, amount: isize) -> (position: Position)
        requires
            on_board(self.spec_board_size(), self.spec_index() + amount),
        ensures
            position.wf(),
            position.spec_board_size() == self.spec_board_size(),
            position.spec_index() == self.spec_index() + amount,
    {
        self.moved(1, amount)
    }

    /// The square `amount` steps further along `direction` in the index. The step is not
    /// held to the row: see `try_add_direction`.
    pub fn add_direction(self, direction: Direction, amount: isize) -> (position: Position)
        requires
            on_board(
                self.spec_board_size(),
                self.spec_index() + direction.spec_offset(self.spec_board_size()) * amount,
            ),
        ensures
            position.wf(),
            position.spec_board_size() == self.spec_board_size(),
            position.spec_index() == self.spec_index() + direction.spec_offset(
                self.spec_board_size(),
            ) * amount,
    {
        let step = direction.offset(self.board_size);
        assert(step * amount == amount * step) by (nonlinear_arith);
        self.moved(step, amount)
    }

    /// The square `amount` steps further along `direction`, or `None` where the step
    /// leaves the board or, to the right or to the left, the row.
    pub fn try_add_direction(self, direction: Direction, amount: isize) -> (position: Option<
        Position,
    >)
        ensures
            match position {
                Some(to) => to.wf() && to.spec_board_size() == self.spec_board_size() && step_by(
                    self.spec_board_size(),
                    direction,
                    self.spec_index(),
                    amount as int,
                ) == Some(to.spec_index()),
                None => step_by(
                    self.spec_board_size(),
                    direction,
                    self.spec_index(),
                    amount as int,
                ) is None,
            },
    {
        proof {
            use_type_invariant(self);
        }
        let step = direction.offset(self.board_size);
        let to = Self::target(self.index, step, amount);
        let squares = self.board_size * self.board_size;
        assert(step * amount == amount * step) by (nonlinear_arith);
        if to < 0 || to >= squares as i128 {
            return None;
        }
        let index = to as usize;
        match direction {
            Direction::Right => {
                if index / self.board_size != self.index / self.board_size {
                    return None;
                }
            },
            Direction::Down => {},
        }
        Some(Position { board_size: self.board_size, index })
    }

    /// The index `amount` steps of width `step` away, as a number that cannot overflow.
    fn target(index: usize, step: usize, amount: isize) -> (to: i128)
        ensures
            to == index + amount * step,
    {
        assert(-0x8000_0000_0000_0000 * 0xffff_ffff_ffff_ffff <= amount * step
            <= 0x7fff_ffff_ffff_ffff * 0xffff_ffff_ffff_ffff) by (nonlinear_arith)
            requires
                -0x8000_0000_0000_0000 <= amount <= 0x7fff_ffff_ffff_ffff,
                0 <= step <= 0xffff_ffff_ffff_ffff,
        ;
        index as i128 + (amount as i128) * (step as i128)
    }

    /// The square `amount` steps of width `step` further along the index.
    fn moved(self, step: usize, amount: isize) -> (position: Position)
        requires
            on_board(self.spec_board_size(), self.spec_index() + amount * step),
        ensures
            position.wf(),
            position.spec_board_size() == self.spec_board_size(),
            position.spec_index() == self.spec_index() + amount * step,
    {
        proof {
            use_type_invariant(self);
        }
        let to = Self::target(self.index, step, amount);
        Position { board_size: self.board_size, index: to as usize }
    }
}

/// Where `amount` steps can be made, fewer steps the same way can be made too.
pub proof fn lemma_step_by_between(
    size: int,
    direction: Direction,
    from: int,
    amount: int,
    fewer: int,
)
    requires
        size > 0,
        on_board(size, from),
        step_by(size, direction, from, amount) is Some,
        0 <= fewer <= amount || amount <= fewer <= 0,
    ensures
        step_by(size, direction, from, fewer) == Some(from + direction.spec_offset(size) * fewer),
{
    let s = direction.spec_offset(size);
    let far = from + s * amount;
    let near = from + s * fewer;
    if 0 <= fewer <= amount {
        assert(0 <= s * fewer <= s * amount) by (nonlinear_arith)
            requires
                s >= 1,
                0 <= fewer <= amount,
        ;
        if direction == Direction::Right {
            lemma_div_is_ordered(from, near, size);
            lemma_div_is_ordered(near, far, size);
        }
    } else {
        assert(s * amount <= s * fewer <= 0) by (nonlinear_arith)
            requires
                s >= 1,
                amount <= fewer <= 0,
        ;
        if direction == Direction::Right {
            lemma_div_is_ordered(near, from, size);
            lemma_div_is_ordered(far, near, size);
        }
    }
}

/// Steps made one after the other add up.
pub proof fn lemma_step_by_chain(
    size: int,
    direction: Direction,
    from: int,
    first: int,
    second: int,
)
    requires
        step_by(size, direction, from, first) is Some,
        step_by(size, direction, step_by(size, direction, from, first)->0, second) is Some,
    ensures
        step_by(size, direction, from, first + second) == step_by(
            size,
            direction,
            step_by(size, direction, from, first)->0,
            second,
        ),
{
    let s = direction.spec_offset(size);
    assert(s * (first + second) == s * first + s * second) by (nonlinear_arith);
}

/// Steps in rows and columns: along a row a square is reached where the column stays
/// on the board, along a column where the row stays on the board.
pub proof fn lemma_step_by_rows_columns(size: int, direction: Direction, from: int, amount: int)
    requires
        size > 0,
        on_board(size, from),
    ensures
        step_by(size, direction, from, amount) is Some <==> match direction {
            Direction::Right => 0 <= from % size + amount < size,
            Direction::Down => 0 <= from / size + amount < size,
        },
        step_by(size, direction, from, amount) matches Some(to) ==> match direction {
            Direction::Right => to / size == from / size && to % size == from % size + amount,
            Direction::Down => to / size == from / size + amount && to % size == from % size,
        },
{
    let row = from / size;
    let column = from % size;
    let to = from + direction.spec_offset(size) * amount;
    lemma_fundamental_div_mod(from, size);
    lemma_fundamental_div_mod(to, size);
    assert(0 <= row < size) by (nonlinear_arith)
        requires
            size > 0,
            0 <= column < size,
            from == size * row + column,
            0 <= from < size * size,
    ;
    match direction {
        Direction::Right => {
            if 0 <= column + amount < size {
                lemma_fundamental_div_mod_converse(
                    to,
                    size,
                    row,
                    column + amount,
                );
                assert(0 <= to < size * size) by (nonlinear_arith)
                    requires
                        to == size * row + (column + amount),
                        0 <= column + amount < size,
                        0 <= row < size,
                ;
            }
        },
        Direction::Down => {
            assert(to == size * (row + amount) + column) by (nonlinear_arith)
                requires
                    to == from + size * amount,
                    from == size * row + column,
            ;
            if 0 <= row + amount < size {
                lemma_fundamental_div_mod_converse(
                    to,
                    size,
                    row + amount,
                    column,
                );
                assert(0 <= to < size * size) by (nonlinear_arith)
                    requires
                        to == size * (row + amount) + column,
                        0 <= column < size,
                        0 <= row + amount < size,
                ;
            } else {
                assert(!(0 <= to < size * size)) by (nonlinear_arith)
                    requires
                        to == size * (row + amount) + column,
                        0 <= column < size,
                        !(0 <= row + amount < size),
                        size > 0,
                ;
            }
        },
    }
}

/// A board whose squares can be counted has a side that fits a signed word.
pub proof fn lemma_side_fits(size: usize)
    requires
        size * size <= usize::MAX,
    ensures
        size <= isize::MAX,
{
    if size > isize::MAX {
        assert(size * size > usize::MAX) by (nonlinear_arith)
            requires
                size > isize::MAX,
                isize::MAX >= 0x7fff_ffff,
                usize::MAX == 2 * isize::MAX + 1,
        ;
    }
}

} // verus!
