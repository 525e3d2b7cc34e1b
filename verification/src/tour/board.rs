//! The executable board: a square of `i32` cells behind a view as a grid.

use super::model::{at, cell_count, in_bounds, is_square, mark, UNVISITED};
use vstd::prelude::*;

verus! {

/// The largest board side whose cell count still fits the cell type.
pub const MAX_SIZE: i32 = 46340;

/// Why a board could not be set up.
#[derive(Debug, Clone, Copy, PartialEq, Eq, Structural)]
pub enum ConfigError {
    /// The side length is zero or negative.
    NonPositiveSize,
    /// The side length is so large that the step numbers would not fit a cell.
    SizeTooLarge,
    /// The start cell lies outside the board.
    StartOutOfRange,
}

/// A square board of visitation indices.
#[derive(Debug)]
pub struct Board {
    size: usize,
    total: i32,
    cells: Vec<Vec<i32>>,
}

/// The grid of side `n` in which only `(row, col)` is visited, at step 0.
pub open spec fn fresh_grid(n: int, row: int, col: int) -> Seq<Seq<int>> {
    Seq::new(
        n as nat,
        |r: int|
            Seq::new(
                n as nat,
                |c: int|
                    if r == row && c == col {
                        0int
                    } else {
                        UNVISITED as int
                    },
            ),
    )
}

/// What `Board::new` answers for a side length and a start cell.
pub open spec fn config_check(size: int, row: int, col: int) -> Option<ConfigError> {
    if size <= 0 {
        Some(ConfigError::NonPositiveSize)
    } else if size > MAX_SIZE {
        Some(ConfigError::SizeTooLarge)
    } else if !(0 <= row < size && 0 <= col < size) {
        Some(ConfigError::StartOutOfRange)
    } else {
        None
    }
}

impl View for Board {
    type V = Seq<Seq<int>>;

    closed spec fn view(&self) -> Seq<Seq<int>> {
        Seq::new(
            self.cells@.len(),
            |r: int| Seq::new(self.cells@[r]@.len(), |c: int| self.cells@[r]@[c] as int),
        )
    }
}

impl Board {
    /// The representation is a square of `size` rows, and `total` is its
    /// number of cells.
    pub closed spec fn wf(&self) -> bool {
        &&& 1 <= self.size <= MAX_SIZE
        &&& self.total == self.size * self.size
        &&& self.cells@.len() == self.size
        &&& forall|r: int| 0 <= r < self.size ==> (#[trigger] self.cells@[r])@.len() == self.size
    }

    /// What well-formedness means for the view: a non-empty square of `i32`
    /// values whose cell count fits an `i32`.
    pub proof fn lemma_wf(&self)
        requires
            self.wf(),
        ensures
            is_square(self@),
            1 <= self@.len() <= MAX_SIZE,
            1 <= cell_count(self@) <= i32::MAX,
            forall|r: int, c: int|
                in_bounds(self@, r, c) ==> i32::MIN <= #[trigger] at(self@, r, c) <= i32::MAX,
    {
        let n = self.size as int;
        assert(1 <= n * n <= 46340 * 46340) by (nonlinear_arith)
            requires
                1 <= n <= MAX_SIZE,
        ;
        assert forall|r: int| 0 <= r < self@.len() implies (#[trigger] self@[r]).len()
            == self@.len() by {
            assert(self.cells@[r]@.len() == self.size);
        }
    }

    /// A board of side `size` with the walk standing on its first cell
    /// `(start_row, start_col)`; an error when the side or the cell is invalid.
    pub fn new(size: i32, start_row: i32, start_col: i32) -> (res: Result<Board, ConfigError>)
        ensures
            match res {
                Ok(b) => config_check(size as int, start_row as int, start_col as int).is_none()
                    && b.wf() && b@ == fresh_grid(size as int, start_row as int, start_col as int),
                Err(e) => config_check(size as int, start_row as int, start_col as int) == Some(e),
            },
    {
        if size <= 0 {
            return Err(ConfigError::NonPositiveSize);
        }
        if size > MAX_SIZE {
            return Err(ConfigError::SizeTooLarge);
        }
        if start_row < 0 || start_row >= size || start_col < 0 || start_col >= size {
            return Err(ConfigError::StartOutOfRange);
        }
        let n: usize = size as usize;
        let sr: usize = start_row as usize;
        let sc: usize = start_col as usize;
        assert(size * size <= 46340 * 46340) by (nonlinear_arith)
            requires
                1 <= size <= 46340,
        ;
        let mut cells: Vec<Vec<i32>> = Vec::new();
        let mut r: usize = 0;
        while r < n
            invariant
                r <= n,
                sr < n,
                sc < n,
                cells@.len() == r,
                forall|i: int| 0 <= i < r ==> (#[trigger] cells@[i])@.len() == n,
                forall|i: int, j: int|
                    0 <= i < r && 0 <= j < n ==> (#[trigger] cells@[i]@[j]) == (if i == sr && j
                        == sc {
                        0i32
                    } else {
                        UNVISITED
                    }),
            decreases n - r,
        {
            let mut row: Vec<i32> = Vec::new();
            let mut c: usize = 0;
            while c < n
                invariant
                    c <= n,
                    row@.len() == c,
                    forall|j: int|
                        0 <= j < c ==> (#[trigger] row@[j]) == (if r == sr && j == sc {
                            0i32
                        } else {
                            UNVISITED
                        }),
                decreases n - c,
            {
                if r == sr && c == sc {
                    row.push(0);
                } else {
                    row.push(UNVISITED);
                }
                c += 1;
            }
            cells.push(row);
            r += 1;
        }
        let board = Board { size: n, total: size * size, cells };
        assert(board@ =~~= fresh_grid(size as int, start_row as int, start_col as int));
        Ok(board)
    }

    /// The side length.
    pub fn size(&self) -> (n: usize)
        requires
            self.wf(),
        ensures
            n == self@.len(),
    {
        self.size
    }

    /// The number of cells.
    pub fn cell_total(&self) -> (t: i32)
        requires
            self.wf(),
        ensures
            t == cell_count(self@),
    {
        self.total
    }

    /// The value of cell `(row, col)`.
    pub fn get(&self, row: usize, col: usize) -> (v: i32)
        requires
            self.wf(),
            in_bounds(self@, row as int, col as int),
        ensures
            v == at(self@, row as int, col as int),
    {
        self.cells[row][col]
    }

    /// Writes `value` into cell `(row, col)`.
    pub fn set(&mut self, row: usize, col: usize, value: i32)
        requires
            old(self).wf(),
            in_bounds(old(self)@, row as int, col as int),
        ensures
            final(self).wf(),
            final(self)@ == mark(old(self)@, row as int, col as int, value as int),
    {
        self.cells[row][col] = value;
        assert(self@ =~~= mark(old(self)@, row as int, col as int, value as int));
    }
}

} // verus!
