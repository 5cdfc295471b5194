//! The game board: a fixed-size row-major grid of cells.
//!
//! The board knows nothing about the rules of Reversi; it only stores cells
//! and answers bounds and counting questions about them.

use vstd::prelude::*;

verus! {

/// Number of columns of the board.
pub const WIDTH: usize = 8;
/// Number of rows of the board.
pub const HEIGHT: usize = 8;
/// Number of cells of the board.
pub const SIZE: usize = WIDTH * HEIGHT;

/// One of the two players.
#[derive(Copy, Clone, Debug, PartialEq, Eq, Structural)]
pub enum Player {
    One,
    Two,
}

/// The adversary of `p`.
pub open spec fn opposite(p: Player) -> Player {
    match p {
        Player::One => Player::Two,
        Player::Two => Player::One,
    }
}

impl Player {
    /// The adversary of `self`.
    pub fn opponent(&self) -> (r: Self)
        ensures
            r == opposite(*self),
    {
        match self {
            Player::One => Player::Two,
            Player::Two => Player::One,
        }
    }
}

/// Taking the opponent twice leads back to the same player.
pub proof fn lemma_opponent_involutive(p: Player)
    ensures
        opposite(opposite(p)) == p,
{
}

/// The state of a single board cell.
#[derive(Copy, Clone, Debug, PartialEq, Eq, Structural)]
pub enum Cell {
    Empty,
    Player(Player),
}

/// The character that stands for `c` in the textual board format.
pub open spec fn char_of_cell(c: Cell) -> char {
    match c {
        Cell::Empty => '-',
        Cell::Player(Player::One) => 'X',
        Cell::Player(Player::Two) => 'O',
    }
}

impl Cell {
    /// The character that stands for this cell in the textual board format.
    pub fn to_char(&self) -> (r: char)
        ensures
            r == char_of_cell(*self),
    {
        match self {
            Cell::Empty => '-',
            Cell::Player(Player::One) => 'X',
            Cell::Player(Player::Two) => 'O',
        }
    }
}

/// The linear index of the cell in column `x` of row `y`.
pub fn at_pos(x: usize, y: usize) -> (r: usize)
    requires
        x < WIDTH,
        y < HEIGHT,
    ensures
        r == x + y * WIDTH,
{
    x + y * WIDTH
}

/// How many of the first `n` cells of `b` hold the value `c`.
pub open spec fn count_upto(b: Seq<Cell>, c: Cell, n: int) -> int
    decreases n,
{
    if n <= 0 {
        0
    } else {
        count_upto(b, c, n - 1) + if b[n - 1] == c {
            1int
        } else {
            0int
        }
    }
}

/// How many cells of `b` hold the value `c`.
pub open spec fn count_cells(b: Seq<Cell>, c: Cell) -> int {
    count_upto(b, c, b.len() as int)
}

/// How many cells of `b` are occupied by either player.
pub open spec fn occupied_count(b: Seq<Cell>) -> int {
    b.len() - count_cells(b, Cell::Empty)
}

/// A prefix count never goes below zero nor above the prefix length.
pub proof fn lemma_count_upto_bounds(b: Seq<Cell>, c: Cell, n: int)
    ensures
        0 <= count_upto(b, c, n) <= if n <= 0 {
            0int
        } else {
            n
        },
    decreases n,
{
    if n > 0 {
        lemma_count_upto_bounds(b, c, n - 1);
    }
}

/// The internal state of the game board: one cell per grid position,
/// stored row by row.
#[derive(Clone, Debug, PartialEq)]
pub struct Board {
    cells: Vec<Cell>,
}

impl View for Board {
    type V = Seq<Cell>;

    closed spec fn view(&self) -> Seq<Cell> {
        self.cells@
    }
}

impl Board {
    /// A well-formed board holds exactly one cell per grid position.
    pub open spec fn wf(&self) -> bool {
        self@.len() == SIZE
    }

    /// A board with every cell empty.
    pub fn new() -> (r: Board)
        ensures
            r@.len() == SIZE,
            forall|i: int| 0 <= i < SIZE ==> r@[i] == Cell::Empty,
    {
        let mut cells: Vec<Cell> = Vec::new();
        let mut i: usize = 0;
        while i < SIZE
            invariant
                i <= SIZE,
                cells@.len() == i,
                forall|j: int| 0 <= j < i ==> cells@[j] == Cell::Empty,
            decreases SIZE - i,
        {
            cells.push(Cell::Empty);
            i = i + 1;
        }
        Board { cells }
    }

    /// How many tiles have been placed, i.e. how many cells are occupied.
    pub fn total_moves(&self) -> (n: usize)
        requires
            self.wf(),
        ensures
            n == occupied_count(self@),
    {
        let mut n: usize = 0;
        let mut i: usize = 0;
        while i < SIZE
            invariant
                i <= SIZE,
                self@.len() == SIZE,
                n == i - count_upto(self@, Cell::Empty, i as int),
            decreases SIZE - i,
        {
            proof {
                lemma_count_upto_bounds(self@, Cell::Empty, i as int);
            }
            if self.cells[i] != Cell::Empty {
                n = n + 1;
            }
            i = i + 1;
        }
        n
    }

    /// The cell in column `x` of row `y`.
    pub fn get_cell(&self, x: usize, y: usize) -> (r: Cell)
        requires
            self.wf(),
            x < WIDTH,
            y < HEIGHT,
        ensures
            r == self@[x + y * WIDTH],
    {
        self.cells[at_pos(x, y)]
    }

    /// Overwrite the cell in column `x` of row `y`.
    pub fn set_cell(&mut self, x: usize, y: usize, cell: Cell)
        requires
            old(self).wf(),
            x < WIDTH,
            y < HEIGHT,
        ensures
            final(self)@ == old(self)@.update((x + y * WIDTH) as int, cell),
    {
        let i = at_pos(x, y);
        self.cells.set(i, cell);
    }

    /// Overwrite the cell with linear index `idx`.
    pub fn set_cell_idx(&mut self, idx: usize, cell: Cell)
        requires
            old(self).wf(),
            idx < SIZE,
        ensures
            final(self)@ == old(self)@.update(idx as int, cell),
    {
        self.cells.set(idx, cell);
    }

    /// The cell with linear index `idx`.
    pub fn get_cell_idx(&self, idx: usize) -> (r: Cell)
        requires
            self.wf(),
            idx < SIZE,
        ensures
            r == self@[idx as int],
    {
        self.cells[idx]
    }

    /// Whether column `x` of row `y` is a position on the board.
    pub fn on_board(&self, x: usize, y: usize) -> (r: bool)
        ensures
            r == (x < WIDTH && y < HEIGHT),
    {
        x < WIDTH && y < HEIGHT
    }

    /// The cells of the board from left to right, top to bottom.
    pub fn cells_row_major(&self) -> (r: Vec<Cell>)
        requires
            self.wf(),
        ensures
            r@ == self@,
    {
        let mut r: Vec<Cell> = Vec::new();
        let mut i: usize = 0;
        while i < SIZE
            invariant
                i <= SIZE,
                self@.len() == SIZE,
                r@ == self@.subrange(0, i as int),
            decreases SIZE - i,
        {
            r.push(self.cells[i]);
            proof {
                assert(r@ =~= self@.subrange(0, i + 1));
            }
            i = i + 1;
        }
        proof {
            assert(r@ =~= self@);
        }
        r
    }

    /// An independent copy of the board.
    pub fn duplicate(&self) -> (r: Board)
        requires
            self.wf(),
        ensures
            r@ == self@,
    {
        Board { cells: self.cells_row_major() }
    }
}

} // verus!
