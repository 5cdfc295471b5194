//! The mathematical model of the Reversi rules.
//!
//! A board position is a `Seq<Cell>` of length `SIZE`, addressed row-major.
//! A candidate move captures along one of the eight compass directions when a
//! straight run of opponent tiles starting next to the move ends on a tile of
//! the mover: the "sandwich".  This module defines legality, the set of cells
//! a move flips, the board that results from a move, and the counting facts
//! that relate them.

use vstd::prelude::*;
use crate::board::{Cell, Player, opposite, WIDTH, HEIGHT, SIZE, count_upto, count_cells,
    occupied_count};

verus! {

/// Whether column `x` of row `y` is a position on the board.
pub open spec fn in_bounds(x: int, y: int) -> bool {
    0 <= x < WIDTH as int && 0 <= y < HEIGHT as int
}

/// The linear index of the cell in column `x` of row `y`.
pub open spec fn cell_index(x: int, y: int) -> int {
    x + y * (WIDTH as int)
}

/// The column of the cell with linear index `i`.
pub open spec fn col_of(i: int) -> int {
    i % (WIDTH as int)
}

/// The row of the cell with linear index `i`.
pub open spec fn row_of(i: int) -> int {
    i / (WIDTH as int)
}

/// The column step of compass direction `d`, for `0 <= d < 8`.
pub open spec fn dir_dx(d: int) -> int {
    if d == 0 {
        0
    } else if d == 1 {
        1
    } else if d == 2 {
        1
    } else if d == 3 {
        1
    } else if d == 4 {
        0
    } else if d == 5 {
        -1
    } else if d == 6 {
        -1
    } else {
        -1
    }
}

/// The row step of compass direction `d`, for `0 <= d < 8`.
pub open spec fn dir_dy(d: int) -> int {
    if d == 0 {
        1
    } else if d == 1 {
        1
    } else if d == 2 {
        0
    } else if d == 3 {
        -1
    } else if d == 4 {
        -1
    } else if d == 5 {
        -1
    } else if d == 6 {
        0
    } else {
        1
    }
}

/// The column reached after `k` steps from column `x` in direction `d`.
pub open spec fn ray_x(x: int, d: int, k: int) -> int {
    x + k * dir_dx(d)
}

/// The row reached after `k` steps from row `y` in direction `d`.
pub open spec fn ray_y(y: int, d: int, k: int) -> int {
    y + k * dir_dy(d)
}

/// Whether the cell `k` steps from `(x, y)` in direction `d` is on the board.
pub open spec fn ray_in_bounds(x: int, y: int, d: int, k: int) -> bool {
    in_bounds(ray_x(x, d, k), ray_y(y, d, k))
}

/// The cell `k` steps from `(x, y)` in direction `d`.
pub open spec fn ray_cell(b: Seq<Cell>, x: int, y: int, d: int, k: int) -> Cell {
    b[cell_index(ray_x(x, d, k), ray_y(y, d, k))]
}

/// Whether the cell `k` steps from `(x, y)` in direction `d` is on the board
/// and holds a tile of `p`'s opponent.
pub open spec fn opponent_at(b: Seq<Cell>, p: Player, x: int, y: int, d: int, k: int) -> bool {
    ray_in_bounds(x, y, d, k) && ray_cell(b, x, y, d, k) == Cell::Player(opposite(p))
}

/// Whether a tile of `p` placed at `(x, y)` sandwiches exactly `n` opponent
/// tiles in direction `d`: the first `n` steps land on opponent tiles and
/// step `n + 1` lands on a tile of `p`.
pub open spec fn captures_to(b: Seq<Cell>, p: Player, x: int, y: int, d: int, n: int) -> bool {
    &&& 1 <= n
    &&& forall|k: int| 1 <= k <= n ==> #[trigger] opponent_at(b, p, x, y, d, k)
    &&& ray_in_bounds(x, y, d, n + 1)
    &&& ray_cell(b, x, y, d, n + 1) == Cell::Player(p)
}

/// Whether a tile of `p` placed at `(x, y)` captures in direction `d`.
pub open spec fn dir_captures(b: Seq<Cell>, p: Player, x: int, y: int, d: int) -> bool {
    exists|n: int| captures_to(b, p, x, y, d, n)
}

/// Whether the cell with index `j` is flipped in direction `d` when `p`
/// plays at `(x, y)`.
pub open spec fn flipped_in_dir(
    b: Seq<Cell>,
    p: Player,
    x: int,
    y: int,
    d: int,
    j: int,
) -> bool {
    exists|n: int, k: int|
        captures_to(b, p, x, y, d, n) && 1 <= k <= n && j == cell_index(
            ray_x(x, d, k),
            ray_y(y, d, k),
        )
}

/// Whether the cell with index `j` is flipped when `p` plays at the cell
/// with index `i`.
pub open spec fn flips_cell(b: Seq<Cell>, p: Player, i: int, j: int) -> bool {
    exists|d: int| 0 <= d < 8 && flipped_in_dir(b, p, col_of(i), row_of(i), d, j)
}

/// Whether playing the cell with index `i` is a legal move for `p`: the cell
/// is empty and at least one direction captures.
pub open spec fn is_legal(b: Seq<Cell>, p: Player, i: int) -> bool {
    &&& 0 <= i < SIZE as int
    &&& b[i] == Cell::Empty
    &&& exists|d: int| 0 <= d < 8 && dir_captures(b, p, col_of(i), row_of(i), d)
}

/// The board after `p` plays the cell with index `i`: the target and every
/// flipped cell now hold a tile of `p`; every other cell is unchanged.
pub open spec fn play_board(b: Seq<Cell>, p: Player, i: int) -> Seq<Cell> {
    Seq::new(
        b.len(),
        |j: int|
            if j == i || flips_cell(b, p, i, j) {
                Cell::Player(p)
            } else {
                b[j]
            },
    )
}

/// How many of the first `n` cells are flipped when `p` plays the cell with
/// index `i`.
pub open spec fn flip_count_upto(b: Seq<Cell>, p: Player, i: int, n: int) -> int
    decreases n,
{
    if n <= 0 {
        0
    } else {
        flip_count_upto(b, p, i, n - 1) + if flips_cell(b, p, i, n - 1) {
            1int
        } else {
            0int
        }
    }
}

/// How many cells are flipped when `p` plays the cell with index `i`.
pub open spec fn flip_count(b: Seq<Cell>, p: Player, i: int) -> int {
    flip_count_upto(b, p, i, SIZE as int)
}

/// The legal moves of `p` among the cells with index below `n`, in
/// ascending order.
pub open spec fn legal_upto(b: Seq<Cell>, p: Player, n: int) -> Seq<usize>
    decreases n,
{
    if n <= 0 {
        Seq::empty()
    } else if is_legal(b, p, n - 1) {
        legal_upto(b, p, n - 1).push((n - 1) as usize)
    } else {
        legal_upto(b, p, n - 1)
    }
}

/// All legal moves of `p`, as cell indices in ascending order.
pub open spec fn legal_moves(b: Seq<Cell>, p: Player) -> Seq<usize> {
    legal_upto(b, p, SIZE as int)
}

/// Whether `p` has any legal move.
pub open spec fn has_legal_move(b: Seq<Cell>, p: Player) -> bool {
    exists|i: int| is_legal(b, p, i)
}

/// The player holding strictly more tiles, if any.
pub open spec fn winner(b: Seq<Cell>) -> Option<Player> {
    let one = count_cells(b, Cell::Player(Player::One));
    let two = count_cells(b, Cell::Player(Player::Two));
    if one > two {
        Some(Player::One)
    } else if two > one {
        Some(Player::Two)
    } else {
        None
    }
}

/// Whether the legal move at index `i` immediately wins for `candidate`:
/// after the move the opponent has no legal answer and `candidate` holds
/// strictly more tiles.
pub open spec fn winning_move(b: Seq<Cell>, p: Player, i: int, candidate: Player) -> bool {
    let after = play_board(b, p, i);
    winner(after) == Some(candidate) && !has_legal_move(after, opposite(p))
}


/// An on-board coordinate pair has a cell index on the board, and the index
/// decomposes back into the same coordinates.
pub proof fn lemma_cell_index_bounds(x: int, y: int)
    requires
        in_bounds(x, y),
    ensures
        0 <= cell_index(x, y) < SIZE as int,
        col_of(cell_index(x, y)) == x,
        row_of(cell_index(x, y)) == y,
{
}

/// A direction captures at most one run length: the sandwich is unique.
pub proof fn lemma_captures_unique(
    b: Seq<Cell>,
    p: Player,
    x: int,
    y: int,
    d: int,
    n1: int,
    n2: int,
)
    requires
        captures_to(b, p, x, y, d, n1),
        captures_to(b, p, x, y, d, n2),
    ensures
        n1 == n2,
{
    if n1 < n2 {
        assert(opponent_at(b, p, x, y, d, n1 + 1));
    }
    if n2 < n1 {
        assert(opponent_at(b, p, x, y, d, n2 + 1));
    }
}

/// A flipped cell is on the board, holds an opponent tile, and is not the
/// cell being played.
pub proof fn lemma_flips_props(b: Seq<Cell>, p: Player, i: int, j: int)
    requires
        0 <= i < SIZE as int,
        b[i] == Cell::Empty,
        flips_cell(b, p, i, j),
    ensures
        0 <= j < SIZE as int,
        b[j] == Cell::Player(opposite(p)),
        j != i,
{
    let x = col_of(i);
    let y = row_of(i);
    let d = choose|d: int| 0 <= d < 8 && flipped_in_dir(b, p, x, y, d, j);
    let (n, k) = choose|n: int, k: int|
        captures_to(b, p, x, y, d, n) && 1 <= k <= n && j == cell_index(
            ray_x(x, d, k),
            ray_y(y, d, k),
        );
    assert(opponent_at(b, p, x, y, d, k));
    lemma_cell_index_bounds(ray_x(x, d, k), ray_y(y, d, k));
}

/// Prefix flip counts are non-negative.
proof fn lemma_flip_count_upto_nonneg(b: Seq<Cell>, p: Player, i: int, n: int)
    ensures
        flip_count_upto(b, p, i, n) >= 0,
    decreases n,
{
    if n > 0 {
        lemma_flip_count_upto_nonneg(b, p, i, n - 1);
    }
}

/// A prefix that covers some flipped cell counts at least one flip.
proof fn lemma_flip_count_upto_pos(b: Seq<Cell>, p: Player, i: int, j: int, n: int)
    requires
        0 <= j < n,
        flips_cell(b, p, i, j),
    ensures
        flip_count_upto(b, p, i, n) >= 1,
    decreases n,
{
    if j == n - 1 {
        lemma_flip_count_upto_nonneg(b, p, i, n - 1);
    } else {
        lemma_flip_count_upto_pos(b, p, i, j, n - 1);
    }
}

/// How one prefix of the board after a move counts cells, compared to the
/// same prefix before the move.
proof fn lemma_play_count_upto(b: Seq<Cell>, p: Player, i: int, n: int)
    requires
        b.len() == SIZE as int,
        is_legal(b, p, i),
        0 <= n <= SIZE as int,
    ensures
        count_upto(play_board(b, p, i), Cell::Player(p), n) == count_upto(b, Cell::Player(p), n)
            + flip_count_upto(b, p, i, n) + if i < n {
            1int
        } else {
            0int
        },
        count_upto(play_board(b, p, i), Cell::Player(opposite(p)), n) == count_upto(
            b,
            Cell::Player(opposite(p)),
            n,
        ) - flip_count_upto(b, p, i, n),
        count_upto(play_board(b, p, i), Cell::Empty, n) == count_upto(b, Cell::Empty, n) - if i
            < n {
            1int
        } else {
            0int
        },
    decreases n,
{
    if n > 0 {
        lemma_play_count_upto(b, p, i, n - 1);
        let j = n - 1;
        if flips_cell(b, p, i, j) {
            lemma_flips_props(b, p, i, j);
        }
    }
}

/// Playing a legal move gives the mover one placed tile plus every flipped
/// tile, takes the flipped tiles from the opponent, and fills exactly one
/// empty cell.
pub proof fn lemma_play_counts(b: Seq<Cell>, p: Player, i: int)
    requires
        b.len() == SIZE as int,
        is_legal(b, p, i),
    ensures
        play_board(b, p, i).len() == SIZE as int,
        count_cells(play_board(b, p, i), Cell::Player(p)) == count_cells(b, Cell::Player(p)) + 1
            + flip_count(b, p, i),
        count_cells(play_board(b, p, i), Cell::Player(opposite(p))) == count_cells(
            b,
            Cell::Player(opposite(p)),
        ) - flip_count(b, p, i),
        count_cells(play_board(b, p, i), Cell::Empty) == count_cells(b, Cell::Empty) - 1,
        occupied_count(play_board(b, p, i)) == occupied_count(b) + 1,
        flip_count(b, p, i) >= 1,
{
    lemma_play_count_upto(b, p, i, SIZE as int);
    let x = col_of(i);
    let y = row_of(i);
    let d = choose|d: int| 0 <= d < 8 && dir_captures(b, p, x, y, d);
    let n = choose|n: int| captures_to(b, p, x, y, d, n);
    assert(opponent_at(b, p, x, y, d, 1));
    let j0 = cell_index(ray_x(x, d, 1), ray_y(y, d, 1));
    assert(flipped_in_dir(b, p, x, y, d, j0)) by {
        assert(captures_to(b, p, x, y, d, n) && 1 <= 1 <= n && j0 == cell_index(
            ray_x(x, d, 1),
            ray_y(y, d, 1),
        ));
    }
    assert(flips_cell(b, p, i, j0));
    lemma_flips_props(b, p, i, j0);
    lemma_flip_count_upto_pos(b, p, i, j0, SIZE as int);
}

/// A legal move targets an empty cell and flips at least one opponent tile.
pub proof fn lemma_legal_move_properties(b: Seq<Cell>, p: Player, i: int)
    requires
        b.len() == SIZE as int,
        is_legal(b, p, i),
    ensures
        b[i] == Cell::Empty,
        flip_count(b, p, i) >= 1,
{
    lemma_play_counts(b, p, i);
}

/// What the ascending list of legal moves below `n` contains: exactly the
/// legal indices below `n`, in strictly increasing order.
pub proof fn lemma_legal_upto_props(b: Seq<Cell>, p: Player, n: int)
    requires
        0 <= n <= SIZE as int,
    ensures
        forall|t: int|
            0 <= t < legal_upto(b, p, n).len() ==> is_legal(
                b,
                p,
                #[trigger] legal_upto(b, p, n)[t] as int,
            ) && legal_upto(b, p, n)[t] < n,
        forall|j: int|
            0 <= j < n && is_legal(b, p, j) ==> legal_upto(b, p, n).contains(j as usize),
        forall|t1: int, t2: int|
            0 <= t1 < t2 < legal_upto(b, p, n).len() ==> legal_upto(b, p, n)[t1] < legal_upto(
                b,
                p,
                n,
            )[t2],
    decreases n,
{
    if n > 0 {
        lemma_legal_upto_props(b, p, n - 1);
        let prev = legal_upto(b, p, n - 1);
        let cur = legal_upto(b, p, n);
        if is_legal(b, p, n - 1) {
            assert forall|j: int| 0 <= j < n && is_legal(b, p, j) implies cur.contains(
                j as usize,
            ) by {
                if j == n - 1 {
                    assert(cur[cur.len() - 1] == j as usize);
                } else {
                    let t = choose|t: int| 0 <= t < prev.len() && prev[t] == j as usize;
                    assert(cur[t] == j as usize);
                }
            }
        } else {
            assert forall|j: int| 0 <= j < n && is_legal(b, p, j) implies cur.contains(
                j as usize,
            ) by {
                let t = choose|t: int| 0 <= t < prev.len() && prev[t] == j as usize;
                assert(cur[t] == j as usize);
            }
        }
    }
}

/// The list of all legal moves is empty exactly when no legal move exists.
pub proof fn lemma_legal_moves_iff(b: Seq<Cell>, p: Player)
    ensures
        legal_moves(b, p).len() == 0 <==> !has_legal_move(b, p),
        forall|t: int|
            0 <= t < legal_moves(b, p).len() ==> is_legal(
                b,
                p,
                #[trigger] legal_moves(b, p)[t] as int,
            ),
{
    lemma_legal_upto_props(b, p, SIZE as int);
    if has_legal_move(b, p) {
        let i = choose|i: int| is_legal(b, p, i);
        assert(legal_moves(b, p).contains(i as usize));
    }
    if legal_moves(b, p).len() > 0 {
        assert(is_legal(b, p, legal_moves(b, p)[0] as int));
    }
}


/// One more step along a ray moves by one direction offset.
pub proof fn lemma_ray_step(x: int, y: int, d: int, k: int)
    ensures
        ray_x(x, d, k + 1) == ray_x(x, d, k) + dir_dx(d),
        ray_y(y, d, k + 1) == ray_y(y, d, k) + dir_dy(d),
{
    assert((k + 1) * dir_dx(d) == k * dir_dx(d) + dir_dx(d)) by (nonlinear_arith);
    assert((k + 1) * dir_dy(d) == k * dir_dy(d) + dir_dy(d)) by (nonlinear_arith);
}

/// A ray from an on-board cell leaves the board after at most seven steps.
pub proof fn lemma_step_bound(x: int, y: int, d: int, k: int)
    requires
        0 <= d < 8,
        in_bounds(x, y),
        1 <= k,
        ray_in_bounds(x, y, d, k),
    ensures
        k <= 7,
{
    let dx = dir_dx(d);
    let dy = dir_dy(d);
    assert(k * dx == if dx == 1 {
        k
    } else if dx == -1 {
        -k
    } else {
        0int
    }) by (nonlinear_arith)
        requires
            dx == 1 || dx == -1 || dx == 0,
    ;
    assert(k * dy == if dy == 1 {
        k
    } else if dy == -1 {
        -k
    } else {
        0int
    }) by (nonlinear_arith)
        requires
            dy == 1 || dy == -1 || dy == 0,
    ;
}
} // verus!
