//! The rules engine: a board together with the player to move.
//!
//! `Game` validates and applies moves, enumerates the legal moves of the
//! player to move, and reports the winning player.  Its contracts are stated
//! over the model in [`crate::rules`].

use vstd::prelude::*;
use crate::board::{Board, Cell, Player, opposite, WIDTH, HEIGHT, SIZE, at_pos};
use crate::board::count_upto;
use crate::rules::{
    in_bounds, cell_index, col_of, row_of, dir_dx, dir_dy, ray_x, ray_y, opponent_at, captures_to,
    dir_captures, flipped_in_dir, flips_cell, is_legal, play_board, legal_upto, legal_moves,
    winner, winning_move, lemma_cell_index_bounds, lemma_captures_unique, lemma_legal_moves_iff,
    lemma_ray_step, lemma_step_bound,
};

verus! {

broadcast use vstd::seq_lib::lemma_seq_contains_after_push;

/// The abstract state of a game: the board position and the player to move.
pub ghost struct GameView {
    pub board: Seq<Cell>,
    pub player: Player,
}

/// Why an operation on a game failed.
#[derive(Copy, Clone, Debug, PartialEq, Eq, Structural)]
pub enum GameError {
    /// The requested move is not in the current legal-move set.
    InvalidMove,
    /// A textual layout has too many rows or columns, or an unknown character.
    MalformedLayout,
    /// The move markers of a validated textual layout disagree with the
    /// recomputed legal-move set.
    MovesMismatch,
}

/// The canonical Reversi opening position: four center tiles, two per
/// player, diagonally opposed.
pub open spec fn opening_board() -> Seq<Cell> {
    Seq::new(
        SIZE as nat,
        |i: int|
            if i == cell_index(3, 3) || i == cell_index(4, 4) {
                Cell::Player(Player::One)
            } else if i == cell_index(4, 3) || i == cell_index(3, 4) {
                Cell::Player(Player::Two)
            } else {
                Cell::Empty
            },
    )
}

/// The game reached from the canonical opening by the given steps, each a
/// legal move index or `None` for a pass, or `None` when some step names a
/// move that is not legal at that point.
pub open spec fn run_moves(ms: Seq<Option<usize>>) -> Option<GameView>
    decreases ms.len(),
{
    if ms.len() == 0 {
        Some(GameView { board: opening_board(), player: Player::One })
    } else {
        match run_moves(ms.drop_last()) {
            None => None,
            Some(g) => match ms.last() {
                None => Some(GameView { board: g.board, player: opposite(g.player) }),
                Some(m) => if is_legal(g.board, g.player, m as int) {
                    Some(
                        GameView {
                            board: play_board(g.board, g.player, m as int),
                            player: opposite(g.player),
                        },
                    )
                } else {
                    None
                },
            },
        }
    }
}

/// Whether a game state can be reached from the canonical opening through
/// legal moves and passes.
pub open spec fn reachable(g: GameView) -> bool {
    exists|ms: Seq<Option<usize>>| run_moves(ms) == Some(g)
}

/// Along any run from the opening, the board keeps its size and its four
/// center cells stay occupied: a placed tile is never removed.
proof fn lemma_run_moves_center(ms: Seq<Option<usize>>)
    ensures
        run_moves(ms) matches Some(g) ==> {
            &&& g.board.len() == SIZE
            &&& g.board[cell_index(3, 3)] != Cell::Empty
            &&& g.board[cell_index(3, 4)] != Cell::Empty
            &&& g.board[cell_index(4, 3)] != Cell::Empty
            &&& g.board[cell_index(4, 4)] != Cell::Empty
        },
    decreases ms.len(),
{
    if ms.len() > 0 {
        lemma_run_moves_center(ms.drop_last());
    }
}

/// Every reachable game has a full-size board whose four center cells are
/// occupied.
pub proof fn lemma_reachable_center_occupied(g: GameView)
    requires
        reachable(g),
    ensures
        g.board.len() == SIZE,
        g.board[cell_index(3, 3)] != Cell::Empty,
        g.board[cell_index(3, 4)] != Cell::Empty,
        g.board[cell_index(4, 3)] != Cell::Empty,
        g.board[cell_index(4, 4)] != Cell::Empty,
{
    let ms = choose|ms: Seq<Option<usize>>| run_moves(ms) == Some(g);
    lemma_run_moves_center(ms);
}

/// The current state of a Reversi game.
#[derive(Clone, Debug, PartialEq)]
pub struct Game {
    pub(crate) board: Board,
    pub(crate) current_player: Player,
}

impl View for Game {
    type V = GameView;

    closed spec fn view(&self) -> GameView {
        GameView { board: self.board@, player: self.current_player }
    }
}

impl Game {
    /// A well-formed game holds a full-size board.
    pub open spec fn wf(&self) -> bool {
        self@.board.len() == SIZE
    }

    /// The view of a game is its board view and its player to move.
    pub(crate) proof fn lemma_view(&self)
        ensures
            self@.board == self.board@,
            self@.player == self.current_player,
    {
    }

    /// A new game in the canonical opening position, with player One to move.
    pub fn new() -> (r: Game)
        ensures
            r.wf(),
            r@.board == opening_board(),
            r@.player == Player::One,
    {
        let mut board = Board::new();

        board.set_cell(3, 3, Cell::Player(Player::One));
        board.set_cell(4, 4, Cell::Player(Player::One));

        board.set_cell(3, 4, Cell::Player(Player::Two));
        board.set_cell(4, 3, Cell::Player(Player::Two));

        proof {
            assert(board@ =~= opening_board());
        }
        Game { board, current_player: Player::One }
    }

    /// Hand the turn to the opponent without touching the board: a pass.
    ///
    /// The engine does not check that the player to move is actually out of
    /// legal moves; that is the caller's responsibility.
    pub fn swap_players(&mut self)
        ensures
            final(self)@.board == old(self)@.board,
            final(self)@.player == opposite(old(self)@.player),
    {
        self.current_player = self.current_player.opponent();
    }

    /// An independent copy of the game, sharing no state with the original.
    pub fn duplicate(&self) -> (r: Game)
        requires
            self.wf(),
        ensures
            r.wf(),
            r@ == self@,
    {
        Game { board: self.board.duplicate(), current_player: self.current_player }
    }

    /// The player holding strictly more tiles, or `None` on a tie.
    fn winning_player(&self) -> (r: Option<Player>)
        requires
            self.wf(),
        ensures
            r == winner(self@.board),
    {
        let ghost b = self@.board;
        let mut one: usize = 0;
        let mut two: usize = 0;
        let mut i: usize = 0;
        while i < SIZE
            invariant
                i <= SIZE,
                self.wf(),
                b == self@.board,
                one == count_upto(b, Cell::Player(Player::One), i as int),
                two == count_upto(b, Cell::Player(Player::Two), i as int),
            decreases SIZE - i,
        {
            proof {
                crate::board::lemma_count_upto_bounds(b, Cell::Player(Player::One), i as int);
                crate::board::lemma_count_upto_bounds(b, Cell::Player(Player::Two), i as int);
            }
            match self.board.get_cell_idx(i) {
                Cell::Player(Player::One) => {
                    one = one + 1;
                },
                Cell::Player(Player::Two) => {
                    two = two + 1;
                },
                Cell::Empty => {},
            }
            i = i + 1;
        }
        if one > two {
            Some(Player::One)
        } else if two > one {
            Some(Player::Two)
        } else {
            None
        }
    }
}

/// The column and row steps of compass direction `d`.
fn direction(d: usize) -> (r: (isize, isize))
    requires
        d < 8,
    ensures
        r.0 as int == dir_dx(d as int),
        r.1 as int == dir_dy(d as int),
{
    if d == 0 {
        (0isize, 1isize)
    } else if d == 1 {
        (1isize, 1isize)
    } else if d == 2 {
        (1isize, 0isize)
    } else if d == 3 {
        (1isize, -1isize)
    } else if d == 4 {
        (0isize, -1isize)
    } else if d == 5 {
        (-1isize, -1isize)
    } else if d == 6 {
        (-1isize, 0isize)
    } else {
        (-1isize, 1isize)
    }
}

impl Game {
    /// The cell at signed coordinates, or `None` when off the board.
    fn probe(&self, x: isize, y: isize) -> (r: Option<Cell>)
        requires
            self.wf(),
        ensures
            match r {
                Some(c) => in_bounds(x as int, y as int) && c == self@.board[cell_index(
                    x as int,
                    y as int,
                )],
                None => !in_bounds(x as int, y as int),
            },
    {
        if x >= 0 && x < WIDTH as isize && y >= 0 && y < HEIGHT as isize {
            proof {
                lemma_cell_index_bounds(x as int, y as int);
            }
            Some(self.board.get_cell(x as usize, y as usize))
        } else {
            None
        }
    }

    /// Walk compass direction `d` from the candidate cell at
    /// `(x_init, y_init)`: the length of the sandwiched run of opponent
    /// tiles, or 0 when this direction does not capture.
    #[verifier::loop_isolation(false)]
    fn scan_direction(&self, x_init: usize, y_init: usize, d: usize) -> (captured: usize)
        requires
            self.wf(),
            x_init < WIDTH,
            y_init < HEIGHT,
            d < 8,
        ensures
            captured == 0 ==> !dir_captures(
                self@.board,
                self@.player,
                x_init as int,
                y_init as int,
                d as int,
            ),
            captured != 0 ==> captured <= 7 && captures_to(
                self@.board,
                self@.player,
                x_init as int,
                y_init as int,
                d as int,
                captured as int,
            ),
    {
        let ghost b = self@.board;
        let ghost p = self@.player;
        let ghost xg = x_init as int;
        let ghost yg = y_init as int;
        let ghost dg = d as int;

        let dir = direction(d);
        let dx = dir.0;
        let dy = dir.1;
        let x0 = x_init as isize;
        let y0 = y_init as isize;
        let me_tile = Cell::Player(self.current_player);
        let opp_tile = Cell::Player(self.current_player.opponent());

        let first = self.probe(x0 + dx, y0 + dy);
        let first_opp = match first {
            Some(c) => c == opp_tile,
            None => false,
        };
        if !first_opp {
            proof {
                assert forall|n: int| !captures_to(b, p, xg, yg, dg, n) by {
                    if captures_to(b, p, xg, yg, dg, n) {
                        assert(opponent_at(b, p, xg, yg, dg, 1));
                    }
                }
            }
            return 0;
        }
        proof {
            assert(opponent_at(b, p, xg, yg, dg, 1));
        }
        let mut run: usize = 1;
        let mut nx: isize = x0 + dx + dx;
        let mut ny: isize = y0 + dy + dy;
        loop
            invariant
                1 <= run <= 7,
                nx as int == ray_x(xg, dg, run + 1),
                ny as int == ray_y(yg, dg, run + 1),
                forall|t: int| 1 <= t <= run ==> opponent_at(b, p, xg, yg, dg, t),
            decreases 8 - run,
        {
            match self.probe(nx, ny) {
                None => {
                    proof {
                        assert forall|n: int| !captures_to(b, p, xg, yg, dg, n) by {
                            if captures_to(b, p, xg, yg, dg, n) {
                                if n <= run - 1 {
                                    assert(opponent_at(b, p, xg, yg, dg, n + 1));
                                } else if n > run {
                                    assert(opponent_at(b, p, xg, yg, dg, run + 1));
                                }
                            }
                        }
                    }
                    return 0;
                },
                Some(c) => {
                    if c == opp_tile {
                        proof {
                            assert(opponent_at(b, p, xg, yg, dg, run + 1));
                            lemma_step_bound(xg, yg, dg, run + 1);
                            lemma_ray_step(xg, yg, dg, run + 1);
                        }
                        run = run + 1;
                        nx = nx + dx;
                        ny = ny + dy;
                    } else if c == me_tile {
                        proof {
                            assert(captures_to(b, p, xg, yg, dg, run as int));
                        }
                        return run;
                    } else {
                        proof {
                            assert forall|n: int| !captures_to(b, p, xg, yg, dg, n) by {
                                if captures_to(b, p, xg, yg, dg, n) {
                                    if n <= run - 1 {
                                        assert(opponent_at(b, p, xg, yg, dg, n + 1));
                                    } else if n > run {
                                        assert(opponent_at(b, p, xg, yg, dg, run + 1));
                                    }
                                }
                            }
                        }
                        return 0;
                    }
                },
            }
        }
    }

    /// Append to `flips` the indices of the `captured` cells that direction
    /// `d` flips for a move at `(x_init, y_init)`, leaving earlier entries
    /// in place.
    #[verifier::loop_isolation(false)]
    fn push_direction_flips(
        &self,
        x_init: usize,
        y_init: usize,
        d: usize,
        captured: usize,
        flips: &mut Vec<usize>,
    )
        requires
            self.wf(),
            x_init < WIDTH,
            y_init < HEIGHT,
            d < 8,
            1 <= captured <= 7,
            captures_to(
                self@.board,
                self@.player,
                x_init as int,
                y_init as int,
                d as int,
                captured as int,
            ),
        ensures
            old(flips)@.len() <= final(flips)@.len(),
            forall|t: int| 0 <= t < old(flips)@.len() ==> final(flips)@[t] == old(flips)@[t],
            forall|t: int|
                old(flips)@.len() <= t < final(flips)@.len() ==> #[trigger] final(flips)@[t] < SIZE
                    && flipped_in_dir(
                    self@.board,
                    self@.player,
                    x_init as int,
                    y_init as int,
                    d as int,
                    final(flips)@[t] as int,
                ),
            forall|j: int|
                0 <= j < SIZE as int && flipped_in_dir(
                    self@.board,
                    self@.player,
                    x_init as int,
                    y_init as int,
                    d as int,
                    j,
                ) ==> final(flips)@.contains(j as usize),
    {
        let ghost b = self@.board;
        let ghost p = self@.player;
        let ghost xg = x_init as int;
        let ghost yg = y_init as int;
        let ghost dg = d as int;
        let ghost base = flips@;

        let dir = direction(d);
        let dx = dir.0;
        let dy = dir.1;
        let x0 = x_init as isize;
        let y0 = y_init as isize;

        let mut k: usize = 1;
        let mut fx: isize = x0 + dx;
        let mut fy: isize = y0 + dy;
        while k <= captured
            invariant
                1 <= k <= captured + 1,
                fx as int == ray_x(xg, dg, k as int),
                fy as int == ray_y(yg, dg, k as int),
                base.len() <= flips@.len(),
                forall|t: int| 0 <= t < base.len() ==> flips@[t] == base[t],
                forall|t: int|
                    base.len() <= t < flips@.len() ==> #[trigger] flips@[t] < SIZE
                        && flipped_in_dir(b, p, xg, yg, dg, flips@[t] as int),
                forall|kk: int|
                    1 <= kk < k ==> flips@.contains(
                        cell_index(ray_x(xg, dg, kk), ray_y(yg, dg, kk)) as usize,
                    ),
            decreases captured + 1 - k,
        {
            proof {
                assert(opponent_at(b, p, xg, yg, dg, k as int));
                lemma_cell_index_bounds(ray_x(xg, dg, k as int), ray_y(yg, dg, k as int));
                lemma_ray_step(xg, yg, dg, k as int);
            }
            let idx: usize = fx as usize + (fy as usize) * WIDTH;
            proof {
                assert(flipped_in_dir(b, p, xg, yg, dg, idx as int)) by {
                    assert(captures_to(b, p, xg, yg, dg, captured as int) && 1 <= k as int
                        <= captured as int && idx as int == cell_index(
                        ray_x(xg, dg, k as int),
                        ray_y(yg, dg, k as int),
                    ));
                }
            }
            flips.push(idx);
            fx = fx + dx;
            fy = fy + dy;
            k = k + 1;
        }
        proof {
            assert forall|j: int|
                0 <= j < SIZE as int && flipped_in_dir(b, p, xg, yg, dg, j) implies flips@.contains(
                j as usize,
            ) by {
                let (n2, kk) = choose|n2: int, kk: int|
                    captures_to(b, p, xg, yg, dg, n2) && 1 <= kk <= n2 && j == cell_index(
                        ray_x(xg, dg, kk),
                        ray_y(yg, dg, kk),
                    );
                lemma_captures_unique(b, p, xg, yg, dg, n2, captured as int);
            }
        }
    }

    /// Check whether the empty cell at `(x_init, y_init)` is a legal move for
    /// the player to move, walking all eight compass directions; on success
    /// return the indices of every opponent tile the move flips.
    #[verifier::loop_isolation(false)]
    pub(crate) fn is_valid_move(&self, x_init: usize, y_init: usize) -> (r: Option<Vec<usize>>)
        requires
            self.wf(),
            x_init < WIDTH,
            y_init < HEIGHT,
        ensures
            ({
                let i = cell_index(x_init as int, y_init as int);
                match r {
                    Some(v) => {
                        &&& is_legal(self@.board, self@.player, i)
                        &&& forall|t: int|
                            0 <= t < v@.len() ==> #[trigger] v@[t] < SIZE && flips_cell(
                                self@.board,
                                self@.player,
                                i,
                                v@[t] as int,
                            )
                        &&& forall|j: int|
                            0 <= j < SIZE as int && flips_cell(self@.board, self@.player, i, j)
                                ==> v@.contains(j as usize)
                    },
                    None => !is_legal(self@.board, self@.player, i),
                }
            }),
    {
        let ghost b = self@.board;
        let ghost p = self@.player;
        let ghost xg = x_init as int;
        let ghost yg = y_init as int;
        let ghost i = cell_index(xg, yg);
        proof {
            lemma_cell_index_bounds(xg, yg);
        }

        if self.board.get_cell(x_init, y_init) != Cell::Empty {
            return None;
        }

        let mut flips: Vec<usize> = Vec::new();
        let mut d: usize = 0;
        while d < 8
            invariant
                d <= 8,
                forall|t: int|
                    0 <= t < flips@.len() ==> #[trigger] flips@[t] < SIZE && (exists|dd: int|
                        0 <= dd < d && flipped_in_dir(b, p, xg, yg, dd, flips@[t] as int)),
                forall|j: int, dd: int|
                    0 <= j < SIZE as int && 0 <= dd < d && flipped_in_dir(b, p, xg, yg, dd, j)
                        ==> flips@.contains(j as usize),
            decreases 8 - d,
        {
            let ghost dg = d as int;
            let captured = self.scan_direction(x_init, y_init, d);
            let ghost pre = flips@;
            if captured > 0 {
                self.push_direction_flips(x_init, y_init, d, captured, &mut flips);
            }
            proof {
                assert forall|t: int| 0 <= t < flips@.len() implies #[trigger] flips@[t] < SIZE && (
                exists|dd: int|
                    0 <= dd < d + 1 && flipped_in_dir(b, p, xg, yg, dd, flips@[t] as int)) by {
                    if t < pre.len() {
                        assert(flips@[t] == pre[t]);
                        let dd = choose|dd: int|
                            0 <= dd < d && flipped_in_dir(b, p, xg, yg, dd, pre[t] as int);
                        assert(0 <= dd < d + 1 && flipped_in_dir(b, p, xg, yg, dd, flips@[t] as int));
                    } else {
                        assert(0 <= dg < d + 1 && flipped_in_dir(b, p, xg, yg, dg, flips@[t] as int));
                    }
                }
                assert forall|j: int, dd: int|
                    0 <= j < SIZE as int && 0 <= dd < d + 1 && flipped_in_dir(
                        b,
                        p,
                        xg,
                        yg,
                        dd,
                        j,
                    ) implies flips@.contains(j as usize) by {
                    if dd < d {
                        let t = choose|t: int| 0 <= t < pre.len() && pre[t] == j as usize;
                        assert(flips@[t] == j as usize);
                    } else if captured == 0 {
                        let (n2, kk) = choose|n2: int, kk: int|
                            captures_to(b, p, xg, yg, dg, n2) && 1 <= kk <= n2 && j == cell_index(
                                ray_x(xg, dg, kk),
                                ray_y(yg, dg, kk),
                            );
                        assert(dir_captures(b, p, xg, yg, dg));
                        assert(false);
                    }
                }
            }
            d = d + 1;
        }

        if flips.len() == 0 {
            proof {
                if is_legal(b, p, i) {
                    let dd = choose|dd: int|
                        0 <= dd < 8 && dir_captures(b, p, col_of(i), row_of(i), dd);
                    let n = choose|n: int| captures_to(b, p, xg, yg, dd, n);
                    assert(opponent_at(b, p, xg, yg, dd, 1));
                    let j0 = cell_index(ray_x(xg, dd, 1), ray_y(yg, dd, 1));
                    lemma_cell_index_bounds(ray_x(xg, dd, 1), ray_y(yg, dd, 1));
                    assert(flipped_in_dir(b, p, xg, yg, dd, j0)) by {
                        assert(captures_to(b, p, xg, yg, dd, n) && 1 <= 1 <= n && j0 == cell_index(
                            ray_x(xg, dd, 1),
                            ray_y(yg, dd, 1),
                        ));
                    }
                    assert(flips@.contains(j0 as usize));
                    assert(false);
                }
            }
            None
        } else {
            proof {
                let j = flips@[0] as int;
                let dd = choose|dd: int| 0 <= dd < 8 && flipped_in_dir(b, p, xg, yg, dd, j);
                let (n2, kk) = choose|n2: int, kk: int|
                    captures_to(b, p, xg, yg, dd, n2) && 1 <= kk <= n2 && j == cell_index(
                        ray_x(xg, dd, kk),
                        ray_y(yg, dd, kk),
                    );
                assert(dir_captures(b, p, xg, yg, dd));
                assert(is_legal(b, p, i));
            }
            Some(flips)
        }
    }

    /// All legal moves for the player to move, as cell indices in ascending
    /// (row-major) order.
    #[verifier::loop_isolation(false)]
    pub fn moves(&self) -> (r: Vec<usize>)
        requires
            self.wf(),
        ensures
            r@ == legal_moves(self@.board, self@.player),
    {
        let ghost b = self@.board;
        let ghost p = self@.player;
        let mut r: Vec<usize> = Vec::new();
        let mut y: usize = 0;
        while y < HEIGHT
            invariant
                y <= HEIGHT,
                r@ == legal_upto(b, p, (y * WIDTH) as int),
            decreases HEIGHT - y,
        {
            let mut x: usize = 0;
            while x < WIDTH
                invariant
                    x <= WIDTH,
                    r@ == legal_upto(b, p, (y * WIDTH + x) as int),
                decreases WIDTH - x,
            {
                let ghost i = (y * WIDTH + x) as int;
                proof {
                    assert(i == cell_index(x as int, y as int));
                }
                match self.is_valid_move(x, y) {
                    Some(_) => {
                        proof {
                            assert(is_legal(b, p, i));
                        }
                        r.push(at_pos(x, y));
                    },
                    None => {
                        proof {
                            assert(!is_legal(b, p, i));
                        }
                    },
                }
                x = x + 1;
            }
            y = y + 1;
        }
        r
    }

    /// Apply the move at linear index `index` for the player to move: place
    /// a tile there, flip every sandwiched opponent tile, and hand the turn
    /// to the opponent.  Fails with `InvalidMove`, changing nothing, when the
    /// index is not a legal move.
    #[verifier::loop_isolation(false)]
    pub fn play_idx(&mut self, index: usize) -> (r: Result<(), GameError>)
        requires
            old(self).wf(),
        ensures
            final(self).wf(),
            is_legal(old(self)@.board, old(self)@.player, index as int) ==> {
                &&& r is Ok
                &&& final(self)@.board == play_board(
                    old(self)@.board,
                    old(self)@.player,
                    index as int,
                )
                &&& final(self)@.player == opposite(old(self)@.player)
            },
            !is_legal(old(self)@.board, old(self)@.player, index as int) ==> r == Result::<
                (),
                GameError,
            >::Err(GameError::InvalidMove) && final(self)@ == old(self)@,
    {
        let ghost b = self@.board;
        let ghost p = self@.player;

        if index >= SIZE {
            return Err(GameError::InvalidMove);
        }
        let x = index % WIDTH;
        let y = index / WIDTH;
        proof {
            assert(cell_index(x as int, y as int) == index as int);
        }
        match self.is_valid_move(x, y) {
            None => Err(GameError::InvalidMove),
            Some(v) => {
                let me_tile = Cell::Player(self.current_player);
                self.board.set_cell_idx(index, me_tile);
                let mut t: usize = 0;
                while t < v.len()
                    invariant
                        t <= v@.len(),
                        self@.board.len() == SIZE,
                        self@.player == p,
                        forall|j: int|
                            0 <= j < SIZE as int ==> self@.board[j] == (if j == index as int || (
                            exists|tt: int| 0 <= tt < t && #[trigger] v@[tt] as int == j) {
                                Cell::Player(p)
                            } else {
                                b[j]
                            }),
                    decreases v@.len() - t,
                {
                    let idx = v[t];
                    let ghost pre = self@.board;
                    self.board.set_cell_idx(idx, me_tile);
                    proof {
                        assert forall|j: int| 0 <= j < SIZE as int implies self@.board[j] == (if j
                            == index as int || (exists|tt: int|
                            0 <= tt < t + 1 && #[trigger] v@[tt] as int == j) {
                            Cell::Player(p)
                        } else {
                            b[j]
                        }) by {
                            if j == idx as int {
                                assert(v@[t as int] as int == j);
                            } else {
                                assert(self@.board[j] == pre[j]);
                                if exists|tt: int| 0 <= tt < t + 1 && #[trigger] v@[tt] as int
                                    == j {
                                    let tt = choose|tt: int|
                                        0 <= tt < t + 1 && #[trigger] v@[tt] as int == j;
                                    assert(tt < t);
                                    assert(exists|ts: int|
                                        0 <= ts < t && #[trigger] v@[ts] as int == j);
                                }
                            }
                        }
                    }
                    t = t + 1;
                }
                proof {
                    assert forall|j: int|
                        0 <= j < SIZE as int implies self@.board[j] == play_board(
                        b,
                        p,
                        index as int,
                    )[j] by {
                        if flips_cell(b, p, index as int, j) {
                            assert(v@.contains(j as usize));
                            let tt = choose|tt: int| 0 <= tt < v@.len() && v@[tt] == j as usize;
                            assert(v@[tt] as int == j);
                        }
                        if exists|tt: int| 0 <= tt < v@.len() && #[trigger] v@[tt] as int == j {
                            let tt = choose|tt: int|
                                0 <= tt < v@.len() && #[trigger] v@[tt] as int == j;
                            assert(flips_cell(b, p, index as int, v@[tt] as int));
                        }
                    }
                    assert(self@.board =~= play_board(b, p, index as int));
                }
                self.current_player = self.current_player.opponent();
                Ok(())
            },
        }
    }

    /// Apply the move in column `x` of row `y` for the player to move.
    /// Fails with `InvalidMove`, changing nothing, when `(x, y)` is not a
    /// cell of the board or not a legal move.
    pub fn play(&mut self, x: usize, y: usize) -> (r: Result<(), GameError>)
        requires
            old(self).wf(),
        ensures
            final(self).wf(),
            x < WIDTH && y < HEIGHT && is_legal(
                old(self)@.board,
                old(self)@.player,
                cell_index(x as int, y as int),
            ) ==> {
                &&& r is Ok
                &&& final(self)@.board == play_board(
                    old(self)@.board,
                    old(self)@.player,
                    cell_index(x as int, y as int),
                )
                &&& final(self)@.player == opposite(old(self)@.player)
            },
            !(x < WIDTH && y < HEIGHT && is_legal(
                old(self)@.board,
                old(self)@.player,
                cell_index(x as int, y as int),
            )) ==> r == Result::<(), GameError>::Err(GameError::InvalidMove) && final(self)@ == old(
                self,
            )@,
    {
        if x < WIDTH && y < HEIGHT {
            self.play_idx(at_pos(x, y))
        } else {
            Err(GameError::InvalidMove)
        }
    }

    /// Whether the move in column `x` of row `y`, applied for the player to
    /// move, immediately wins the game for `player`: afterwards the opponent
    /// has no legal answer and `player` holds strictly more tiles.  Fails
    /// with `InvalidMove` when the move is not legal.
    pub fn is_winning_move(&self, x: usize, y: usize, player: Player) -> (r: Result<
        bool,
        GameError,
    >)
        requires
            self.wf(),
        ensures
            ({
                let i = cell_index(x as int, y as int);
                if x < WIDTH && y < HEIGHT && is_legal(self@.board, self@.player, i) {
                    r == Result::<bool, GameError>::Ok(
                        winning_move(self@.board, self@.player, i, player),
                    )
                } else {
                    r == Result::<bool, GameError>::Err(GameError::InvalidMove)
                }
            }),
    {
        let mut new_game = self.duplicate();

        match new_game.play(x, y) {
            Err(e) => Err(e),
            Ok(_) => {
                let w = new_game.winning_player();
                let ms = new_game.moves();
                proof {
                    lemma_legal_moves_iff(new_game@.board, new_game@.player);
                }
                let is_win = match w {
                    Some(q) => q == player,
                    None => false,
                };
                Ok(is_win && ms.len() == 0)
            },
        }
    }

    /// Whether the move at linear index `index` immediately wins for
    /// `player`; see [`Game::is_winning_move`].
    pub fn is_winning_move_idx(&self, index: usize, player: Player) -> (r: Result<
        bool,
        GameError,
    >)
        requires
            self.wf(),
        ensures
            if index < SIZE && is_legal(self@.board, self@.player, index as int) {
                r == Result::<bool, GameError>::Ok(
                    winning_move(self@.board, self@.player, index as int, player),
                )
            } else {
                r == Result::<bool, GameError>::Err(GameError::InvalidMove)
            },
    {
        let x = index % WIDTH;
        let y = index / WIDTH;

        self.is_winning_move(x, y, player)
    }

    /// The player whose move is validated or applied next.
    pub fn current_player(&self) -> (r: Player)
        ensures
            r == self@.player,
    {
        self.current_player
    }

    /// The cell in column `x` of row `y` of the board.
    pub fn cell_at(&self, x: usize, y: usize) -> (r: Cell)
        requires
            self.wf(),
            x < WIDTH,
            y < HEIGHT,
        ensures
            r == self@.board[x + y * WIDTH],
    {
        self.board.get_cell(x, y)
    }

    /// The cells of the board from left to right, top to bottom.
    pub fn board_cells(&self) -> (r: Vec<Cell>)
        requires
            self.wf(),
        ensures
            r@ == self@.board,
    {
        self.board.cells_row_major()
    }

    /// How many tiles have been placed on the board.
    pub fn total_moves(&self) -> (n: usize)
        requires
            self.wf(),
        ensures
            n == crate::board::occupied_count(self@.board),
    {
        self.board.total_moves()
    }
}

} // verus!
