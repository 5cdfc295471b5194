//! The textual board format.
//!
//! One character per cell — `X` for player One, `O` for player Two, `-` for
//! an empty cell, `*` for a cell that is a currently-legal move of the side
//! to move — with rows separated by a line break.  This module renders games
//! to that format, parses it back with optional validation of the move
//! markers, and proves that the two directions round-trip.

use vstd::prelude::*;
use crate::board::{Board, Cell, Player, char_of_cell, WIDTH, HEIGHT, SIZE, at_pos};
use crate::game::{Game, GameError, GameView, opening_board, reachable, lemma_reachable_center_occupied};
use crate::rules::{cell_index, is_legal, legal_moves, legal_upto};
use vstd::arithmetic::div_mod::{lemma_fundamental_div_mod, lemma_fundamental_div_mod_converse,
    lemma_mod_bound};

verus! {

/// The character that stands for cell `i` of the position: a move marker
/// when the cell is a legal move of `p`, else the cell's own character.
pub open spec fn marked_char(b: Seq<Cell>, p: Player, i: int) -> char {
    if is_legal(b, p, i) {
        '*'
    } else {
        char_of_cell(b[i])
    }
}

/// The textual form of a position with move markers: `HEIGHT` rows of
/// `WIDTH` cell characters, consecutive rows separated by a line break.
pub open spec fn grid_text(b: Seq<Cell>, p: Player) -> Seq<char> {
    Seq::new(
        ((WIDTH + 1) * HEIGHT - 1) as nat,
        |k: int|
            if k % (WIDTH + 1) as int == WIDTH as int {
                '\n'
            } else {
                marked_char(b, p, (k / (WIDTH + 1) as int) * (WIDTH as int) + k % (WIDTH + 1) as int)
            },
    )
}

/// The textual form of a bare board: `HEIGHT` rows of `WIDTH` cell
/// characters, each row ended by a line break.
pub open spec fn board_text(b: Seq<Cell>) -> Seq<char> {
    Seq::new(
        ((WIDTH + 1) * HEIGHT) as nat,
        |k: int|
            if k % (WIDTH + 1) as int == WIDTH as int {
                '\n'
            } else {
                char_of_cell(b[(k / (WIDTH + 1) as int) * (WIDTH as int) + k % (WIDTH + 1) as int])
            },
    )
}

/// One step at a time, what parsing the characters of `s` from position `k`
/// onward does to the board and the recorded move markers, starting from
/// column `x` of row `y`.  A line break moves to the next row and fails once
/// the rows are exhausted; a cell character beyond the row width fails; `X`,
/// `O` and `-` write the cell and advance; `*` records the cell index as a
/// move marker and advances without writing; anything else fails.
pub open spec fn parse_from(
    s: Seq<char>,
    k: int,
    x: int,
    y: int,
    b: Seq<Cell>,
    marks: Seq<usize>,
) -> Result<(Seq<Cell>, Seq<usize>), GameError>
    decreases s.len() - k,
{
    if k < 0 || k >= s.len() {
        Ok((b, marks))
    } else {
        let c = s[k];
        if c == '\n' {
            if y + 1 >= HEIGHT as int {
                Err(GameError::MalformedLayout)
            } else {
                parse_from(s, k + 1, 0, y + 1, b, marks)
            }
        } else if x >= WIDTH as int {
            Err(GameError::MalformedLayout)
        } else if c == 'X' {
            parse_from(s, k + 1, x + 1, y, b.update(cell_index(x, y), Cell::Player(Player::One)), marks)
        } else if c == 'O' {
            parse_from(s, k + 1, x + 1, y, b.update(cell_index(x, y), Cell::Player(Player::Two)), marks)
        } else if c == '-' {
            parse_from(s, k + 1, x + 1, y, b.update(cell_index(x, y), Cell::Empty), marks)
        } else if c == '*' {
            parse_from(s, k + 1, x + 1, y, b, marks.push(cell_index(x, y) as usize))
        } else {
            Err(GameError::MalformedLayout)
        }
    }
}

/// What parsing a whole layout yields: the characters are applied on top of
/// the canonical opening position, the given player gets the move, and,
/// when validation is on, the recorded move markers must equal the
/// recomputed legal-move list.
pub open spec fn parse_game(s: Seq<char>, player: Player, validate: bool) -> Result<
    GameView,
    GameError,
> {
    match parse_from(s, 0, 0, 0, opening_board(), Seq::<usize>::empty()) {
        Err(e) => Err(e),
        Ok((b, marks)) => if validate && legal_moves(b, player) != marks {
            Err(GameError::MovesMismatch)
        } else {
            Ok(GameView { board: b, player })
        },
    }
}

/// Whether two index vectors hold the same numbers in the same order.
fn vecs_equal(a: &Vec<usize>, b: &Vec<usize>) -> (r: bool)
    ensures
        r == (a@ == b@),
{
    if a.len() != b.len() {
        return false;
    }
    let mut i: usize = 0;
    while i < a.len()
        invariant
            i <= a@.len(),
            a@.len() == b@.len(),
            forall|t: int| 0 <= t < i ==> a@[t] == b@[t],
        decreases a@.len() - i,
    {
        if a[i] != b[i] {
            return false;
        }
        i = i + 1;
    }
    proof {
        assert(a@ =~= b@);
    }
    true
}

impl Game {
    /// Reconstruct a game from a textual layout: the characters overwrite
    /// the canonical opening position row by row, and `player` gets the
    /// move.  When `validate` is on, the `*` markers of the layout must
    /// equal the recomputed legal-move list, else the layout is rejected
    /// with `MovesMismatch`.  A layout with too many rows or columns, or an
    /// unknown character, is rejected with `MalformedLayout`.
    #[verifier::loop_isolation(false)]
    pub fn from_string(string: &str, player: Player, validate: bool) -> (r: Result<
        Game,
        GameError,
    >)
        ensures
            ({
                let parsed = parse_game(string@, player, validate);
                match r {
                    Ok(g) => g.wf() && parsed == Ok::<GameView, GameError>(g@),
                    Err(e) => parsed == Err::<GameView, GameError>(e),
                }
            }),
    {
        let ghost s = string@;
        let ghost target = parse_from(s, 0, 0, 0, opening_board(), Seq::<usize>::empty());

        let mut game = Game::new();
        let mut recorded: Vec<usize> = Vec::new();
        let len = string.unicode_len();
        let mut k: usize = 0;
        let mut x: usize = 0;
        let mut y: usize = 0;
        while k < len
            invariant
                k <= len,
                len == s.len(),
                x <= WIDTH,
                y < HEIGHT,
                game.wf(),
                target == parse_from(s, k as int, x as int, y as int, game@.board, recorded@),
            decreases len - k,
        {
            proof {
                game.lemma_view();
            }
            let c = string.get_char(k);
            if c == '\n' {
                if y + 1 >= HEIGHT {
                    return Err(GameError::MalformedLayout);
                }
                y = y + 1;
                x = 0;
            } else if x >= WIDTH {
                return Err(GameError::MalformedLayout);
            } else if c == 'X' {
                game.board.set_cell(x, y, Cell::Player(Player::One));
                proof {
                    game.lemma_view();
                }
                x = x + 1;
            } else if c == 'O' {
                game.board.set_cell(x, y, Cell::Player(Player::Two));
                proof {
                    game.lemma_view();
                }
                x = x + 1;
            } else if c == '-' {
                game.board.set_cell(x, y, Cell::Empty);
                proof {
                    game.lemma_view();
                }
                x = x + 1;
            } else if c == '*' {
                recorded.push(at_pos(x, y));
                x = x + 1;
            } else {
                return Err(GameError::MalformedLayout);
            }
            k = k + 1;
        }
        proof {
            assert(target == Ok::<(Seq<Cell>, Seq<usize>), GameError>((game@.board, recorded@)));
        }

        proof {
            game.lemma_view();
        }
        let ghost parsed_board = game@.board;
        game.current_player = player;
        proof {
            game.lemma_view();
            assert(game@.board == parsed_board);
            assert(game.wf());
        }

        if validate {
            let ms = game.moves();
            if !vecs_equal(&ms, &recorded) {
                return Err(GameError::MovesMismatch);
            }
        }

        Ok(game)
    }
}

/// How many cells the parser has consumed once it stands at character `k`
/// of a rendered grid: the full rows before it plus the cells of the
/// current row.
spec fn cells_done(k: int) -> int {
    (k / (WIDTH + 1) as int) * (WIDTH as int) + (if (k % (WIDTH + 1) as int) < WIDTH as int {
        k % (WIDTH + 1) as int
    } else {
        WIDTH as int
    })
}

/// Replaying a rendered position through the parser: from any position `k`
/// of the grid text, with the cells before `k` already carried over from
/// `b` and the move markers before `k` already recorded, the parser
/// finishes with exactly `b` and exactly the legal-move list of `b`.
///
/// The center cells of `b` must be occupied: a move marker makes the parser
/// keep the opening position's value for that cell, which matches `b` only
/// because a legal move cell is empty and lies outside the opening tiles.
proof fn lemma_parse_grid_from(b: Seq<Cell>, p: Player, cur: Seq<Cell>, marks: Seq<usize>, k: int)
    requires
        b.len() == SIZE as int,
        b[cell_index(3, 3)] != Cell::Empty,
        b[cell_index(3, 4)] != Cell::Empty,
        b[cell_index(4, 3)] != Cell::Empty,
        b[cell_index(4, 4)] != Cell::Empty,
        0 <= k <= grid_text(b, p).len(),
        cur.len() == SIZE as int,
        forall|j: int|
            0 <= j < SIZE as int ==> cur[j] == (if j < cells_done(k) {
                b[j]
            } else {
                opening_board()[j]
            }),
        marks == legal_upto(b, p, cells_done(k)),
    ensures
        parse_from(
            grid_text(b, p),
            k,
            k % (WIDTH + 1) as int,
            k / (WIDTH + 1) as int,
            cur,
            marks,
        ) == Ok::<(Seq<Cell>, Seq<usize>), GameError>((b, legal_moves(b, p))),
    decreases grid_text(b, p).len() - k,
{
    let g = grid_text(b, p);
    let stride = (WIDTH + 1) as int;
    let x = k % stride;
    let y = k / stride;
    lemma_fundamental_div_mod(k, stride);
    lemma_mod_bound(k, stride);
    assert(0 <= x < stride);
    assert(0 <= y <= (HEIGHT - 1) as int) by (nonlinear_arith)
        requires
            k == stride * y + x,
            0 <= x < stride,
            stride == (WIDTH + 1) as int,
            0 <= k <= ((WIDTH + 1) * HEIGHT - 1) as int,
    ;
    if k >= g.len() {
        assert(cells_done(k) == SIZE as int) by {
            lemma_fundamental_div_mod_converse(k, stride, (HEIGHT - 1) as int, WIDTH as int);
        }
        assert(cur =~= b);
    } else {
        let c = g[k];
        if x == WIDTH as int {
            assert(c == '\n');
            assert((k + 1) % stride == 0 && (k + 1) / stride == y + 1) by {
                assert(k + 1 == (y + 1) * stride + 0) by (nonlinear_arith)
                    requires
                        k == stride * y + x,
                        x == stride - 1,
                ;
                lemma_fundamental_div_mod_converse(k + 1, stride, y + 1, 0);
            }
            assert(cells_done(k + 1) == cells_done(k));
            lemma_parse_grid_from(b, p, cur, marks, k + 1);
        } else {
            let i = y * (WIDTH as int) + x;
            assert(0 <= i < SIZE as int);
            assert(c == marked_char(b, p, i));
            assert(cell_index(x, y) == i);
            assert(cells_done(k) == i);
            assert((k + 1) % stride == x + 1 && (k + 1) / stride == y) by {
                assert(k + 1 == y * stride + (x + 1)) by (nonlinear_arith)
                    requires
                        k == stride * y + x,
                ;
                lemma_fundamental_div_mod_converse(k + 1, stride, y, x + 1);
            }
            assert(cells_done(k + 1) == i + 1);
            if is_legal(b, p, i) {
                assert(c == '*');
                assert(b[i] == Cell::Empty);
                assert(i != cell_index(3, 3) && i != cell_index(3, 4) && i != cell_index(4, 3)
                    && i != cell_index(4, 4));
                assert(opening_board()[i] == Cell::Empty);
                assert(cur[i] == b[i]);
                assert forall|j: int| 0 <= j < SIZE as int implies cur[j] == (if j < cells_done(
                    k + 1,
                ) {
                    b[j]
                } else {
                    opening_board()[j]
                }) by {
                    assert(cur[j] == (if j < cells_done(k) {
                        b[j]
                    } else {
                        opening_board()[j]
                    }));
                }
                assert(marks.push(i as usize) == legal_upto(b, p, i + 1));
                lemma_parse_grid_from(b, p, cur, marks.push(i as usize), k + 1);
            } else {
                assert(c == char_of_cell(b[i]));
                assert(legal_upto(b, p, i + 1) == marks);
                let cur2 = cur.update(i, b[i]);
                assert forall|j: int| 0 <= j < SIZE as int implies cur2[j] == (if j < cells_done(
                    k + 1,
                ) {
                    b[j]
                } else {
                    opening_board()[j]
                }) by {
                    assert(cur[j] == (if j < cells_done(k) {
                        b[j]
                    } else {
                        opening_board()[j]
                    }));
                    if j != i {
                        assert(cur2[j] == cur[j]);
                    }
                }
                lemma_parse_grid_from(b, p, cur2, marks, k + 1);
                match b[i] {
                    Cell::Empty => {
                        assert(c == '-');
                        assert(cur.update(cell_index(x, y), Cell::Empty) == cur2);
                    },
                    Cell::Player(Player::One) => {
                        assert(c == 'X');
                        assert(cur.update(cell_index(x, y), Cell::Player(Player::One)) == cur2);
                    },
                    Cell::Player(Player::Two) => {
                        assert(c == 'O');
                        assert(cur.update(cell_index(x, y), Cell::Player(Player::Two)) == cur2);
                    },
                }
            }
        }
    }
}

/// Rendering a game to text with move markers and re-parsing that text with
/// validation succeeds and reconstructs the identical board and player, for
/// every game reachable from the canonical opening.
pub proof fn lemma_text_round_trip(g: GameView)
    requires
        reachable(g),
    ensures
        parse_game(grid_text(g.board, g.player), g.player, true) == Ok::<GameView, GameError>(g),
{
    lemma_reachable_center_occupied(g);
    assert(cells_done(0) == 0);
    assert forall|j: int| 0 <= j < SIZE as int implies opening_board()[j] == (if j < cells_done(0) {
        g.board[j]
    } else {
        opening_board()[j]
    }) by {}
    lemma_parse_grid_from(g.board, g.player, opening_board(), Seq::<usize>::empty(), 0);
    assert(GameView { board: g.board, player: g.player } == g);
}

impl Board {
    /// The board as text: one character per cell, one line per row.
    #[verifier::loop_isolation(false)]
    pub fn to_text(&self) -> (r: String)
        requires
            self.wf(),
        ensures
            r@ == board_text(self@),
    {
        let ghost b = self@;
        proof {
            reveal_strlit("X");
            reveal_strlit("O");
            reveal_strlit("-");
            reveal_strlit("\n");
        }
        let mut out = String::new();
        let mut y: usize = 0;
        while y < HEIGHT
            invariant
                y <= HEIGHT,
                out@ == board_text(b).subrange(0, (y * (WIDTH + 1)) as int),
            decreases HEIGHT - y,
        {
            let mut x: usize = 0;
            while x < WIDTH
                invariant
                    x <= WIDTH,
                    out@ == board_text(b).subrange(0, (y * (WIDTH + 1) + x) as int),
                decreases WIDTH - x,
            {
                let ghost k = (y * (WIDTH + 1) + x) as int;
                proof {
                    assert(k / (WIDTH + 1) as int == y as int && k % (WIDTH + 1) as int
                        == x as int);
                }
                match self.get_cell(x, y) {
                    Cell::Empty => out.append("-"),
                    Cell::Player(Player::One) => out.append("X"),
                    Cell::Player(Player::Two) => out.append("O"),
                }
                proof {
                    assert(out@ =~= board_text(b).subrange(0, k + 1));
                }
                x = x + 1;
            }
            let ghost k = (y * (WIDTH + 1) + WIDTH) as int;
            proof {
                assert(k / (WIDTH + 1) as int == y as int && k % (WIDTH + 1) as int
                    == WIDTH as int);
            }
            out.append("\n");
            proof {
                assert(out@ =~= board_text(b).subrange(0, k + 1));
            }
            y = y + 1;
        }
        proof {
            assert(out@ =~= board_text(b));
        }
        out
    }
}

impl Game {
    /// The game as text with move markers: the parseable form of the
    /// position, rows separated by line breaks, every legal move of the
    /// player to move shown as `*`.
    #[verifier::loop_isolation(false)]
    pub fn to_grid_string(&self) -> (r: String)
        requires
            self.wf(),
        ensures
            r@ == grid_text(self@.board, self@.player),
    {
        let ghost b = self@.board;
        let ghost p = self@.player;
        proof {
            reveal_strlit("X");
            reveal_strlit("O");
            reveal_strlit("-");
            reveal_strlit("*");
            reveal_strlit("\n");
        }
        let mut out = String::new();
        let mut y: usize = 0;
        while y < HEIGHT
            invariant
                y <= HEIGHT,
                out@ == grid_text(b, p).subrange(0, if y < HEIGHT {
                    (y * (WIDTH + 1)) as int
                } else {
                    grid_text(b, p).len() as int
                }),
            decreases HEIGHT - y,
        {
            let mut x: usize = 0;
            while x < WIDTH
                invariant
                    x <= WIDTH,
                    out@ == grid_text(b, p).subrange(0, (y * (WIDTH + 1) + x) as int),
                decreases WIDTH - x,
            {
                let ghost k = (y * (WIDTH + 1) + x) as int;
                let ghost i = (y * WIDTH + x) as int;
                proof {
                    assert(k / (WIDTH + 1) as int == y as int && k % (WIDTH + 1) as int
                        == x as int);
                    assert(i == cell_index(x as int, y as int));
                }
                match self.is_valid_move(x, y) {
                    Some(_) => out.append("*"),
                    None => {
                        match self.cell_at(x, y) {
                            Cell::Empty => out.append("-"),
                            Cell::Player(Player::One) => out.append("X"),
                            Cell::Player(Player::Two) => out.append("O"),
                        }
                    },
                }
                proof {
                    assert(out@ =~= grid_text(b, p).subrange(0, k + 1));
                }
                x = x + 1;
            }
            if y + 1 < HEIGHT {
                let ghost k = (y * (WIDTH + 1) + WIDTH) as int;
                proof {
                    assert(k / (WIDTH + 1) as int == y as int && k % (WIDTH + 1) as int
                        == WIDTH as int);
                }
                out.append("\n");
                proof {
                    assert(out@ =~= grid_text(b, p).subrange(0, k + 1));
                }
            } else {
                proof {
                    assert(out@ =~= grid_text(b, p).subrange(0, grid_text(b, p).len() as int));
                }
            }
            y = y + 1;
        }
        proof {
            assert(out@ =~= grid_text(b, p));
        }
        out
    }
}

} // verus!
