//! The exact solver: exhaustive negamax search over game positions.
//!
//! The value of a position is defined from the perspective of the player to
//! move.  A position without a legal move is worth 0.  A position with an
//! immediately winning move is worth a mate-distance-scaled score, so that
//! faster forced wins score higher.  Any other position is worth the maximum
//! over all legal moves of the negated value of the successor position.

use vstd::prelude::*;
use crate::board::{Cell, Player, opposite, SIZE, count_cells, occupied_count,
    lemma_count_upto_bounds};
use crate::game::{Game, GameError};
use crate::rules::{
    is_legal, play_board, legal_moves, has_legal_move, winning_move, lemma_play_counts,
    lemma_legal_upto_props, lemma_legal_moves_iff,
};

verus! {

/// Whether the player to move has an immediately winning legal move.
pub open spec fn has_winning_move(b: Seq<Cell>, p: Player) -> bool {
    exists|i: int| is_legal(b, p, i) && winning_move(b, p, i, p)
}

/// The value of a forced win reached after one more tile is placed on `b`:
/// half the number of cells still empty after that ply, rounded down, plus
/// one half-tile for the placed tile itself.
pub open spec fn forced_win_score(b: Seq<Cell>) -> int {
    (SIZE as int + 1 - (occupied_count(b) + 1)) / 2
}

/// The negamax value of the position, in tiles, from the perspective of the
/// player to move.
pub open spec fn negamax_value(b: Seq<Cell>, p: Player) -> int
    decreases count_cells(b, Cell::Empty), 1int, 0int,
    when b.len() == SIZE as int
{
    if !has_legal_move(b, p) {
        0
    } else if has_winning_move(b, p) {
        forced_win_score(b)
    } else {
        best_value_upto(b, p, SIZE as int)
    }
}

/// The maximum negated successor value over the legal moves with cell index
/// below `n`, starting from the sentinel `-SIZE`, which every real value
/// beats or meets.
pub open spec fn best_value_upto(b: Seq<Cell>, p: Player, n: int) -> int
    decreases count_cells(b, Cell::Empty), 0int, n,
    when b.len() == SIZE as int
{
    if n <= 0 {
        -(SIZE as int)
    } else {
        let rest = best_value_upto(b, p, n - 1);
        if is_legal(b, p, n - 1) {
            proof {
                lemma_play_counts(b, p, n - 1);
                lemma_count_upto_bounds(play_board(b, p, n - 1), Cell::Empty, SIZE as int);
            }
            let child = negamax_value(play_board(b, p, n - 1), opposite(p));
            if rest >= -child {
                rest
            } else {
                -child
            }
        } else {
            rest
        }
    }
}

/// The negamax value of any position lies between `-SIZE` and `SIZE`.
pub proof fn lemma_negamax_bounds(b: Seq<Cell>, p: Player)
    requires
        b.len() == SIZE as int,
    ensures
        -(SIZE as int) <= negamax_value(b, p) <= SIZE as int,
    decreases count_cells(b, Cell::Empty), 1int, 0int,
{
    lemma_count_upto_bounds(b, Cell::Empty, SIZE as int);
    if has_legal_move(b, p) && !has_winning_move(b, p) {
        lemma_best_value_upto_bounds(b, p, SIZE as int);
    }
}

/// Every partial best value lies between `-SIZE` and `SIZE`.
proof fn lemma_best_value_upto_bounds(b: Seq<Cell>, p: Player, n: int)
    requires
        b.len() == SIZE as int,
        n <= SIZE as int,
    ensures
        -(SIZE as int) <= best_value_upto(b, p, n) <= SIZE as int,
    decreases count_cells(b, Cell::Empty), 0int, n,
{
    if n > 0 {
        lemma_best_value_upto_bounds(b, p, n - 1);
        if is_legal(b, p, n - 1) {
            lemma_play_counts(b, p, n - 1);
            lemma_count_upto_bounds(play_board(b, p, n - 1), Cell::Empty, SIZE as int);
            lemma_negamax_bounds(play_board(b, p, n - 1), opposite(p));
        }
    }
}

/// The partial best value does not change over a range without legal moves.
proof fn lemma_best_value_upto_gap(b: Seq<Cell>, p: Player, a: int, c: int)
    requires
        b.len() == SIZE as int,
        0 <= a <= c,
        forall|j: int| a <= j < c ==> !is_legal(b, p, j),
    ensures
        best_value_upto(b, p, c) == best_value_upto(b, p, a),
    decreases c - a,
{
    if c > a {
        lemma_best_value_upto_gap(b, p, a, c - 1);
    }
}

/// The partial best value dominates the negated successor value of every
/// legal move below the cut-off.
proof fn lemma_best_value_upto_ge(b: Seq<Cell>, p: Player, m: int, n: int)
    requires
        b.len() == SIZE as int,
        is_legal(b, p, m),
        m < n <= SIZE as int,
    ensures
        best_value_upto(b, p, n) >= -negamax_value(play_board(b, p, m), opposite(p)),
    decreases n,
{
    if m < n - 1 {
        lemma_best_value_upto_ge(b, p, m, n - 1);
    }
}

/// When some legal move lies below the cut-off, the partial best value is
/// attained by one of them.
proof fn lemma_best_value_upto_attained(b: Seq<Cell>, p: Player, n: int)
    requires
        b.len() == SIZE as int,
        0 <= n <= SIZE as int,
        exists|m: int| 0 <= m < n && is_legal(b, p, m),
    ensures
        exists|m: int|
            0 <= m < n && is_legal(b, p, m) && best_value_upto(b, p, n) == -negamax_value(
                play_board(b, p, m),
                opposite(p),
            ),
    decreases n,
{
    let n1 = n - 1;
    if is_legal(b, p, n1) {
        let child = -negamax_value(play_board(b, p, n1), opposite(p));
        if exists|m: int| 0 <= m < n1 && is_legal(b, p, m) {
            lemma_best_value_upto_attained(b, p, n1);
            let m0 = choose|m: int|
                0 <= m < n1 && is_legal(b, p, m) && best_value_upto(b, p, n1) == -negamax_value(
                    play_board(b, p, m),
                    opposite(p),
                );
            if best_value_upto(b, p, n) == best_value_upto(b, p, n1) {
                assert(0 <= m0 < n && is_legal(b, p, m0) && best_value_upto(b, p, n)
                    == -negamax_value(play_board(b, p, m0), opposite(p)));
            } else {
                assert(0 <= n1 < n && is_legal(b, p, n1) && best_value_upto(b, p, n)
                    == -negamax_value(play_board(b, p, n1), opposite(p)));
            }
        } else {
            lemma_play_counts(b, p, n1);
            lemma_count_upto_bounds(play_board(b, p, n1), Cell::Empty, SIZE as int);
            lemma_negamax_bounds(play_board(b, p, n1), opposite(p));
            lemma_best_value_upto_gap(b, p, 0, n1);
            assert(0 <= n1 < n && is_legal(b, p, n1) && best_value_upto(b, p, n) == -negamax_value(
                play_board(b, p, n1),
                opposite(p),
            ));
        }
    } else {
        let mw = choose|m: int| 0 <= m < n && is_legal(b, p, m);
        assert(0 <= mw < n1 && is_legal(b, p, mw));
        lemma_best_value_upto_attained(b, p, n1);
        let m0 = choose|m: int|
            0 <= m < n1 && is_legal(b, p, m) && best_value_upto(b, p, n1) == -negamax_value(
                play_board(b, p, m),
                opposite(p),
            );
        assert(0 <= m0 < n && is_legal(b, p, m0) && best_value_upto(b, p, n) == -negamax_value(
            play_board(b, p, m0),
            opposite(p),
        ));
    }
}

/// For a position where the player to move has a legal move and none of
/// them wins immediately, the negamax value dominates the negated value of
/// every successor position and is attained by some legal move: the search
/// is a true maximum over negated child values.
pub proof fn lemma_negamax_is_max(b: Seq<Cell>, p: Player)
    requires
        b.len() == SIZE as int,
        has_legal_move(b, p),
        !has_winning_move(b, p),
    ensures
        forall|m: int|
            is_legal(b, p, m) ==> negamax_value(b, p) >= -negamax_value(
                play_board(b, p, m),
                opposite(p),
            ),
        exists|m: int|
            is_legal(b, p, m) && negamax_value(b, p) == -negamax_value(
                play_board(b, p, m),
                opposite(p),
            ),
{
    assert forall|m: int| is_legal(b, p, m) implies negamax_value(b, p) >= -negamax_value(
        play_board(b, p, m),
        opposite(p),
    ) by {
        lemma_best_value_upto_ge(b, p, m, SIZE as int);
    }
    let i0 = choose|i: int| is_legal(b, p, i);
    assert(0 <= i0 < SIZE as int && is_legal(b, p, i0));
    lemma_best_value_upto_attained(b, p, SIZE as int);
    let m0 = choose|m: int|
        0 <= m < SIZE as int && is_legal(b, p, m) && best_value_upto(b, p, SIZE as int)
            == -negamax_value(play_board(b, p, m), opposite(p));
    assert(is_legal(b, p, m0) && negamax_value(b, p) == -negamax_value(
        play_board(b, p, m0),
        opposite(p),
    ));
}

/// The exact game-theoretic value of the position, in tiles, from the
/// perspective of the player to move, found by exhaustive search.
#[verifier::loop_isolation(false)]
pub fn negamax(game: &Game) -> (r: Result<isize, GameError>)
    requires
        game.wf(),
    ensures
        r is Ok,
        r matches Ok(v) ==> v as int == negamax_value(game@.board, game@.player),
    decreases count_cells(game@.board, Cell::Empty),
{
    let ghost b = game@.board;
    let ghost p = game@.player;
    proof {
        lemma_legal_moves_iff(b, p);
        lemma_legal_upto_props(b, p, SIZE as int);
        lemma_count_upto_bounds(b, Cell::Empty, SIZE as int);
    }

    let moves = game.moves();
    if moves.len() == 0 {
        return Ok(0);
    }

    let me = game.current_player();
    let mut mi: usize = 0;
    while mi < moves.len()
        invariant
            mi <= moves@.len(),
            forall|t: int| 0 <= t < mi ==> !winning_move(b, p, moves@[t] as int, p),
        decreases moves@.len() - mi,
    {
        let m = moves[mi];
        proof {
            assert(is_legal(b, p, moves@[mi as int] as int));
        }
        match game.is_winning_move_idx(m, me) {
            Ok(iswin) => {
                if iswin {
                    let total = game.total_moves();
                    let score = (SIZE - total) / 2;
                    proof {
                        assert(is_legal(b, p, m as int) && winning_move(b, p, m as int, p));
                        assert(score as int == forced_win_score(b));
                    }
                    return Ok(score as isize);
                }
            },
            Err(e) => {
                proof {
                    assert(false);
                }
                return Err(e);
            },
        }
        mi = mi + 1;
    }
    proof {
        if has_winning_move(b, p) {
            let i = choose|i: int| is_legal(b, p, i) && winning_move(b, p, i, p);
            assert(legal_moves(b, p).contains(i as usize));
            let t = choose|t: int|
                0 <= t < legal_moves(b, p).len() && legal_moves(b, p)[t] == i as usize;
            assert(!winning_move(b, p, legal_moves(b, p)[t] as int, p));
            assert(false);
        }
    }

    let mut best: isize = -(SIZE as isize);
    let mut mi: usize = 0;
    while mi < moves.len()
        invariant
            mi <= moves@.len(),
            best as int == best_value_upto(
                b,
                p,
                if mi == 0 {
                    0int
                } else {
                    moves@[mi - 1] as int + 1
                },
            ),
            -(SIZE as int) <= best as int <= SIZE as int,
        decreases moves@.len() - mi,
    {
        let m = moves[mi];
        proof {
            assert(is_legal(b, p, moves@[mi as int] as int));
            let bound = if mi == 0 {
                0int
            } else {
                moves@[mi - 1] as int + 1
            };
            assert forall|j: int| bound <= j < m implies !is_legal(b, p, j) by {
                if is_legal(b, p, j) {
                    assert(legal_moves(b, p).contains(j as usize));
                    let t = choose|t: int|
                        0 <= t < legal_moves(b, p).len() && legal_moves(b, p)[t] == j as usize;
                    if t < mi {
                        assert(legal_moves(b, p)[t] < legal_moves(b, p)[mi - 1]);
                    } else if t > mi {
                        assert(legal_moves(b, p)[mi as int] < legal_moves(b, p)[t]);
                    }
                }
            }
            lemma_best_value_upto_gap(b, p, bound, m as int);
        }
        let mut child = game.duplicate();
        match child.play_idx(m) {
            Ok(_) => {},
            Err(e) => {
                proof {
                    assert(false);
                }
                return Err(e);
            },
        }
        proof {
            lemma_play_counts(b, p, m as int);
            lemma_count_upto_bounds(child@.board, Cell::Empty, SIZE as int);
            lemma_negamax_bounds(child@.board, child@.player);
        }
        let sub = match negamax(&child) {
            Ok(v) => v,
            Err(e) => {
                proof {
                    assert(false);
                }
                return Err(e);
            },
        };
        let score = -sub;
        if score > best {
            best = score;
        }
        proof {
            assert(best as int == best_value_upto(b, p, m as int + 1));
        }
        mi = mi + 1;
    }
    proof {
        let last = moves@[moves@.len() - 1] as int;
        assert forall|j: int| last + 1 <= j < SIZE as int implies !is_legal(b, p, j) by {
            if is_legal(b, p, j) {
                assert(legal_moves(b, p).contains(j as usize));
                let t = choose|t: int|
                    0 <= t < legal_moves(b, p).len() && legal_moves(b, p)[t] == j as usize;
                if t < legal_moves(b, p).len() - 1 {
                    assert(legal_moves(b, p)[t] < legal_moves(b, p)[legal_moves(b, p).len() - 1]);
                }
            }
        }
        lemma_best_value_upto_gap(b, p, last + 1, SIZE as int);
        assert(best as int == best_value_upto(b, p, SIZE as int));
    }
    Ok(best)
}

/// The score of every legal move from the position: each pair holds the
/// negamax value, from the perspective of the player who makes the move, of
/// the position reached by that move, together with the move's cell index.
#[verifier::loop_isolation(false)]
pub fn solve(game: &Game) -> (r: Vec<(isize, usize)>)
    requires
        game.wf(),
    ensures
        r@.len() == legal_moves(game@.board, game@.player).len(),
        forall|t: int|
            0 <= t < r@.len() ==> #[trigger] r@[t].1 == legal_moves(game@.board, game@.player)[t],
        forall|t: int|
            0 <= t < r@.len() ==> #[trigger] r@[t].0 as int == -negamax_value(
                play_board(
                    game@.board,
                    game@.player,
                    legal_moves(game@.board, game@.player)[t] as int,
                ),
                opposite(game@.player),
            ),
{
    let ghost b = game@.board;
    let ghost p = game@.player;
    proof {
        lemma_legal_moves_iff(b, p);
        lemma_legal_upto_props(b, p, SIZE as int);
        lemma_count_upto_bounds(b, Cell::Empty, SIZE as int);
    }

    let moves = game.moves();
    let mut scores: Vec<(isize, usize)> = Vec::new();
    let mut mi: usize = 0;
    while mi < moves.len()
        invariant
            mi <= moves@.len(),
            scores@.len() == mi,
            forall|t: int| 0 <= t < mi ==> #[trigger] scores@[t].1 == legal_moves(b, p)[t],
            forall|t: int|
                0 <= t < mi ==> #[trigger] scores@[t].0 as int == -negamax_value(
                    play_board(b, p, legal_moves(b, p)[t] as int),
                    opposite(p),
                ),
        decreases moves@.len() - mi,
    {
        let m = moves[mi];
        proof {
            assert(is_legal(b, p, moves@[mi as int] as int));
        }
        let mut child = game.duplicate();
        match child.play_idx(m) {
            Ok(_) => {},
            Err(e) => {
                proof {
                    assert(false);
                }
            },
        }
        proof {
            lemma_play_counts(b, p, m as int);
            lemma_negamax_bounds(child@.board, child@.player);
        }
        let sub = match negamax(&child) {
            Ok(v) => v,
            Err(_) => {
                proof {
                    assert(false);
                }
                0
            },
        };
        let ghost spre = scores@;
        scores.push((-sub, m));
        proof {
            assert forall|t: int| 0 <= t < mi + 1 implies #[trigger] scores@[t].1 == legal_moves(
                b,
                p,
            )[t] && scores@[t].0 as int == -negamax_value(
                play_board(b, p, legal_moves(b, p)[t] as int),
                opposite(p),
            ) by {
                if t < mi {
                    assert(scores@[t] == spre[t]);
                } else {
                    assert(scores@[t].0 == -sub && scores@[t].1 == m);
                }
            }
        }
        mi = mi + 1;
    }
    scores
}

} // verus!
