//! The adversarial search: depth-bounded minimax with alpha-beta pruning,
//! a wall-clock budget, and an iterative-deepening driver.
//!
//! `spec_minimax` is the unpruned, clock-free minimax value. The pruned
//! executable `minimax` is proved `fail_soft` against it whenever it runs
//! without a clock: inside an open window, pruning never changes the
//! value it returns.

use vstd::prelude::*;

use crate::board::{
    apply_spec, eval_spec, game_over_spec, lemma_eval_bounds, lemma_moves_list_valid,
    lemma_pass_other_side, move_valid, moves_list, opposite, Board, Piece,
};
use crate::clock::{duration_millis, instant_elapsed, instant_now};

verus! {

/// The side to move at a layer of the tree: the searching side on a
/// maximizing layer, its opponent on a minimizing one.
pub open spec fn mover_of(p: Piece, maximizing: bool) -> Piece {
    if maximizing {
        p
    } else {
        opposite(p)
    }
}

/// The full, unpruned minimax value of `s` for `p`, looking `depth` moves
/// ahead. A cutoff (depth exhausted or game over) evaluates the board
/// from `p`'s perspective; a side without moves passes without consuming
/// depth; otherwise the children are folded with max or min.
pub open spec fn spec_minimax(s: Seq<Option<Piece>>, depth: nat, maximizing: bool, p: Piece) -> int
    decreases
            depth,
            (if moves_list(s, mover_of(p, maximizing)).len() == 0 {
                2int
            } else {
                1int
            }),
            0int,
{
    if depth == 0 || game_over_spec(s) {
        eval_spec(s, p)
    } else {
        let ms = moves_list(s, mover_of(p, maximizing));
        if ms.len() == 0 {
            spec_minimax(s, depth, !maximizing, p)
        } else {
            minimax_over(s, ms, (depth - 1) as nat, maximizing, p)
        }
    }
}

/// The value of the child that move `m` reaches, searched `cd` deeper
/// layers with the other player to move.
pub open spec fn child_value(
    s: Seq<Option<Piece>>,
    m: (usize, usize),
    cd: nat,
    maximizing: bool,
    p: Piece,
) -> int
    decreases cd + 1, 0int, 0int,
{
    spec_minimax(
        apply_spec(s, mover_of(p, maximizing), m.0 as int, m.1 as int),
        cd,
        !maximizing,
        p,
    )
}

/// The minimax fold over a list of moves: the maximum (or minimum) of the
/// children's values, folded from the weakest possible score.
pub open spec fn minimax_over(
    s: Seq<Option<Piece>>,
    ms: Seq<(usize, usize)>,
    cd: nat,
    maximizing: bool,
    p: Piece,
) -> int
    decreases cd + 1, 0int, ms.len(),
{
    if ms.len() == 0 {
        if maximizing {
            i32::MIN as int
        } else {
            i32::MAX as int
        }
    } else {
        let v = child_value(s, ms[0], cd, maximizing, p);
        let rest = minimax_over(s, ms.drop_first(), cd, maximizing, p);
        if maximizing {
            if v >= rest {
                v
            } else {
                rest
            }
        } else {
            if v <= rest {
                v
            } else {
                rest
            }
        }
    }
}

/// Minimax values stay within the evaluation's bounds.
pub proof fn lemma_minimax_bounds(s: Seq<Option<Piece>>, depth: nat, maximizing: bool, p: Piece)
    ensures
        -2240 <= spec_minimax(s, depth, maximizing, p) <= 2240,
    decreases
            depth,
            (if moves_list(s, mover_of(p, maximizing)).len() == 0 {
                2int
            } else {
                1int
            }),
            0int,
{
    if depth == 0 || game_over_spec(s) {
        lemma_eval_bounds(s, p, 64);
    } else {
        let ms = moves_list(s, mover_of(p, maximizing));
        if ms.len() == 0 {
            lemma_minimax_bounds(s, depth, !maximizing, p);
        } else {
            lemma_over_bounds(s, ms, (depth - 1) as nat, maximizing, p);
        }
    }
}

/// A nonempty minimax fold stays within the evaluation's bounds.
proof fn lemma_over_bounds(
    s: Seq<Option<Piece>>,
    ms: Seq<(usize, usize)>,
    cd: nat,
    maximizing: bool,
    p: Piece,
)
    requires
        ms.len() > 0,
    ensures
        -2240 <= minimax_over(s, ms, cd, maximizing, p) <= 2240,
    decreases cd + 1, 0int, ms.len(),
{
    lemma_minimax_bounds(
        apply_spec(s, mover_of(p, maximizing), ms[0].0 as int, ms[0].1 as int),
        cd,
        !maximizing,
        p,
    );
    if ms.len() > 1 {
        lemma_over_bounds(s, ms.drop_first(), cd, maximizing, p);
        assert(minimax_over(s, ms, cd, maximizing, p) == child_value(s, ms[0], cd, maximizing, p)
            || minimax_over(s, ms, cd, maximizing, p) == minimax_over(
            s,
            ms.drop_first(),
            cd,
            maximizing,
            p,
        ));
    } else {
        reveal_with_fuel(minimax_over, 2);
        assert(minimax_over(s, ms, cd, maximizing, p) == child_value(s, ms[0], cd, maximizing, p));
    }
}

/// The fold bounds every child's value and is attained by one of them.
proof fn lemma_over_props(
    s: Seq<Option<Piece>>,
    ms: Seq<(usize, usize)>,
    cd: nat,
    maximizing: bool,
    p: Piece,
)
    ensures
        maximizing ==> forall|j: int|
            0 <= j < ms.len() ==> #[trigger] child_value(s, ms[j], cd, maximizing, p)
                <= minimax_over(s, ms, cd, maximizing, p),
        !maximizing ==> forall|j: int|
            0 <= j < ms.len() ==> #[trigger] child_value(s, ms[j], cd, maximizing, p)
                >= minimax_over(s, ms, cd, maximizing, p),
        ms.len() > 0 ==> exists|j: int|
            0 <= j < ms.len() && minimax_over(s, ms, cd, maximizing, p) == #[trigger] child_value(
                s,
                ms[j],
                cd,
                maximizing,
                p,
            ),
    decreases ms.len(),
{
    if ms.len() > 0 {
        let rest = ms.drop_first();
        lemma_over_props(s, rest, cd, maximizing, p);
        lemma_minimax_bounds(
            apply_spec(s, mover_of(p, maximizing), ms[0].0 as int, ms[0].1 as int),
            cd,
            !maximizing,
            p,
        );
        assert(forall|j: int| 0 <= j < rest.len() ==> rest[j] == ms[j + 1]);
        let v = child_value(s, ms[0], cd, maximizing, p);
        let fold = minimax_over(s, ms, cd, maximizing, p);
        if maximizing {
            assert forall|j: int| 0 <= j < ms.len() implies #[trigger] child_value(
                s,
                ms[j],
                cd,
                maximizing,
                p,
            ) <= fold by {
                if j > 0 {
                    assert(rest[j - 1] == ms[j]);
                    assert(child_value(s, rest[j - 1], cd, maximizing, p) <= minimax_over(
                        s,
                        rest,
                        cd,
                        maximizing,
                        p,
                    ));
                }
            }
        } else {
            assert forall|j: int| 0 <= j < ms.len() implies #[trigger] child_value(
                s,
                ms[j],
                cd,
                maximizing,
                p,
            ) >= fold by {
                if j > 0 {
                    assert(rest[j - 1] == ms[j]);
                    assert(child_value(s, rest[j - 1], cd, maximizing, p) >= minimax_over(
                        s,
                        rest,
                        cd,
                        maximizing,
                        p,
                    ));
                }
            }
        }
        if rest.len() == 0 || fold == v {
            assert(fold == child_value(s, ms[0], cd, maximizing, p));
        } else {
            let jr = choose|jr: int|
                0 <= jr < rest.len() && minimax_over(s, rest, cd, maximizing, p)
                    == #[trigger] child_value(s, rest[jr], cd, maximizing, p);
            assert(fold == child_value(s, ms[jr + 1], cd, maximizing, p));
        }
    }
}

/// What alpha-beta pruning guarantees of a result `r` against the full
/// minimax value `v` for the window (alpha, beta): exact strictly inside
/// the window, and a sound one-sided bound at or beyond either edge.
pub open spec fn fail_soft(r: int, v: int, alpha: int, beta: int) -> bool {
    &&& (alpha < r < beta ==> r == v)
    &&& (r <= alpha ==> v <= r)
    &&& (beta <= r ==> v >= r)
}

/// Alpha-beta equivalence: over the whole window, a fail-soft result
/// within the evaluation's bounds is exactly the unpruned minimax value,
/// so pruning changes the work done but never the answer.
pub proof fn lemma_fail_soft_full_window(r: int, v: int)
    requires
        fail_soft(r, v, i32::MIN as int, i32::MAX as int),
        -2240 <= r <= 2240,
    ensures
        r == v,
{
}

/// A wall-clock budget for the search: a start instant and a limit in
/// whole milliseconds.
pub struct SearchClock {
    pub start: std::time::Instant,
    pub limit_ms: u64,
}

impl SearchClock {
    /// A budget of `limit_ms` milliseconds beginning now.
    pub fn starting_now(limit_ms: u64) -> (r: SearchClock)
        ensures
            r.limit_ms == limit_ms,
    {
        SearchClock { start: instant_now(), limit_ms }
    }

    /// Whether the budget is spent. A zero budget is always spent; with
    /// any other limit the answer depends on the clock.
    pub fn expired(&self) -> (r: bool)
        ensures
            self.limit_ms == 0 ==> r,
    {
        let elapsed = instant_elapsed(&self.start);
        duration_millis(&elapsed) >= self.limit_ms as u128
    }
}

/// Depth- and time-bounded minimax with alpha-beta pruning over the
/// window (alpha, beta). The evaluation is always taken from `piece`'s
/// perspective, whichever side is to move. A layer whose side has no
/// legal move passes without consuming depth. Whatever the clock
/// answers, the result stays within the evaluation's bounds; run without
/// a clock, the result is `fail_soft` against the unpruned minimax
/// value, so with the full window pruning never changes the value.
#[verifier::loop_isolation(false)]
#[verifier::rlimit(100)]
pub fn minimax(
    board: &Board,
    depth: u32,
    alpha: i32,
    beta: i32,
    maximizing: bool,
    piece: Piece,
    clock: Option<&SearchClock>,
) -> (r: i32)
    requires
        board.wf(),
        alpha < beta,
    ensures
        -2240 <= r <= 2240,
        depth == 0 || game_over_spec(board@) ==> r as int == eval_spec(board@, piece),
        clock is None ==> fail_soft(
            r as int,
            spec_minimax(board@, depth as nat, maximizing, piece),
            alpha as int,
            beta as int,
        ),
    decreases
            depth,
            (if moves_list(board@, mover_of(piece, maximizing)).len() == 0 {
                2int
            } else {
                1int
            }),
            0int,
{
    let ghost s = board@;
    let ghost v_spec = spec_minimax(s, depth as nat, maximizing, piece);
    let timed_out = match clock {
        None => false,
        Some(c) => c.expired(),
    };
    let over = board.is_game_over();
    if depth == 0 || over || timed_out {
        let score = board.evaluate(piece);
        return score;
    }
    let mover = if maximizing {
        piece
    } else {
        piece.opponent()
    };
    proof {
        assert(mover == mover_of(piece, maximizing));
    }
    let moves = board.valid_moves(mover);
    proof {
        lemma_moves_list_valid(s, mover);
    }
    if moves.len() == 0 {
        proof {
            lemma_pass_other_side(s, mover);
            assert(opposite(mover) == mover_of(piece, !maximizing));
        }
        let r = minimax(board, depth, alpha, beta, !maximizing, piece, clock);
        return r;
    }
    let ghost cd = (depth - 1) as nat;
    let ghost fullv = minimax_over(s, moves@, cd, maximizing, piece);
    proof {
        lemma_over_props(s, moves@, cd, maximizing, piece);
        lemma_over_bounds(s, moves@, cd, maximizing, piece);
        assert(v_spec == fullv);
    }
    if maximizing {
        let mut best: i32 = i32::MIN;
        let mut a: i32 = alpha;
        let mut i: usize = 0;
        let mut pruned = false;
        while i < moves.len() && !pruned
            invariant
                i <= moves@.len(),
                a as int == (if best > alpha {
                    best as int
                } else {
                    alpha as int
                }),
                !pruned ==> a < beta,
                i == 0 ==> best == i32::MIN && !pruned,
                i > 0 ==> -2240 <= best <= 2240,
                clock is None && !pruned ==> (forall|j: int|
                    0 <= j < i ==> #[trigger] child_value(s, moves@[j], cd, true, piece)
                        <= best as int),
                clock is None && !pruned ==> (best as int <= alpha as int || best as int <= fullv),
                clock is None && pruned ==> beta as int <= best as int && best as int <= fullv,
            decreases moves@.len() - i,
        {
            let (mr, mc) = moves[i];
            proof {
                assert(moves@[i as int] == (mr, mc));
                assert(move_valid(s, mover, mr as int, mc as int));
            }
            let mut nb = board.duplicate();
            let ok = nb.apply_move(mover, mr, mc);
            proof {
                assert(nb@ == apply_spec(s, mover_of(piece, true), mr as int, mc as int));
            }
            let ev = minimax(&nb, depth - 1, a, beta, false, piece, clock);
            proof {
                assert(spec_minimax(nb@, cd, false, piece) == child_value(
                    s,
                    moves@[i as int],
                    cd,
                    true,
                    piece,
                ));
            }
            if ev > best {
                best = ev;
            }
            if ev > a {
                a = ev;
            }
            if beta <= a {
                pruned = true;
            }
            i += 1;
        }
        proof {
            if clock is None && !pruned {
                let jx = choose|j: int|
                    0 <= j < moves@.len() && fullv == #[trigger] child_value(
                        s,
                        moves@[j],
                        cd,
                        true,
                        piece,
                    );
                assert(child_value(s, moves@[jx], cd, true, piece) <= best as int);
            }
        }
        best
    } else {
        let mut best: i32 = i32::MAX;
        let mut b: i32 = beta;
        let mut i: usize = 0;
        let mut pruned = false;
        while i < moves.len() && !pruned
            invariant
                i <= moves@.len(),
                b as int == (if best < beta {
                    best as int
                } else {
                    beta as int
                }),
                !pruned ==> alpha < b,
                i == 0 ==> best == i32::MAX && !pruned,
                i > 0 ==> -2240 <= best <= 2240,
                clock is None && !pruned ==> (forall|j: int|
                    0 <= j < i ==> #[trigger] child_value(s, moves@[j], cd, false, piece)
                        >= best as int),
                clock is None && !pruned ==> (beta as int <= best as int || fullv <= best as int),
                clock is None && pruned ==> best as int <= alpha as int && fullv <= best as int,
            decreases moves@.len() - i,
        {
            let (mr, mc) = moves[i];
            proof {
                assert(moves@[i as int] == (mr, mc));
                assert(move_valid(s, mover, mr as int, mc as int));
            }
            let mut nb = board.duplicate();
            let ok = nb.apply_move(mover, mr, mc);
            proof {
                assert(nb@ == apply_spec(s, mover_of(piece, false), mr as int, mc as int));
            }
            let ev = minimax(&nb, depth - 1, alpha, b, true, piece, clock);
            proof {
                assert(spec_minimax(nb@, cd, true, piece) == child_value(
                    s,
                    moves@[i as int],
                    cd,
                    false,
                    piece,
                ));
            }
            if ev < best {
                best = ev;
            }
            if ev < b {
                b = ev;
            }
            if b <= alpha {
                pruned = true;
            }
            i += 1;
        }
        proof {
            if clock is None && !pruned {
                let jx = choose|j: int|
                    0 <= j < moves@.len() && fullv == #[trigger] child_value(
                        s,
                        moves@[j],
                        cd,
                        false,
                        piece,
                    );
                assert(child_value(s, moves@[jx], cd, false, piece) >= best as int);
            }
        }
        best
    }
}

/// The iterative-deepening driver: for each depth from 1 to `max_depth`,
/// score every root move of `piece` (in row-major order) with the pruned
/// search one layer below, keeping the earliest move whose score strictly
/// beats the incumbent; scanning stops as soon as the time budget is
/// spent, and the best move found so far is returned. `None` exactly
/// when the side has no legal move or no depth was requested. With a
/// zero budget the search still scores one root move at depth 1 and
/// returns it: the first legal move.
#[verifier::loop_isolation(false)]
pub fn get_best_move(board: &Board, piece: Piece, time_limit_ms: u64, max_depth: u32) -> (r: Option<
    (usize, usize),
>)
    requires
        board.wf(),
    ensures
        r is Some <==> (moves_list(board@, piece).len() > 0 && max_depth >= 1),
        r matches Some(m) ==> moves_list(board@, piece).contains(m),
        r matches Some(m) ==> (m.0 < 8 && m.1 < 8 && move_valid(
            board@,
            piece,
            m.0 as int,
            m.1 as int,
        )),
        time_limit_ms == 0 && moves_list(board@, piece).len() > 0 && max_depth >= 1 ==> r == Some(
            moves_list(board@, piece)[0],
        ),
{
    let ghost s = board@;
    let moves = board.valid_moves(piece);
    proof {
        lemma_moves_list_valid(s, piece);
    }
    if moves.len() == 0 {
        return None;
    }
    let clock = SearchClock::starting_now(time_limit_ms);
    let mut best: Option<(usize, usize)> = None;
    let mut best_score: i32 = i32::MIN;
    let mut depth: u64 = 1;
    let mut stop = false;
    while depth <= max_depth as u64 && !stop
        invariant
            1 <= depth <= max_depth as u64 + 1,
            clock.limit_ms == time_limit_ms,
            best is Some <==> (depth > 1 || stop),
            (depth > 1 || stop) ==> max_depth >= 1,
            best matches Some(m) ==> moves@.contains(m),
            time_limit_ms == 0 && (depth > 1 || stop) ==> (stop && best == Some(moves@[0])),
            best is None ==> best_score == i32::MIN,
        decreases max_depth as u64 + 1 - depth,
    {
        let mut i: usize = 0;
        while i < moves.len() && !stop
            invariant
                i <= moves@.len(),
                1 <= depth <= max_depth as u64,
                clock.limit_ms == time_limit_ms,
                best is Some <==> (depth > 1 || stop || i > 0),
                best matches Some(m) ==> moves@.contains(m),
                time_limit_ms == 0 && (depth > 1 || stop || i > 0) ==> (stop && best == Some(
                    moves@[0],
                )),
                best is None ==> best_score == i32::MIN,
            decreases moves@.len() - i,
        {
            let (mr, mc) = moves[i];
            proof {
                assert(moves@[i as int] == (mr, mc));
                assert(move_valid(s, piece, mr as int, mc as int));
            }
            let mut nb = board.duplicate();
            let ok = nb.apply_move(piece, mr, mc);
            let score = minimax(
                &nb,
                (depth - 1) as u32,
                i32::MIN,
                i32::MAX,
                false,
                piece,
                Some(&clock),
            );
            if score > best_score {
                best_score = score;
                best = Some((mr, mc));
                proof {
                    assert(moves@.contains(moves@[i as int]));
                }
            }
            if clock.expired() {
                stop = true;
            }
            i += 1;
        }
        depth += 1;
    }
    proof {
        match best {
            Some(m) => {
                let jx = choose|jx: int| 0 <= jx < moves@.len() && moves@[jx] == m;
                assert(m.0 < 8 && m.1 < 8 && move_valid(s, piece, m.0 as int, m.1 as int));
            },
            None => {},
        }
    }
    best
}

} // verus!
