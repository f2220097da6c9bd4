//! The board model: an 8x8 grid of cells, move legality, capture flips,
//! disc counting, terminal detection and the static evaluation.

use vstd::prelude::*;

verus! {

/// One of the two contestants.
#[derive(Clone, Copy, PartialEq, Eq, Structural, Debug)]
pub enum Piece {
    Black,
    White,
}

/// The side opposing `p`: a total, involutive mapping.
pub open spec fn opposite(p: Piece) -> Piece {
    match p {
        Piece::Black => Piece::White,
        Piece::White => Piece::Black,
    }
}

impl Piece {
    /// The opponent of this side.
    pub fn opponent(self) -> (r: Piece)
        ensures
            r == opposite(self),
    {
        match self {
            Piece::Black => Piece::White,
            Piece::White => Piece::Black,
        }
    }
}

/// Index of cell (r, c) in the row-major grid sequence.
pub open spec fn cell_index(r: int, c: int) -> int {
    r * 8 + c
}

/// Whether (r, c) lies on the 8x8 grid.
pub open spec fn on_board(r: int, c: int) -> bool {
    0 <= r < 8 && 0 <= c < 8
}

/// Row offset of compass direction `d` (directions are numbered 0..8 in
/// row-major order around the origin).
pub open spec fn delta_row(d: int) -> int {
    if d < 3 {
        -1
    } else if d < 5 {
        0
    } else {
        1
    }
}

/// Column offset of compass direction `d`.
pub open spec fn delta_col(d: int) -> int {
    if d == 0 || d == 3 || d == 5 {
        -1
    } else if d == 1 || d == 6 {
        0
    } else {
        1
    }
}

/// Row reached after `t` steps from `r` in direction `d`.
pub open spec fn ray_row(r: int, d: int, t: int) -> int {
    r + t * delta_row(d)
}

/// Column reached after `t` steps from `c` in direction `d`.
pub open spec fn ray_col(c: int, d: int, t: int) -> int {
    c + t * delta_col(d)
}

/// The cell `t` steps from (r, c) in direction `d` is on the grid and
/// holds a disc of the opponent of `p`.
pub open spec fn run_cell_opposing(
    s: Seq<Option<Piece>>,
    p: Piece,
    r: int,
    c: int,
    d: int,
    t: int,
) -> bool {
    &&& on_board(ray_row(r, d, t), ray_col(c, d, t))
    &&& s[cell_index(ray_row(r, d, t), ray_col(c, d, t))] == Some(opposite(p))
}

/// In direction `d` from (r, c), the `k` cells after (r, c) hold opponent
/// discs and the cell after them holds a disc of `p`: placing at (r, c)
/// captures exactly that run of `k` discs along this line.
pub open spec fn line_captures(
    s: Seq<Option<Piece>>,
    p: Piece,
    r: int,
    c: int,
    d: int,
    k: int,
) -> bool {
    &&& 1 <= k
    &&& forall|t: int| 1 <= t <= k ==> #[trigger] run_cell_opposing(s, p, r, c, d, t)
    &&& on_board(ray_row(r, d, k + 1), ray_col(c, d, k + 1))
    &&& s[cell_index(ray_row(r, d, k + 1), ray_col(c, d, k + 1))] == Some(p)
}

/// Direction `d` contributes legality for a placement of `p` at (r, c).
pub open spec fn dir_has_capture(s: Seq<Option<Piece>>, p: Piece, r: int, c: int, d: int) -> bool {
    exists|k: int| line_captures(s, p, r, c, d, k)
}

/// Placing a disc of `p` at (r, c) is legal on board `s`: the cell is on
/// the grid, empty, and some direction holds a bounded opponent run.
pub open spec fn move_valid(s: Seq<Option<Piece>>, p: Piece, r: int, c: int) -> bool {
    &&& on_board(r, c)
    &&& s[cell_index(r, c)] is None
    &&& exists|d: int| 0 <= d < 8 && dir_has_capture(s, p, r, c, d)
}

/// Cell (i, j) lies on the captured run of direction `d` for a placement
/// of `p` at (r, c).
pub open spec fn flips_in_dir(
    s: Seq<Option<Piece>>,
    p: Piece,
    r: int,
    c: int,
    d: int,
    i: int,
    j: int,
) -> bool {
    exists|t: int, k: int|
        #![trigger line_captures(s, p, r, c, d, k), ray_row(r, d, t)]
        1 <= t <= k && line_captures(s, p, r, c, d, k) && i == ray_row(r, d, t) && j == ray_col(
            c,
            d,
            t,
        )
}

/// Cell (i, j) is flipped by a placement of `p` at (r, c): it lies on a
/// captured run in some direction.
pub open spec fn flips_at(s: Seq<Option<Piece>>, p: Piece, r: int, c: int, i: int, j: int) -> bool {
    exists|d: int| 0 <= d < 8 && #[trigger] flips_in_dir(s, p, r, c, d, i, j)
}

/// Cell (i, j) is flipped by one of the directions before `dmax`.
spec fn flips_before_dir(
    s: Seq<Option<Piece>>,
    p: Piece,
    r: int,
    c: int,
    dmax: int,
    i: int,
    j: int,
) -> bool {
    exists|d: int| 0 <= d < dmax && #[trigger] flips_in_dir(s, p, r, c, d, i, j)
}

/// Cell (i, j) lies on the captured run of direction `d`, fewer than
/// `tmax` steps out.
spec fn flips_step_below(
    s: Seq<Option<Piece>>,
    p: Piece,
    r: int,
    c: int,
    d: int,
    tmax: int,
    i: int,
    j: int,
) -> bool {
    exists|t: int, k: int|
        #![trigger line_captures(s, p, r, c, d, k), ray_row(r, d, t)]
        1 <= t <= k && t < tmax && line_captures(s, p, r, c, d, k) && i == ray_row(r, d, t) && j
            == ray_col(c, d, t)
}

/// What the flip loop has made of cell `n` once the directions before
/// `dmax` are done.
spec fn flip_value(s: Seq<Option<Piece>>, p: Piece, r: int, c: int, dmax: int, n: int) -> Option<
    Piece,
> {
    if flips_before_dir(s, p, r, c, dmax, n / 8, n % 8) {
        Some(p)
    } else {
        s[n]
    }
}

/// The facts `run_length` establishes about direction `d`.
spec fn run_fact(s: Seq<Option<Piece>>, p: Piece, r: int, c: int, d: int, k: int) -> bool {
    &&& 0 <= k <= 8
    &&& (k > 0 ==> line_captures(s, p, r, c, d, k))
    &&& (k == 0 ==> !dir_has_capture(s, p, r, c, d))
}

/// The board after `p` places at (r, c): the placed disc appears there,
/// every disc on a captured run turns to `p`, and all else is unchanged.
pub open spec fn apply_spec(s: Seq<Option<Piece>>, p: Piece, r: int, c: int) -> Seq<Option<Piece>> {
    Seq::new(
        64,
        |n: int|
            if n == cell_index(r, c) {
                Some(p)
            } else if flips_at(s, p, r, c, n / 8, n % 8) {
                Some(p)
            } else {
                s[n]
            },
    )
}

/// The legal moves of `p` among the first `n` cells in row-major order.
pub open spec fn moves_upto(s: Seq<Option<Piece>>, p: Piece, n: int) -> Seq<(usize, usize)>
    decreases n,
{
    if n <= 0 {
        Seq::empty()
    } else if move_valid(s, p, (n - 1) / 8, (n - 1) % 8) {
        moves_upto(s, p, n - 1) + seq![((((n - 1) / 8) as usize), (((n - 1) % 8) as usize))]
    } else {
        moves_upto(s, p, n - 1)
    }
}

/// All legal moves of `p`, in row-major order.
pub open spec fn moves_list(s: Seq<Option<Piece>>, p: Piece) -> Seq<(usize, usize)> {
    moves_upto(s, p, 64)
}

/// Number of discs of `p` among the first `n` cells.
pub open spec fn count_upto(s: Seq<Option<Piece>>, p: Piece, n: int) -> int
    decreases n,
{
    if n <= 0 {
        0
    } else {
        count_upto(s, p, n - 1) + if s[n - 1] == Some(p) {
            1int
        } else {
            0int
        }
    }
}

/// Number of discs of `p` on the board.
pub open spec fn count_spec(s: Seq<Option<Piece>>, p: Piece) -> int {
    count_upto(s, p, 64)
}

/// Number of occupied cells among the first `n`.
pub open spec fn occupied_upto(s: Seq<Option<Piece>>, n: int) -> int
    decreases n,
{
    if n <= 0 {
        0
    } else {
        occupied_upto(s, n - 1) + if s[n - 1] is Some {
            1int
        } else {
            0int
        }
    }
}

/// The extra weight of a corner cell in the evaluation.
pub open spec fn corner_bonus(n: int) -> int {
    if n == 0 || n == 7 || n == 56 || n == 63 {
        25
    } else {
        0
    }
}

/// Contribution of cell `n` to the evaluation for `p`: +10 for an own
/// disc, -10 for an opponent disc, with 25 more in the same sign on the
/// four corners.
pub open spec fn cell_value(s: Seq<Option<Piece>>, p: Piece, n: int) -> int {
    if s[n] == Some(p) {
        10 + corner_bonus(n)
    } else if s[n] == Some(opposite(p)) {
        -10 - corner_bonus(n)
    } else {
        0
    }
}

/// Evaluation summed over the first `n` cells.
pub open spec fn eval_upto(s: Seq<Option<Piece>>, p: Piece, n: int) -> int
    decreases n,
{
    if n <= 0 {
        0
    } else {
        eval_upto(s, p, n - 1) + cell_value(s, p, n - 1)
    }
}

/// The static evaluation of board `s` for side `p`; higher favours `p`.
pub open spec fn eval_spec(s: Seq<Option<Piece>>, p: Piece) -> int {
    eval_upto(s, p, 64)
}

/// The game is over: neither side has a legal move.
pub open spec fn game_over_spec(s: Seq<Option<Piece>>) -> bool {
    moves_list(s, Piece::Black).len() == 0 && moves_list(s, Piece::White).len() == 0
}

/// The canonical starting configuration: two discs of each side in the
/// centre, all other cells empty.
pub open spec fn starting_board() -> Seq<Option<Piece>> {
    Seq::new(
        64,
        |n: int|
            if n == cell_index(3, 3) || n == cell_index(4, 4) {
                Some(Piece::White)
            } else if n == cell_index(3, 4) || n == cell_index(4, 3) {
                Some(Piece::Black)
            } else {
                None
            },
    )
}

/// Multiplication by -1, 0 or 1, spelled out for the default solver.
proof fn lemma_mul_unit(t: int, h: int) by (nonlinear_arith)
    ensures
        h == 1 ==> t * h == t,
        h == -1 ==> t * h == -t,
        h == 0 ==> t * h == 0,
{
}

/// Direction offsets lie in {-1, 0, 1} and are never both zero.
proof fn lemma_delta_shape(d: int)
    requires
        0 <= d < 8,
    ensures
        -1 <= delta_row(d) <= 1,
        -1 <= delta_col(d) <= 1,
        delta_row(d) != 0 || delta_col(d) != 0,
{
}

/// The ray position, with its multiplications resolved per direction.
proof fn lemma_ray_arith(r: int, c: int, d: int, t: int)
    requires
        0 <= d < 8,
    ensures
        delta_row(d) == 1 ==> ray_row(r, d, t) == r + t,
        delta_row(d) == -1 ==> ray_row(r, d, t) == r - t,
        delta_row(d) == 0 ==> ray_row(r, d, t) == r,
        delta_col(d) == 1 ==> ray_col(c, d, t) == c + t,
        delta_col(d) == -1 ==> ray_col(c, d, t) == c - t,
        delta_col(d) == 0 ==> ray_col(c, d, t) == c,
{
    lemma_mul_unit(t, delta_row(d));
    lemma_mul_unit(t, delta_col(d));
}

/// One step extends a ray by its direction's offsets.
proof fn lemma_ray_step(r: int, c: int, d: int, t: int)
    requires
        0 <= d < 8,
    ensures
        ray_row(r, d, t + 1) == ray_row(r, d, t) + delta_row(d),
        ray_col(c, d, t + 1) == ray_col(c, d, t) + delta_col(d),
{
    lemma_delta_shape(d);
    lemma_ray_arith(r, c, d, t);
    lemma_ray_arith(r, c, d, t + 1);
}

/// A ray stays on an 8x8 grid for at most 7 steps.
proof fn lemma_step_bound(r: int, c: int, d: int, t: int)
    requires
        0 <= r < 8,
        0 <= c < 8,
        0 <= d < 8,
        1 <= t,
        on_board(ray_row(r, d, t), ray_col(c, d, t)),
    ensures
        t <= 7,
{
    lemma_delta_shape(d);
    lemma_ray_arith(r, c, d, t);
}

/// A ray never returns to its origin.
proof fn lemma_ray_moves(r: int, c: int, d: int, t: int)
    requires
        0 <= d < 8,
        1 <= t,
    ensures
        ray_row(r, d, t) != r || ray_col(c, d, t) != c,
{
    lemma_delta_shape(d);
    lemma_ray_arith(r, c, d, t);
}

/// Every entry of the legal-move enumeration lies on the grid and is a
/// legal move.
pub proof fn lemma_moves_upto_valid(s: Seq<Option<Piece>>, p: Piece, n: int)
    requires
        0 <= n <= 64,
    ensures
        forall|i: int|
            0 <= i < moves_upto(s, p, n).len() ==> (#[trigger] moves_upto(s, p, n)[i]).0 < 8
                && moves_upto(s, p, n)[i].1 < 8 && move_valid(
                s,
                p,
                moves_upto(s, p, n)[i].0 as int,
                moves_upto(s, p, n)[i].1 as int,
            ),
    decreases n,
{
    if n > 0 {
        lemma_moves_upto_valid(s, p, n - 1);
        let prev = moves_upto(s, p, n - 1);
        let whole = moves_upto(s, p, n);
        assert forall|i: int|
            0 <= i < whole.len() implies (#[trigger] whole[i]).0 < 8 && whole[i].1 < 8
            && move_valid(s, p, whole[i].0 as int, whole[i].1 as int) by {
            if i < prev.len() {
                assert(whole[i] == prev[i]);
            } else {
                assert(move_valid(s, p, (n - 1) / 8, (n - 1) % 8));
            }
        }
    }
}

/// Every entry of `moves_list` lies on the grid and is a legal move.
pub proof fn lemma_moves_list_valid(s: Seq<Option<Piece>>, p: Piece)
    ensures
        forall|i: int|
            0 <= i < moves_list(s, p).len() ==> (#[trigger] moves_list(s, p)[i]).0 < 8
                && moves_list(s, p)[i].1 < 8 && move_valid(
                s,
                p,
                moves_list(s, p)[i].0 as int,
                moves_list(s, p)[i].1 as int,
            ),
{
    lemma_moves_upto_valid(s, p, 64);
}

proof fn lemma_moves_upto_contains(s: Seq<Option<Piece>>, p: Piece, n: int, row: usize, col: usize)
    requires
        0 <= n <= 64,
        row < 8,
        col < 8,
    ensures
        moves_upto(s, p, n).contains((row, col)) <==> (cell_index(row as int, col as int) < n
            && move_valid(s, p, row as int, col as int)),
    decreases n,
{
    if n > 0 {
        lemma_moves_upto_contains(s, p, n - 1, row, col);
        let prev = moves_upto(s, p, n - 1);
        let whole = moves_upto(s, p, n);
        if move_valid(s, p, (n - 1) / 8, (n - 1) % 8) {
            let e = ((((n - 1) / 8) as usize), (((n - 1) % 8) as usize));
            assert(whole == prev + seq![e]);
            if prev.contains((row, col)) {
                let i = choose|i: int| 0 <= i < prev.len() && prev[i] == (row, col);
                assert(whole[i] == (row, col));
            }
            if cell_index(row as int, col as int) < n && move_valid(
                s,
                p,
                row as int,
                col as int,
            ) {
                if cell_index(row as int, col as int) == n - 1 {
                    assert(whole[prev.len() as int] == e);
                    assert(e == (row, col));
                }
            }
            if whole.contains((row, col)) {
                let i = choose|i: int| 0 <= i < whole.len() && whole[i] == (row, col);
                if i < prev.len() {
                    assert(prev[i] == (row, col));
                } else {
                    assert((row, col) == e);
                    assert(cell_index(row as int, col as int) == n - 1);
                }
            }
        } else {
            assert(whole == prev);
            if cell_index(row as int, col as int) == n - 1 {
                assert((n - 1) / 8 == row as int && (n - 1) % 8 == col as int);
            }
        }
    }
}

/// Legality symmetry: a coordinate is a legal move exactly when it
/// appears in the legal-move enumeration.
pub proof fn lemma_legality_symmetry(s: Seq<Option<Piece>>, p: Piece, row: usize, col: usize)
    requires
        row < 8,
        col < 8,
    ensures
        moves_list(s, p).contains((row, col)) <==> move_valid(s, p, row as int, col as int),
{
    lemma_moves_upto_contains(s, p, 64, row, col);
}

/// Terminal correctness: the game is over exactly when neither side has
/// any legal move anywhere on the grid.
pub proof fn lemma_terminal_correctness(s: Seq<Option<Piece>>)
    ensures
        game_over_spec(s) <==> ((forall|r: int, c: int|
            on_board(r, c) ==> !(#[trigger] move_valid(s, Piece::Black, r, c))) && (forall|
            r: int,
            c: int,
        |
            on_board(r, c) ==> !(#[trigger] move_valid(s, Piece::White, r, c)))),
{
    lemma_moves_list_valid(s, Piece::Black);
    lemma_moves_list_valid(s, Piece::White);
    if game_over_spec(s) {
        assert forall|r: int, c: int| on_board(r, c) implies !(#[trigger] move_valid(
            s,
            Piece::Black,
            r,
            c,
        )) by {
            lemma_moves_upto_contains(s, Piece::Black, 64, r as usize, c as usize);
        }
        assert forall|r: int, c: int| on_board(r, c) implies !(#[trigger] move_valid(
            s,
            Piece::White,
            r,
            c,
        )) by {
            lemma_moves_upto_contains(s, Piece::White, 64, r as usize, c as usize);
        }
    } else {
        if moves_list(s, Piece::Black).len() > 0 {
            let m = moves_list(s, Piece::Black)[0];
            assert(move_valid(s, Piece::Black, m.0 as int, m.1 as int));
        } else {
            let m = moves_list(s, Piece::White)[0];
            assert(move_valid(s, Piece::White, m.0 as int, m.1 as int));
        }
    }
}

/// When the game is not over, a side without a legal move faces an
/// opponent who has one: the pass hands the turn to a side that moves.
pub proof fn lemma_pass_other_side(s: Seq<Option<Piece>>, p: Piece)
    requires
        !game_over_spec(s),
        moves_list(s, p).len() == 0,
    ensures
        moves_list(s, opposite(p)).len() > 0,
{
}

proof fn lemma_count_split(s: Seq<Option<Piece>>, p: Piece, n: int)
    ensures
        count_upto(s, p, n) + count_upto(s, opposite(p), n) == occupied_upto(s, n),
    decreases n,
{
    if n > 0 {
        lemma_count_split(s, p, n - 1);
        assert(opposite(p) != p);
        match s[n - 1] {
            Some(q) => {
                assert(q == p || q == opposite(p));
            },
            None => {},
        }
    }
}

proof fn lemma_occupied_apply(s: Seq<Option<Piece>>, p: Piece, r: int, c: int, n: int)
    requires
        s.len() == 64,
        move_valid(s, p, r, c),
        0 <= n <= 64,
    ensures
        occupied_upto(apply_spec(s, p, r, c), n) == occupied_upto(s, n) + (
        if cell_index(r, c) < n {
            1int
        } else {
            0int
        }),
    decreases n,
{
    if n > 0 {
        lemma_occupied_apply(s, p, r, c, n - 1);
        let s2 = apply_spec(s, p, r, c);
        let m = n - 1;
        if m != cell_index(r, c) {
            if flips_at(s, p, r, c, m / 8, m % 8) {
                let d = choose|d: int|
                    0 <= d < 8 && #[trigger] flips_in_dir(s, p, r, c, d, m / 8, m % 8);
                let (tw, kw) = choose|tw: int, kw: int|
                    #![trigger line_captures(s, p, r, c, d, kw), ray_row(r, d, tw)]
                    1 <= tw <= kw && line_captures(s, p, r, c, d, kw) && m / 8 == ray_row(r, d, tw)
                        && m % 8 == ray_col(c, d, tw);
                assert(run_cell_opposing(s, p, r, c, d, tw));
                assert(s[m] == Some(opposite(p)));
            }
        }
    }
}

/// Flip conservation, first half: a successful move raises the total
/// disc count by exactly one.
pub proof fn lemma_flip_conservation(s: Seq<Option<Piece>>, p: Piece, r: int, c: int)
    requires
        s.len() == 64,
        move_valid(s, p, r, c),
    ensures
        count_spec(apply_spec(s, p, r, c), Piece::Black) + count_spec(
            apply_spec(s, p, r, c),
            Piece::White,
        ) == count_spec(s, Piece::Black) + count_spec(s, Piece::White) + 1,
{
    let s2 = apply_spec(s, p, r, c);
    lemma_count_split(s, Piece::Black, 64);
    lemma_count_split(s2, Piece::Black, 64);
    lemma_occupied_apply(s, p, r, c, 64);
}

/// Flip conservation, second half: every flipped disc changes owner,
/// from the opponent of the mover to the mover.
#[verifier::rlimit(100)]
pub proof fn lemma_flip_changes_owner(s: Seq<Option<Piece>>, p: Piece, r: int, c: int)
    requires
        s.len() == 64,
        move_valid(s, p, r, c),
    ensures
        forall|i: int, j: int|
            #[trigger] flips_at(s, p, r, c, i, j) ==> s[cell_index(i, j)] == Some(opposite(p))
                && apply_spec(s, p, r, c)[cell_index(i, j)] == Some(p) && on_board(i, j),
{
    assert forall|i: int, j: int| #[trigger] flips_at(s, p, r, c, i, j) implies s[cell_index(i, j)]
        == Some(opposite(p)) && apply_spec(s, p, r, c)[cell_index(i, j)] == Some(p) && on_board(
        i,
        j,
    ) by {
        let d = choose|d: int| 0 <= d < 8 && #[trigger] flips_in_dir(s, p, r, c, d, i, j);
        let (tw, kw) = choose|tw: int, kw: int|
            #![trigger line_captures(s, p, r, c, d, kw), ray_row(r, d, tw)]
            1 <= tw <= kw && line_captures(s, p, r, c, d, kw) && i == ray_row(r, d, tw) && j
                == ray_col(c, d, tw);
        assert(run_cell_opposing(s, p, r, c, d, tw));
        lemma_ray_moves(r, c, d, tw);
        let m = cell_index(i, j);
        assert(m / 8 == i && m % 8 == j);
    }
}

/// No regression: a move never converts an occupied cell to empty.
pub proof fn lemma_no_regression(s: Seq<Option<Piece>>, p: Piece, r: int, c: int)
    ensures
        forall|n: int|
            0 <= n < 64 && s[n] is Some ==> #[trigger] apply_spec(s, p, r, c)[n] is Some,
{
}

proof fn lemma_eval_upto_antisym(s: Seq<Option<Piece>>, p: Piece, n: int)
    ensures
        eval_upto(s, p, n) == -eval_upto(s, opposite(p), n),
    decreases n,
{
    if n > 0 {
        lemma_eval_upto_antisym(s, p, n - 1);
    }
}

/// Evaluation antisymmetry: the evaluation for one side is the negation
/// of the evaluation for its opponent.
pub proof fn lemma_evaluation_antisymmetry(s: Seq<Option<Piece>>, p: Piece)
    ensures
        eval_spec(s, p) == -eval_spec(s, opposite(p)),
{
    lemma_eval_upto_antisym(s, p, 64);
}

/// The evaluation lies within fixed bounds: 64 cells, each worth at most
/// 35 points (10 for the disc and 25 for a corner).
pub proof fn lemma_eval_bounds(s: Seq<Option<Piece>>, p: Piece, n: int)
    requires
        0 <= n <= 64,
    ensures
        -35 * n <= eval_upto(s, p, n) <= 35 * n,
        -2240 <= eval_upto(s, p, n) <= 2240,
    decreases n,
{
    if n > 0 {
        lemma_eval_bounds(s, p, n - 1);
    }
}

/// At most one run length captures along a given line.
pub proof fn lemma_capture_length_unique(
    s: Seq<Option<Piece>>,
    p: Piece,
    r: int,
    c: int,
    d: int,
    k1: int,
    k2: int,
)
    requires
        line_captures(s, p, r, c, d, k1),
        line_captures(s, p, r, c, d, k2),
    ensures
        k1 == k2,
{
    assert(opposite(p) != p);
    if k1 < k2 {
        assert(run_cell_opposing(s, p, r, c, d, k1 + 1));
    }
    if k2 < k1 {
        assert(run_cell_opposing(s, p, r, c, d, k2 + 1));
    }
}

/// The 8x8 grid of cells, stored row-major.
pub struct Board {
    cells: Vec<Option<Piece>>,
}

impl View for Board {
    type V = Seq<Option<Piece>>;

    closed spec fn view(&self) -> Seq<Option<Piece>> {
        self.cells@
    }
}

impl Board {
    /// The grid always holds exactly 64 cells.
    pub open spec fn wf(&self) -> bool {
        self@.len() == 64
    }

    /// A board in the canonical starting configuration.
    pub fn new() -> (b: Board)
        ensures
            b.wf(),
            b@ == starting_board(),
    {
        let mut cells: Vec<Option<Piece>> = Vec::new();
        let mut i: usize = 0;
        while i < 64
            invariant
                i <= 64,
                cells@.len() == i,
                forall|n: int| 0 <= n < i ==> cells@[n] is None,
            decreases 64 - i,
        {
            cells.push(None);
            i += 1;
        }
        let mut b = Board { cells };
        b.cells.set(27, Some(Piece::White));
        b.cells.set(28, Some(Piece::Black));
        b.cells.set(35, Some(Piece::Black));
        b.cells.set(36, Some(Piece::White));
        proof {
            assert(b@ =~= starting_board());
        }
        b
    }

    /// A board from an explicit row-major list of 64 cells; `None` when
    /// the list has another length.
    pub fn from_cells(cells: Vec<Option<Piece>>) -> (r: Option<Board>)
        ensures
            cells@.len() == 64 ==> (r matches Some(b) && b.wf() && b@ == cells@),
            cells@.len() != 64 ==> r is None,
    {
        if cells.len() == 64 {
            Some(Board { cells })
        } else {
            None
        }
    }

    /// Whether (row, col) lies on the grid.
    pub fn in_bounds(row: i32, col: i32) -> (r: bool)
        ensures
            r == on_board(row as int, col as int),
    {
        row >= 0 && row < 8 && col >= 0 && col < 8
    }

    /// The cell at (row, col).
    pub fn get(&self, row: usize, col: usize) -> (r: Option<Piece>)
        requires
            self.wf(),
            row < 8,
            col < 8,
        ensures
            r == self@[cell_index(row as int, col as int)],
    {
        self.cells[row * 8 + col]
    }

    /// Overwrite the cell at (row, col).
    fn set_cell(&mut self, row: usize, col: usize, q: Option<Piece>)
        requires
            old(self).wf(),
            row < 8,
            col < 8,
        ensures
            final(self).wf(),
            final(self)@ == old(self)@.update(cell_index(row as int, col as int), q),
    {
        self.cells.set(row * 8 + col, q);
    }

    /// The row and column offsets of compass direction `d`.
    fn direction(d: usize) -> (r: (i32, i32))
        requires
            d < 8,
        ensures
            r.0 as int == delta_row(d as int),
            r.1 as int == delta_col(d as int),
    {
        if d == 0 {
            (-1, -1)
        } else if d == 1 {
            (-1, 0)
        } else if d == 2 {
            (-1, 1)
        } else if d == 3 {
            (0, -1)
        } else if d == 4 {
            (0, 1)
        } else if d == 5 {
            (1, -1)
        } else if d == 6 {
            (1, 0)
        } else {
            (1, 1)
        }
    }

    /// Scan outward from (row, col) in direction `d`: the length of the
    /// contiguous opponent run bounded by a friendly disc, or 0 when the
    /// direction captures nothing.
    #[verifier::loop_isolation(false)]
    fn run_length(&self, p: Piece, row: usize, col: usize, d: usize) -> (k: usize)
        requires
            self.wf(),
            row < 8,
            col < 8,
            d < 8,
        ensures
            k > 0 ==> line_captures(self@, p, row as int, col as int, d as int, k as int),
            k == 0 ==> !dir_has_capture(self@, p, row as int, col as int, d as int),
            k <= 8,
    {
        let ghost s = self@;
        let ghost ri = row as int;
        let ghost ci = col as int;
        let ghost di = d as int;
        let (dr, dc) = Self::direction(d);
        proof {
            lemma_ray_arith(ri, ci, di, 1);
            lemma_delta_shape(di);
            assert(opposite(p) != p);
        }
        let mut rr: i32 = row as i32 + dr;
        let mut cc: i32 = col as i32 + dc;
        let mut t: usize = 1;
        let mut found = false;
        while rr >= 0 && rr < 8 && cc >= 0 && cc < 8
            invariant
                1 <= t <= 9,
                rr as int == ray_row(ri, di, t as int),
                cc as int == ray_col(ci, di, t as int),
                -9 <= rr <= 9,
                -9 <= cc <= 9,
                found <==> t > 1,
                forall|u: int| 1 <= u < t ==> run_cell_opposing(s, p, ri, ci, di, u),
            decreases 10 - t,
        {
            proof {
                lemma_step_bound(ri, ci, di, t as int);
            }
            let q = self.get(rr as usize, cc as usize);
            match q {
                Some(x) => {
                    if x == p {
                        if found {
                            // A friendly anchor after at least one opponent
                            // disc: the run of t - 1 cells is captured.
                            proof {
                                assert(line_captures(s, p, ri, ci, di, t as int - 1));
                            }
                            return t - 1;
                        } else {
                            // An adjacent friendly disc: a zero-length run.
                            proof {
                                assert forall|k: int| !(#[trigger] line_captures(
                                    s,
                                    p,
                                    ri,
                                    ci,
                                    di,
                                    k,
                                )) by {
                                    if line_captures(s, p, ri, ci, di, k) {
                                        assert(run_cell_opposing(s, p, ri, ci, di, 1));
                                    }
                                }
                            }
                            return 0;
                        }
                    } else {
                        // An opponent disc extends the run.
                        proof {
                            assert(run_cell_opposing(s, p, ri, ci, di, t as int));
                            lemma_ray_step(ri, ci, di, t as int);
                        }
                        found = true;
                        rr = rr + dr;
                        cc = cc + dc;
                        t = t + 1;
                    }
                },
                None => {
                    // An empty cell before any anchor: nothing captured.
                    proof {
                        assert forall|k: int| !(#[trigger] line_captures(s, p, ri, ci, di, k)) by {
                            if line_captures(s, p, ri, ci, di, k) {
                                if k >= t {
                                    assert(run_cell_opposing(s, p, ri, ci, di, t as int));
                                } else if k + 1 == t {
                                    assert(s[cell_index(
                                        ray_row(ri, di, t as int),
                                        ray_col(ci, di, t as int),
                                    )] == Some(p));
                                } else {
                                    assert(run_cell_opposing(s, p, ri, ci, di, k + 1));
                                }
                            }
                        }
                    }
                    return 0;
                },
            }
        }
        // The scan left the grid without finding an anchor.
        proof {
            assert forall|k: int| !(#[trigger] line_captures(s, p, ri, ci, di, k)) by {
                if line_captures(s, p, ri, ci, di, k) {
                    if k >= t {
                        assert(run_cell_opposing(s, p, ri, ci, di, t as int));
                    } else if k + 1 == t {
                        assert(on_board(ray_row(ri, di, t as int), ray_col(ci, di, t as int)));
                    } else {
                        assert(run_cell_opposing(s, p, ri, ci, di, k + 1));
                    }
                }
            }
        }
        0
    }

    /// Whether placing a disc of `piece` at (row, col) is legal: the cell
    /// is empty and some direction holds an opponent run bounded by a
    /// friendly disc.
    #[verifier::loop_isolation(false)]
    pub fn is_valid_move(&self, piece: Piece, row: usize, col: usize) -> (r: bool)
        requires
            self.wf(),
            row < 8,
            col < 8,
        ensures
            r == move_valid(self@, piece, row as int, col as int),
    {
        if self.get(row, col).is_some() {
            return false;
        }
        let mut d: usize = 0;
        while d < 8
            invariant
                d <= 8,
                forall|dd: int|
                    0 <= dd < d ==> !dir_has_capture(self@, piece, row as int, col as int, dd),
            decreases 8 - d,
        {
            if self.run_length(piece, row, col, d) > 0 {
                proof {
                    assert(dir_has_capture(self@, piece, row as int, col as int, d as int));
                }
                return true;
            }
            d += 1;
        }
        false
    }

    /// All legal moves of `piece`, in row-major order.
    #[verifier::loop_isolation(false)]
    pub fn valid_moves(&self, piece: Piece) -> (moves: Vec<(usize, usize)>)
        requires
            self.wf(),
        ensures
            moves@ == moves_list(self@, piece),
    {
        let mut moves: Vec<(usize, usize)> = Vec::new();
        let mut row: usize = 0;
        while row < 8
            invariant
                row <= 8,
                moves@ == moves_upto(self@, piece, 8 * row as int),
            decreases 8 - row,
        {
            let mut col: usize = 0;
            while col < 8
                invariant
                    col <= 8,
                    row < 8,
                    moves@ == moves_upto(self@, piece, 8 * row as int + col as int),
                decreases 8 - col,
            {
                if self.is_valid_move(piece, row, col) {
                    moves.push((row, col));
                }
                proof {
                    let n = 8 * row as int + col as int;
                    assert((n + 1 - 1) / 8 == row as int && (n + 1 - 1) % 8 == col as int);
                    assert(moves_upto(self@, piece, n + 1) == if move_valid(
                        self@,
                        piece,
                        row as int,
                        col as int,
                    ) {
                        moves_upto(self@, piece, n) + seq![(row, col)]
                    } else {
                        moves_upto(self@, piece, n)
                    });
                }
                col += 1;
            }
            row += 1;
        }
        moves
    }

    /// Apply the move of `piece` at (row, col): place the disc and flip
    /// every captured run. Returns false, leaving the board unchanged,
    /// when the move is illegal.
    #[verifier::loop_isolation(false)]
    #[verifier::rlimit(100)]
    pub fn apply_move(&mut self, piece: Piece, row: usize, col: usize) -> (ok: bool)
        requires
            old(self).wf(),
            row < 8,
            col < 8,
        ensures
            final(self).wf(),
            ok == move_valid(old(self)@, piece, row as int, col as int),
            !ok ==> final(self)@ == old(self)@,
            ok ==> final(self)@ == apply_spec(old(self)@, piece, row as int, col as int),
    {
        let ghost s0 = self@;
        let ghost ri = row as int;
        let ghost ci = col as int;
        let ghost n0 = cell_index(ri, ci);
        if !self.is_valid_move(piece, row, col) {
            return false;
        }
        // Record the captured run of every direction before mutating.
        let mut runs: Vec<usize> = Vec::new();
        let mut d: usize = 0;
        while d < 8
            invariant
                self@ == s0,
                d <= 8,
                runs@.len() == d as int,
                forall|dd: int|
                    0 <= dd < d ==> #[trigger] run_fact(s0, piece, ri, ci, dd, runs@[dd] as int),
            decreases 8 - d,
        {
            let k = self.run_length(piece, row, col, d);
            runs.push(k);
            d += 1;
        }
        self.set_cell(row, col, Some(piece));
        let mut d: usize = 0;
        while d < 8
            invariant
                d <= 8,
                self.wf(),
                runs@.len() == 8,
                forall|dd: int|
                    0 <= dd < 8 ==> #[trigger] run_fact(s0, piece, ri, ci, dd, runs@[dd] as int),
                self@[n0] == Some(piece),
                forall|n: int|
                    0 <= n < 64 && n != n0 ==> #[trigger] self@[n] == flip_value(
                        s0,
                        piece,
                        ri,
                        ci,
                        d as int,
                        n,
                    ),
            decreases 8 - d,
        {
            let ghost di = d as int;
            let k = runs[d];
            proof {
                assert(run_fact(s0, piece, ri, ci, di, runs@[di] as int));
            }
            if k > 0 {
                let (dr, dc) = Self::direction(d);
                proof {
                    lemma_ray_arith(ri, ci, di, 1);
                }
                let mut rr: i32 = row as i32 + dr;
                let mut cc: i32 = col as i32 + dc;
                let mut t: usize = 1;
                while t <= k
                    invariant
                        1 <= t <= k + 1,
                        rr as int == ray_row(ri, di, t as int),
                        cc as int == ray_col(ci, di, t as int),
                        self.wf(),
                        self@[n0] == Some(piece),
                        forall|n: int|
                            0 <= n < 64 && n != n0 ==> #[trigger] self@[n] == (
                            if flips_before_dir(s0, piece, ri, ci, di, n / 8, n % 8)
                                || flips_step_below(s0, piece, ri, ci, di, t as int, n / 8, n % 8) {
                                Some(piece)
                            } else {
                                s0[n]
                            }),
                    decreases k + 1 - t,
                {
                    proof {
                        assert(line_captures(s0, piece, ri, ci, di, k as int));
                        assert(run_cell_opposing(s0, piece, ri, ci, di, t as int));
                    }
                    let ghost before = self@;
                    self.set_cell(rr as usize, cc as usize, Some(piece));
                    proof {
                        let nw = cell_index(rr as int, cc as int);
                        assert(nw / 8 == rr as int && nw % 8 == cc as int);
                        assert forall|n: int| 0 <= n < 64 && n != n0 implies #[trigger] self@[n]
                            == (if flips_before_dir(s0, piece, ri, ci, di, n / 8, n % 8)
                            || flips_step_below(
                            s0,
                            piece,
                            ri,
                            ci,
                            di,
                            t as int + 1,
                            n / 8,
                            n % 8,
                        ) {
                            Some(piece)
                        } else {
                            s0[n]
                        }) by {
                            if n == nw {
                                assert(flips_step_below(
                                    s0,
                                    piece,
                                    ri,
                                    ci,
                                    di,
                                    t as int + 1,
                                    n / 8,
                                    n % 8,
                                ));
                            } else {
                                assert(self@[n] == before[n]);
                                if flips_step_below(
                                    s0,
                                    piece,
                                    ri,
                                    ci,
                                    di,
                                    t as int + 1,
                                    n / 8,
                                    n % 8,
                                ) && !flips_step_below(s0, piece, ri, ci, di, t as int, n / 8, n % 8) {
                                    // such a witness must step exactly t, which is
                                    // the written cell
                                    let (tw, kw) = choose|tw: int, kw: int|
                                        #![trigger line_captures(s0, piece, ri, ci, di, kw), ray_row(ri, di, tw)]
                                        1 <= tw <= kw && tw < t as int + 1 && line_captures(
                                            s0,
                                            piece,
                                            ri,
                                            ci,
                                            di,
                                            kw,
                                        ) && n / 8 == ray_row(ri, di, tw) && n % 8 == ray_col(
                                            ci,
                                            di,
                                            tw,
                                        );
                                    assert(tw == t as int);
                                    assert(run_cell_opposing(s0, piece, ri, ci, di, tw));
                                    assert(n == 8 * (n / 8) + n % 8);
                                    assert(false);
                                }
                            }
                        }
                        lemma_ray_step(ri, ci, di, t as int);
                    }
                    rr = rr + dr;
                    cc = cc + dc;
                    t += 1;
                }
                // Direction d is done: its flips are exactly the k steps.
                proof {
                    assert forall|n: int| 0 <= n < 64 && n != n0 implies #[trigger] self@[n]
                        == flip_value(s0, piece, ri, ci, di + 1, n) by {
                        if flips_before_dir(s0, piece, ri, ci, di + 1, n / 8, n % 8)
                            && !flips_before_dir(s0, piece, ri, ci, di, n / 8, n % 8) {
                            let dd = choose|dd: int|
                                0 <= dd < di + 1 && #[trigger] flips_in_dir(
                                    s0,
                                    piece,
                                    ri,
                                    ci,
                                    dd,
                                    n / 8,
                                    n % 8,
                                );
                            assert(dd == di);
                            let (tw, kw) = choose|tw: int, kw: int|
                                #![trigger line_captures(s0, piece, ri, ci, di, kw), ray_row(ri, di, tw)]
                                1 <= tw <= kw && line_captures(s0, piece, ri, ci, di, kw) && n / 8
                                    == ray_row(ri, di, tw) && n % 8 == ray_col(ci, di, tw);
                            lemma_capture_length_unique(s0, piece, ri, ci, di, kw, k as int);
                            assert(flips_step_below(
                                s0,
                                piece,
                                ri,
                                ci,
                                di,
                                k as int + 1,
                                n / 8,
                                n % 8,
                            ));
                        }
                        if flips_step_below(s0, piece, ri, ci, di, k as int + 1, n / 8, n % 8) {
                            assert(flips_in_dir(s0, piece, ri, ci, di, n / 8, n % 8));
                        }
                    }
                }
            } else {
                // No capture in this direction: nothing changes.
                proof {
                    assert forall|n: int| 0 <= n < 64 && n != n0 implies #[trigger] self@[n]
                        == flip_value(s0, piece, ri, ci, di + 1, n) by {
                        if flips_before_dir(s0, piece, ri, ci, di + 1, n / 8, n % 8)
                            && !flips_before_dir(s0, piece, ri, ci, di, n / 8, n % 8) {
                            let dd = choose|dd: int|
                                0 <= dd < di + 1 && #[trigger] flips_in_dir(
                                    s0,
                                    piece,
                                    ri,
                                    ci,
                                    dd,
                                    n / 8,
                                    n % 8,
                                );
                            assert(dd == di);
                            let (tw, kw) = choose|tw: int, kw: int|
                                #![trigger line_captures(s0, piece, ri, ci, di, kw), ray_row(ri, di, tw)]
                                1 <= tw <= kw && line_captures(s0, piece, ri, ci, di, kw) && n / 8
                                    == ray_row(ri, di, tw) && n % 8 == ray_col(ci, di, tw);
                            assert(dir_has_capture(s0, piece, ri, ci, di));
                            assert(false);
                        }
                    }
                }
            }
            d += 1;
        }
        proof {
            assert forall|n: int| 0 <= n < 64 implies self@[n] == apply_spec(s0, piece, ri, ci)[n]
                by {
                if n != n0 {
                    assert(self@[n] == flip_value(s0, piece, ri, ci, 8, n));
                    if flips_at(s0, piece, ri, ci, n / 8, n % 8) {
                        let dd = choose|dd: int|
                            0 <= dd < 8 && #[trigger] flips_in_dir(s0, piece, ri, ci, dd, n / 8, n
                                % 8);
                        assert(flips_before_dir(s0, piece, ri, ci, 8, n / 8, n % 8));
                    }
                    if flips_before_dir(s0, piece, ri, ci, 8, n / 8, n % 8) {
                        let dd = choose|dd: int|
                            0 <= dd < 8 && #[trigger] flips_in_dir(s0, piece, ri, ci, dd, n / 8, n
                                % 8);
                        assert(flips_at(s0, piece, ri, ci, n / 8, n % 8));
                    }
                }
            }
            assert(self@ =~= apply_spec(s0, piece, ri, ci));
        }
        true
    }

    /// A copy of this board, cell for cell: the search explores private
    /// copies and never mutates the caller's board.
    #[verifier::loop_isolation(false)]
    pub fn duplicate(&self) -> (r: Board)
        requires
            self.wf(),
        ensures
            r.wf(),
            r@ == self@,
    {
        let mut cells: Vec<Option<Piece>> = Vec::new();
        let mut n: usize = 0;
        while n < 64
            invariant
                n <= 64,
                cells@.len() == n,
                forall|m: int| 0 <= m < n ==> cells@[m] == self@[m],
            decreases 64 - n,
        {
            cells.push(self.cells[n]);
            n += 1;
        }
        let b = Board { cells };
        proof {
            assert(b@ =~= self@);
        }
        b
    }

    /// The number of discs `piece` owns.
    #[verifier::loop_isolation(false)]
    pub fn count(&self, piece: Piece) -> (r: usize)
        requires
            self.wf(),
        ensures
            r as int == count_spec(self@, piece),
    {
        let mut r: usize = 0;
        let mut n: usize = 0;
        while n < 64
            invariant
                n <= 64,
                r <= n,
                r as int == count_upto(self@, piece, n as int),
            decreases 64 - n,
        {
            match self.cells[n] {
                Some(x) => {
                    if x == piece {
                        r += 1;
                    }
                },
                None => {},
            }
            n += 1;
        }
        r
    }

    /// The game is over exactly when neither side has a legal move.
    pub fn is_game_over(&self) -> (r: bool)
        requires
            self.wf(),
        ensures
            r == game_over_spec(self@),
    {
        self.valid_moves(Piece::Black).is_empty() && self.valid_moves(Piece::White).is_empty()
    }

    /// The static evaluation for `piece`: +10 per own disc, -10 per
    /// opponent disc, and 25 more in the same sign on each corner.
    #[verifier::loop_isolation(false)]
    pub fn evaluate(&self, piece: Piece) -> (score: i32)
        requires
            self.wf(),
        ensures
            score as int == eval_spec(self@, piece),
            -2240 <= score <= 2240,
    {
        let mut score: i32 = 0;
        let mut n: usize = 0;
        while n < 64
            invariant
                n <= 64,
                -35 * n as int <= score as int <= 35 * n as int,
                score as int == eval_upto(self@, piece, n as int),
            decreases 64 - n,
        {
            let bonus: i32 = if n == 0 || n == 7 || n == 56 || n == 63 {
                25
            } else {
                0
            };
            match self.cells[n] {
                Some(x) => {
                    if x == piece {
                        score = score + 10 + bonus;
                    } else {
                        score = score - 10 - bonus;
                    }
                },
                None => {},
            }
            n += 1;
        }
        score
    }
}

} // verus!
