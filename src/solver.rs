use vstd::prelude::*;

use rand::rngs::ThreadRng;
use rand::seq::SliceRandom;

use crate::grid::{
    at, column_holds, complete, consistent, extends, in_bounds, index_of, is_filled, placeable, row_holds,
    same_layout, same_unit, solution_of, states_of, states_valid, subgrid_holds, unsolvable, valid_state, valid_value,
    CellState, Coordinate, Grid, CELL_COUNT, COL_COUNT, MAX_CELL_VALUE, MIN_CELL_VALUE,
};

verus! {

/// Number of search steps after which `solve` gives up.
pub const MAX_STEPS: usize = 20000000;

/// Why a solve did not complete the grid.
#[derive(Debug, Clone, Copy, PartialEq, Eq, Structural)]
pub enum SolveError {
    /// No consistent completion keeps the cells that were filled.
    Unsolvable,
    /// The search used up its step budget before it reached an answer.
    SearchBudgetExceeded,
}

/// rand's `ThreadRng`, carried unopened from `thread_rng` to `shuffle_values`.
#[verifier::external_type_specification]
#[verifier::external_body]
pub struct ExThreadRng(ThreadRng);

/// Relies on `rand::rng`: a handle to the generator of the current thread. Nothing is
/// promised of the numbers it draws.
#[verifier::external_body]
fn thread_rng() -> ThreadRng {
    rand::rng()
}

/// Relies on rand's `SliceRandom::shuffle` for slices: it reorders the elements by swaps,
/// so the same values stay, in some order.
#[verifier::external_body]
fn shuffle_values(values: &mut Vec<u8>, rng: &mut ThreadRng)
    ensures
        final(values)@.to_multiset() == old(values)@.to_multiset(),
{
    values.as_mut_slice().shuffle(rng)
}

/// `b` with `v` placed in the empty cell `(r, c)`, when `v` may not go there, has no
/// solution.
proof fn lemma_blocked_value(b: Seq<CellState>, r: int, c: int, v: u8)
    requires
        b.len() == 81,
        0 <= r < 9,
        0 <= c < 9,
        b[r * 9 + c] == CellState::Empty,
        !(valid_value(v) && placeable(b, r, c, v)),
    ensures
        unsolvable(b.update(r * 9 + c, CellState::Filled(v))),
{
    let b2 = b.update(r * 9 + c, CellState::Filled(v));
    assert forall|s: Seq<CellState>| !#[trigger] solution_of(s, b2) by {
        if solution_of(s, b2) {
            assert(is_filled(b2[r * 9 + c]));
            assert(at(s, r, c) == CellState::Filled(v));
            assert(valid_state(s[r * 9 + c]));
            if row_holds(b, r, v) {
                let c2 = choose|c2: int| 0 <= c2 < 9 && #[trigger] at(b, r, c2) == CellState::Filled(v);
                assert(is_filled(b2[r * 9 + c2]));
                assert(at(s, r, c2) == CellState::Filled(v));
            } else if column_holds(b, c, v) {
                let r2 = choose|r2: int| 0 <= r2 < 9 && #[trigger] at(b, r2, c) == CellState::Filled(v);
                assert(is_filled(b2[r2 * 9 + c]));
                assert(at(s, r2, c) == CellState::Filled(v));
            } else if subgrid_holds(b, r, c, v) {
                let (r2, c2) = choose|r2: int, c2: int|
                    0 <= r2 < 9 && 0 <= c2 < 9 && r2 / 3 == r / 3 && c2 / 3 == c / 3
                        && #[trigger] at(b, r2, c2) == CellState::Filled(v);
                assert(is_filled(b2[r2 * 9 + c2]));
                assert(at(s, r2, c2) == CellState::Filled(v));
            }
        }
    }
}

/// When every value placed in the empty cell `(r, c)` leaves `b` without solution, `b` has
/// none.
proof fn lemma_no_value_fits(b: Seq<CellState>, r: int, c: int)
    requires
        b.len() == 81,
        0 <= r < 9,
        0 <= c < 9,
        b[r * 9 + c] == CellState::Empty,
        forall|v: u8| valid_value(v) ==> #[trigger] unsolvable(b.update(r * 9 + c, CellState::Filled(v))),
    ensures
        unsolvable(b),
{
    assert forall|s: Seq<CellState>| !#[trigger] solution_of(s, b) by {
        if solution_of(s, b) {
            assert(is_filled(s[r * 9 + c]));
            assert(valid_state(s[r * 9 + c]));
            let w = s[r * 9 + c]->Filled_0;
            let b2 = b.update(r * 9 + c, CellState::Filled(w));
            assert(unsolvable(b2));
            assert(solution_of(s, b2));
        }
    }
}

/// Placing a value that fits into an empty cell keeps a consistent board consistent.
proof fn lemma_place_keeps_consistent(b: Seq<CellState>, r: int, c: int, v: u8)
    requires
        b.len() == 81,
        0 <= r < 9,
        0 <= c < 9,
        consistent(b),
        placeable(b, r, c, v),
    ensures
        consistent(b.update(r * 9 + c, CellState::Filled(v))),
{
    let b2 = b.update(r * 9 + c, CellState::Filled(v));
    assert forall|r1: int, c1: int, r2: int, c2: int|
        0 <= r1 < 9 && 0 <= c1 < 9 && 0 <= r2 < 9 && 0 <= c2 < 9 && (r1 != r2 || c1 != c2)
            && same_unit(r1, c1, r2, c2) && is_filled(#[trigger] at(b2, r1, c1))
        implies at(b2, r1, c1) != #[trigger] at(b2, r2, c2) by {
        if r1 == r && c1 == c {
            assert(at(b2, r2, c2) == at(b, r2, c2));
        } else if r2 == r && c2 == c {
            assert(at(b2, r1, c1) == at(b, r1, c1));
        } else {
            assert(at(b2, r1, c1) == at(b, r1, c1));
            assert(at(b2, r2, c2) == at(b, r2, c2));
        }
    }
}

/// Value of a fixed full solution at `(r, c)`: each row shifts the one above by three,
/// and each band of three rows by one more.
spec fn pattern_value(r: int, c: int) -> u8 {
    ((3 * (r % 3) + r / 3 + c) % 9 + 1) as u8
}

/// A fixed full solution of the empty board.
spec fn pattern_board() -> Seq<CellState> {
    Seq::new(81, |k: int| CellState::Filled(pattern_value(k / 9, k % 9)))
}

/// Two numbers below 18 whose difference is no multiple of 9 differ modulo 9.
proof fn lemma_mod9_differs(x: int, y: int)
    requires
        0 <= x < 18,
        0 <= y < 18,
        x - y != 0 && x - y != 9 && x - y != -9,
    ensures
        x % 9 != y % 9,
{
}

proof fn lemma_pattern_distinct(r1: int, c1: int, r2: int, c2: int)
    requires
        0 <= r1 < 9,
        0 <= c1 < 9,
        0 <= r2 < 9,
        0 <= c2 < 9,
        r1 != r2 || c1 != c2,
        same_unit(r1, c1, r2, c2),
    ensures
        pattern_value(r1, c1) != pattern_value(r2, c2),
{
    let q1 = r1 / 3;
    let a1 = r1 % 3;
    let q2 = r2 / 3;
    let a2 = r2 % 3;
    assert(r1 == 3 * q1 + a1 && 0 <= a1 < 3 && 0 <= q1 < 3);
    assert(r2 == 3 * q2 + a2 && 0 <= a2 < 3 && 0 <= q2 < 3);
    let x1 = 3 * a1 + q1 + c1;
    let x2 = 3 * a2 + q2 + c2;
    if r1 == r2 {
        assert(x1 - x2 == c1 - c2);
    } else if c1 == c2 {
        assert(a1 != a2 || q1 != q2);
        assert(x1 - x2 == 3 * (a1 - a2) + (q1 - q2));
    } else {
        let b1 = c1 % 3;
        let b2 = c2 % 3;
        assert(c1 == 3 * (c1 / 3) + b1 && 0 <= b1 < 3);
        assert(c2 == 3 * (c2 / 3) + b2 && 0 <= b2 < 3);
        assert(q1 == q2 && c1 / 3 == c2 / 3);
        assert(a1 != a2 || b1 != b2);
        assert(x1 - x2 == 3 * (a1 - a2) + (b1 - b2));
    }
    lemma_mod9_differs(x1, x2);
}

/// The empty board has a solution.
pub proof fn lemma_empty_board_solvable(b: Seq<CellState>)
    requires
        b.len() == 81,
        forall|k: int| 0 <= k < 81 ==> #[trigger] b[k] == CellState::Empty,
    ensures
        !unsolvable(b),
{
    let p = pattern_board();
    assert forall|r: int, c: int| 0 <= r < 9 && 0 <= c < 9 implies #[trigger] at(p, r, c) == CellState::Filled(
        pattern_value(r, c),
    ) by {
        assert((r * 9 + c) / 9 == r && (r * 9 + c) % 9 == c);
    }
    assert forall|r1: int, c1: int, r2: int, c2: int|
        0 <= r1 < 9 && 0 <= c1 < 9 && 0 <= r2 < 9 && 0 <= c2 < 9 && (r1 != r2 || c1 != c2)
            && same_unit(r1, c1, r2, c2) && is_filled(#[trigger] at(p, r1, c1))
        implies at(p, r1, c1) != #[trigger] at(p, r2, c2) by {
        lemma_pattern_distinct(r1, c1, r2, c2);
    }
    assert forall|k: int| 0 <= k < 81 implies valid_state(#[trigger] p[k]) by {
        let v = (3 * ((k / 9) % 3) + (k / 9) / 3 + k % 9) % 9 + 1;
        assert(1 <= v <= 9);
    }
    assert(solution_of(p, b));
}

/// Number of empty cells of a board.
pub open spec fn empty_count(b: Seq<CellState>) -> nat
    decreases b.len(),
{
    if b.len() == 0 {
        0
    } else {
        empty_count(b.drop_last()) + if b.last() == CellState::Empty {
            1nat
        } else {
            0nat
        }
    }
}

/// Most search steps that a search from a board with `n` empty cells can take: one for
/// the board itself and, for each of the nine values of the first empty cell, those of the
/// board with one empty cell less.
pub open spec fn search_size(n: nat) -> nat
    decreases n,
{
    if n == 0 {
        1
    } else {
        1 + 9 * search_size((n - 1) as nat)
    }
}

proof fn lemma_search_size_positive(n: nat)
    ensures
        search_size(n) >= 1,
    decreases n,
{
    if n > 0 {
        lemma_search_size_positive((n - 1) as nat);
    }
}

/// Filling an empty cell leaves one empty cell less.
proof fn lemma_fill_one(b: Seq<CellState>, i: int, v: u8)
    requires
        0 <= i < b.len(),
        b[i] == CellState::Empty,
    ensures
        empty_count(b.update(i, CellState::Filled(v))) + 1 == empty_count(b),
    decreases b.len(),
{
    let b2 = b.update(i, CellState::Filled(v));
    if i == b.len() - 1 {
        assert(b2.drop_last() =~= b.drop_last());
    } else {
        lemma_fill_one(b.drop_last(), i, v);
        assert(b2.drop_last() =~= b.drop_last().update(i, CellState::Filled(v)));
    }
}

/// The values 1 to 9, in order.
fn candidates() -> (v: Vec<u8>)
    ensures
        v@ == seq![1u8, 2, 3, 4, 5, 6, 7, 8, 9],
        forall|x: u8| valid_value(x) ==> v@.contains(x),
{
    let mut v: Vec<u8> = Vec::new();
    let mut x: u8 = MIN_CELL_VALUE;
    while x <= MAX_CELL_VALUE
        invariant
            1 <= x <= 10,
            v@.len() == x - 1,
            forall|j: int| 0 <= j < v@.len() ==> #[trigger] v@[j] == j + 1,
        decreases 10 - x,
    {
        v.push(x);
        x += 1;
    }
    assert forall|y: u8| valid_value(y) implies v@.contains(y) by {
        assert(v@[y - 1] == y);
    }
    assert(v@ =~= seq![1u8, 2, 3, 4, 5, 6, 7, 8, 9]);
    v
}

/// The first empty cell in row-major order, if any.
fn first_empty(grid: &Grid) -> (r: Option<Coordinate>)
    requires
        grid.wf(),
    ensures
        match r {
            Some(c) => in_bounds(c) && grid.board()[index_of(c)] == CellState::Empty,
            None => complete(grid.board()),
        },
{
    let mut k: usize = 0;
    while k < CELL_COUNT
        invariant
            grid.wf(),
            k <= 81,
            forall|i: int| 0 <= i < k ==> is_filled(#[trigger] grid.board()[i]),
        decreases 81 - k,
    {
        let c = Coordinate { row: k / COL_COUNT, col: k % COL_COUNT };
        if let CellState::Empty = grid.cell_at_unchecked(c).state {
            return Some(c);
        }
        k += 1;
    }
    None
}

/// One step of the search: fills the first empty cell with each value that fits, in
/// shuffled order, and searches on from there; undoes the cell when that fails. Each call
/// uses one of `steps`; the second result is what is left of them.
fn fill(grid: &mut Grid, rng: &mut ThreadRng, steps: usize) -> (res: (Result<(), SolveError>, usize))
    requires
        old(grid).wf(),
    ensures
        final(grid).wf(),
        res.1 <= steps,
        same_layout(final(grid)@, old(grid)@),
        res.0 is Ok ==> extends(final(grid).board(), old(grid).board()) && complete(final(grid).board())
            && (consistent(old(grid).board()) ==> consistent(final(grid).board())),
        res.0 == Err::<(), SolveError>(SolveError::Unsolvable) ==> final(grid)@ == old(grid)@ && unsolvable(
            old(grid).board(),
        ),
        res.0 == Err::<(), SolveError>(SolveError::SearchBudgetExceeded) ==> final(grid)@ == old(grid)@ && res.1
            == 0,
        complete(old(grid).board()) && steps > 0 ==> res.0 is Ok,
        steps == 0 ==> res.0 == Err::<(), SolveError>(SolveError::SearchBudgetExceeded),
        steps - res.1 <= search_size(empty_count(old(grid).board())),
    decreases steps,
{
    if steps == 0 {
        return (Err(SolveError::SearchBudgetExceeded), 0);
    }
    proof {
        lemma_search_size_positive(empty_count(grid.board()));
    }
    let coord = match first_empty(grid) {
        Some(c) => c,
        None => return (Ok(()), steps - 1),
    };
    let ghost start = grid@;
    let ghost b = grid.board();
    let ghost idx = index_of(coord);
    let ghost n = empty_count(b);
    let ghost sub = search_size((n - 1) as nat);
    proof {
        lemma_fill_one(b, idx, 1);
        lemma_search_size_positive((n - 1) as nat);
        assert(search_size(n) == 1 + 9 * sub);
    }
    let mut shuffled = candidates();
    let ghost ordered = shuffled@;
    shuffle_values(&mut shuffled, rng);
    proof {
        ordered.to_multiset_ensures();
        shuffled@.to_multiset_ensures();
        assert(shuffled@.len() == 9);
        assert forall|x: u8| valid_value(x) implies shuffled@.contains(x) by {
            assert(ordered.contains(x));
            assert(ordered.to_multiset().count(x) > 0);
            assert(shuffled@.to_multiset().count(x) > 0);
        }
    }
    let mut left: usize = steps - 1;
    let mut i: usize = 0;
    while i < shuffled.len()
        invariant
            grid.wf(),
            grid@ == start,
            start == old(grid)@,
            b == states_of(start),
            start.len() == 81,
            in_bounds(coord),
            idx == index_of(coord),
            b[idx] == CellState::Empty,
            left < steps,
            i <= shuffled@.len(),
            forall|x: u8| valid_value(x) ==> shuffled@.contains(x),
            shuffled@.len() == 9,
            n == empty_count(b),
            n >= 1,
            sub == search_size((n - 1) as nat),
            search_size(n) == 1 + 9 * sub,
            steps - 1 - left <= i * sub,
            forall|j: int| 0 <= j < i ==> #[trigger] unsolvable(b.update(idx, CellState::Filled(shuffled@[j]))),
        decreases shuffled@.len() - i,
    {
        let v = shuffled[i];
        let fits = match grid.can_place_at(coord, v) {
            Ok(f) => f,
            Err(_) => false,
        };
        if fits {
            grid.set_cell_unchecked(coord, CellState::Filled(v));
            let ghost mid = grid@;
            proof {
                assert(grid.board() =~= b.update(idx, CellState::Filled(v)));
                assert(same_layout(mid, start));
            }
            proof {
                lemma_fill_one(b, idx, v);
            }
            let ghost left_before = left;
            let (res, rest) = fill(grid, rng, left);
            left = rest;
            proof {
                assert(left_before - left <= sub);
                assert((i + 1) * sub == i * sub + sub) by (nonlinear_arith);
                assert(i + 1 <= 9);
                assert((i + 1) * sub <= 9 * sub) by (nonlinear_arith)
                    requires
                        i + 1 <= 9,
                        sub >= 0,
                ;
            }
            match res {
                Ok(()) => {
                    proof {
                        let ghost placed = b.update(idx, CellState::Filled(v));
                        assert(same_layout(grid@, mid));
                        assert forall|k: int| 0 <= k < b.len() && is_filled(#[trigger] b[k]) implies grid.board()[k]
                            == b[k] by {
                            assert(placed[k] == b[k]);
                        }
                        if consistent(b) {
                            lemma_place_keeps_consistent(b, coord.row as int, coord.col as int, v);
                        }
                    }
                    return (Ok(()), left);
                },
                Err(e) => {
                    grid.set_cell_unchecked(coord, CellState::Empty);
                    proof {
                        assert(grid@ =~= start);
                    }
                    if let SolveError::SearchBudgetExceeded = e {
                        return (Err(SolveError::SearchBudgetExceeded), left);
                    }
                },
            }
        } else {
            proof {
                lemma_blocked_value(b, coord.row as int, coord.col as int, v);
            }
        }
        proof {
            assert((i + 1) * sub == i * sub + sub) by (nonlinear_arith);
        }
        i += 1;
    }
    proof {
        assert forall|v: u8| valid_value(v) implies #[trigger] unsolvable(b.update(idx, CellState::Filled(v))) by {
            let j = choose|j: int| 0 <= j < shuffled@.len() && shuffled@[j] == v;
            assert(unsolvable(b.update(idx, CellState::Filled(shuffled@[j]))));
        }
        lemma_no_value_fits(b, coord.row as int, coord.col as int);
    }
    (Err(SolveError::Unsolvable), left)
}

impl Grid {
    /// Completes the grid by randomised backtracking search, using at most `MAX_STEPS`
    /// search steps. See `solve_within`.
    pub fn solve(&mut self) -> (r: Result<(), SolveError>)
        requires
            old(self).wf(),
        ensures
            final(self).wf(),
            same_layout(final(self)@, old(self)@),
            r is Ok ==> extends(final(self).board(), old(self).board()) && complete(final(self).board())
                && (consistent(old(self).board()) ==> solution_of(final(self).board(), old(self).board())),
            r == Err::<(), SolveError>(SolveError::Unsolvable) ==> final(self)@ == old(self)@ && unsolvable(
                old(self).board(),
            ),
            r == Err::<(), SolveError>(SolveError::SearchBudgetExceeded) ==> final(self)@ == old(self)@,
            r is Err ==> final(self)@ == old(self)@,
            complete(old(self).board()) ==> r is Ok,
            search_size(empty_count(old(self).board())) < MAX_STEPS ==> r != Err::<(), SolveError>(
                SolveError::SearchBudgetExceeded,
            ),
    {
        self.solve_within(MAX_STEPS)
    }

    /// Completes the grid by randomised backtracking search, using at most `steps` search
    /// steps. On success every cell is filled and every filled cell keeps its value; when
    /// the grid was consistent it stays so. Otherwise the grid is left as it was, and
    /// `Unsolvable` means that no consistent completion exists. Only empty cells are
    /// filled, whatever their solver flag says; the flags are left as they were. A zero
    /// budget always runs out; a budget above `search_size` of the number of empty cells
    /// never does.
    pub fn solve_within(&mut self, steps: usize) -> (r: Result<(), SolveError>)
        requires
            old(self).wf(),
        ensures
            final(self).wf(),
            same_layout(final(self)@, old(self)@),
            r is Ok ==> extends(final(self).board(), old(self).board()) && complete(final(self).board())
                && (consistent(old(self).board()) ==> solution_of(final(self).board(), old(self).board())),
            r == Err::<(), SolveError>(SolveError::Unsolvable) ==> final(self)@ == old(self)@ && unsolvable(
                old(self).board(),
            ),
            r == Err::<(), SolveError>(SolveError::SearchBudgetExceeded) ==> final(self)@ == old(self)@,
            r is Err ==> final(self)@ == old(self)@,
            complete(old(self).board()) && steps > 0 ==> r is Ok,
            steps == 0 ==> r == Err::<(), SolveError>(SolveError::SearchBudgetExceeded),
            search_size(empty_count(old(self).board())) < steps ==> r != Err::<(), SolveError>(
                SolveError::SearchBudgetExceeded,
            ),
    {
        let mut rng = thread_rng();
        let (res, _) = fill(self, &mut rng, steps);
        proof {
            if let Err(e) = res {
                assert(e == SolveError::Unsolvable || e == SolveError::SearchBudgetExceeded);
            }
        }
        res
    }

    /// A grid filled at random with a complete, consistent solution; fails only when the
    /// search runs out of steps.
    pub fn new_random() -> (r: Result<Grid, SolveError>)
        ensures
            match r {
                Ok(g) => g.wf() && complete(g.board()) && consistent(g.board()) && states_valid(g.board()),
                Err(e) => e == SolveError::SearchBudgetExceeded,
            },
    {
        let mut grid = Grid::new_empty();
        proof {
            lemma_empty_board_solvable(grid.board());
        }
        match grid.solve() {
            Ok(()) => Ok(grid),
            Err(e) => Err(e),
        }
    }
}

} // verus!
