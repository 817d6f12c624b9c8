use vstd::prelude::*;
use vstd::set_lib::{lemma_int_range, lemma_len_subset, set_int_range};

use crate::solver::lemma_empty_board_solvable;
use crate::grid::{
    at, column_holds, complete, consistent, extends, solution_of, unsolvable, in_bounds, index_of, is_filled, row_holds, same_unit,
    states_valid, subgrid_holds, subgrid_start_of, valid_state, valid_value, with_state, Cell, CellState,
    Coordinate,
};

verus! {

broadcast use vstd::set::group_set_axioms;

/// The top-left corner of a subgrid is its own subgrid's top-left corner.
pub proof fn lemma_subgrid_start_idempotent(c: Coordinate)
    requires
        in_bounds(c),
    ensures
        in_bounds(subgrid_start_of(c)),
        subgrid_start_of(subgrid_start_of(c)) == subgrid_start_of(c),
{
}

/// After a successful `set_cell(c, Filled(v))` the cell at `c` holds `v` and every other
/// cell is as it was.
pub proof fn lemma_set_then_read(before: Seq<Cell>, after: Seq<Cell>, c: Coordinate, v: u8)
    requires
        before.len() == 81,
        in_bounds(c),
        valid_value(v),
        after == before.update(index_of(c), with_state(before[index_of(c)], CellState::Filled(v))),
    ensures
        after[index_of(c)].state == CellState::Filled(v),
        after[index_of(c)].coordinate == before[index_of(c)].coordinate,
        forall|i: int| 0 <= i < 81 && i != index_of(c) ==> #[trigger] after[i] == before[i],
{
}

/// Nine distinct numbers in `1..=9` take every one of those values.
proof fn lemma_nine_distinct(s: Seq<int>)
    requires
        s.len() == 9,
        s.no_duplicates(),
        forall|k: int| 0 <= k < 9 ==> 1 <= #[trigger] s[k] <= 9,
    ensures
        forall|v: int| 1 <= v <= 9 ==> #[trigger] s.contains(v),
{
    assert forall|v: int| 1 <= v <= 9 implies #[trigger] s.contains(v) by {
        if !s.contains(v) {
            s.unique_seq_to_set();
            lemma_int_range(1, 10);
            let rest = set_int_range(1, 10).remove(v);
            assert forall|x: int| s.to_set().contains(x) implies rest.contains(x) by {
                let k = choose|k: int| 0 <= k < 9 && s[k] == x;
            }
            lemma_len_subset(s.to_set(), rest);
        }
    }
}

/// Value of a filled state, as an integer.
spec fn value_of(s: CellState) -> int {
    match s {
        CellState::Filled(v) => v as int,
        CellState::Empty => 0,
    }
}

/// Nine distinct positions that pairwise share a unit hold every value, on a complete
/// and consistent board.
proof fn lemma_unit_covers(b: Seq<CellState>, rows: Seq<int>, cols: Seq<int>)
    requires
        b.len() == 81,
        complete(b),
        consistent(b),
        states_valid(b),
        rows.len() == 9,
        cols.len() == 9,
        forall|k: int| 0 <= k < 9 ==> 0 <= #[trigger] rows[k] < 9 && 0 <= cols[k] < 9,
        forall|k1: int, k2: int|
            0 <= k1 < 9 && 0 <= k2 < 9 && k1 != k2 ==> (#[trigger] rows[k1] != #[trigger] rows[k2] || cols[k1]
                != cols[k2]) && same_unit(rows[k1], cols[k1], rows[k2], cols[k2]),
    ensures
        forall|v: u8| valid_value(v) ==> exists|k: int| 0 <= k < 9 && #[trigger] at(b, rows[k], cols[k]) == CellState::Filled(v),
{
    let s = Seq::new(9, |k: int| value_of(at(b, rows[k], cols[k])));
    assert forall|k: int| 0 <= k < 9 implies 1 <= #[trigger] s[k] <= 9 && at(b, rows[k], cols[k])
        == CellState::Filled(s[k] as u8) by {
        assert(is_filled(b[rows[k] * 9 + cols[k]]));
        assert(valid_state(b[rows[k] * 9 + cols[k]]));
    }
    assert forall|k1: int, k2: int| 0 <= k1 < 9 && 0 <= k2 < 9 && k1 != k2 implies s[k1] != s[k2] by {
        assert(is_filled(at(b, rows[k1], cols[k1])));
        assert(rows[k1] != rows[k2] || cols[k1] != cols[k2]);
    }
    lemma_nine_distinct(s);
    assert forall|v: u8| valid_value(v) implies exists|k: int| 0 <= k < 9 && #[trigger] at(b, rows[k], cols[k])
        == CellState::Filled(v) by {
        assert(s.contains(v as int));
        let k = choose|k: int| 0 <= k < 9 && s[k] == v as int;
        assert(at(b, rows[k], cols[k]) == CellState::Filled(v));
    }
}

/// On a completely and consistently filled board every row, every column and every
/// subgrid holds each value from 1 to 9; consistency means it holds each at most once,
/// so each exactly once.
pub proof fn lemma_solution_holds_each_value_once(b: Seq<CellState>)
    requires
        b.len() == 81,
        complete(b),
        consistent(b),
        states_valid(b),
    ensures
        forall|r: int, v: u8| 0 <= r < 9 && valid_value(v) ==> #[trigger] row_holds(b, r, v),
        forall|c: int, v: u8| 0 <= c < 9 && valid_value(v) ==> #[trigger] column_holds(b, c, v),
        forall|r: int, c: int, v: u8|
            0 <= r < 9 && 0 <= c < 9 && valid_value(v) ==> #[trigger] subgrid_holds(b, r, c, v),
{
    assert forall|r: int, v: u8| 0 <= r < 9 && valid_value(v) implies #[trigger] row_holds(b, r, v) by {
        let rows = Seq::new(9, |k: int| r);
        let cols = Seq::new(9, |k: int| k);
        lemma_unit_covers(b, rows, cols);
        let k = choose|k: int| 0 <= k < 9 && #[trigger] at(b, rows[k], cols[k]) == CellState::Filled(v);
        assert(at(b, r, k) == CellState::Filled(v));
    }
    assert forall|c: int, v: u8| 0 <= c < 9 && valid_value(v) implies #[trigger] column_holds(b, c, v) by {
        let rows = Seq::new(9, |k: int| k);
        let cols = Seq::new(9, |k: int| c);
        lemma_unit_covers(b, rows, cols);
        let k = choose|k: int| 0 <= k < 9 && #[trigger] at(b, rows[k], cols[k]) == CellState::Filled(v);
        assert(at(b, k, c) == CellState::Filled(v));
    }
    assert forall|r: int, c: int, v: u8|
        0 <= r < 9 && 0 <= c < 9 && valid_value(v) implies #[trigger] subgrid_holds(b, r, c, v) by {
        let rows = Seq::new(9, |k: int| r / 3 * 3 + k / 3);
        let cols = Seq::new(9, |k: int| c / 3 * 3 + k % 3);
        assert forall|k1: int, k2: int| 0 <= k1 < 9 && 0 <= k2 < 9 && k1 != k2 implies (#[trigger] rows[k1]
            != #[trigger] rows[k2] || cols[k1] != cols[k2]) && same_unit(rows[k1], cols[k1], rows[k2], cols[k2]) by {
            assert(rows[k1] / 3 == r / 3 && rows[k2] / 3 == r / 3);
            assert(cols[k1] / 3 == c / 3 && cols[k2] / 3 == c / 3);
        }
        lemma_unit_covers(b, rows, cols);
        let k = choose|k: int| 0 <= k < 9 && #[trigger] at(b, rows[k], cols[k]) == CellState::Filled(v);
        assert(rows[k] / 3 == r / 3 && cols[k] / 3 == c / 3);
        assert(at(b, rows[k], cols[k]) == CellState::Filled(v));
    }
}

/// Solving a grid whose cells are all empty never finds it unsolvable, and what a
/// successful solve leaves (filled cells kept, no empty cell, a solution whenever the
/// grid was consistent) has every value from 1 to 9 exactly once in every row, every
/// column and every subgrid.
pub proof fn lemma_solving_empty_grid(before: Seq<CellState>, after: Seq<CellState>)
    requires
        before.len() == 81,
        forall|k: int| 0 <= k < 81 ==> #[trigger] before[k] == CellState::Empty,
        extends(after, before),
        complete(after),
        consistent(before) ==> solution_of(after, before),
    ensures
        !unsolvable(before),
        complete(after),
        consistent(after),
        forall|r: int, v: u8| 0 <= r < 9 && valid_value(v) ==> #[trigger] row_holds(after, r, v),
        forall|c: int, v: u8| 0 <= c < 9 && valid_value(v) ==> #[trigger] column_holds(after, c, v),
        forall|r: int, c: int, v: u8|
            0 <= r < 9 && 0 <= c < 9 && valid_value(v) ==> #[trigger] subgrid_holds(after, r, c, v),
{
    lemma_empty_board_solvable(before);
    assert(consistent(before));
    lemma_solution_holds_each_value_once(after);
}

} // verus!
