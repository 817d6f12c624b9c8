use sudoku::{CellState, Coordinate, Error, Grid, Message, Program, SolveError};

fn states(grid: &Grid) -> Vec<CellState> {
    let mut out = Vec::new();
    for row in 0..9 {
        for col in 0..9 {
            out.push(grid.cell_at(Coordinate { row, col }).unwrap().state);
        }
    }
    out
}

fn flags(grid: &Grid) -> Vec<bool> {
    let mut out = Vec::new();
    for row in 0..9 {
        for col in 0..9 {
            out.push(grid.cell_at(Coordinate { row, col }).unwrap().solver_modifiable);
        }
    }
    out
}

fn value(grid: &Grid, row: usize, col: usize) -> u8 {
    match grid.cell_at(Coordinate { row, col }).unwrap().state {
        CellState::Filled(v) => v,
        CellState::Empty => panic!("cell ({row}, {col}) is empty"),
    }
}

/// Every row, column and subgrid holds each of 1..=9 exactly once.
fn assert_full_solution(grid: &Grid) {
    for i in 0..9 {
        let mut row_seen = [false; 10];
        let mut col_seen = [false; 10];
        let mut box_seen = [false; 10];
        for j in 0..9 {
            let r = value(grid, i, j) as usize;
            let c = value(grid, j, i) as usize;
            let b = value(grid, i / 3 * 3 + j / 3, i % 3 * 3 + j % 3) as usize;
            assert!(!row_seen[r] && !col_seen[c] && !box_seen[b]);
            row_seen[r] = true;
            col_seen[c] = true;
            box_seen[b] = true;
        }
        assert!(row_seen[1..].iter().all(|x| *x));
        assert!(col_seen[1..].iter().all(|x| *x));
        assert!(box_seen[1..].iter().all(|x| *x));
    }
}

const PUZZLE: [[u8; 9]; 9] = [
    [5, 3, 0, 0, 7, 0, 0, 0, 0],
    [6, 0, 0, 1, 9, 5, 0, 0, 0],
    [0, 9, 8, 0, 0, 0, 0, 6, 0],
    [8, 0, 0, 0, 6, 0, 0, 0, 3],
    [4, 0, 0, 8, 0, 3, 0, 0, 1],
    [7, 0, 0, 0, 2, 0, 0, 0, 6],
    [0, 6, 0, 0, 0, 0, 2, 8, 0],
    [0, 0, 0, 4, 1, 9, 0, 0, 5],
    [0, 0, 0, 0, 8, 0, 0, 7, 9],
];

#[test]
fn new_empty_has_81_empty_open_cells() {
    let grid = Grid::new_empty();
    for row in 0..9 {
        for col in 0..9 {
            let cell = grid.cell_at(Coordinate { row, col }).unwrap();
            assert_eq!(cell.coordinate, Coordinate { row, col });
            assert_eq!(cell.state, CellState::Empty);
            assert!(cell.solver_modifiable);
        }
    }
}

#[test]
fn out_of_range_coordinates_are_refused_and_change_nothing() {
    let mut grid = Grid::new_empty();
    grid.set_cell(Coordinate { row: 4, col: 5 }, CellState::Filled(7)).unwrap();
    let before = states(&grid);
    let before_flags = flags(&grid);
    for c in [
        Coordinate { row: 9, col: 0 },
        Coordinate { row: 0, col: 9 },
        Coordinate { row: 12, col: 30 },
    ] {
        assert_eq!(grid.cell_at(c).err(), Some(Error::CellIndexOutOfRange(c)));
        assert_eq!(Grid::get_subgrid_start(&c), Err(Error::CellIndexOutOfRange(c)));
        assert_eq!(grid.can_place_in_subgrid(c, 1), Err(Error::CellIndexOutOfRange(c)));
        assert_eq!(grid.can_place_at(c, 1), Err(Error::CellIndexOutOfRange(c)));
        assert_eq!(grid.set_cell(c, CellState::Filled(1)), Err(Error::CellIndexOutOfRange(c)));
        assert_eq!(grid.set_cell(c, CellState::Empty), Err(Error::CellIndexOutOfRange(c)));
        assert_eq!(grid.set_cell_solver_modifiable(c, false), Err(Error::CellIndexOutOfRange(c)));
        assert!(grid.cell_at_mut(c).is_err());
    }
    assert_eq!(grid.can_place_in_row(9, 1), Err(Error::CellIndexOutOfRange(Coordinate { row: 9, col: 0 })));
    assert_eq!(grid.can_place_in_column(11, 1), Err(Error::CellIndexOutOfRange(Coordinate { row: 0, col: 11 })));
    assert_eq!(states(&grid), before);
    assert_eq!(flags(&grid), before_flags);
}

#[test]
fn out_of_range_values_are_refused_and_change_nothing() {
    let mut grid = Grid::new_empty();
    grid.set_cell(Coordinate { row: 0, col: 0 }, CellState::Filled(3)).unwrap();
    let before = states(&grid);
    let c = Coordinate { row: 2, col: 2 };
    for v in [0u8, 10, 255] {
        assert_eq!(grid.can_place_in_row(2, v), Err(Error::ValueOutOfRange(v)));
        assert_eq!(grid.can_place_in_column(2, v), Err(Error::ValueOutOfRange(v)));
        assert_eq!(grid.can_place_in_subgrid(c, v), Err(Error::ValueOutOfRange(v)));
        assert_eq!(grid.can_place_at(c, v), Err(Error::ValueOutOfRange(v)));
        assert_eq!(grid.set_cell(c, CellState::Filled(v)), Err(Error::ValueOutOfRange(v)));
    }
    assert_eq!(states(&grid), before);
}

#[test]
fn subgrid_start_is_idempotent() {
    for row in 0..9 {
        for col in 0..9 {
            let start = Grid::get_subgrid_start(&Coordinate { row, col }).unwrap();
            assert_eq!(start, Coordinate { row: row / 3 * 3, col: col / 3 * 3 });
            assert_eq!(Grid::get_subgrid_start(&start).unwrap(), start);
        }
    }
}

#[test]
fn subgrid_start_scenario() {
    assert_eq!(Grid::get_subgrid_start(&Coordinate { row: 4, col: 4 }).unwrap(), Coordinate { row: 3, col: 3 });
    assert_eq!(Grid::get_subgrid_start(&Coordinate { row: 8, col: 8 }).unwrap(), Coordinate { row: 6, col: 6 });
    assert_eq!(Grid::get_subgrid_start(&Coordinate { row: 5, col: 7 }).unwrap(), Coordinate { row: 3, col: 6 });
}

#[test]
fn set_cell_changes_exactly_one_cell() {
    let mut grid = Grid::new_empty();
    let before = states(&grid);
    let c = Coordinate { row: 3, col: 7 };
    grid.set_cell(c, CellState::Filled(6)).unwrap();
    assert_eq!(grid.cell_at(c).unwrap().state, CellState::Filled(6));
    assert_eq!(grid.cell_at(c).unwrap().coordinate, c);
    let after = states(&grid);
    for i in 0..81 {
        if i != 3 * 9 + 7 {
            assert_eq!(after[i], before[i]);
        }
    }
    grid.set_cell(c, CellState::Empty).unwrap();
    assert_eq!(states(&grid), before);
}

#[test]
fn set_cell_unchecked_and_mut_access() {
    let mut grid = Grid::new_empty();
    let c = Coordinate { row: 8, col: 0 };
    grid.set_cell_unchecked(c, CellState::Filled(2));
    assert_eq!(grid.cell_at_unchecked(c).state, CellState::Filled(2));
    grid.cell_at_mut(c).unwrap().solver_modifiable = false;
    assert!(!grid.cell_at(c).unwrap().solver_modifiable);
    grid.cell_at_mut_unchecked(c).solver_modifiable = true;
    assert!(grid.cell_at(c).unwrap().solver_modifiable);
}

#[test]
fn solver_flag_is_independent_of_state() {
    let mut grid = Grid::new_empty();
    let c = Coordinate { row: 1, col: 1 };
    grid.set_cell(c, CellState::Filled(4)).unwrap();
    grid.set_cell_solver_modifiable(c, false).unwrap();
    let cell = grid.cell_at(c).unwrap();
    assert_eq!(cell.state, CellState::Filled(4));
    assert!(!cell.solver_modifiable);
    assert!(grid.cell_at(Coordinate { row: 1, col: 2 }).unwrap().solver_modifiable);
}

#[test]
fn placement_queries_agree_with_inspection() {
    let grid = Grid::from(&PUZZLE).unwrap();
    for i in 0..9 {
        for v in 1..=9u8 {
            let in_row = (0..9).any(|j| PUZZLE[i][j] == v);
            let in_col = (0..9).any(|j| PUZZLE[j][i] == v);
            assert_eq!(grid.can_place_in_row(i, v).unwrap(), !in_row);
            assert_eq!(grid.can_place_in_column(i, v).unwrap(), !in_col);
            for j in 0..9 {
                let (br, bc) = (i / 3 * 3, j / 3 * 3);
                let in_box = (0..9).any(|k| PUZZLE[br + k / 3][bc + k % 3] == v);
                let c = Coordinate { row: i, col: j };
                assert_eq!(grid.can_place_in_subgrid(c, v).unwrap(), !in_box);
                let in_col_j = (0..9).any(|k| PUZZLE[k][j] == v);
                assert_eq!(grid.can_place_at(c, v).unwrap(), !in_row && !in_col_j && !in_box);
            }
        }
    }
}

#[test]
fn row_scenario_with_one_given() {
    let mut grid = Grid::new_empty();
    grid.set_cell(Coordinate { row: 0, col: 0 }, CellState::Filled(1)).unwrap();
    assert!(!grid.can_place_in_row(0, 1).unwrap());
    assert!(grid.can_place_in_row(0, 8).unwrap());
    assert!(grid.can_place_in_row(1, 1).unwrap());
}

#[test]
fn subgrid_scenario_with_one_given() {
    let mut grid = Grid::new_empty();
    grid.set_cell(Coordinate { row: 0, col: 0 }, CellState::Filled(1)).unwrap();
    assert!(!grid.can_place_in_subgrid(Coordinate { row: 2, col: 2 }, 1).unwrap());
    assert!(grid.can_place_in_subgrid(Coordinate { row: 3, col: 3 }, 1).unwrap());
    assert!(!grid.can_place_at(Coordinate { row: 1, col: 1 }, 1).unwrap());
    assert!(grid.can_place_at(Coordinate { row: 4, col: 4 }, 1).unwrap());
}

#[test]
fn from_matrix_sets_givens() {
    let grid = Grid::from(&PUZZLE).unwrap();
    for row in 0..9 {
        for col in 0..9 {
            let cell = grid.cell_at(Coordinate { row, col }).unwrap();
            let expected = if PUZZLE[row][col] == 0 { CellState::Empty } else { CellState::Filled(PUZZLE[row][col]) };
            assert_eq!(cell.state, expected);
            assert!(cell.solver_modifiable);
        }
    }
}

#[test]
fn from_matrix_refuses_first_bad_entry() {
    let mut data = PUZZLE;
    data[2][4] = 12;
    data[6][0] = 10;
    assert_eq!(Grid::from(&data).err(), Some(Error::ValueOutOfRange(12)));
}

#[test]
fn solving_empty_grid_gives_full_solution() {
    let mut grid = Grid::new_empty();
    assert_eq!(grid.solve(), Ok(()));
    assert_full_solution(&grid);
    assert!(flags(&grid).iter().all(|f| *f));
}

#[test]
fn new_random_gives_full_solution() {
    let grid = Grid::new_random().unwrap();
    assert_full_solution(&grid);
}

#[test]
fn random_grids_vary() {
    let first = states(&Grid::new_random().unwrap());
    let mut differs = false;
    for _ in 0..8 {
        if states(&Grid::new_random().unwrap()) != first {
            differs = true;
        }
    }
    assert!(differs);
}

#[test]
fn solving_known_puzzle_keeps_givens() {
    let mut grid = Grid::from(&PUZZLE).unwrap();
    assert_eq!(grid.solve(), Ok(()));
    assert_full_solution(&grid);
    for row in 0..9 {
        for col in 0..9 {
            if PUZZLE[row][col] != 0 {
                assert_eq!(value(&grid, row, col), PUZZLE[row][col]);
            }
        }
    }
    assert_eq!(value(&grid, 0, 2), 4);
    assert_eq!(value(&grid, 8, 0), 3);
}

#[test]
fn unsolvable_grid_is_reported_and_left_alone() {
    let mut grid = Grid::new_empty();
    for col in 0..8 {
        grid.set_cell(Coordinate { row: 0, col }, CellState::Filled(col as u8 + 1)).unwrap();
    }
    grid.set_cell(Coordinate { row: 5, col: 8 }, CellState::Filled(9)).unwrap();
    let before = states(&grid);
    assert_eq!(grid.solve(), Err(SolveError::Unsolvable));
    assert_eq!(states(&grid), before);
}

#[test]
fn exhausted_budget_is_reported_and_left_alone() {
    let mut grid = Grid::from(&PUZZLE).unwrap();
    let before = states(&grid);
    assert_eq!(grid.solve_within(0), Err(SolveError::SearchBudgetExceeded));
    assert_eq!(grid.solve_within(3), Err(SolveError::SearchBudgetExceeded));
    assert_eq!(states(&grid), before);
}

#[test]
fn program_edits_cells_from_text() {
    let mut program = Program::new();
    let c = Coordinate { row: 2, col: 3 };
    let _ = program.update(Message::ChangedNumber(c, "5".to_string()));
    let cell = *program.grid.cell_at(c).unwrap();
    assert_eq!(cell.state, CellState::Filled(5));
    assert!(!cell.solver_modifiable);

    let _ = program.update(Message::ChangedNumber(c, "x".to_string()));
    let _ = program.update(Message::ChangedNumber(c, "12".to_string()));
    let _ = program.update(Message::ChangedNumber(c, "0".to_string()));
    assert_eq!(program.grid.cell_at(c).unwrap().state, CellState::Filled(5));

    let _ = program.update(Message::ChangedNumber(c, String::new()));
    let cell = *program.grid.cell_at(c).unwrap();
    assert_eq!(cell.state, CellState::Empty);
    assert!(cell.solver_modifiable);

    let _ = program.update(Message::ChangedNumber(Coordinate { row: 9, col: 9 }, "3".to_string()));
    assert!(states(&program.grid).iter().all(|s| *s == CellState::Empty));
}

#[test]
fn program_solves_randomises_and_clears() {
    let mut program = Program::new();
    let _ = program.update(Message::ChangedNumber(Coordinate { row: 0, col: 0 }, "7".to_string()));
    assert_eq!(program.update(Message::SolveGrid), Ok(()));
    assert_full_solution(&program.grid);
    assert_eq!(value(&program.grid, 0, 0), 7);
    assert_eq!(program.update(Message::ClearGrid), Ok(()));
    assert!(states(&program.grid).iter().all(|s| *s == CellState::Empty));
    assert_eq!(program.update(Message::RandomiseGrid), Ok(()));
    assert_full_solution(&program.grid);
}

#[test]
fn text_of_grid_shows_header_rows_and_cells() {
    let mut grid = Grid::new_empty();
    grid.set_cell(Coordinate { row: 0, col: 0 }, CellState::Filled(5)).unwrap();
    grid.set_cell(Coordinate { row: 8, col: 8 }, CellState::Filled(9)).unwrap();
    let text = grid.to_text();
    let mut expected = String::from("\n ");
    for i in 1..=9 {
        expected.push_str(&format!("{i:4}"));
    }
    for row in 0..9 {
        expected.push_str(&format!("\n\n{}  ", row + 1));
        for col in 0..9 {
            if row == 0 && col == 0 {
                expected.push_str("[5] ");
            } else if row == 8 && col == 8 {
                expected.push_str("[9] ");
            } else {
                expected.push_str("[ ] ");
            }
        }
    }
    assert_eq!(text, expected);
    assert!(text.starts_with("\n    1   2   3"));
    assert!(text.contains("\n\n1  [5] [ ] "));
    assert!(text.ends_with("[ ] [9] "));
}

#[test]
fn small_search_fits_in_its_budget() {
    let mut grid = Grid::new_random().unwrap();
    let c = Coordinate { row: 4, col: 6 };
    let given = grid.cell_at(c).unwrap().state;
    grid.set_cell(c, CellState::Empty).unwrap();
    // One empty cell: at most 1 + 9 search steps.
    assert_eq!(grid.solve_within(11), Ok(()));
    assert_eq!(grid.cell_at(c).unwrap().state, given);
}

#[test]
fn zero_budget_fails_even_on_a_full_grid() {
    let mut grid = Grid::new_random().unwrap();
    let before = states(&grid);
    assert_eq!(grid.solve_within(0), Err(SolveError::SearchBudgetExceeded));
    assert_eq!(grid.solve_within(1), Ok(()));
    assert_eq!(states(&grid), before);
}

#[test]
fn program_reports_unsolvable_grid() {
    let mut program = Program::new();
    for col in 0..8 {
        let _ = program.update(Message::ChangedNumber(Coordinate { row: 0, col }, (col + 1).to_string()));
    }
    let _ = program.update(Message::ChangedNumber(Coordinate { row: 5, col: 8 }, "9".to_string()));
    let before = states(&program.grid);
    assert_eq!(program.update(Message::SolveGrid), Err(SolveError::Unsolvable));
    assert_eq!(states(&program.grid), before);
}

#[test]
fn cell_state_defaults_to_empty_and_cells_are_readable() {
    assert_eq!(CellState::default(), CellState::Empty);
    let grid = Grid::new_empty();
    assert_eq!(grid.cells.len(), 81);
    assert_eq!(grid.cells[10].coordinate, Coordinate { row: 1, col: 1 });
}

#[test]
fn program_reads_typed_numbers_as_decimal() {
    let mut program = Program::new();
    let c = Coordinate { row: 6, col: 1 };
    let _ = program.update(Message::ChangedNumber(c, "+7".to_string()));
    assert_eq!(program.grid.cell_at(c).unwrap().state, CellState::Filled(7));
    let _ = program.update(Message::ChangedNumber(c, "03".to_string()));
    assert_eq!(program.grid.cell_at(c).unwrap().state, CellState::Filled(3));
    for text in ["-1", "+", " 4", "4 ", "256", "9x"] {
        let _ = program.update(Message::ChangedNumber(c, text.to_string()));
        assert_eq!(program.grid.cell_at(c).unwrap().state, CellState::Filled(3));
    }
}
