use std::collections::BTreeSet;
use sudoku::{empty_cell, singleton, CellAssignment, Grid};

fn is_peer(r: usize, c: usize, i: usize, j: usize) -> bool {
    (r, c) != (i, j) && (r == i || c == j || (r / 3 == i / 3 && c / 3 == j / 3))
}

fn cells(grid: &Grid) -> Vec<CellAssignment> {
    let mut all = Vec::new();
    for row in 0..9 {
        for col in 0..9 {
            all.push(grid.get(row, col).clone());
        }
    }
    all
}

#[test]
fn apply_constraints_strikes_the_value_from_all_peers_and_nowhere_else() {
    let mut grid = Grid::empty();
    grid.data[4][7] = singleton(5);
    grid.apply_constraints(4, 7);
    let without: CellAssignment = [1, 2, 3, 4, 6, 7, 8, 9].into();
    for row in 0..9 {
        for col in 0..9 {
            if (row, col) == (4, 7) {
                assert_eq!(grid.get(row, col), &singleton(5));
            } else if is_peer(4, 7, row, col) {
                assert_eq!(grid.get(row, col), &without);
            } else {
                assert_eq!(grid.get(row, col), &empty_cell());
            }
        }
    }
    assert_eq!(grid.candidate_count(), 1 + 20 * 8 + 60 * 9);
}

#[test]
fn apply_constraints_never_adds_a_candidate() {
    let mut grid = Grid::parse("12345678\n\n\n\n\n\n\n\n9");
    grid.data[0][8] = [2, 9].into();
    let before = cells(&grid);
    for row in 0..9 {
        for col in 0..9 {
            grid.apply_constraints(row, col);
            let after = cells(&grid);
            for k in 0..81 {
                assert!(after[k].is_subset(&before[k]));
            }
        }
    }
}

#[test]
fn apply_constraints_leaves_the_grid_alone_for_an_open_cell() {
    let mut grid = Grid::parse("1");
    grid.data[5][5] = [3, 4].into();
    grid.data[6][6] = BTreeSet::new();
    let before = cells(&grid);
    grid.apply_constraints(5, 5);
    grid.apply_constraints(6, 6);
    grid.apply_constraints(8, 8);
    assert_eq!(cells(&grid), before);
}

#[test]
fn apply_constraints_twice_is_the_same_as_once() {
    let mut grid = Grid::parse("xxx\nx6x");
    grid.apply_constraints(1, 1);
    let once = cells(&grid);
    grid.apply_constraints(1, 1);
    assert_eq!(cells(&grid), once);
}

#[test]
fn update_row_touches_only_the_column() {
    let mut grid = Grid::empty();
    grid.data[2][3] = singleton(9);
    grid.update_row(2, 3);
    for row in 0..9 {
        for col in 0..9 {
            let struck = col == 3 && row != 2;
            assert_eq!(grid.data[row][col].contains(&9), !struck);
            assert_eq!(grid.data[row][col].len(), if (row, col) == (2, 3) { 1 } else if struck { 8 } else { 9 });
        }
    }
}

#[test]
fn update_col_touches_only_the_row() {
    let mut grid = Grid::empty();
    grid.data[2][3] = singleton(9);
    grid.update_col(2, 3);
    for row in 0..9 {
        for col in 0..9 {
            let struck = row == 2 && col != 3;
            assert_eq!(grid.data[row][col].contains(&9), !struck);
        }
    }
}

#[test]
fn update_cell_touches_only_the_block() {
    let mut grid = Grid::empty();
    grid.data[7][1] = singleton(4);
    grid.update_cell(7, 1);
    for row in 0..9 {
        for col in 0..9 {
            let struck = row >= 6 && col < 3 && (row, col) != (7, 1);
            assert_eq!(grid.data[row][col].contains(&4), !struck);
        }
    }
}

#[test]
fn one_pass_need_not_be_the_end() {
    // The last cell of the first row becomes assigned before its turn comes,
    // so it propagates in the same pass.
    let mut grid = Grid::parse("12345678");
    grid.apply_constraints_all_cells();
    assert_eq!(grid.get(0, 8), &singleton(9));
    assert!(!grid.get(5, 8).contains(&9));

    // A cell that becomes assigned after its turn waits for the next pass.
    let mut grid = Grid::parse("x23456789\n\n\n1");
    grid.data[3][0] = singleton(7);
    grid.data[0][0] = [1, 7].into();
    grid.apply_constraints_all_cells();
    assert_eq!(grid.get(0, 0), &singleton(1));
    assert!(grid.get(1, 1).contains(&1));
    grid.apply_constraints_all_cells();
    assert!(!grid.get(1, 1).contains(&1));
}

#[test]
fn propagate_reaches_a_state_that_further_passes_leave_unchanged() {
    let mut grid = Grid::parse("x23456789\n\n\n1");
    grid.data[3][0] = singleton(7);
    grid.data[0][0] = [1, 7].into();
    let before = cells(&grid);
    grid.propagate();
    let settled = cells(&grid);
    for k in 0..81 {
        assert!(settled[k].is_subset(&before[k]));
    }
    assert!(!grid.get(1, 1).contains(&1));
    grid.apply_constraints_all_cells();
    assert_eq!(cells(&grid), settled);
    grid.apply_constraints_all_cells();
    assert_eq!(cells(&grid), settled);
    grid.propagate();
    assert_eq!(cells(&grid), settled);
    for row in 0..9 {
        for col in 0..9 {
            if grid.is_assigned(row, col) {
                let value = grid.get_assigned(row, col);
                for i in 0..9 {
                    for j in 0..9 {
                        if is_peer(row, col, i, j) {
                            assert!(!grid.get(i, j).contains(&value));
                        }
                    }
                }
            }
        }
    }
}

#[test]
fn candidate_count_adds_up_the_cells() {
    let mut grid = Grid::parse("1\nx2");
    assert_eq!(grid.candidate_count(), 79 * 9 + 2);
    grid.data[8][8] = BTreeSet::new();
    assert_eq!(grid.candidate_count(), 78 * 9 + 2);
}
