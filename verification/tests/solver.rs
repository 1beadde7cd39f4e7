use std::collections::BTreeSet;
use sudoku::{empty_cell, Grid};

#[test]
fn solve_trivial() {
    // This puzzle is already solved. The solver should just return it.
    let lines = [
        "123456789",
        "456789123",
        "789123456",
        "234567891",
        "567891234",
        "891234567",
        "345678912",
        "678912345",
        "912345678",
    ];
    let puzzle = Grid::parse(&lines.join("\n"));
    assert!(puzzle.solve().is_some());
}

#[test]
fn solve_simple() {
    // There is only one missing value. It should be completely constrained.
    let lines = [
        "123456789",
        "4567x9123",
        "789123456",
        "234567891",
        "567891234",
        "891234567",
        "345678912",
        "678912345",
        "912345678",
    ];
    let puzzle = Grid::parse(&lines.join("\n"));
    assert!(puzzle.solve().is_some());
}

#[test]
fn solve_multiple_missing() {
    let lines = [
        "x234x6789",
        "x567x9123",
        "789123456",
        "234567891",
        "567891234",
        "891234567",
        "345678912",
        "678912345",
        "912345678",
    ];
    let puzzle = Grid::parse(&lines.join("\n"));
    assert!(puzzle.solve().is_some());
}

#[test]
fn solve_with_guess() {
    // This puzzle reqires that some of the variables are guessed.
    let lines = [
        "x23x56789",
        "x56789x23",
        "789123456",
        "234567891",
        "567891234",
        "891234567",
        "345678912",
        "678912345",
        "912345678",
    ];
    let puzzle = Grid::parse(&lines.join("\n"));
    assert_eq!(puzzle.get(0, 0), &empty_cell());
    assert!(puzzle.solve().is_some());
}

#[test]
fn solve_detects_impossible_puzzles() {
    // This puzzle contains a contradiction. It should be easy to report that there is no solution.
    let lines = [
        "11xxxxxxx",
        "xxxxxxxxx",
        "xxxxxxxxx",
        "xxxxxxxxx",
        "xxxxxxxxx",
        "xxxxxxxxx",
        "xxxxxxxxx",
        "xxxxxxxxx",
        "xxxxxxxxx",
    ];
    let puzzle = Grid::parse(&lines.join("\n"));
    assert!(puzzle.solve().is_none());
}

#[test]
fn constrain_rows() {
    let mut grid = Grid::empty();
    grid.data[0][0] = BTreeSet::new();
    grid.data[0][0].insert(1);

    grid.update_row(0, 0);

    for row in 0..9 {
        if row == 0 {
            continue;
        }
        assert!(
            !grid.data[row][0].contains(&1),
            "cell ({}, 0) still contains the value",
            row
        );
    }
}

#[test]
fn constrain_cols() {
    let mut grid = Grid::empty();
    grid.data[0][0] = BTreeSet::new();
    grid.data[0][0].insert(1);

    grid.update_col(0, 0);

    for col in 0..9 {
        if col == 0 {
            continue;
        }
        assert!(
            !grid.data[0][col].contains(&1),
            "cell (0, {}) still contains the value",
            col
        );
    }
}

#[test]
fn constrain_cell() {
    let mut grid = Grid::empty();
    grid.data[3][3] = BTreeSet::new();
    grid.data[3][3].insert(1);

    grid.update_cell(3, 3);

    for row in 3..6 {
        for col in 3..6 {
            if (row, col) == (3, 3) {
                continue;
            }
            assert!(
                !grid.data[row][col].contains(&1),
                "cell ({}, {}) still contains the value",
                row,
                col
            );
        }
    }
}

#[test]
fn most_constrainted() {
    let mut grid = Grid::empty();
    grid.data[0][0] = BTreeSet::new();
    grid.data[0][0].insert(1);
    grid.data[0][0].insert(2);
    grid.data[0][0].insert(3);

    // Should skip variable that are already assigned.
    grid.data[3][3] = BTreeSet::new();
    grid.data[3][3].insert(1);

    // Should find this one
    grid.data[4][4] = BTreeSet::new();
    grid.data[4][4].insert(1);
    grid.data[4][4].insert(2);

    assert!(grid.most_constrained_variable() == Some((4, 4)))
}

#[test]
fn parse() {
    let grid = Grid::parse("123456789\n987654321");
    assert_eq!(grid.data[0][0], [1].into());
    assert_eq!(grid.data[0][8], [9].into());
    assert_eq!(grid.data[1][0], [9].into());
    assert_eq!(grid.data[1][8], [1].into());

    assert_eq!(grid.data[2][0], empty_cell());
}

#[test]
fn parse_with_unfilled() {
    let grid = Grid::parse("x2345678x");
    assert_eq!(grid.data[0][0], empty_cell());
    assert_eq!(grid.data[0][8], empty_cell());
}
