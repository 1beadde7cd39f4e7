use std::collections::BTreeSet;
use sudoku::{
    all_in_large_cell, candidates, empty_cell, is_assigned, is_determined, parse_value, singleton,
    CellAssignment, Grid,
};

fn set_of(values: &[i32]) -> CellAssignment {
    values.iter().copied().collect()
}

#[test]
fn empty_cell_holds_the_nine_digits() {
    assert_eq!(empty_cell(), set_of(&[1, 2, 3, 4, 5, 6, 7, 8, 9]));
    assert_eq!(empty_cell().len(), 9);
}

#[test]
fn singleton_holds_one_value() {
    assert_eq!(singleton(7), set_of(&[7]));
    assert!(is_assigned(&singleton(7)));
}

#[test]
fn assigned_means_exactly_one_candidate() {
    assert!(!is_assigned(&BTreeSet::new()));
    assert!(is_assigned(&set_of(&[4])));
    assert!(!is_assigned(&set_of(&[4, 5])));
    assert!(!is_assigned(&empty_cell()));
}

#[test]
fn determined_means_at_most_one_candidate() {
    assert!(is_determined(&BTreeSet::new()));
    assert!(is_determined(&set_of(&[4])));
    assert!(!is_determined(&set_of(&[4, 5])));
    assert!(!is_determined(&empty_cell()));
}

#[test]
fn candidates_come_in_ascending_order() {
    let mut cell = BTreeSet::new();
    cell.insert(8);
    cell.insert(2);
    cell.insert(5);
    cell.insert(2);
    assert_eq!(candidates(&cell), vec![2, 5, 8]);
    assert_eq!(candidates(&BTreeSet::new()), Vec::<i32>::new());
    assert_eq!(candidates(&empty_cell()), vec![1, 2, 3, 4, 5, 6, 7, 8, 9]);
}

#[test]
fn parse_value_reads_the_digits_one_to_nine() {
    assert_eq!(parse_value('1'), Some(1));
    assert_eq!(parse_value('2'), Some(2));
    assert_eq!(parse_value('3'), Some(3));
    assert_eq!(parse_value('4'), Some(4));
    assert_eq!(parse_value('5'), Some(5));
    assert_eq!(parse_value('6'), Some(6));
    assert_eq!(parse_value('7'), Some(7));
    assert_eq!(parse_value('8'), Some(8));
    assert_eq!(parse_value('9'), Some(9));
}

#[test]
fn parse_value_takes_anything_else_as_unknown() {
    assert_eq!(parse_value('0'), None);
    assert_eq!(parse_value('x'), None);
    assert_eq!(parse_value('.'), None);
    assert_eq!(parse_value(' '), None);
    assert_eq!(parse_value('\n'), None);
    assert_eq!(parse_value(':'), None);
    assert_eq!(parse_value('/'), None);
    assert_eq!(parse_value('\u{0663}'), None);
}

#[test]
fn block_cells_are_listed_row_by_row() {
    assert_eq!(
        all_in_large_cell(4, 8),
        vec![(3, 6), (3, 7), (3, 8), (4, 6), (4, 7), (4, 8), (5, 6), (5, 7), (5, 8)]
    );
    assert_eq!(
        all_in_large_cell(0, 0),
        vec![(0, 0), (0, 1), (0, 2), (1, 0), (1, 1), (1, 2), (2, 0), (2, 1), (2, 2)]
    );
    assert_eq!(all_in_large_cell(8, 2)[0], (6, 0));
    assert_eq!(all_in_large_cell(8, 2)[8], (8, 2));
}

#[test]
fn empty_grid_has_every_candidate_everywhere() {
    let grid = Grid::empty();
    for row in 0..9 {
        for col in 0..9 {
            assert_eq!(grid.get(row, col), &empty_cell());
            assert!(!grid.is_assigned(row, col));
        }
    }
    assert_eq!(grid.candidate_count(), 729);
    assert!(!grid.complete());
    assert!(!grid.is_impossible());
    assert!(grid.is_valid());
}

#[test]
fn get_assigned_returns_the_sole_value() {
    let grid = Grid::parse("x7");
    assert!(grid.is_assigned(0, 1));
    assert_eq!(grid.get_assigned(0, 1), 7);
    assert!(!grid.is_assigned(0, 0));
}

#[test]
fn a_cell_without_candidates_makes_the_grid_impossible() {
    let mut grid = Grid::empty();
    grid.data[8][8] = BTreeSet::new();
    assert!(grid.is_impossible());
    assert!(!grid.is_valid());
    assert!(!grid.complete());
}

#[test]
fn clone_is_independent() {
    let grid = Grid::parse("5");
    let mut copy = grid.clone();
    copy.data[0][0].insert(6);
    copy.data[4][4].clear();
    assert_eq!(grid.data[0][0], set_of(&[5]));
    assert_eq!(grid.data[4][4], empty_cell());
    assert_eq!(copy.data[0][0], set_of(&[5, 6]));
}
