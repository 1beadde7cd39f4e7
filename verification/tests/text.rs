use sudoku::{empty_cell, singleton, Grid};

const SOLVED: [&str; 9] = [
    "123456789",
    "456789123",
    "789123456",
    "234567891",
    "567891234",
    "891234567",
    "345678912",
    "678912345",
    "912345678",
];

#[test]
fn render_shows_digits_and_placeholders() {
    let grid = Grid::parse("12x\n\n..9");
    let expected = [
        "12xxxxxxx",
        "xxxxxxxxx",
        "xx9xxxxxx",
        "xxxxxxxxx",
        "xxxxxxxxx",
        "xxxxxxxxx",
        "xxxxxxxxx",
        "xxxxxxxxx",
        "xxxxxxxxx",
    ];
    assert_eq!(grid.to_string(), expected.join("\n"));
}

#[test]
fn render_has_nine_lines_of_nine_characters() {
    let text = Grid::empty().to_string();
    assert_eq!(text.chars().count(), 89);
    let lines: Vec<&str> = text.split('\n').collect();
    assert_eq!(lines.len(), 9);
    for line in lines {
        assert_eq!(line, "xxxxxxxxx");
    }
}

#[test]
fn render_shows_a_cell_without_candidates_as_placeholder() {
    let mut grid = Grid::parse(&SOLVED.join("\n"));
    grid.data[0][0].clear();
    grid.data[0][1].insert(9);
    let text = grid.to_string();
    assert_eq!(&text[0..9], "xx3456789");
}

#[test]
fn round_trip_of_a_complete_grid() {
    let text = SOLVED.join("\n");
    let grid = Grid::parse(&text);
    assert!(grid.complete());
    assert_eq!(grid.to_string(), text);
    let again = Grid::parse(&grid.to_string());
    assert_eq!(again.to_string(), grid.to_string());
    for row in 0..9 {
        for col in 0..9 {
            assert_eq!(again.get(row, col), grid.get(row, col));
        }
    }
}

#[test]
fn parse_ignores_what_lies_beyond_nine_by_nine() {
    let mut lines: Vec<String> = Vec::new();
    for _ in 0..9 {
        lines.push("xxxxxxxxx555".to_string());
    }
    lines.push("123456789".to_string());
    lines.push("123456789".to_string());
    let grid = Grid::parse(&lines.join("\n"));
    for row in 0..9 {
        for col in 0..9 {
            assert_eq!(grid.get(row, col), &empty_cell());
        }
    }
}

#[test]
fn parse_leaves_missing_cells_open() {
    let grid = Grid::parse("");
    assert_eq!(grid.candidate_count(), 729);
    let grid = Grid::parse("1\n\n\n4");
    assert_eq!(grid.get(0, 0), &singleton(1));
    assert_eq!(grid.get(3, 0), &singleton(4));
    assert_eq!(grid.get(1, 0), &empty_cell());
    assert_eq!(grid.get(0, 1), &empty_cell());
    assert_eq!(grid.candidate_count(), 729 - 16);
}

#[test]
fn parse_counts_characters_not_bytes() {
    let grid = Grid::parse("\u{00e9}\u{4e2d}3");
    assert_eq!(grid.get(0, 2), &singleton(3));
    assert_eq!(grid.get(0, 0), &empty_cell());
    assert_eq!(grid.get(0, 1), &empty_cell());
}

#[test]
fn parse_takes_zero_and_carriage_return_as_unknown() {
    let grid = Grid::parse("0123\r\n45\r\n");
    assert_eq!(grid.get(0, 0), &empty_cell());
    assert_eq!(grid.get(0, 1), &singleton(1));
    assert_eq!(grid.get(0, 3), &singleton(3));
    assert_eq!(grid.get(0, 4), &empty_cell());
    assert_eq!(grid.get(1, 0), &singleton(4));
    assert_eq!(grid.get(1, 1), &singleton(5));
    assert_eq!(grid.get(1, 2), &empty_cell());
    assert_eq!(grid.get(2, 0), &empty_cell());
}

#[test]
fn parse_keeps_the_ninth_column_and_drops_the_tenth() {
    let grid = Grid::parse("xxxxxxxx12");
    assert_eq!(grid.get(0, 8), &singleton(1));
    assert_eq!(grid.candidate_count(), 729 - 8);
}
