//! Puzzles as text: nine lines of nine characters, a digit for a clue and
//! any other character for a cell that is still unknown.

use crate::board::{in_range, is_complete, on_board, well_formed, Board};
use crate::cell::{all_digits, lemma_cell_finite, lemma_only, lemma_sole, only, singleton, sole, CellAssignment};
use crate::grid::Grid;
use vstd::prelude::*;
use vstd::string::StringExecFns;

verus! {

/// The clue that a character stands for: the digits `1` to `9` stand for
/// themselves, every other character for no clue.
pub open spec fn digit_of(c: char) -> Option<i32> {
    if '1' <= c <= '9' {
        Some((c as int - '0' as int) as i32)
    } else {
        None
    }
}

/// The lines of a text: what stands between its line breaks.
pub open spec fn lines_of(text: Seq<char>) -> Seq<Seq<char>>
    decreases text.len(),
{
    if text.len() == 0 {
        seq![Seq::empty()]
    } else {
        let before = lines_of(text.drop_last());
        if text.last() == '\n' {
            before.push(Seq::empty())
        } else {
            before.update(before.len() - 1, before.last().push(text.last()))
        }
    }
}

/// The candidates that the lines of a text leave for the cell `(r, c)`: the
/// digit at column `c` of line `r` alone, where there is one, else all digits.
pub open spec fn clue_cell(lines: Seq<Seq<char>>, r: int, c: int) -> Set<i32> {
    if r < lines.len() && c < lines[r].len() {
        match digit_of(lines[r][c]) {
            Some(d) => only(d),
            None => all_digits(),
        }
    } else {
        all_digits()
    }
}

/// The board that a text describes. Lines after the ninth and characters
/// after the ninth of a line play no part.
pub open spec fn parsed(text: Seq<char>) -> Board {
    Seq::new(9, |r: int| Seq::new(9, |c: int| clue_cell(lines_of(text), r, c)))
}

/// The character that shows a cell: its digit if the cell is assigned one of
/// the digits 1 to 9, the placeholder `x` otherwise.
pub open spec fn glyph(cell: Set<i32>) -> char {
    if cell.len() == 1 && 1 <= sole(cell) <= 9 {
        (sole(cell) + '0' as int) as char
    } else {
        'x'
    }
}

/// The text of a board: nine lines of nine characters, with a line break
/// between two lines and none at the end.
pub open spec fn rendered(b: Board) -> Seq<char> {
    Seq::new(
        89,
        |k: int|
            if k % 10 == 9 {
                '\n'
            } else {
                glyph(b[k / 10][k % 10])
            },
    )
}

/// The nine characters that show row `r` of a board.
pub open spec fn row_text(b: Board, r: int) -> Seq<char> {
    Seq::new(9, |c: int| glyph(b[r][c]))
}

/// Reads one character of a puzzle: a digit from `1` to `9` is a clue.
pub fn parse_value(c: char) -> (value: Option<i32>)
    ensures
        value == digit_of(c),
{
    if c == '1' {
        return Some(1);
    }
    if c == '2' {
        return Some(2);
    }
    if c == '3' {
        return Some(3);
    }
    if c == '4' {
        return Some(4);
    }
    if c == '5' {
        return Some(5);
    }
    if c == '6' {
        return Some(6);
    }
    if c == '7' {
        return Some(7);
    }
    if c == '8' {
        return Some(8);
    }
    if c == '9' {
        return Some(9);
    }
    return None;
}

/// The text of one cell.
fn to_char(assignment: &CellAssignment) -> (text: &'static str)
    ensures
        text@ == seq![glyph(assignment@)],
{
    proof {
        reveal_strlit("1");
        reveal_strlit("2");
        reveal_strlit("3");
        reveal_strlit("4");
        reveal_strlit("5");
        reveal_strlit("6");
        reveal_strlit("7");
        reveal_strlit("8");
        reveal_strlit("9");
        reveal_strlit("x");
    }
    if assignment.len() != 1 {
        assert("x"@ =~= seq!['x']);
        return "x";
    }
    let list = crate::cell::candidates(assignment);
    proof {
        lemma_cell_finite(assignment);
        lemma_sole(assignment@);
        assert(list@.to_set().contains(list@[0]));
    }
    let value = list[0];
    let text = if value == 1 {
        "1"
    } else if value == 2 {
        "2"
    } else if value == 3 {
        "3"
    } else if value == 4 {
        "4"
    } else if value == 5 {
        "5"
    } else if value == 6 {
        "6"
    } else if value == 7 {
        "7"
    } else if value == 8 {
        "8"
    } else if value == 9 {
        "9"
    } else {
        "x"
    };
    assert(text@ =~= seq![glyph(assignment@)]);
    text
}

impl Grid {
    /// Reads a puzzle from text.
    ///
    /// Each of the first nine characters of each of the first nine lines
    /// stands for one cell: a digit from `1` to `9` fixes the cell to that
    /// value, any other character leaves it open. Cells for which the text
    /// has no character are left open too, so every text is a puzzle.
    pub fn parse(text: &str) -> (puzzle: Self)
        ensures
            puzzle@ == parsed(text@),
            in_range(puzzle@),
    {
        let mut puzzle = Grid::empty();
        let mut row_num: usize = 0;
        let mut column: usize = 0;
        proof {
            assert(text@.take(0) =~= Seq::<char>::empty());
            assert(puzzle@ =~~= parsed(text@.take(0)));
        }
        for c in it: text.chars()
            invariant
                it.seq() == text@,
                puzzle@ == parsed(text@.take(it.index())),
                row_num == if lines_of(text@.take(it.index())).len() - 1 < 9 {
                    lines_of(text@.take(it.index())).len() - 1
                } else {
                    9
                },
                column == if lines_of(text@.take(it.index())).last().len() < 9 {
                    lines_of(text@.take(it.index())).last().len()
                } else {
                    9
                },
                lines_of(text@.take(it.index())).len() >= 1,
        {
            let ghost n = it.index();
            let ghost before = lines_of(text@.take(n));
            let ghost after = lines_of(text@.take(n + 1));
            proof {
                assert(text@.take(n + 1).drop_last() =~= text@.take(n));
                assert(text@.take(n + 1).last() == c);
            }
            if c == '\n' {
                proof {
                    assert(after == before.push(Seq::empty()));
                    assert(puzzle@ =~~= parsed(text@.take(n + 1)));
                }
                if row_num < 9 {
                    row_num = row_num + 1;
                }
                column = 0;
            } else {
                proof {
                    assert(after == before.update(before.len() - 1, before.last().push(c)));
                }
                if row_num < 9 && column < 9 {
                    let value = parse_value(c);
                    if let Some(value) = value {
                        puzzle.data[row_num][column] = singleton(value);
                    }
                }
                proof {
                    assert forall|i: int, j: int| 0 <= i < 9 && 0 <= j < 9 implies puzzle@[i][j]
                        == parsed(text@.take(n + 1))[i][j] by {
                        assert(parsed(text@.take(n))[i][j] == clue_cell(before, i, j));
                    }
                    assert(puzzle@ =~~= parsed(text@.take(n + 1)));
                }
                if column < 9 {
                    column = column + 1;
                }
            }
        }
        proof {
            assert(text@.take(text@.len() as int) =~= text@);
            lemma_parsed_in_range(text@);
        }
        puzzle
    }

    /// Writes the grid as text: nine lines of nine characters, with a line
    /// break between two lines. A cell that is assigned a digit shows the
    /// digit, every other cell the placeholder `x`.
    pub fn to_string(&self) -> (text: String)
        ensures
            text@ == rendered(self@),
    {
        let mut text = String::new();
        let mut row: usize = 0;
        while row < 9
            invariant
                row <= 9,
                text@ == rendered(self@).take(if row == 9 {
                    89
                } else {
                    10 * row
                }),
            decreases 9 - row,
        {
            let mut col: usize = 0;
            while col < 9
                invariant
                    row < 9,
                    col <= 9,
                    text@ == rendered(self@).take(10 * row + col),
                decreases 9 - col,
            {
                let piece = to_char(&self.data[row][col]);
                text.append(piece);
                assert(text@ =~= rendered(self@).take(10 * row + col + 1));
                col = col + 1;
            }
            if row < 8 {
                proof {
                    reveal_strlit("\n");
                }
                text.append("\n");
                assert(text@ =~= rendered(self@).take(10 * row + 10));
            }
            row = row + 1;
        }
        assert(text@ =~= rendered(self@));
        text
    }
}

/// Whatever the text, the board it describes is well formed and holds nothing
/// but digits.
pub proof fn lemma_parsed_in_range(text: Seq<char>)
    ensures
        well_formed(parsed(text)),
        in_range(parsed(text)),
{
    let b = parsed(text);
    crate::cell::lemma_all_digits();
    assert forall|r: int, c: int| #[trigger] on_board(r, c) implies b[r][c].finite()
        && b[r][c].subset_of(all_digits()) by {
        let lines = lines_of(text);
        if r < lines.len() && c < lines[r].len() {
            if let Some(d) = digit_of(lines[r][c]) {
                lemma_only(d);
            }
        }
    }
}

/// The lines of the first `n` characters of the text of a board: the rows
/// shown so far, the last of them as far as it has got.
proof fn lemma_lines_of_rendered(b: Board, n: nat)
    requires
        n <= 89,
    ensures
        lines_of(rendered(b).take(n as int)).len() == n / 10 + 1,
        forall|i: int|
            0 <= i < n / 10 ==> #[trigger] lines_of(rendered(b).take(n as int))[i] == row_text(b, i),
        lines_of(rendered(b).take(n as int)).last() == row_text(b, (n / 10) as int).take(
            (n % 10) as int,
        ),
    decreases n,
{
    let text = rendered(b).take(n as int);
    if n == 0 {
        assert(lines_of(text).last() =~= row_text(b, 0).take(0));
    } else {
        let shorter = rendered(b).take(n - 1);
        assert(text.drop_last() =~= shorter);
        lemma_lines_of_rendered(b, (n - 1) as nat);
        let before = lines_of(shorter);
        if (n - 1) % 10 == 9 {
            assert(text.last() == '\n');
            assert(before.last() =~= row_text(b, (n - 1) / 10));
            assert(lines_of(text).last() =~= row_text(b, (n / 10) as int).take(0));
        } else {
            assert(text.last() == glyph(b[(n - 1) / 10][(n - 1) % 10]));
            assert(text.last() != '\n');
            assert(lines_of(text).last() =~= row_text(b, (n / 10) as int).take((n % 10) as int));
        }
    }
}

/// Reading the text of a board gives the board back, provided that every
/// cell of the board is assigned a digit. So writing, reading and writing
/// again gives the same text as writing once.
pub proof fn lemma_round_trip(b: Board)
    requires
        well_formed(b),
        is_complete(b),
        in_range(b),
    ensures
        parsed(rendered(b)) == b,
        rendered(parsed(rendered(b))) == rendered(b),
{
    let text = rendered(b);
    lemma_lines_of_rendered(b, 89);
    assert(text.take(89) =~= text);
    let lines = lines_of(text);
    assert(lines[8] =~= row_text(b, 8));
    assert forall|r: int, c: int| 0 <= r < 9 && 0 <= c < 9 implies parsed(text)[r][c]
        == b[r][c] by {
        assert(on_board(r, c));
        lemma_sole(b[r][c]);
        assert(b[r][c].subset_of(all_digits()));
        let v = sole(b[r][c]);
        assert(1 <= v <= 9);
        assert(lines[r] == row_text(b, r));
        assert(lines[r][c] == glyph(b[r][c]));
        assert(digit_of(glyph(b[r][c])) == Some(v));
    }
    assert(parsed(text) =~~= b);
}

} // verus!
