//! Boards and outcomes as lines of text, one character for each cell.

use crate::board::{cell_char, cell_to_char, Board, BoardIndexable};
use crate::grid::{Grid, MinesweeperCell};
use crate::rules::{Deductions, KnownSquares};
use vstd::prelude::*;

verus! {

/// `String::push`: the text with one more character at its end.
#[verifier::external_body]
fn push_char(text: &mut String, c: char)
    ensures
        final(text)@ == old(text)@.push(c),
{
    text.push(c)
}

/// The characters of a list of cells.
pub open spec fn cell_chars(cells: Seq<MinesweeperCell>) -> Seq<char> {
    cells.map_values(|cell: MinesweeperCell| cell_char(cell))
}

/// The text of the first `rows` rows of a grid: the characters of each row and a
/// line feed after them.
pub open spec fn grid_text(grid: Grid, rows: nat) -> Seq<char>
    decreases rows,
{
    if rows == 0 {
        Seq::empty()
    } else {
        grid_text(grid, (rows - 1) as nat) + cell_chars(grid.chunk(rows - 1)).push('\n')
    }
}

/// Every clue of the grid has a character.
pub open spec fn printable(grid: Grid) -> bool {
    forall|k: int|
        0 <= k < grid.cells.len() ==> (#[trigger] grid.cells[k] matches MinesweeperCell::Number(n)
            ==> n < 36)
}

/// A row of cell states begins inside the cells, and holds the cells from its
/// beginning on.
pub proof fn lemma_chunk(grid: Grid, k: int)
    requires
        grid.side > 0,
        0 <= k < grid.chunk_count(),
    ensures
        0 <= k * grid.side < grid.cells.len(),
        forall|i: int|
            0 <= i < grid.chunk(k).len() ==> k * grid.side + i < grid.cells.len()
                && #[trigger] grid.chunk(k)[i] == grid.cells[k * grid.side + i],
{
    let s = grid.side;
    let n = grid.cells.len() as int;
    let q = (n + s - 1) / s;
    vstd::arithmetic::div_mod::lemma_fundamental_div_mod(n + s - 1, s);
    assert(s * q <= n + s - 1);
    assert(k * s <= (q - 1) * s) by (nonlinear_arith)
        requires
            0 <= k <= q - 1,
            s > 0,
    ;
    assert((q - 1) * s == s * q - s) by (nonlinear_arith);
    assert(0 <= k * s) by (nonlinear_arith)
        requires
            0 <= k,
            s > 0,
    ;
    assert((k + 1) * s == k * s + s) by (nonlinear_arith);
}

/// The board as text, a line for each row.
pub fn board_text(board: &Board) -> (text: String)
    requires
        board.size > 0,
        printable(board@),
    ensures
        text@ == grid_text(board@, board@.chunk_count() as nat),
{
    let rows = board.as_rows();
    let mut text = String::new();
    let ghost grid = board@;
    for k in 0..rows.len()
        invariant
            grid == board@,
            grid.side > 0,
            printable(grid),
            rows@.len() == grid.chunk_count(),
            forall|j: int| 0 <= j < rows@.len() ==> (#[trigger] rows@[j])@ == grid.chunk(j),
            text@ == grid_text(grid, k as nat),
    {
        let row = rows[k];
        let ghost before = text@;
        assert(row@ == grid.chunk(k as int));
        for i in 0..row.len()
            invariant
                printable(grid),
                grid.side > 0,
                row@ == grid.chunk(k as int),
                0 <= k < grid.chunk_count(),
                text@ == before + cell_chars(row@.take(i as int)),
        {
            proof {
                let start = k * grid.side;
                lemma_chunk(grid, k as int);
                assert(row@[i as int] == grid.cells[start + i]);
                assert(row@.take(i + 1) =~= row@.take(i as int).push(row@[i as int]));
                assert(cell_chars(row@.take(i + 1)) =~= cell_chars(row@.take(i as int)).push(
                    cell_char(row@[i as int]),
                ));
            }
            let c = cell_to_char(row[i]);
            push_char(&mut text, c);
        }
        assert(row@.take(row@.len() as int) =~= row@);
        push_char(&mut text, '\n');
        assert(text@ =~= before + cell_chars(row@).push('\n'));
    }
    text
}

/// The character of a cell in the picture of an outcome: `O` for a safe cell, `X`
/// for a mine, `_` for any other.
pub open spec fn outcome_char(known: Deductions, index: int) -> char {
    if known.safe.contains(index as usize) {
        'O'
    } else if known.mines.contains(index as usize) {
        'X'
    } else {
        '_'
    }
}

/// The picture of an outcome on a board of the given side: a line for each row.
pub open spec fn outcome_rows(known: Deductions, side: int) -> Seq<Seq<char>> {
    Seq::new(side as nat, |r: int| Seq::new(side as nat, |c: int| outcome_char(known, r * side + c)))
}

/// The texts of a list of strings.
pub open spec fn texts(lines: Seq<String>) -> Seq<Seq<char>> {
    lines.map_values(|line: String| line@)
}

/// The picture of an outcome, a line for each row of the board.
pub fn known_squares_rows(known_squares: &KnownSquares, board_size: usize) -> (lines: Vec<String>)
    requires
        board_size * board_size <= usize::MAX,
    ensures
        texts(lines@) == outcome_rows(known_squares@, board_size as int),
{
    broadcast use vstd::std_specs::hash::group_hash_axioms;

    let mut lines: Vec<String> = Vec::new();
    let ghost known = known_squares@;
    for r in 0..board_size
        invariant
            known == known_squares@,
            board_size * board_size <= usize::MAX,
            lines@.len() == r,
            forall|j: int|
                0 <= j < r ==> (#[trigger] lines@[j])@ == Seq::new(
                    board_size as nat,
                    |c: int| outcome_char(known, j * board_size + c),
                ),
    {
        let mut line = String::new();
        for c in 0..board_size
            invariant
                known == known_squares@,
                0 <= r < board_size,
                board_size * board_size <= usize::MAX,
                line@.len() == c,
                forall|i: int| 0 <= i < c ==> line@[i] == outcome_char(known, r * board_size + i),
        {
            assert(r * board_size + c < board_size * board_size) by (nonlinear_arith)
                requires
                    0 <= r < board_size,
                    0 <= c < board_size,
            ;
            let index = r * board_size + c;
            let mark = if known_squares.safe.contains(&index) {
                'O'
            } else if known_squares.mines.contains(&index) {
                'X'
            } else {
                '_'
            };
            push_char(&mut line, mark);
        }
        assert(line@ =~= Seq::new(
            board_size as nat,
            |c: int| outcome_char(known, r * board_size + c),
        ));
        lines.push(line);
    }
    assert(texts(lines@) =~= outcome_rows(known, board_size as int));
    lines
}

} // verus!
