//! The board snapshot and its read-only queries.

use crate::grid::{lemma_row_col, Grid, MinesweeperCell, NextToPolicy};
use vstd::prelude::*;
use vstd::slice::slice_subrange;

verus! {

/// The character that stands for a cell state in a board's text.
pub open spec fn cell_char(cell: MinesweeperCell) -> char {
    match cell {
        MinesweeperCell::Number(n) => if n < 10 {
            (n + 48) as char
        } else if n == 10 {
            'A'
        } else if n == 11 {
            'B'
        } else if n == 12 {
            'C'
        } else {
            (n + 87) as char
        },
        MinesweeperCell::Empty => ' ',
        MinesweeperCell::Question => '?',
        MinesweeperCell::Mine => 'F',
    }
}

/// One character per cell state: a clue below ten is its digit, ten to twelve are
/// `A` to `C`, a larger clue below 36 is its lower-case digit in base 36.
pub fn cell_to_char(cell: MinesweeperCell) -> (c: char)
    requires
        cell matches MinesweeperCell::Number(n) ==> n < 36,
    ensures
        c == cell_char(cell),
{
    match cell {
        MinesweeperCell::Number(10) => 'A',
        MinesweeperCell::Number(11) => 'B',
        MinesweeperCell::Number(12) => 'C',
        MinesweeperCell::Number(val) => {
            let byte: u8 = if val < 10 {
                val as u8 + 48
            } else {
                val as u8 + 87
            };
            byte as char
        },
        MinesweeperCell::Empty => ' ',
        MinesweeperCell::Question => '?',
        MinesweeperCell::Mine => 'F',
    }
}

/// The colour of a cell on a board of the given side.
pub open spec fn is_black_cell(side: int, id: int) -> bool {
    Grid { side, cells: Seq::empty() }.is_black(id)
}

/// Whether a cell is black on the checkerboard colouring of a board.
pub fn is_square_id_black(id: usize, size: usize) -> (black: bool)
    requires
        size > 0,
    ensures
        black == is_black_cell(size as int, id as int),
{
    if size % 2 == 1 {
        return id % 2 == 0;
    }
    let y = id / size;
    let x = id % size;
    x % 2 == y % 2
}

/// A snapshot of the game: `size * size` cell states in row-major order.
#[derive(Clone, Debug)]
pub struct Board {
    pub rows: Vec<MinesweeperCell>,
    pub size: usize,
}

impl View for Board {
    type V = Grid;

    open spec fn view(&self) -> Grid {
        Grid { side: self.size as int, cells: self.rows@ }
    }
}

impl Board {
    /// The state of a cell.
    pub fn cell_at(&self, index: usize) -> (cell: MinesweeperCell)
        requires
            index < self@.cells.len(),
        ensures
            cell == self@.cells[index as int],
    {
        self.rows[index]
    }
}

/// The queries that the solvers make of a board.
pub trait BoardIndexable {
    /// The grid that the queries speak of.
    spec fn grid(&self) -> Grid;

    /// The cell states cut into rows of `side` cells; the last row is shorter where
    /// the cells do not fill it.
    fn as_rows(&self) -> (rows: Vec<&[MinesweeperCell]>)
        requires
            self.grid().side > 0,
        ensures
            rows@.len() == self.grid().chunk_count(),
            forall|k: int| 0 <= k < rows@.len() ==> (#[trigger] rows@[k])@ == self.grid().chunk(k),
    ;

    /// The neighbours of a cell under a policy, in the policy's order.
    fn get_next_to(&self, index: usize, policy: NextToPolicy) -> (res: Vec<usize>)
        requires
            self.grid().side >= 0,
            self.grid().in_range(index as int),
            self.grid().area() <= usize::MAX,
        ensures
            res@ == self.grid().next_to(index as int, policy),
    ;

    /// The up to eight cells one step away from a cell.
    fn get_next_to_eight_around(&self, index: usize) -> (res: Vec<usize>)
        requires
            self.grid().side >= 0,
            self.grid().in_range(index as int),
            self.grid().area() <= usize::MAX,
        ensures
            res@ == self.grid().eight_around(index as int),
    ;

    /// The orthogonal cells one and two steps away from a cell.
    fn get_next_to_x(&self, index: usize) -> (res: Vec<usize>)
        requires
            self.grid().side >= 0,
            self.grid().in_range(index as int),
            self.grid().area() <= usize::MAX,
        ensures
            res@ == self.grid().cross_scape(index as int),
    ;

    /// The up to four orthogonal cells one step away from a cell.
    fn get_next_to_x_small(&self, index: usize) -> (res: Vec<usize>)
        requires
            self.grid().side >= 0,
            self.grid().in_range(index as int),
            self.grid().area() <= usize::MAX,
        ensures
            res@ == self.grid().small_cross(index as int),
    ;

    /// The unrevealed cells among `next_to`, and how many of `next_to` are flagged.
    fn empty_and_mine_count(&self, next_to: &Vec<usize>) -> (res: (Vec<usize>, usize))
        requires
            forall|k: int| 0 <= k < next_to@.len() ==> next_to@[k] < self.grid().cells.len(),
        ensures
            res.0@ == self.grid().unrevealed_among(next_to@),
            res.1 == self.grid().flagged_among(next_to@),
    ;

    /// The unrevealed black and the unrevealed white cells among `next_to`, and the
    /// flagged cells among them counted once where black and twice where white.
    fn black_white_m_minecount(&self, next_to: &Vec<usize>) -> (res: (
        Vec<usize>,
        Vec<usize>,
        usize,
    ))
        requires
            self.grid().side > 0,
            2 * next_to@.len() <= usize::MAX,
            forall|k: int| 0 <= k < next_to@.len() ==> next_to@[k] < self.grid().cells.len(),
        ensures
            res.0@ == self.grid().unrevealed_of_colour(next_to@, true),
            res.1@ == self.grid().unrevealed_of_colour(next_to@, false),
            res.2 == self.grid().flagged_of_colour(next_to@, true) + 2 * self.grid().flagged_of_colour(
                next_to@,
                false,
            ),
    ;

    /// The unrevealed black and the unrevealed white cells among `next_to`, and how
    /// many of `next_to` are flagged black cells, and flagged white cells.
    fn black_white_split_minecount(&self, next_to: &Vec<usize>) -> (res: (
        Vec<usize>,
        Vec<usize>,
        usize,
        usize,
    ))
        requires
            self.grid().side > 0,
            forall|k: int| 0 <= k < next_to@.len() ==> next_to@[k] < self.grid().cells.len(),
        ensures
            res.0@ == self.grid().unrevealed_of_colour(next_to@, true),
            res.1@ == self.grid().unrevealed_of_colour(next_to@, false),
            res.2 == self.grid().flagged_of_colour(next_to@, true),
            res.3 == self.grid().flagged_of_colour(next_to@, false),
    ;
}

impl BoardIndexable for Board {
    open spec fn grid(&self) -> Grid {
        self@
    }

    fn as_rows(&self) -> (rows: Vec<&[MinesweeperCell]>) {
        let mut rows: Vec<&[MinesweeperCell]> = Vec::new();
        let len = self.rows.len();
        let size = self.size;
        let mut start: usize = 0;
        assert(0 * size == 0);
        while start < len
            invariant
                size == self.size,
                size > 0,
                len == self.rows@.len(),
                start <= len,
                start < len ==> start == rows@.len() * size,
                start == len ==> (rows@.len() - 1) * size < len <= rows@.len() * size,
                len == 0 ==> rows@.len() == 0,
                forall|k: int| 0 <= k < rows@.len() ==> (#[trigger] rows@[k])@ == self@.chunk(k),
            decreases len - start,
        {
            let end: usize = if len - start < size {
                len
            } else {
                start + size
            };
            let ghost k = rows@.len() as int;
            assert((k + 1) * size == k * size + size) by (nonlinear_arith);
            let row = slice_subrange(self.rows.as_slice(), start, end);
            rows.push(row);
            start = end;
        }
        proof {
            let n = rows@.len() as int;
            if len > 0 {
                assert((n - 1) * size + size == n * size) by (nonlinear_arith);
                vstd::arithmetic::div_mod::lemma_fundamental_div_mod_converse(
                    len + size - 1,
                    size as int,
                    n,
                    len + size - 1 - n * size,
                );
            } else {
                vstd::arithmetic::div_mod::lemma_fundamental_div_mod_converse(
                    len + size - 1,
                    size as int,
                    0,
                    size - 1,
                );
            }
        }
        rows
    }

    fn get_next_to(&self, index: usize, policy: NextToPolicy) -> (res: Vec<usize>) {
        match policy {
            NextToPolicy::EightAround => self.get_next_to_eight_around(index),
            NextToPolicy::XScape => self.get_next_to_x(index),
            NextToPolicy::XSmall => self.get_next_to_x_small(index),
        }
    }

    fn get_next_to_eight_around(&self, index: usize) -> (res: Vec<usize>) {
        let size = self.size;
        proof {
            lemma_row_col(size as int, index as int);
            lemma_reach(size as int, index as int);
        }
        let row = index / size;
        let col = index % size;
        let up = row >= 1;
        let down = row + 1 < size;
        let left = col >= 1;
        let right = col + 1 < size;
        let ghost g = self@;
        let ghost i = index as int;

        let mut res: Vec<usize> = Vec::new();
        if up {
            if right {
                res.push(index - size + 1);
            }
            assert(res@ =~= g.offset_cell(i, -1, 1));
            res.push(index - size);
            assert(res@ =~= g.offset_cell(i, -1, 1) + g.offset_cell(i, -1, 0));
            if left {
                res.push(index - size - 1);
            }
        }
        assert(res@ =~= g.offset_cell(i, -1, 1) + g.offset_cell(i, -1, 0) + g.offset_cell(i, -1, -1));
        let ghost above = res@;
        if right {
            res.push(index + 1);
        }
        assert(res@ =~= above + g.offset_cell(i, 0, 1));
        if left {
            res.push(index - 1);
        }
        assert(res@ =~= above + g.offset_cell(i, 0, 1) + g.offset_cell(i, 0, -1));
        let ghost beside = res@;
        if down {
            if right {
                res.push(index + size + 1);
            }
            assert(res@ =~= beside + g.offset_cell(i, 1, 1));
            res.push(index + size);
            assert(res@ =~= beside + g.offset_cell(i, 1, 1) + g.offset_cell(i, 1, 0));
            if left {
                res.push(index + size - 1);
            }
        }
        assert(res@ =~= beside + g.offset_cell(i, 1, 1) + g.offset_cell(i, 1, 0) + g.offset_cell(
            i,
            1,
            -1,
        ));
        res
    }

    fn get_next_to_x(&self, index: usize) -> (res: Vec<usize>) {
        let size = self.size;
        proof {
            lemma_row_col(size as int, index as int);
            lemma_reach(size as int, index as int);
        }
        let row = index / size;
        let col = index % size;
        let ghost g = self@;
        let ghost i = index as int;

        let mut res: Vec<usize> = Vec::new();
        let ghost p0 = res@;
        if row >= 1 {
            res.push(index - size);
        }
        let ghost p1 = res@;
        proof {
            lemma_pushed(g, i, p0, p1, -1, 0);
        }
        if row >= 2 {
            res.push(index - size - size);
        }
        let ghost p2 = res@;
        proof {
            lemma_pushed(g, i, p1, p2, -2, 0);
        }
        if col + 1 < size {
            res.push(index + 1);
        }
        let ghost p3 = res@;
        proof {
            lemma_pushed(g, i, p2, p3, 0, 1);
        }
        if col + 2 < size {
            res.push(index + 2);
        }
        let ghost p4 = res@;
        proof {
            lemma_pushed(g, i, p3, p4, 0, 2);
        }
        if col >= 1 {
            res.push(index - 1);
        }
        let ghost p5 = res@;
        proof {
            lemma_pushed(g, i, p4, p5, 0, -1);
        }
        if col >= 2 {
            res.push(index - 2);
        }
        let ghost p6 = res@;
        proof {
            lemma_pushed(g, i, p5, p6, 0, -2);
        }
        if row + 1 < size {
            res.push(index + size);
        }
        let ghost p7 = res@;
        proof {
            lemma_pushed(g, i, p6, p7, 1, 0);
        }
        if row + 2 < size {
            res.push(index + size + size);
        }
        proof {
            lemma_pushed(g, i, p7, res@, 2, 0);
            assert(p0 + g.offset_cell(i, -1, 0) =~= g.offset_cell(i, -1, 0));
        }
        res
    }

    fn get_next_to_x_small(&self, index: usize) -> (res: Vec<usize>) {
        let size = self.size;
        proof {
            lemma_row_col(size as int, index as int);
            lemma_reach(size as int, index as int);
        }
        let row = index / size;
        let col = index % size;
        let ghost g = self@;
        let ghost i = index as int;

        let mut res: Vec<usize> = Vec::new();
        if row >= 1 {
            res.push(index - size);
        }
        assert(res@ =~= g.offset_cell(i, -1, 0));
        if col + 1 < size {
            res.push(index + 1);
        }
        assert(res@ =~= g.offset_cell(i, -1, 0) + g.offset_cell(i, 0, 1));
        if col >= 1 {
            res.push(index - 1);
        }
        assert(res@ =~= g.offset_cell(i, -1, 0) + g.offset_cell(i, 0, 1) + g.offset_cell(i, 0, -1));
        if row + 1 < size {
            res.push(index + size);
        }
        assert(res@ =~= g.offset_cell(i, -1, 0) + g.offset_cell(i, 0, 1) + g.offset_cell(i, 0, -1)
            + g.offset_cell(i, 1, 0));
        res
    }

    fn empty_and_mine_count(&self, next_to: &Vec<usize>) -> (res: (Vec<usize>, usize)) {
        let mut empty: Vec<usize> = Vec::new();
        let mut mines: usize = 0;
        let ghost g = self@;
        proof {
            assert(next_to@.take(0) =~= Seq::empty());
            reveal(Seq::filter);
        }
        for k in 0..next_to.len()
            invariant
                g == self@,
                forall|j: int| 0 <= j < next_to@.len() ==> next_to@[j] < self.rows@.len(),
                empty@ == g.unrevealed_among(next_to@.take(k as int)),
                mines == g.flagged_among(next_to@.take(k as int)),
                mines <= k,
        {
            let i = next_to[k];
            proof {
                let before = next_to@.take(k as int);
                assert(next_to@.take(k + 1) =~= before.push(i));
                before.lemma_filter_push(i, g.unrevealed_pred());
                before.lemma_filter_push(i, g.flagged_pred());
            }
            match self.rows[i] {
                MinesweeperCell::Empty => {
                    empty.push(i);
                },
                MinesweeperCell::Mine => {
                    mines = mines + 1;
                },
                _ => {},
            }
        }
        assert(next_to@.take(next_to@.len() as int) =~= next_to@);
        (empty, mines)
    }

    fn black_white_m_minecount(&self, next_to: &Vec<usize>) -> (res: (
        Vec<usize>,
        Vec<usize>,
        usize,
    )) {
        let mut black: Vec<usize> = Vec::new();
        let mut white: Vec<usize> = Vec::new();
        let mut mines: usize = 0;
        let ghost g = self@;
        proof {
            assert(next_to@.take(0) =~= Seq::empty());
            reveal(Seq::filter);
        }
        for k in 0..next_to.len()
            invariant
                g == self@,
                self.size > 0,
                2 * next_to@.len() <= usize::MAX,
                forall|j: int| 0 <= j < next_to@.len() ==> next_to@[j] < self.rows@.len(),
                black@ == g.unrevealed_of_colour(next_to@.take(k as int), true),
                white@ == g.unrevealed_of_colour(next_to@.take(k as int), false),
                mines == g.flagged_of_colour(next_to@.take(k as int), true) + 2
                    * g.flagged_of_colour(next_to@.take(k as int), false),
                mines <= 2 * k,
        {
            let i = next_to[k];
            proof {
                let before = next_to@.take(k as int);
                assert(next_to@.take(k + 1) =~= before.push(i));
                before.lemma_filter_push(i, g.unrevealed_of_colour_pred(true));
                before.lemma_filter_push(i, g.unrevealed_of_colour_pred(false));
                before.lemma_filter_push(i, g.flagged_of_colour_pred(true));
                before.lemma_filter_push(i, g.flagged_of_colour_pred(false));
            }
            match self.rows[i] {
                MinesweeperCell::Empty => {
                    if is_square_id_black(i, self.size) {
                        black.push(i);
                    } else {
                        white.push(i);
                    }
                },
                MinesweeperCell::Mine => {
                    let weight: usize = if is_square_id_black(i, self.size) {
                        1
                    } else {
                        2
                    };
                    mines = mines + weight;
                },
                _ => {},
            }
        }
        assert(next_to@.take(next_to@.len() as int) =~= next_to@);
        (black, white, mines)
    }

    fn black_white_split_minecount(&self, next_to: &Vec<usize>) -> (res: (
        Vec<usize>,
        Vec<usize>,
        usize,
        usize,
    )) {
        let mut black: Vec<usize> = Vec::new();
        let mut white: Vec<usize> = Vec::new();
        let mut black_mines: usize = 0;
        let mut white_mines: usize = 0;
        let ghost g = self@;
        proof {
            assert(next_to@.take(0) =~= Seq::empty());
            reveal(Seq::filter);
        }
        for k in 0..next_to.len()
            invariant
                g == self@,
                self.size > 0,
                forall|j: int| 0 <= j < next_to@.len() ==> next_to@[j] < self.rows@.len(),
                black@ == g.unrevealed_of_colour(next_to@.take(k as int), true),
                white@ == g.unrevealed_of_colour(next_to@.take(k as int), false),
                black_mines == g.flagged_of_colour(next_to@.take(k as int), true),
                white_mines == g.flagged_of_colour(next_to@.take(k as int), false),
                black_mines + white_mines <= k,
        {
            let i = next_to[k];
            proof {
                let before = next_to@.take(k as int);
                assert(next_to@.take(k + 1) =~= before.push(i));
                before.lemma_filter_push(i, g.unrevealed_of_colour_pred(true));
                before.lemma_filter_push(i, g.unrevealed_of_colour_pred(false));
                before.lemma_filter_push(i, g.flagged_of_colour_pred(true));
                before.lemma_filter_push(i, g.flagged_of_colour_pred(false));
            }
            match self.rows[i] {
                MinesweeperCell::Empty => {
                    if is_square_id_black(i, self.size) {
                        black.push(i);
                    } else {
                        white.push(i);
                    }
                },
                MinesweeperCell::Mine => {
                    if is_square_id_black(i, self.size) {
                        black_mines = black_mines + 1;
                    } else {
                        white_mines = white_mines + 1;
                    }
                },
                _ => {},
            }
        }
        assert(next_to@.take(next_to@.len() as int) =~= next_to@);
        (black, white, black_mines, white_mines)
    }
}

/// A list that got the cell at an offset, where there is one, is the list with the
/// cell at the offset after it.
proof fn lemma_pushed(g: Grid, index: int, before: Seq<usize>, after: Seq<usize>, dr: int, dc: int)
    requires
        after == if g.has_offset(index, dr, dc) {
            before.push((index + dr * g.side + dc) as usize)
        } else {
            before
        },
    ensures
        after == before + g.offset_cell(index, dr, dc),
{
    assert(after =~= before + g.offset_cell(index, dr, dc));
}

/// How far the cells round a position are from the grid's first and last index.
proof fn lemma_reach(side: int, index: int)
    requires
        0 <= side,
        0 <= index < side * side,
    ensures
        index / side >= 1 ==> index >= side,
        index / side >= 2 ==> index >= side + side,
        index / side + 1 < side ==> index + side < side * side,
        index / side + 2 < side ==> index + side + side < side * side,
        index - index % side + side <= side * side,
{
    lemma_row_col(side, index);
    let r = index / side;
    let c = index % side;
    assert(r >= 1 ==> r * side >= side) by (nonlinear_arith)
        requires
            side > 0,
    ;
    assert(r >= 2 ==> r * side >= side + side) by (nonlinear_arith)
        requires
            side > 0,
    ;
    assert(r + 1 < side ==> r * side + side + side <= side * side) by (nonlinear_arith)
        requires
            side > 0,
    ;
    assert(r + 2 < side ==> r * side + side + side + side <= side * side) by (nonlinear_arith)
        requires
            side > 0,
    ;
    assert(r * side + side <= side * side) by (nonlinear_arith)
        requires
            0 <= r < side,
    ;
}

/// Every index of a board, in ascending order.
pub fn all_cells(board: &Board) -> (cells: Vec<usize>)
    requires
        board@.area() <= usize::MAX,
    ensures
        cells@ == board@.all_indices(),
{
    let n = board.size * board.size;
    let mut cells: Vec<usize> = Vec::new();
    for i in 0..n
        invariant
            n == board@.area(),
            cells@.len() == i,
            forall|j: int| 0 <= j < i ==> cells@[j] == j,
    {
        cells.push(i);
    }
    assert(cells@ =~= board@.all_indices());
    cells
}

/// The number of unrevealed cells of a board.
pub fn cells_left(board: &Board) -> (left: usize)
    requires
        board@.complete(),
    ensures
        left == board@.unrevealed_among(board@.all_indices()).len(),
{
    let cell_states = board.rows.len();
    let all = all_cells(board);
    let (empties, _) = board.empty_and_mine_count(&all);
    empties.len()
}

} // verus!
