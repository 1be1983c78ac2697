//! The mathematical model of a board: a square grid of cell states, the three
//! neighbour topologies, the checkerboard colouring and the counting queries.

use vstd::prelude::*;

verus! {

/// The state of one grid position.
#[derive(Copy, Clone, Debug, PartialEq, Eq, Structural)]
pub enum MinesweeperCell {
    /// A revealed clue.
    Number(usize),
    /// An unrevealed cell, the only kind a deduction is made about.
    Empty,
    /// A player's annotation; no solver reads it.
    Question,
    /// A cell flagged as a mine.
    Mine,
}

/// Which cells count as neighbours of a cell.
#[derive(Copy, Clone, Debug, PartialEq, Eq, Structural)]
pub enum NextToPolicy {
    /// The up to eight cells one step away in any direction.
    EightAround,
    /// The orthogonal cells one and two steps away.
    XScape,
    /// The up to four orthogonal cells one step away.
    XSmall,
}

/// A square grid in row-major order: `cells[row * side + col]`.
pub struct Grid {
    pub side: int,
    pub cells: Seq<MinesweeperCell>,
}

impl Grid {
    /// The number of positions of the grid.
    pub open spec fn area(self) -> int {
        self.side * self.side
    }

    /// `index` names a position of the grid.
    pub open spec fn in_range(self, index: int) -> bool {
        0 <= index < self.area()
    }

    /// The grid holds a state for each of its positions and nothing else.
    pub open spec fn complete(self) -> bool {
        self.side >= 0 && self.cells.len() == self.area()
    }

    pub open spec fn row(self, index: int) -> int {
        index / self.side
    }

    pub open spec fn col(self, index: int) -> int {
        index % self.side
    }

    /// The cell `dr` rows below and `dc` columns to the right of `index` lies on the grid.
    pub open spec fn has_offset(self, index: int, dr: int, dc: int) -> bool {
        &&& 0 <= self.row(index) + dr < self.side
        &&& 0 <= self.col(index) + dc < self.side
    }

    /// The cell at an offset from `index`, as a sequence of one element, or of none
    /// where the offset leaves the grid. Offsets never wrap round a row's end.
    pub open spec fn offset_cell(self, index: int, dr: int, dc: int) -> Seq<usize> {
        if self.has_offset(index, dr, dc) {
            seq![(index + dr * self.side + dc) as usize]
        } else {
            Seq::empty()
        }
    }

    /// The neighbours one step away in any of the eight directions, row above first,
    /// within a row from right to left.
    pub open spec fn eight_around(self, index: int) -> Seq<usize> {
        self.offset_cell(index, -1, 1) + self.offset_cell(index, -1, 0) + self.offset_cell(
            index,
            -1,
            -1,
        ) + self.offset_cell(index, 0, 1) + self.offset_cell(index, 0, -1) + self.offset_cell(
            index,
            1,
            1,
        ) + self.offset_cell(index, 1, 0) + self.offset_cell(index, 1, -1)
    }

    /// The orthogonal neighbours one and two steps away: up, right, left, down, the
    /// nearer cell of a direction before the farther.
    pub open spec fn cross_scape(self, index: int) -> Seq<usize> {
        self.offset_cell(index, -1, 0) + self.offset_cell(index, -2, 0) + self.offset_cell(
            index,
            0,
            1,
        ) + self.offset_cell(index, 0, 2) + self.offset_cell(index, 0, -1) + self.offset_cell(
            index,
            0,
            -2,
        ) + self.offset_cell(index, 1, 0) + self.offset_cell(index, 2, 0)
    }

    /// The orthogonal neighbours one step away: up, right, left, down.
    pub open spec fn small_cross(self, index: int) -> Seq<usize> {
        self.offset_cell(index, -1, 0) + self.offset_cell(index, 0, 1) + self.offset_cell(
            index,
            0,
            -1,
        ) + self.offset_cell(index, 1, 0)
    }

    /// The neighbours of `index` under a policy.
    pub open spec fn next_to(self, index: int, policy: NextToPolicy) -> Seq<usize> {
        match policy {
            NextToPolicy::EightAround => self.eight_around(index),
            NextToPolicy::XScape => self.cross_scape(index),
            NextToPolicy::XSmall => self.small_cross(index),
        }
    }

    /// `other` is the cell of the grid `dr` rows below and `dc` columns to the right
    /// of `index`.
    pub open spec fn at_offset(self, index: int, other: int, dr: int, dc: int) -> bool {
        &&& self.in_range(other)
        &&& self.row(other) == self.row(index) + dr
        &&& self.col(other) == self.col(index) + dc
    }

    /// `other` is another cell of the grid at most `reach` rows and `reach` columns
    /// away from `index`.
    pub open spec fn within(self, index: int, other: int, reach: int) -> bool {
        &&& self.in_range(other)
        &&& other != index
        &&& -reach <= self.row(other) - self.row(index) <= reach
        &&& -reach <= self.col(other) - self.col(index) <= reach
    }

    /// `other` lies in the row or in the column of `index`.
    pub open spec fn orthogonal(self, index: int, other: int) -> bool {
        self.row(other) == self.row(index) || self.col(other) == self.col(index)
    }

    /// What a policy's neighbourhood is, said without an order.
    pub open spec fn is_next_to(self, index: int, other: int, policy: NextToPolicy) -> bool {
        match policy {
            NextToPolicy::EightAround => self.within(index, other, 1),
            NextToPolicy::XScape => self.within(index, other, 2) && self.orthogonal(index, other),
            NextToPolicy::XSmall => self.within(index, other, 1) && self.orthogonal(index, other),
        }
    }

    pub open spec fn is_unrevealed(self, index: int) -> bool {
        0 <= index < self.cells.len() && self.cells[index] is Empty
    }

    pub open spec fn is_flagged(self, index: int) -> bool {
        0 <= index < self.cells.len() && self.cells[index] is Mine
    }

    /// The colour of a cell. On a grid of odd side the cells of even index are black;
    /// on one of even side those whose row and column have the same parity.
    pub open spec fn is_black(self, index: int) -> bool {
        if self.side % 2 == 1 {
            index % 2 == 0
        } else {
            (self.row(index) + self.col(index)) % 2 == 0
        }
    }

    pub open spec fn unrevealed_pred(self) -> spec_fn(usize) -> bool {
        |i: usize| self.is_unrevealed(i as int)
    }

    pub open spec fn flagged_pred(self) -> spec_fn(usize) -> bool {
        |i: usize| self.is_flagged(i as int)
    }

    pub open spec fn unrevealed_of_colour_pred(self, black: bool) -> spec_fn(usize) -> bool {
        |i: usize| self.is_unrevealed(i as int) && self.is_black(i as int) == black
    }

    pub open spec fn flagged_of_colour_pred(self, black: bool) -> spec_fn(usize) -> bool {
        |i: usize| self.is_flagged(i as int) && self.is_black(i as int) == black
    }

    /// The unrevealed cells among `indices`, in their order.
    pub open spec fn unrevealed_among(self, indices: Seq<usize>) -> Seq<usize> {
        indices.filter(self.unrevealed_pred())
    }

    /// How many of `indices` are flagged.
    pub open spec fn flagged_among(self, indices: Seq<usize>) -> nat {
        indices.filter(self.flagged_pred()).len()
    }

    /// The unrevealed cells of one colour among `indices`, in their order.
    pub open spec fn unrevealed_of_colour(self, indices: Seq<usize>, black: bool) -> Seq<usize> {
        indices.filter(self.unrevealed_of_colour_pred(black))
    }

    /// How many of `indices` are flagged cells of one colour.
    pub open spec fn flagged_of_colour(self, indices: Seq<usize>, black: bool) -> nat {
        indices.filter(self.flagged_of_colour_pred(black)).len()
    }

    /// Every position of the grid, in ascending order.
    pub open spec fn all_indices(self) -> Seq<usize> {
        Seq::new(self.area() as nat, |i: int| i as usize)
    }

    /// Into how many rows of `side` cells the cell states are cut.
    pub open spec fn chunk_count(self) -> int {
        (self.cells.len() + self.side - 1) / self.side
    }

    /// The `k`-th row of cell states; the last is shorter where the cells do not
    /// fill it.
    pub open spec fn chunk(self, k: int) -> Seq<MinesweeperCell> {
        let end = if (k + 1) * self.side <= self.cells.len() {
            (k + 1) * self.side
        } else {
            self.cells.len() as int
        };
        self.cells.subrange(k * self.side, end)
    }

    /// The four cells of the 2x2 block whose top left corner is at column `x`, row `y`.
    pub open spec fn block(self, x: int, y: int) -> Seq<usize> {
        seq![
            (x + y * self.side) as usize,
            (x + y * self.side + 1) as usize,
            (x + (y + 1) * self.side) as usize,
            (x + (y + 1) * self.side + 1) as usize,
        ]
    }

    /// The cells of row `y`, from left to right.
    pub open spec fn row_cells(self, y: int) -> Seq<usize> {
        Seq::new(self.side as nat, |x: int| (x + y * self.side) as usize)
    }

    /// The cells of column `x`, from top to bottom.
    pub open spec fn column_cells(self, x: int) -> Seq<usize> {
        Seq::new(self.side as nat, |y: int| (y * self.side + x) as usize)
    }
}

/// Row and column of a position, and how far the grid reaches round it.
pub proof fn lemma_row_col(side: int, index: int)
    requires
        0 <= side,
        0 <= index < side * side,
    ensures
        side > 0,
        0 <= index / side < side,
        0 <= index % side < side,
        index == (index / side) * side + index % side,
{
    assert(side > 0) by (nonlinear_arith)
        requires
            0 <= side,
            0 <= index < side * side,
    ;
    vstd::arithmetic::div_mod::lemma_fundamental_div_mod(index, side);
    assert(index == side * (index / side) + index % side);
    assert(side * (index / side) == (index / side) * side) by (nonlinear_arith);
    assert(0 <= index % side < side);
    assert(0 <= index / side < side) by (nonlinear_arith)
        requires
            0 <= index < side * side,
            side > 0,
            index == (index / side) * side + index % side,
            0 <= index % side < side,
    ;
}

/// A position is fixed by its row and column.
pub proof fn lemma_position(side: int, row: int, col: int)
    requires
        0 <= row < side,
        0 <= col < side,
    ensures
        0 <= row * side + col < side * side,
        (row * side + col) / side == row,
        (row * side + col) % side == col,
{
    vstd::arithmetic::div_mod::lemma_fundamental_div_mod_converse(row * side + col, side, row, col);
    assert(0 <= row * side + col < side * side) by (nonlinear_arith)
        requires
            0 <= row < side,
            0 <= col < side,
    ;
}

/// The cell at an offset that stays on the grid has the row and column that the
/// offset names.
pub proof fn lemma_offset_position(grid: Grid, index: int, dr: int, dc: int)
    requires
        grid.side >= 0,
        grid.in_range(index),
        grid.has_offset(index, dr, dc),
    ensures
        grid.in_range(index + dr * grid.side + dc),
        grid.row(index + dr * grid.side + dc) == grid.row(index) + dr,
        grid.col(index + dr * grid.side + dc) == grid.col(index) + dc,
{
    lemma_row_col(grid.side, index);
    let r = grid.row(index) + dr;
    let c = grid.col(index) + dc;
    lemma_position(grid.side, r, c);
    assert(r * grid.side + c == index + dr * grid.side + dc) by (nonlinear_arith)
        requires
            r == index / grid.side + dr,
            c == index % grid.side + dc,
            index == (index / grid.side) * grid.side + index % grid.side,
    ;
}

/// On a grid of odd side the two colourings agree: the index is even exactly
/// where row and column have the same parity.
pub proof fn lemma_colourings_agree(grid: Grid, index: int)
    requires
        grid.side >= 0,
        grid.in_range(index),
        grid.side % 2 == 1,
    ensures
        grid.is_black(index) <==> (grid.row(index) + grid.col(index)) % 2 == 0,
{
    lemma_row_col(grid.side, index);
    let r = grid.row(index);
    let c = grid.col(index);
    let s = grid.side;
    let h = s / 2;
    assert(s == 2 * h + 1);
    assert(r * s == 2 * (r * h) + r) by (nonlinear_arith)
        requires
            s == 2 * h + 1,
    ;
    assert(index == 2 * (r * h) + (r + c));
}

/// The cell at an offset is the one cell with that row and column.
pub proof fn lemma_at_offset(grid: Grid, index: int, other: int, dr: int, dc: int)
    requires
        grid.side >= 0,
        grid.in_range(index),
    ensures
        grid.at_offset(index, other, dr, dc) <==> grid.has_offset(index, dr, dc) && other == index
            + dr * grid.side + dc,
{
    lemma_row_col(grid.side, index);
    if grid.has_offset(index, dr, dc) && other == index + dr * grid.side + dc {
        lemma_offset_position(grid, index, dr, dc);
    }
    if grid.at_offset(index, other, dr, dc) {
        lemma_row_col(grid.side, other);
        let s = grid.side;
        let r = index / s;
        assert((r + dr) * s == r * s + dr * s) by (nonlinear_arith);
    }
}

/// Appending the cell at one more offset keeps a neighbour list free of
/// repetitions, where no cell of the list lies at that offset.
proof fn lemma_append_offset(grid: Grid, index: int, prefix: Seq<usize>, dr: int, dc: int)
    requires
        grid.side >= 0,
        grid.in_range(index),
        grid.area() <= usize::MAX,
        prefix.no_duplicates(),
        forall|j: usize| prefix.contains(j) ==> !grid.at_offset(index, j as int, dr, dc),
    ensures
        (prefix + grid.offset_cell(index, dr, dc)).no_duplicates(),
        forall|j: usize| #[trigger]
            (prefix + grid.offset_cell(index, dr, dc)).contains(j) <==> prefix.contains(j)
                || grid.at_offset(index, j as int, dr, dc),
{
    let cell = grid.offset_cell(index, dr, dc);
    let joined = prefix + cell;
    assert forall|j: usize| #[trigger] joined.contains(j) <==> prefix.contains(j) || grid.at_offset(
        index,
        j as int,
        dr,
        dc,
    ) by {
        lemma_at_offset(grid, index, j as int, dr, dc);
        if grid.has_offset(index, dr, dc) {
            lemma_offset_position(grid, index, dr, dc);
            assert(cell.len() == 1);
            assert(joined[prefix.len() as int] == cell[0]);
        }
        if prefix.contains(j) {
            let k = choose|k: int| 0 <= k < prefix.len() && prefix[k] == j;
            assert(joined[k] == j);
        }
        if joined.contains(j) {
            let k = choose|k: int| 0 <= k < joined.len() && joined[k] == j;
            if k < prefix.len() {
                assert(prefix[k] == j);
            } else {
                assert(cell[k - prefix.len()] == j);
            }
        }
    }
    assert forall|a: int, b: int| 0 <= a < joined.len() && 0 <= b < joined.len() && a != b implies joined[a]
        != joined[b] by {
        if a >= prefix.len() || b >= prefix.len() {
            lemma_offset_position(grid, index, dr, dc);
            let low = if a < b {
                a
            } else {
                b
            };
            assert(prefix.contains(prefix[low]));
            lemma_at_offset(grid, index, prefix[low] as int, dr, dc);
        }
    }
}

/// A policy's neighbour list holds each neighbouring cell once, and no other cell.
pub proof fn lemma_next_to(grid: Grid, index: int, policy: NextToPolicy)
    requires
        grid.side >= 0,
        grid.in_range(index),
        grid.area() <= usize::MAX,
    ensures
        grid.next_to(index, policy).no_duplicates(),
        forall|j: usize| #[trigger]
            grid.next_to(index, policy).contains(j) <==> grid.is_next_to(index, j as int, policy),
{
    lemma_row_col(grid.side, index);
    let e = Seq::<usize>::empty();
    match policy {
        NextToPolicy::EightAround => {
            let p1 = e + grid.offset_cell(index, -1, 1);
            lemma_append_offset(grid, index, e, -1, 1);
            assert(p1 =~= grid.offset_cell(index, -1, 1));
            let p2 = p1 + grid.offset_cell(index, -1, 0);
            lemma_append_offset(grid, index, p1, -1, 0);
            let p3 = p2 + grid.offset_cell(index, -1, -1);
            lemma_append_offset(grid, index, p2, -1, -1);
            let p4 = p3 + grid.offset_cell(index, 0, 1);
            lemma_append_offset(grid, index, p3, 0, 1);
            let p5 = p4 + grid.offset_cell(index, 0, -1);
            lemma_append_offset(grid, index, p4, 0, -1);
            let p6 = p5 + grid.offset_cell(index, 1, 1);
            lemma_append_offset(grid, index, p5, 1, 1);
            let p7 = p6 + grid.offset_cell(index, 1, 0);
            lemma_append_offset(grid, index, p6, 1, 0);
            let p8 = p7 + grid.offset_cell(index, 1, -1);
            lemma_append_offset(grid, index, p7, 1, -1);
            assert(p8 == grid.eight_around(index));
            assert forall|j: usize| #[trigger]
                p8.contains(j) <==> grid.is_next_to(index, j as int, policy) by {
                if grid.in_range(j as int) {
                    lemma_row_col(grid.side, j as int);
                }
            }
        },
        NextToPolicy::XScape => {
            let p1 = e + grid.offset_cell(index, -1, 0);
            lemma_append_offset(grid, index, e, -1, 0);
            assert(p1 =~= grid.offset_cell(index, -1, 0));
            let p2 = p1 + grid.offset_cell(index, -2, 0);
            lemma_append_offset(grid, index, p1, -2, 0);
            let p3 = p2 + grid.offset_cell(index, 0, 1);
            lemma_append_offset(grid, index, p2, 0, 1);
            let p4 = p3 + grid.offset_cell(index, 0, 2);
            lemma_append_offset(grid, index, p3, 0, 2);
            let p5 = p4 + grid.offset_cell(index, 0, -1);
            lemma_append_offset(grid, index, p4, 0, -1);
            let p6 = p5 + grid.offset_cell(index, 0, -2);
            lemma_append_offset(grid, index, p5, 0, -2);
            let p7 = p6 + grid.offset_cell(index, 1, 0);
            lemma_append_offset(grid, index, p6, 1, 0);
            let p8 = p7 + grid.offset_cell(index, 2, 0);
            lemma_append_offset(grid, index, p7, 2, 0);
            assert(p8 == grid.cross_scape(index));
            assert forall|j: usize| #[trigger]
                p8.contains(j) <==> grid.is_next_to(index, j as int, policy) by {
                if grid.in_range(j as int) {
                    lemma_row_col(grid.side, j as int);
                }
            }
        },
        NextToPolicy::XSmall => {
            let p1 = e + grid.offset_cell(index, -1, 0);
            lemma_append_offset(grid, index, e, -1, 0);
            assert(p1 =~= grid.offset_cell(index, -1, 0));
            let p2 = p1 + grid.offset_cell(index, 0, 1);
            lemma_append_offset(grid, index, p1, 0, 1);
            let p3 = p2 + grid.offset_cell(index, 0, -1);
            lemma_append_offset(grid, index, p2, 0, -1);
            let p4 = p3 + grid.offset_cell(index, 1, 0);
            lemma_append_offset(grid, index, p3, 1, 0);
            assert(p4 == grid.small_cross(index));
            assert forall|j: usize| #[trigger]
                p4.contains(j) <==> grid.is_next_to(index, j as int, policy) by {
                if grid.in_range(j as int) {
                    lemma_row_col(grid.side, j as int);
                }
            }
        },
    }
}

/// The neighbours of a cell are cells of the grid, each listed once, eight at most.
pub proof fn lemma_around(grid: Grid, index: int, policy: NextToPolicy)
    requires
        grid.side >= 0,
        grid.in_range(index),
        grid.area() <= usize::MAX,
    ensures
        grid.next_to(index, policy).no_duplicates(),
        grid.next_to(index, policy).len() <= 8,
        forall|k: int|
            0 <= k < grid.next_to(index, policy).len() ==> grid.in_range(
                #[trigger] grid.next_to(index, policy)[k] as int,
            ),
{
    lemma_next_to(grid, index, policy);
    let around = grid.next_to(index, policy);
    assert forall|k: int| 0 <= k < around.len() implies grid.in_range(#[trigger] around[k] as int) by {
        assert(around.contains(around[k]));
    }
}

/// The four cells of a 2x2 block are cells of the grid and differ.
pub proof fn lemma_block_cells(grid: Grid, x: int, y: int)
    requires
        grid.area() <= usize::MAX,
        0 <= x < grid.side - 1,
        0 <= y < grid.side - 1,
    ensures
        x + (y + 1) * grid.side + 1 < grid.area(),
        (y + 1) * grid.side == y * grid.side + grid.side,
        0 <= y * grid.side,
        grid.block(x, y).no_duplicates(),
        forall|k: int| 0 <= k < 4 ==> grid.in_range(#[trigger] grid.block(x, y)[k] as int),
{
    let s = grid.side;
    assert((y + 1) * s == y * s + s) by (nonlinear_arith);
    assert(0 <= y * s <= (s - 2) * s) by (nonlinear_arith)
        requires
            0 <= y <= s - 2,
            s >= 2,
    ;
    assert((s - 2) * s == s * s - 2 * s) by (nonlinear_arith);
}

/// The cells of a row and of a column are cells of the grid and differ.
pub proof fn lemma_line_cells(grid: Grid, i: int)
    requires
        grid.area() <= usize::MAX,
        0 <= i < grid.side,
    ensures
        grid.row_cells(i).no_duplicates(),
        grid.column_cells(i).no_duplicates(),
        forall|k: int|
            0 <= k < grid.side ==> grid.in_range(#[trigger] grid.row_cells(i)[k] as int)
                && grid.row_cells(i)[k] == k + i * grid.side,
        forall|k: int|
            0 <= k < grid.side ==> grid.in_range(#[trigger] grid.column_cells(i)[k] as int)
                && grid.column_cells(i)[k] == k * grid.side + i,
{
    let s = grid.side;
    assert forall|k: int| 0 <= k < s implies grid.in_range(#[trigger] grid.row_cells(i)[k] as int)
        && grid.row_cells(i)[k] == k + i * s by {
        lemma_position(s, i, k);
    }
    assert forall|k: int| 0 <= k < s implies grid.in_range(
        #[trigger] grid.column_cells(i)[k] as int,
    ) && grid.column_cells(i)[k] == k * s + i by {
        lemma_position(s, k, i);
    }
    assert forall|a: int, b: int| 0 <= a < s && 0 <= b < s && a != b implies grid.column_cells(i)[a]
        != grid.column_cells(i)[b] by {
        lemma_position(s, a, i);
        lemma_position(s, b, i);
    }
}

} // verus!
