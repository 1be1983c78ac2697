//! The constraint model of the exact solver: what a board says of its unrevealed
//! cells, as a list of typed constraints over 0/1 "is a mine" indicators.

use crate::board::{all_cells, Board, BoardIndexable};
use crate::generation::{blocks_per_line, standard_mines, total_mines, with_zone, with_zones};
use crate::grid::{
    lemma_around, lemma_block_cells, lemma_line_cells, Grid, MinesweeperCell, NextToPolicy,
};
use crate::rules::SolveError;
use crate::seqs::lemma_filter_members;
use vstd::prelude::*;

verus! {

/// What a constraint asks of the mines among its cells.
#[derive(Copy, Clone, Debug, PartialEq, Eq, Structural)]
pub enum ConstraintKind {
    /// The cells hold exactly `value` mines.
    Equality,
    /// The cells hold at least `value` mines.
    Minimum,
    /// The mines of the first cells, and twice the mines of the second, make `value`.
    BlackWhiteEquality,
    /// The cells hold one mine more or one mine less than `value`.
    OffByOne,
    /// The mines of the first cells less the mines of the second, with the bias
    /// added, make `value` or its negative. The bias is the number of flagged first
    /// cells less the number of flagged second cells round the clue.
    DifferenceOfColors(i64),
}

/// One constraint as the contracts speak of it.
pub struct ConstraintView {
    pub kind: ConstraintKind,
    pub value: usize,
    pub cells: Seq<usize>,
    pub cells2: Seq<usize>,
}

/// One constraint.
#[derive(Clone, Debug)]
pub struct Constraint {
    pub kind: ConstraintKind,
    pub value: usize,
    pub cells: Vec<usize>,
    pub cells2: Vec<usize>,
}

impl View for Constraint {
    type V = ConstraintView;

    open spec fn view(&self) -> ConstraintView {
        ConstraintView {
            kind: self.kind,
            value: self.value,
            cells: self.cells@,
            cells2: self.cells2@,
        }
    }
}

/// The views of a list of constraints.
pub open spec fn constraint_views(constraints: Seq<Constraint>) -> Seq<ConstraintView> {
    constraints.map_values(|c: Constraint| c@)
}

/// The two lists hold unrevealed cells of the grid, and no cell twice.
#[verifier::opaque]
pub open spec fn cells_fit(cells: Seq<usize>, cells2: Seq<usize>, grid: Grid) -> bool {
    &&& (cells + cells2).no_duplicates()
    &&& forall|k: int|
        0 <= k < cells.len() ==> grid.in_range(#[trigger] cells[k] as int) && grid.is_unrevealed(
            cells[k] as int,
        )
    &&& forall|k: int|
        0 <= k < cells2.len() ==> grid.in_range(#[trigger] cells2[k] as int) && grid.is_unrevealed(
            cells2[k] as int,
        )
}

impl ConstraintView {
    /// The constraint speaks of unrevealed cells of the grid, of each once.
    pub open spec fn fits(self, grid: Grid) -> bool {
        cells_fit(self.cells, self.cells2, grid)
    }
}

/// Every constraint of a list fits the grid.
pub open spec fn all_fit(constraints: Seq<ConstraintView>, grid: Grid) -> bool {
    forall|k: int| 0 <= k < constraints.len() ==> (#[trigger] constraints[k]).fits(grid)
}

/// A constraint set as the contracts speak of it.
pub struct ConstraintSetView {
    pub cells: Seq<usize>,
    pub constraints: Seq<ConstraintView>,
    pub side: int,
}

impl ConstraintSetView {
    /// The variables are listed once each, and the constraints speak of variables
    /// only, each constraint of each once.
    pub open spec fn wf(self) -> bool {
        &&& self.cells.no_duplicates()
        &&& forall|k: int|
            0 <= k < self.constraints.len() ==> {
                let c = #[trigger] self.constraints[k];
                &&& (c.cells + c.cells2).no_duplicates()
                &&& forall|j: int| 0 <= j < c.cells.len() ==> self.cells.contains(#[trigger] c.cells[j])
                &&& forall|j: int|
                    0 <= j < c.cells2.len() ==> self.cells.contains(#[trigger] c.cells2[j])
            }
    }

    /// The set with the constraints of another set after its own.
    pub open spec fn join(self, other: ConstraintSetView) -> ConstraintSetView {
        ConstraintSetView {
            cells: self.cells,
            constraints: self.constraints + other.constraints,
            side: self.side,
        }
    }
}

/// The unrevealed cells of a board, which are the variables, with a list of
/// constraints over them.
#[derive(Debug)]
pub struct ConstraintSet {
    cells: Vec<usize>,
    constraints: Vec<Constraint>,
    boardsize: usize,
}

impl View for ConstraintSet {
    type V = ConstraintSetView;

    closed spec fn view(&self) -> ConstraintSetView {
        ConstraintSetView {
            cells: self.cells@,
            constraints: constraint_views(self.constraints@),
            side: self.boardsize as int,
        }
    }
}

impl ConstraintSet {
    #[verifier::type_invariant]
    spec fn well_formed(self) -> bool {
        self@.wf()
    }

    /// The variables: the unrevealed cells, in ascending order.
    pub fn cells(&self) -> (cells: &Vec<usize>)
        ensures
            cells@ == self@.cells,
            self@.wf(),
    {
        proof {
            use_type_invariant(self);
        }
        &self.cells
    }

    /// The constraints, in the order in which they were made.
    pub fn constraints(&self) -> (constraints: &Vec<Constraint>)
        ensures
            constraint_views(constraints@) == self@.constraints,
    {
        &self.constraints
    }

    /// The side of the board that the set was made for.
    pub fn boardsize(&self) -> (size: usize)
        ensures
            size == self@.side,
    {
        self.boardsize
    }
}

/// The family of constraints that the clues of a game give.
#[derive(Copy, Clone, Debug, PartialEq, Eq, Structural)]
pub enum ClueFamily {
    /// A clue counts the mines among its neighbours under a policy.
    Plain(NextToPolicy),
    /// A clue counts the mines round it, those on white cells twice.
    Multiple,
    /// A clue is one more or one less than the mines round it.
    Liar,
    /// A clue is the difference between the mines on black and on white cells.
    Negation,
}

/// Which table gives the number of mines of a board.
#[derive(Copy, Clone, Debug, PartialEq, Eq, Structural)]
pub enum MineTable {
    Standard,
    Balanced,
}

/// One part of a constraint set.
#[derive(Copy, Clone, Debug, PartialEq, Eq, Structural)]
pub enum Part {
    /// The constraints of the clues.
    Clues(ClueFamily),
    /// The constraint of the total number of mines.
    Minecount(MineTable),
    /// A mine in every 2x2 block.
    Quads,
    /// The same number of mines in every row and in every column.
    Lines,
}

/// The number of mines on a board with row and column quotas.
pub open spec fn balanced_mines(side: int) -> Option<usize> {
    if side == 5 {
        Some(10)
    } else if side == 6 {
        Some(12)
    } else if side == 7 {
        Some(21)
    } else if side == 8 {
        Some(24)
    } else {
        None
    }
}

/// The number of mines in each row and in each column of such a board.
pub open spec fn line_mines(side: int) -> Option<usize> {
    if side == 5 || side == 6 {
        Some(2)
    } else if side == 7 || side == 8 {
        Some(3)
    } else {
        None
    }
}

/// The number of mines that a table gives for a side.
pub open spec fn table_mines(table: MineTable, side: int) -> Option<usize> {
    match table {
        MineTable::Standard => standard_mines(side),
        MineTable::Balanced => balanced_mines(side),
    }
}

/// The number of mines of a board with row and column quotas; none for a side that
/// is not supported.
pub fn total_mines_balanced(size: usize) -> (total: Option<usize>)
    ensures
        total == balanced_mines(size as int),
{
    match size {
        5 => Some(10),
        6 => Some(12),
        7 => Some(21),
        8 => Some(24),
        _ => None,
    }
}

/// The number of mines in each row and column of a board with quotas; none for a
/// side that is not supported.
pub fn mines_per_line(size: usize) -> (quota: Option<usize>)
    ensures
        quota == line_mines(size as int),
{
    match size {
        5 => Some(2),
        6 => Some(2),
        7 => Some(3),
        8 => Some(3),
        _ => None,
    }
}

/// An equality over the unrevealed cells among `cells`: they hold `total` mines
/// less the flagged cells among `cells`. A fault where more are flagged.
pub open spec fn quota_constraint(grid: Grid, cells: Seq<usize>, total: usize) -> Result<
    Option<ConstraintView>,
    SolveError,
> {
    let flagged = grid.flagged_among(cells);
    if flagged > total {
        Err(SolveError::TooManyFlags)
    } else {
        Ok(
            Some(
                ConstraintView {
                    kind: ConstraintKind::Equality,
                    value: (total - flagged) as usize,
                    cells: grid.unrevealed_among(cells),
                    cells2: Seq::empty(),
                },
            ),
        )
    }
}

/// The constraint of a plain clue: nothing without an unrevealed neighbour.
pub open spec fn plain_constraint(grid: Grid, index: int, policy: NextToPolicy) -> Result<
    Option<ConstraintView>,
    SolveError,
> {
    match grid.cells[index] {
        MinesweeperCell::Number(x) => {
            let around = grid.next_to(index, policy);
            if grid.unrevealed_among(around).len() == 0 {
                Ok(None)
            } else {
                quota_constraint(grid, around, x)
            }
        },
        _ => Ok(None),
    }
}

/// The constraint of a clue that counts mines on white cells twice.
pub open spec fn multiple_constraint(grid: Grid, index: int) -> Result<
    Option<ConstraintView>,
    SolveError,
> {
    match grid.cells[index] {
        MinesweeperCell::Number(x) => {
            let around = grid.eight_around(index);
            let black = grid.unrevealed_of_colour(around, true);
            let white = grid.unrevealed_of_colour(around, false);
            let flagged = grid.flagged_of_colour(around, true) + 2 * grid.flagged_of_colour(
                around,
                false,
            );
            if black.len() + white.len() == 0 {
                Ok(None)
            } else if flagged > x {
                Err(SolveError::TooManyFlags)
            } else {
                Ok(
                    Some(
                        ConstraintView {
                            kind: ConstraintKind::BlackWhiteEquality,
                            value: (x - flagged) as usize,
                            cells: black,
                            cells2: white,
                        },
                    ),
                )
            }
        },
        _ => Ok(None),
    }
}

/// The constraint of a clue that is off by one. A clue of zero stands for one
/// mine; a clue with one flag too many leaves no mine; any other clue stands for
/// one mine more or less.
pub open spec fn liar_constraint(grid: Grid, index: int) -> Result<Option<ConstraintView>, SolveError> {
    match grid.cells[index] {
        MinesweeperCell::Number(x) => {
            let around = grid.eight_around(index);
            let open = grid.unrevealed_among(around);
            let flagged = grid.flagged_among(around);
            if open.len() == 0 {
                Ok(None)
            } else if x == 0 {
                quota_constraint(grid, around, 1)
            } else if flagged > x {
                Ok(
                    Some(
                        ConstraintView {
                            kind: ConstraintKind::Equality,
                            value: 0,
                            cells: open,
                            cells2: Seq::empty(),
                        },
                    ),
                )
            } else {
                Ok(
                    Some(
                        ConstraintView {
                            kind: ConstraintKind::OffByOne,
                            value: (x - flagged) as usize,
                            cells: open,
                            cells2: Seq::empty(),
                        },
                    ),
                )
            }
        },
        _ => Ok(None),
    }
}

/// The constraint of a clue that is a difference of colours.
pub open spec fn negation_constraint(grid: Grid, index: int) -> Result<
    Option<ConstraintView>,
    SolveError,
> {
    match grid.cells[index] {
        MinesweeperCell::Number(x) => {
            let around = grid.eight_around(index);
            let black = grid.unrevealed_of_colour(around, true);
            let white = grid.unrevealed_of_colour(around, false);
            let bias = grid.flagged_of_colour(around, true) - grid.flagged_of_colour(around, false);
            if black.len() + white.len() == 0 {
                Ok(None)
            } else {
                Ok(
                    Some(
                        ConstraintView {
                            kind: ConstraintKind::DifferenceOfColors(bias as i64),
                            value: x,
                            cells: black,
                            cells2: white,
                        },
                    ),
                )
            }
        },
        _ => Ok(None),
    }
}

/// The constraint that a family gives for one cell.
#[verifier::opaque]
pub open spec fn clue_constraint(family: ClueFamily, grid: Grid, index: int) -> Result<
    Option<ConstraintView>,
    SolveError,
> {
    match family {
        ClueFamily::Plain(policy) => plain_constraint(grid, index, policy),
        ClueFamily::Multiple => multiple_constraint(grid, index),
        ClueFamily::Liar => liar_constraint(grid, index),
        ClueFamily::Negation => negation_constraint(grid, index),
    }
}

/// The constraints that a family gives for the first `n` cells.
pub open spec fn clue_constraints(family: ClueFamily, grid: Grid, n: nat) -> Result<
    Seq<ConstraintView>,
    SolveError,
>
    decreases n,
{
    if n == 0 {
        Ok(Seq::empty())
    } else {
        with_zone(clue_constraints(family, grid, (n - 1) as nat), clue_constraint(family, grid, n - 1))
    }
}

/// The constraint of the total: the unrevealed cells hold the mines of the table
/// that are not flagged.
pub open spec fn minecount_constraints(table: MineTable, grid: Grid) -> Result<
    Seq<ConstraintView>,
    SolveError,
> {
    match table_mines(table, grid.side) {
        None => Err(SolveError::BadBoardSize),
        Some(total) => with_zone(
            Ok(Seq::empty()),
            quota_constraint(grid, grid.all_indices(), total),
        ),
    }
}

/// The constraint of a 2x2 block without a flag: it holds a mine.
pub open spec fn block_constraint(grid: Grid, x: int, y: int) -> Option<ConstraintView> {
    let cells = grid.block(x, y);
    if grid.flagged_among(cells) > 0 {
        None
    } else {
        Some(
            ConstraintView {
                kind: ConstraintKind::Minimum,
                value: 1,
                cells: grid.unrevealed_among(cells),
                cells2: Seq::empty(),
            },
        )
    }
}

/// The constraints of the first `rows` blocks whose left column is `x`.
pub open spec fn block_column_constraints(grid: Grid, x: int, rows: nat) -> Seq<ConstraintView>
    decreases rows,
{
    if rows == 0 {
        Seq::empty()
    } else {
        let above = block_column_constraints(grid, x, (rows - 1) as nat);
        match block_constraint(grid, x, rows - 1) {
            Some(c) => above.push(c),
            None => above,
        }
    }
}

/// The constraints of the blocks whose left column is one of the first `columns`.
pub open spec fn block_constraints(grid: Grid, columns: nat) -> Seq<ConstraintView>
    decreases columns,
{
    if columns == 0 {
        Seq::empty()
    } else {
        block_constraints(grid, (columns - 1) as nat) + block_column_constraints(
            grid,
            columns - 1,
            blocks_per_line(grid),
        )
    }
}

/// The quota constraints of the first `n` rows and columns: row 0, column 0, row 1,
/// column 1 and so on.
pub open spec fn line_constraints(grid: Grid, quota: usize, n: nat) -> Result<
    Seq<ConstraintView>,
    SolveError,
>
    decreases n,
{
    if n == 0 {
        Ok(Seq::empty())
    } else {
        with_zone(
            with_zone(
                line_constraints(grid, quota, (n - 1) as nat),
                quota_constraint(grid, grid.row_cells(n - 1), quota),
            ),
            quota_constraint(grid, grid.column_cells(n - 1), quota),
        )
    }
}

/// The constraints of one part.
pub open spec fn part_constraints(part: Part, grid: Grid) -> Result<Seq<ConstraintView>, SolveError> {
    match part {
        Part::Clues(family) => clue_constraints(family, grid, grid.area() as nat),
        Part::Minecount(table) => minecount_constraints(table, grid),
        Part::Quads => Ok(block_constraints(grid, blocks_per_line(grid))),
        Part::Lines => match line_mines(grid.side) {
            None => Err(SolveError::BadBoardSize),
            Some(quota) => line_constraints(grid, quota, grid.side as nat),
        },
    }
}

/// The constraints of the first `n` parts of a list, part by part.
pub open spec fn parts_constraints(parts: Seq<Part>, grid: Grid, n: nat) -> Result<
    Seq<ConstraintView>,
    SolveError,
>
    decreases n,
{
    if n == 0 {
        Ok(Seq::empty())
    } else {
        with_zones(parts_constraints(parts, grid, (n - 1) as nat), part_constraints(parts[n - 1], grid))
    }
}

/// The constraint set of a board for a list of parts: the variables are the
/// unrevealed cells, the constraints those of the parts in their order.
pub open spec fn constraint_set(parts: Seq<Part>, grid: Grid) -> Result<ConstraintSetView, SolveError> {
    match parts_constraints(parts, grid, parts.len()) {
        Err(e) => Err(e),
        Ok(constraints) => Ok(
            ConstraintSetView {
                cells: grid.unrevealed_among(grid.all_indices()),
                constraints,
                side: grid.side,
            },
        ),
    }
}

/// The set found is the set named, well formed, or the fault is the fault named.
pub open spec fn set_is(found: Result<ConstraintSet, SolveError>, named: Result<
    ConstraintSetView,
    SolveError,
>) -> bool {
    match (found, named) {
        (Ok(s), Ok(v)) => s@ == v && v.wf(),
        (Err(e), Err(f)) => e == f,
        _ => false,
    }
}

/// The constraint found fits the grid and is the one named, or the fault is the
/// fault named.
pub open spec fn constraint_is(
    found: Result<Option<Constraint>, SolveError>,
    named: Result<Option<ConstraintView>, SolveError>,
    grid: Grid,
) -> bool {
    match (found, named) {
        (Ok(Some(c)), Ok(Some(v))) => c@ == v && v.fits(grid),
        (Ok(None), Ok(None)) => true,
        (Err(e), Err(f)) => e == f,
        _ => false,
    }
}

/// A fault on the first cells is the fault on all.
pub proof fn lemma_clue_fault_stands(family: ClueFamily, grid: Grid, k: nat, n: nat)
    requires
        k <= n,
        clue_constraints(family, grid, k) is Err,
    ensures
        clue_constraints(family, grid, n) == clue_constraints(family, grid, k),
    decreases n,
{
    if k < n {
        lemma_clue_fault_stands(family, grid, k, (n - 1) as nat);
    }
}

/// A fault on the first lines is the fault on all.
pub proof fn lemma_line_fault_stands(grid: Grid, quota: usize, k: nat, n: nat)
    requires
        k <= n,
        line_constraints(grid, quota, k) is Err,
    ensures
        line_constraints(grid, quota, n) == line_constraints(grid, quota, k),
    decreases n,
{
    if k < n {
        lemma_line_fault_stands(grid, quota, k, (n - 1) as nat);
    }
}

/// A fault of the first parts is the fault of all.
pub proof fn lemma_part_fault_stands(parts: Seq<Part>, grid: Grid, k: nat, n: nat)
    requires
        k <= n,
        parts_constraints(parts, grid, k) is Err,
    ensures
        parts_constraints(parts, grid, n) == parts_constraints(parts, grid, k),
    decreases n,
{
    if k < n {
        lemma_part_fault_stands(parts, grid, k, (n - 1) as nat);
    }
}

/// The constraints of a list of parts followed by another are the constraints of
/// the one followed by those of the other.
pub proof fn lemma_parts_join(first: Seq<Part>, second: Seq<Part>, grid: Grid, n: nat)
    requires
        n <= second.len(),
    ensures
        parts_constraints(first + second, grid, first.len() + n) == with_zones(
            parts_constraints(first, grid, first.len()),
            parts_constraints(second, grid, n),
        ),
    decreases n,
{
    let all = first + second;
    if n == 0 {
        lemma_parts_prefix(first, all, grid, first.len());
        match parts_constraints(first, grid, first.len()) {
            Ok(cs) => {
                assert(cs + Seq::<ConstraintView>::empty() =~= cs);
            },
            Err(_) => {},
        }
    } else {
        lemma_parts_join(first, second, grid, (n - 1) as nat);
        assert(all[first.len() + n - 1] == second[n - 1]);
        match (
            parts_constraints(first, grid, first.len()),
            parts_constraints(second, grid, (n - 1) as nat),
            part_constraints(second[n - 1], grid),
        ) {
            (Ok(a), Ok(b), Ok(c)) => {
                assert((a + b) + c =~= a + (b + c));
            },
            _ => {},
        }
    }
}

/// The constraints of a list of one part are the constraints of the part.
pub proof fn lemma_one_part_list(parts: Seq<Part>, grid: Grid)
    requires
        parts.len() == 1,
    ensures
        parts_constraints(parts, grid, 1) == part_constraints(parts[0], grid),
{
    assert(parts_constraints(parts, grid, 0) == Ok::<Seq<ConstraintView>, SolveError>(
        Seq::empty(),
    ));
    match part_constraints(parts[0], grid) {
        Ok(cs) => {
            assert(Seq::<ConstraintView>::empty() + cs =~= cs);
        },
        Err(_) => {},
    }
}

/// Adds a constraint to a list, where there is one.
fn add_made(constraints: &mut Vec<Constraint>, made: Option<Constraint>, Ghost(grid): Ghost<Grid>)
    requires
        all_fit(constraint_views(old(constraints)@), grid),
        made matches Some(c) ==> c@.fits(grid),
    ensures
        all_fit(constraint_views(final(constraints)@), grid),
        constraint_views(final(constraints)@) == (match made {
            Some(c) => constraint_views(old(constraints)@).push(c@),
            None => constraint_views(old(constraints)@),
        }),
{
    match made {
        Some(c) => {
            proof {
                assert(constraint_views(constraints@.push(c)) =~= constraint_views(
                    constraints@,
                ).push(c@));
            }
            constraints.push(c);
        },
        None => {},
    }
}

/// The constraints of the first parts depend on the first parts only.
pub proof fn lemma_parts_prefix(first: Seq<Part>, all: Seq<Part>, grid: Grid, n: nat)
    requires
        n <= first.len() <= all.len(),
        forall|k: int| 0 <= k < first.len() ==> first[k] == all[k],
    ensures
        parts_constraints(all, grid, n) == parts_constraints(first, grid, n),
    decreases n,
{
    if n > 0 {
        lemma_parts_prefix(first, all, grid, (n - 1) as nat);
    }
}

/// The unrevealed cells among cells of the grid, each listed once: each occurs
/// once, each is an unrevealed cell of the grid.
pub proof fn lemma_open_fit(grid: Grid, cells: Seq<usize>)
    requires
        cells.no_duplicates(),
        forall|k: int| 0 <= k < cells.len() ==> grid.in_range(#[trigger] cells[k] as int),
    ensures
        cells_fit(grid.unrevealed_among(cells), Seq::empty(), grid),
{
    reveal(cells_fit);
    let open = grid.unrevealed_among(cells);
    lemma_filter_members(cells, grid.unrevealed_pred());
    assert(open + Seq::<usize>::empty() =~= open);
    assert forall|k: int| 0 <= k < open.len() implies grid.in_range(#[trigger] open[k] as int)
        && grid.is_unrevealed(open[k] as int) by {
        assert(open.contains(open[k]));
        let j = choose|j: int| 0 <= j < cells.len() && cells[j] == open[k];
        assert(grid.in_range(cells[j] as int));
    }
}

/// The unrevealed black and white cells among cells of the grid, each listed once:
/// no cell occurs twice in the two lists, each is an unrevealed cell of the grid.
pub proof fn lemma_coloured_fit(grid: Grid, cells: Seq<usize>)
    requires
        cells.no_duplicates(),
        forall|k: int| 0 <= k < cells.len() ==> grid.in_range(#[trigger] cells[k] as int),
    ensures
        cells_fit(
            grid.unrevealed_of_colour(cells, true),
            grid.unrevealed_of_colour(cells, false),
            grid,
        ),
{
    reveal(cells_fit);
    let black = grid.unrevealed_of_colour(cells, true);
    let white = grid.unrevealed_of_colour(cells, false);
    lemma_filter_members(cells, grid.unrevealed_of_colour_pred(true));
    lemma_filter_members(cells, grid.unrevealed_of_colour_pred(false));
    assert forall|k: int| 0 <= k < black.len() implies grid.in_range(#[trigger] black[k] as int)
        && grid.is_unrevealed(black[k] as int) && grid.is_black(black[k] as int) by {
        assert(black.contains(black[k]));
        let j = choose|j: int| 0 <= j < cells.len() && cells[j] == black[k];
        assert(grid.in_range(cells[j] as int));
    }
    assert forall|k: int| 0 <= k < white.len() implies grid.in_range(#[trigger] white[k] as int)
        && grid.is_unrevealed(white[k] as int) && !grid.is_black(white[k] as int) by {
        assert(white.contains(white[k]));
        let j = choose|j: int| 0 <= j < cells.len() && cells[j] == white[k];
        assert(grid.in_range(cells[j] as int));
    }
    vstd::seq_lib::lemma_no_dup_in_concat(black, white);
}

/// An equality over the unrevealed cells among `cells` for what `total` leaves
/// after the flagged cells among them.
fn quota(board: &Board, cells: &Vec<usize>, total: usize) -> (made: Result<
    Option<Constraint>,
    SolveError,
>)
    requires
        cells@.no_duplicates(),
        forall|k: int| 0 <= k < cells@.len() ==> board@.in_range(#[trigger] cells@[k] as int),
        board@.complete(),
    ensures
        constraint_is(made, quota_constraint(board@, cells@, total), board@),
{
    proof {
        lemma_open_fit(board@, cells@);
    }
    let (empty, bombs) = board.empty_and_mine_count(cells);
    if bombs > total {
        return Err(SolveError::TooManyFlags);
    }
    Ok(
        Some(
            Constraint {
                kind: ConstraintKind::Equality,
                value: total - bombs,
                cells: empty,
                cells2: Vec::new(),
            },
        ),
    )
}

/// The constraint of a plain clue at a cell, under a policy.
pub fn create_constraints_for_cell_v(id: usize, board: &Board, policy: NextToPolicy) -> (made: Result<
    Option<Constraint>,
    SolveError,
>)
    requires
        board@.complete(),
        board@.in_range(id as int),
    ensures
        constraint_is(made, plain_constraint(board@, id as int, policy), board@),
{
    match board.rows[id] {
        MinesweeperCell::Number(x) => {
            assert(board@.area() == board.rows.len());
            let next_to = board.get_next_to(id, policy);
            proof {
                lemma_around(board@, id as int, policy);
            }
            let (empty, _) = board.empty_and_mine_count(&next_to);
            if empty.len() == 0 {
                return Ok(None);
            }
            quota(board, &next_to, x)
        },
        _ => Ok(None),
    }
}

/// The constraint of a clue that counts mines on white cells twice.
pub fn create_constraints_for_cell_m(id: usize, board: &Board) -> (made: Result<
    Option<Constraint>,
    SolveError,
>)
    requires
        board@.complete(),
        board@.in_range(id as int),
    ensures
        constraint_is(made, multiple_constraint(board@, id as int), board@),
{
    match board.rows[id] {
        MinesweeperCell::Number(x) => {
            assert(board@.area() == board.rows.len());
            let next_to = board.get_next_to(id, NextToPolicy::EightAround);
            proof {
                lemma_around(board@, id as int, NextToPolicy::EightAround);
                lemma_coloured_fit(board@, next_to@);
                crate::grid::lemma_row_col(board@.side, id as int);
            }
            let (black, white, bombs) = board.black_white_m_minecount(&next_to);
            proof {
                next_to@.lemma_filter_len(board@.unrevealed_of_colour_pred(true));
                next_to@.lemma_filter_len(board@.unrevealed_of_colour_pred(false));
            }
            if black.len() + white.len() == 0 {
                return Ok(None);
            }
            if bombs > x {
                return Err(SolveError::TooManyFlags);
            }
            Ok(
                Some(
                    Constraint {
                        kind: ConstraintKind::BlackWhiteEquality,
                        value: x - bombs,
                        cells: black,
                        cells2: white,
                    },
                ),
            )
        },
        _ => Ok(None),
    }
}

/// The constraint of a clue that is off by one.
pub fn create_constraints_for_cell_l(id: usize, board: &Board) -> (made: Result<
    Option<Constraint>,
    SolveError,
>)
    requires
        board@.complete(),
        board@.in_range(id as int),
    ensures
        constraint_is(made, liar_constraint(board@, id as int), board@),
{
    match board.rows[id] {
        MinesweeperCell::Number(x) => {
            assert(board@.area() == board.rows.len());
            let next_to = board.get_next_to(id, NextToPolicy::EightAround);
            proof {
                lemma_around(board@, id as int, NextToPolicy::EightAround);
                lemma_open_fit(board@, next_to@);
            }
            let (empty, bombs) = board.empty_and_mine_count(&next_to);
            if empty.len() == 0 {
                return Ok(None);
            }
            if x == 0 {
                return quota(board, &next_to, 1);
            }
            let kind = if bombs > x {
                ConstraintKind::Equality
            } else {
                ConstraintKind::OffByOne
            };
            let value = if bombs > x {
                0
            } else {
                x - bombs
            };
            Ok(Some(Constraint { kind, value, cells: empty, cells2: Vec::new() }))
        },
        _ => Ok(None),
    }
}

/// The constraint of a clue that is a difference of colours.
pub fn create_constraints_for_cell_n(id: usize, board: &Board) -> (made: Result<
    Option<Constraint>,
    SolveError,
>)
    requires
        board@.complete(),
        board@.in_range(id as int),
    ensures
        constraint_is(made, negation_constraint(board@, id as int), board@),
{
    match board.rows[id] {
        MinesweeperCell::Number(x) => {
            assert(board@.area() == board.rows.len());
            let next_to = board.get_next_to(id, NextToPolicy::EightAround);
            proof {
                lemma_around(board@, id as int, NextToPolicy::EightAround);
                lemma_coloured_fit(board@, next_to@);
                crate::grid::lemma_row_col(board@.side, id as int);
            }
            let (black, white, black_bombs, white_bombs) = board.black_white_split_minecount(
                &next_to,
            );
            proof {
                next_to@.lemma_filter_len(board@.unrevealed_of_colour_pred(true));
                next_to@.lemma_filter_len(board@.unrevealed_of_colour_pred(false));
                next_to@.lemma_filter_len(board@.flagged_of_colour_pred(true));
                next_to@.lemma_filter_len(board@.flagged_of_colour_pred(false));
            }
            if black.len() + white.len() == 0 {
                return Ok(None);
            }
            let bias: i64 = black_bombs as i64 - white_bombs as i64;
            Ok(
                Some(
                    Constraint {
                        kind: ConstraintKind::DifferenceOfColors(bias),
                        value: x,
                        cells: black,
                        cells2: white,
                    },
                ),
            )
        },
        _ => Ok(None),
    }
}

/// The constraint that a family gives for the clue at a cell.
pub fn create_constraints_for_cell(family: ClueFamily, id: usize, board: &Board) -> (made: Result<
    Option<Constraint>,
    SolveError,
>)
    requires
        board@.complete(),
        board@.in_range(id as int),
    ensures
        constraint_is(made, clue_constraint(family, board@, id as int), board@),
{
    proof {
        reveal(clue_constraint);
    }
    match family {
        ClueFamily::Plain(policy) => create_constraints_for_cell_v(id, board, policy),
        ClueFamily::Multiple => create_constraints_for_cell_m(id, board),
        ClueFamily::Liar => create_constraints_for_cell_l(id, board),
        ClueFamily::Negation => create_constraints_for_cell_n(id, board),
    }
}

/// The cells of a row of the board, from left to right.
fn row_of(board: &Board, i: usize) -> (cells: Vec<usize>)
    requires
        board@.complete(),
        board@.side <= 8,
        i < board.size,
    ensures
        cells@ == board@.row_cells(i as int),
        cells@.no_duplicates(),
        forall|k: int| 0 <= k < cells@.len() ==> board@.in_range(#[trigger] cells@[k] as int),
{
    let size = board.size;
    let mut cells: Vec<usize> = Vec::new();
    assert(board@.area() == board.rows.len());
    proof {
        lemma_line_cells(board@, i as int);
    }
    for x in 0..size
        invariant
            size == board.size,
            size <= 8,
            0 <= i < size,
            cells@.len() == x,
            forall|k: int| 0 <= k < x ==> cells@[k] == k + i * size,
    {
        assert(i * size <= 64) by (nonlinear_arith)
            requires
                0 <= i < size,
                size <= 8,
        ;
        cells.push(x + i * size);
    }
    assert(cells@ =~= board@.row_cells(i as int));
    cells
}

/// The cells of a column of the board, from top to bottom.
fn column_of(board: &Board, i: usize) -> (cells: Vec<usize>)
    requires
        board@.complete(),
        board@.side <= 8,
        i < board.size,
    ensures
        cells@ == board@.column_cells(i as int),
        cells@.no_duplicates(),
        forall|k: int| 0 <= k < cells@.len() ==> board@.in_range(#[trigger] cells@[k] as int),
{
    let size = board.size;
    let mut cells: Vec<usize> = Vec::new();
    assert(board@.area() == board.rows.len());
    proof {
        lemma_line_cells(board@, i as int);
    }
    for x in 0..size
        invariant
            size == board.size,
            size <= 8,
            0 <= i < size,
            cells@.len() == x,
            forall|k: int| 0 <= k < x ==> cells@[k] == k * size + i,
    {
        assert(x * size <= 64) by (nonlinear_arith)
            requires
                0 <= x < size,
                size <= 8,
        ;
        cells.push(x * size + i);
    }
    assert(cells@ =~= board@.column_cells(i as int));
    cells
}

/// A set with the unrevealed cells of the board as its variables.
fn set_over(board: &Board, constraints: Vec<Constraint>, Ghost(parts): Ghost<Seq<Part>>) -> (set:
    ConstraintSet)
    requires
        board@.complete(),
        all_fit(constraint_views(constraints@), board@),
        parts.len() == 1,
        part_constraints(parts[0], board@) == Ok::<_, SolveError>(constraint_views(constraints@)),
    ensures
        set_is(Ok(set), constraint_set(parts, board@)),
{
    assert(board@.area() == board.rows.len());
    let all = all_cells(board);
    let (empty_cells, _) = board.empty_and_mine_count(&all);
    proof {
        reveal(cells_fit);
        lemma_one_part_list(parts, board@);
        let grid = board@;
        lemma_filter_members(all@, grid.unrevealed_pred());
        let vs = constraint_views(constraints@);
        assert forall|k: int| 0 <= k < vs.len() implies {
            let c = #[trigger] vs[k];
            &&& (c.cells + c.cells2).no_duplicates()
            &&& forall|j: int| 0 <= j < c.cells.len() ==> empty_cells@.contains(#[trigger] c.cells[j])
            &&& forall|j: int|
                0 <= j < c.cells2.len() ==> empty_cells@.contains(#[trigger] c.cells2[j])
        } by {
            let c = vs[k];
            assert(c.fits(grid));
            assert forall|j: int| 0 <= j < c.cells.len() implies empty_cells@.contains(
                #[trigger] c.cells[j],
            ) by {
                assert(all@[c.cells[j] as int] == c.cells[j]);
            }
            assert forall|j: int| 0 <= j < c.cells2.len() implies empty_cells@.contains(
                #[trigger] c.cells2[j],
            ) by {
                assert(all@[c.cells2[j] as int] == c.cells2[j]);
            }
        }
    }
    ConstraintSet { cells: empty_cells, constraints, boardsize: board.size }
}

/// The constraints that a family gives for the clues of a board.
fn clue_set(board: &Board, family: ClueFamily) -> (set: Result<ConstraintSet, SolveError>)
    requires
        board@.complete(),
    ensures
        set_is(set, constraint_set(one(Part::Clues(family)), board@)),
{
    assert(board@.area() == board.rows.len());
    let n = board.rows.len();
    let mut constraints: Vec<Constraint> = Vec::new();
    let ghost parts = one(Part::Clues(family));
    proof {
        assert(constraint_views(constraints@) =~= Seq::empty());
        lemma_one_part_list(parts, board@);
    }
    for id in 0..n
        invariant
            board@.complete(),
            n == board@.area(),
            parts == one(Part::Clues(family)),
            all_fit(constraint_views(constraints@), board@),
            clue_constraints(family, board@, id as nat) == Ok::<_, SolveError>(
                constraint_views(constraints@),
            ),
    {
        match create_constraints_for_cell(family, id, board) {
            Err(e) => {
                proof {
                    lemma_clue_fault_stands(family, board@, (id + 1) as nat, n as nat);
                    lemma_one_part_list(parts, board@);
                }
                return Err(e);
            },
            Ok(found) => {
                add_made(&mut constraints, found, Ghost(board@));
            },
        }
    }
    Ok(set_over(board, constraints, Ghost(parts)))
}

/// The constraints of the plain clues of a board.
pub fn create_constraint_set_normal_mines(board: &Board) -> (set: Result<ConstraintSet, SolveError>)
    requires
        board@.complete(),
    ensures
        set_is(
            set,
            constraint_set(one(Part::Clues(ClueFamily::Plain(NextToPolicy::EightAround))), board@),
        ),
{
    clue_set(board, ClueFamily::Plain(NextToPolicy::EightAround))
}

/// The constraints of the clues of a board that count along a cross.
pub fn create_constraint_set_cross_mines(board: &Board) -> (set: Result<ConstraintSet, SolveError>)
    requires
        board@.complete(),
    ensures
        set_is(
            set,
            constraint_set(one(Part::Clues(ClueFamily::Plain(NextToPolicy::XScape))), board@),
        ),
{
    clue_set(board, ClueFamily::Plain(NextToPolicy::XScape))
}

/// The constraints of the clues of a board that count white cells twice.
pub fn create_constraint_set_multiple_mines(board: &Board) -> (set: Result<ConstraintSet, SolveError>)
    requires
        board@.complete(),
    ensures
        set_is(set, constraint_set(one(Part::Clues(ClueFamily::Multiple)), board@)),
{
    clue_set(board, ClueFamily::Multiple)
}

/// The constraints of the clues of a board that are off by one.
pub fn create_constraint_set_liar_mines(board: &Board) -> (set: Result<ConstraintSet, SolveError>)
    requires
        board@.complete(),
    ensures
        set_is(set, constraint_set(one(Part::Clues(ClueFamily::Liar)), board@)),
{
    clue_set(board, ClueFamily::Liar)
}

/// The constraints of the clues of a board that are differences of colours.
pub fn create_constraint_set_negation_mines(board: &Board) -> (set: Result<ConstraintSet, SolveError>)
    requires
        board@.complete(),
    ensures
        set_is(set, constraint_set(one(Part::Clues(ClueFamily::Negation)), board@)),
{
    clue_set(board, ClueFamily::Negation)
}

/// The constraint of the total number of mines that a table gives.
fn minecount_set(board: &Board, table: MineTable) -> (set: Result<ConstraintSet, SolveError>)
    requires
        board@.complete(),
    ensures
        set_is(set, constraint_set(one(Part::Minecount(table)), board@)),
{
    let total = match table {
        MineTable::Standard => total_mines(board.size),
        MineTable::Balanced => total_mines_balanced(board.size),
    };
    let ghost parts = one(Part::Minecount(table));
    proof {
        lemma_one_part_list(parts, board@);
    }
    let total_count = match total {
        Some(total_count) => total_count,
        None => {
            return Err(SolveError::BadBoardSize);
        },
    };
    assert(board@.area() == board.rows.len());
    let all = all_cells(board);
    let made = match quota(board, &all, total_count) {
        Ok(made) => made,
        Err(e) => {
            return Err(e);
        },
    };
    let mut constraints: Vec<Constraint> = Vec::new();
    assert(constraint_views(constraints@) =~= Seq::empty());
    add_made(&mut constraints, made, Ghost(board@));
    Ok(set_over(board, constraints, Ghost(parts)))
}

/// The constraint of the total number of mines of a standard board.
pub fn create_constraint_set_minecount(board: &Board) -> (set: Result<ConstraintSet, SolveError>)
    requires
        board@.complete(),
    ensures
        set_is(set, constraint_set(one(Part::Minecount(MineTable::Standard)), board@)),
{
    minecount_set(board, MineTable::Standard)
}

/// The constraint of the total number of mines of a board with quotas.
pub fn create_constraint_set_minecount_b(board: &Board) -> (set: Result<ConstraintSet, SolveError>)
    requires
        board@.complete(),
    ensures
        set_is(set, constraint_set(one(Part::Minecount(MineTable::Balanced)), board@)),
{
    minecount_set(board, MineTable::Balanced)
}

/// A mine in every 2x2 block that holds no flagged cell.
pub fn create_q_added_constraint_set(board: &Board) -> (set: Result<ConstraintSet, SolveError>)
    requires
        board@.complete(),
    ensures
        set_is(set, constraint_set(one(Part::Quads), board@)),
{
    let mut constraints: Vec<Constraint> = Vec::new();
    let ghost parts = one(Part::Quads);
    proof {
        assert(constraint_views(constraints@) =~= Seq::empty());
    }
    assert(board@.area() == board.rows.len());
    let count = if board.size == 0 {
        0
    } else {
        board.size - 1
    };
    for x in 0..count
        invariant
            board@.complete(),
            count == blocks_per_line(board@),
            board@.area() == board.rows.len(),
            all_fit(constraint_views(constraints@), board@),
            constraint_views(constraints@) == block_constraints(board@, x as nat),
    {
        let ghost before = constraint_views(constraints@);
        for y in 0..count
            invariant
                board@.complete(),
                count == blocks_per_line(board@),
                board@.area() == board.rows.len(),
                0 <= x < count,
                all_fit(constraint_views(constraints@), board@),
                before == block_constraints(board@, x as nat),
                constraint_views(constraints@) == before + block_column_constraints(
                    board@,
                    x as int,
                    y as nat,
                ),
        {
            proof {
                lemma_block_cells(board@, x as int, y as int);
            }
            let cells = vec![
                x + y * board.size,
                x + 1 + y * board.size,
                x + (y + 1) * board.size,
                x + 1 + (y + 1) * board.size,
            ];
            assert(cells@ =~= board@.block(x as int, y as int));
            proof {
                lemma_open_fit(board@, cells@);
            }
            let (empty, mines) = board.empty_and_mine_count(&cells);
            let made = if mines == 0 {
                Some(
                    Constraint {
                        kind: ConstraintKind::Minimum,
                        value: 1,
                        cells: empty,
                        cells2: Vec::new(),
                    },
                )
            } else {
                None
            };
            let ghost column = block_column_constraints(board@, x as int, y as nat);
            proof {
                if made is Some {
                    let cv = made->Some_0@;
                    assert((before + column).push(cv) =~= before + column.push(cv));
                }
            }
            add_made(&mut constraints, made, Ghost(board@));
        }
    }
    Ok(set_over(board, constraints, Ghost(parts)))
}

/// The same number of mines in every row and in every column.
pub fn create_b_added_constraint_set(board: &Board) -> (set: Result<ConstraintSet, SolveError>)
    requires
        board@.complete(),
    ensures
        set_is(set, constraint_set(one(Part::Lines), board@)),
{
    let ghost parts = one(Part::Lines);
    proof {
        lemma_one_part_list(parts, board@);
    }
    let mines_per_row = match mines_per_line(board.size) {
        Some(quota) => quota,
        None => {
            return Err(SolveError::BadBoardSize);
        },
    };
    assert(board@.area() == board.rows.len());
    let size = board.size;
    let mut constraints: Vec<Constraint> = Vec::new();
    assert(constraint_views(constraints@) =~= Seq::empty());
    for i in 0..size
        invariant
            board@.complete(),
            size == board.size,
            5 <= size <= 8,
            parts == one(Part::Lines),
            line_mines(board@.side) == Some(mines_per_row),
            all_fit(constraint_views(constraints@), board@),
            line_constraints(board@, mines_per_row, i as nat) == Ok::<_, SolveError>(
                constraint_views(constraints@),
            ),
    {
        let row = row_of(board, i);
        let column = column_of(board, i);
        let along = match quota(board, &row, mines_per_row) {
            Ok(c) => c,
            Err(e) => {
                proof {
                    lemma_line_fault_stands(board@, mines_per_row, (i + 1) as nat, size as nat);
                    lemma_one_part_list(parts, board@);
                }
                return Err(e);
            },
        };
        let down = match quota(board, &column, mines_per_row) {
            Ok(c) => c,
            Err(e) => {
                proof {
                    lemma_line_fault_stands(board@, mines_per_row, (i + 1) as nat, size as nat);
                    lemma_one_part_list(parts, board@);
                }
                return Err(e);
            },
        };
        add_made(&mut constraints, along, Ghost(board@));
        add_made(&mut constraints, down, Ghost(board@));
    }
    Ok(set_over(board, constraints, Ghost(parts)))
}

/// The variables of two sets of one board with the constraints of both, those of
/// the first set first.
pub(crate) fn combine_constraint_sets(set1: ConstraintSet, set2: ConstraintSet) -> (set:
    ConstraintSet)
    requires
        set1@.cells == set2@.cells,
    ensures
        set@ == set1@.join(set2@),
        set@.wf(),
{
    proof {
        use_type_invariant(&set1);
        use_type_invariant(&set2);
    }
    let ConstraintSet { cells, constraints, boardsize } = set1;
    let mut v = constraints;
    let mut more = set2.constraints;
    let ghost first = v@;
    let ghost second = more@;
    v.append(&mut more);
    proof {
        assert(constraint_views(v@) =~= constraint_views(first) + constraint_views(second));
        let joined = constraint_views(v@);
        assert forall|k: int| 0 <= k < joined.len() implies {
            let c = #[trigger] joined[k];
            &&& (c.cells + c.cells2).no_duplicates()
            &&& forall|j: int| 0 <= j < c.cells.len() ==> cells@.contains(#[trigger] c.cells[j])
            &&& forall|j: int| 0 <= j < c.cells2.len() ==> cells@.contains(#[trigger] c.cells2[j])
        } by {
            if k < first.len() {
                assert(joined[k] == set1@.constraints[k]);
            } else {
                assert(joined[k] == set2@.constraints[k - first.len()]);
            }
        }
    }
    ConstraintSet { cells, constraints: v, boardsize }
}

/// Two sets of one board as one, or the first fault.
pub(crate) fn combine_made(
    first: Result<ConstraintSet, SolveError>,
    second: Result<ConstraintSet, SolveError>,
    Ghost(grid): Ghost<Grid>,
    Ghost(parts1): Ghost<Seq<Part>>,
    Ghost(parts2): Ghost<Seq<Part>>,
) -> (set: Result<ConstraintSet, SolveError>)
    requires
        set_is(first, constraint_set(parts1, grid)),
        set_is(second, constraint_set(parts2, grid)),
    ensures
        set_is(set, constraint_set(parts1 + parts2, grid)),
{
    proof {
        lemma_parts_join(parts1, parts2, grid, parts2.len());
    }
    match first {
        Err(e) => Err(e),
        Ok(set1) => match second {
            Err(e) => Err(e),
            Ok(set2) => Ok(combine_constraint_sets(set1, set2)),
        },
    }
}

/// The list of one part.
pub open spec fn one(part: Part) -> Seq<Part> {
    seq![part]
}

/// The parts of a game with the standard total and the clues of a family.
pub open spec fn parts_of(family: ClueFamily) -> Seq<Part> {
    one(Part::Minecount(MineTable::Standard)) + one(Part::Clues(family))
}

/// The parts of a game with row and column quotas and the clues of a family.
pub open spec fn parts_balanced(family: ClueFamily) -> Seq<Part> {
    (one(Part::Clues(family)) + one(Part::Minecount(MineTable::Balanced))) + one(Part::Lines)
}

/// The constraint set of the standard game.
pub fn create_constraint_set_v(board: &Board) -> (set: Result<ConstraintSet, SolveError>)
    requires
        board@.complete(),
    ensures
        set_is(set, constraint_set(parts_of(ClueFamily::Plain(NextToPolicy::EightAround)), board@)),
{
    combine_made(
        create_constraint_set_minecount(board),
        create_constraint_set_normal_mines(board),
        Ghost(board@),
        Ghost(one(Part::Minecount(MineTable::Standard))),
        Ghost(one(Part::Clues(ClueFamily::Plain(NextToPolicy::EightAround)))),
    )
}

/// The constraint set of the game whose clues count along a cross.
pub fn create_constraint_set_x(board: &Board) -> (set: Result<ConstraintSet, SolveError>)
    requires
        board@.complete(),
    ensures
        set_is(set, constraint_set(parts_of(ClueFamily::Plain(NextToPolicy::XScape)), board@)),
{
    combine_made(
        create_constraint_set_minecount(board),
        create_constraint_set_cross_mines(board),
        Ghost(board@),
        Ghost(one(Part::Minecount(MineTable::Standard))),
        Ghost(one(Part::Clues(ClueFamily::Plain(NextToPolicy::XScape)))),
    )
}

/// The constraint set of the game in which every 2x2 block holds a mine.
pub fn create_constraint_set_q(board: &Board) -> (set: Result<ConstraintSet, SolveError>)
    requires
        board@.complete(),
    ensures
        set_is(
            set,
            constraint_set(
                parts_of(ClueFamily::Plain(NextToPolicy::EightAround)) + one(Part::Quads),
                board@,
            ),
        ),
{
    combine_made(
        create_constraint_set_v(board),
        create_q_added_constraint_set(board),
        Ghost(board@),
        Ghost(parts_of(ClueFamily::Plain(NextToPolicy::EightAround))),
        Ghost(one(Part::Quads)),
    )
}

/// The constraint set of the game whose clues count white cells twice.
pub fn create_constraint_set_m(board: &Board) -> (set: Result<ConstraintSet, SolveError>)
    requires
        board@.complete(),
    ensures
        set_is(set, constraint_set(parts_of(ClueFamily::Multiple), board@)),
{
    combine_made(
        create_constraint_set_minecount(board),
        create_constraint_set_multiple_mines(board),
        Ghost(board@),
        Ghost(one(Part::Minecount(MineTable::Standard))),
        Ghost(one(Part::Clues(ClueFamily::Multiple))),
    )
}

/// The constraint set of the game whose clues are off by one.
pub fn create_constraint_set_l(board: &Board) -> (set: Result<ConstraintSet, SolveError>)
    requires
        board@.complete(),
    ensures
        set_is(set, constraint_set(parts_of(ClueFamily::Liar), board@)),
{
    combine_made(
        create_constraint_set_minecount(board),
        create_constraint_set_liar_mines(board),
        Ghost(board@),
        Ghost(one(Part::Minecount(MineTable::Standard))),
        Ghost(one(Part::Clues(ClueFamily::Liar))),
    )
}

/// The constraint set of the game whose clues are differences of colours.
pub fn create_constraint_set_n(board: &Board) -> (set: Result<ConstraintSet, SolveError>)
    requires
        board@.complete(),
    ensures
        set_is(set, constraint_set(parts_of(ClueFamily::Negation), board@)),
{
    combine_made(
        create_constraint_set_minecount(board),
        create_constraint_set_negation_mines(board),
        Ghost(board@),
        Ghost(one(Part::Minecount(MineTable::Standard))),
        Ghost(one(Part::Clues(ClueFamily::Negation))),
    )
}

/// The total and the quotas of a board with row and column quotas.
pub(crate) fn balanced_set(board: &Board) -> (set: Result<ConstraintSet, SolveError>)
    requires
        board@.complete(),
    ensures
        set_is(
            set,
            constraint_set(one(Part::Minecount(MineTable::Balanced)) + one(Part::Lines), board@),
        ),
{
    combine_made(
        create_constraint_set_minecount_b(board),
        create_b_added_constraint_set(board),
        Ghost(board@),
        Ghost(one(Part::Minecount(MineTable::Balanced))),
        Ghost(one(Part::Lines)),
    )
}

/// The constraint set of the standard clues on a board with row and column quotas.
pub fn create_constraint_set_b(board: &Board) -> (set: Result<ConstraintSet, SolveError>)
    requires
        board@.complete(),
    ensures
        set_is(
            set,
            constraint_set(parts_balanced(ClueFamily::Plain(NextToPolicy::EightAround)), board@),
        ),
{
    let ghost family = ClueFamily::Plain(NextToPolicy::EightAround);
    proof {
        assert(parts_balanced(family) =~= one(Part::Clues(family)) + (one(Part::Minecount(MineTable::Balanced)) + one(Part::Lines)));
    }
    combine_made(
        create_constraint_set_normal_mines(board),
        balanced_set(board),
        Ghost(board@),
        Ghost(one(Part::Clues(family))),
        Ghost(one(Part::Minecount(MineTable::Balanced)) + one(Part::Lines)),
    )
}

} // verus!
