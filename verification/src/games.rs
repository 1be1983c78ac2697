//! What the constraint sets mean: the games that their parts stand for, and the
//! proof that a layout of mines that a board came from meets every constraint
//! that is made for the board.

use crate::generation::{blocks_per_line, ZoneRule};
use crate::grid::{
    lemma_around, lemma_block_cells, lemma_line_cells, Grid, MinesweeperCell, NextToPolicy,
};
use crate::linear_programming_solvers::{
    block_column_constraints, block_constraint, block_constraints, clue_constraint,
    clue_constraints, constraint_set, liar_constraint, line_constraints, line_mines,
    multiple_constraint, negation_constraint, part_constraints, parts_constraints,
    quota_constraint, table_mines, ClueFamily, ConstraintView, Part,
};
use crate::optimum::{
    all_true, constraint_holds, constraint_true, feasible, lemma_probe_sound, marked, objective,
};
use crate::probing::{probe_verdict, program_for};
use crate::seqs::lemma_filter_members;
use crate::truth::{agrees, clues_true, lemma_open_mines, mines_in, rule_true};
use vstd::prelude::*;

verus! {

/// The cells of one colour among the neighbours of a cell.
pub open spec fn coloured_around(grid: Grid, index: int, black: bool) -> Set<usize> {
    grid.eight_around(index).to_set().filter(|c: usize| grid.is_black(c as int) == black)
}

/// What the clues of a family say of a layout of mines.
pub open spec fn family_true(family: ClueFamily, grid: Grid, layout: Set<usize>) -> bool {
    match family {
        ClueFamily::Plain(policy) => clues_true(grid, layout, policy),
        ClueFamily::Multiple => forall|i: int|
            grid.in_range(i) ==> (#[trigger] grid.cells[i] matches MinesweeperCell::Number(x)
                ==> mines_in(coloured_around(grid, i, true), layout) + 2 * mines_in(
                coloured_around(grid, i, false),
                layout,
            ) == x),
        ClueFamily::Liar => forall|i: int|
            grid.in_range(i) ==> (#[trigger] grid.cells[i] matches MinesweeperCell::Number(x) ==> {
                let mines = mines_in(grid.eight_around(i).to_set(), layout);
                mines == x + 1 || mines == x - 1
            }),
        ClueFamily::Negation => forall|i: int|
            grid.in_range(i) ==> (#[trigger] grid.cells[i] matches MinesweeperCell::Number(x) ==> {
                let difference = mines_in(coloured_around(grid, i, true), layout) - mines_in(
                    coloured_around(grid, i, false),
                    layout,
                );
                difference == x || difference == -x
            }),
    }
}

/// What a part of a constraint set takes the game to be.
pub open spec fn part_true(part: Part, grid: Grid, layout: Set<usize>) -> bool {
    match part {
        Part::Clues(family) => family_true(family, grid, layout),
        Part::Minecount(table) => table_mines(table, grid.side) matches Some(total) && total
            == layout.len(),
        Part::Quads => rule_true(ZoneRule::QuadBlocks, grid, layout),
        Part::Lines => line_mines(grid.side) matches Some(quota) && forall|i: int|
            0 <= i < grid.side ==> mines_in(#[trigger] grid.row_cells(i).to_set(), layout) == quota
                && mines_in(grid.column_cells(i).to_set(), layout) == quota,
    }
}

/// The board came from the layout under the game that the parts stand for.
pub open spec fn game_true(parts: Seq<Part>, grid: Grid, layout: Set<usize>) -> bool {
    &&& agrees(grid, layout)
    &&& forall|k: int| 0 <= k < parts.len() ==> part_true(#[trigger] parts[k], grid, layout)
}

/// The mines among a list of cells without repetitions are the mines among the set
/// of the cells.
pub proof fn lemma_marked(cells: Seq<usize>, layout: Set<usize>)
    requires
        cells.no_duplicates(),
    ensures
        marked(cells, layout) == mines_in(cells.to_set(), layout),
    decreases cells.len(),
{
    if cells.len() == 0 {
        assert(cells.to_set().intersect(layout) =~= Set::empty());
    } else {
        let rest = cells.drop_last();
        let last = cells.last();
        lemma_marked(rest, layout);
        vstd::seq_lib::seq_to_set_is_finite(rest);
        assert(!rest.contains(last)) by {
            if rest.contains(last) {
                let k = choose|k: int| 0 <= k < rest.len() && rest[k] == last;
                assert(cells[k] == cells[cells.len() - 1]);
            }
        }
        assert(cells =~= rest.push(last));
        rest.lemma_push_to_set_commute(last);
        if layout.contains(last) {
            assert(cells.to_set().intersect(layout) =~= rest.to_set().intersect(layout).insert(
                last,
            ));
        } else {
            assert(cells.to_set().intersect(layout) =~= rest.to_set().intersect(layout));
        }
    }
}

/// Filtering by one test and then by another is filtering by both.
pub proof fn lemma_filter_twice<A>(
    s: Seq<A>,
    p: spec_fn(A) -> bool,
    q: spec_fn(A) -> bool,
    both: spec_fn(A) -> bool,
)
    requires
        forall|x: A| #[trigger] both(x) == (p(x) && q(x)),
    ensures
        s.filter(p).filter(q) == s.filter(both),
    decreases s.len(),
{
    reveal(Seq::filter);
    if s.len() > 0 {
        let rest = s.drop_last();
        lemma_filter_twice(rest, p, q, both);
        if p(s.last()) {
            rest.filter(p).lemma_filter_push(s.last(), q);
        }
    }
}

/// Among cells of the board, each listed once, the mines are those under the
/// unrevealed cells and the flagged cells, counted as lists.
pub proof fn lemma_list_mines(grid: Grid, cells: Seq<usize>, layout: Set<usize>)
    requires
        agrees(grid, layout),
        cells.no_duplicates(),
        forall|k: int| 0 <= k < cells.len() ==> grid.in_range(#[trigger] cells[k] as int),
    ensures
        mines_in(cells.to_set(), layout) == marked(grid.unrevealed_among(cells), layout)
            + grid.flagged_among(cells),
        grid.unrevealed_among(cells).no_duplicates(),
        0 <= marked(grid.unrevealed_among(cells), layout) <= grid.unrevealed_among(cells).len(),
{
    lemma_open_mines(grid, cells, layout);
    lemma_filter_members(cells, grid.unrevealed_pred());
    lemma_marked(grid.unrevealed_among(cells), layout);
}

/// Among the cells of one colour of a list of cells of the board, each listed
/// once, the mines are those under the unrevealed cells and the flagged cells.
pub proof fn lemma_coloured_mines(grid: Grid, cells: Seq<usize>, black: bool, layout: Set<usize>)
    requires
        agrees(grid, layout),
        cells.no_duplicates(),
        forall|k: int| 0 <= k < cells.len() ==> grid.in_range(#[trigger] cells[k] as int),
    ensures
        mines_in(cells.to_set().filter(|c: usize| grid.is_black(c as int) == black), layout)
            == marked(grid.unrevealed_of_colour(cells, black), layout) + grid.flagged_of_colour(
            cells,
            black,
        ),
        0 <= marked(grid.unrevealed_of_colour(cells, black), layout),
        grid.flagged_of_colour(cells, black) <= cells.len(),
{
    let colour = |c: usize| grid.is_black(c as int) == black;
    let kept = cells.filter(colour);
    lemma_filter_members(cells, colour);
    crate::seqs::lemma_filter_to_set(cells, colour);
    assert forall|k: int| 0 <= k < kept.len() implies grid.in_range(#[trigger] kept[k] as int) by {
        assert(kept.contains(kept[k]));
        let j = choose|j: int| 0 <= j < cells.len() && cells[j] == kept[k];
        assert(grid.in_range(cells[j] as int));
    }
    lemma_list_mines(grid, kept, layout);
    lemma_filter_twice(cells, colour, grid.unrevealed_pred(), grid.unrevealed_of_colour_pred(black));
    lemma_filter_twice(cells, colour, grid.flagged_pred(), grid.flagged_of_colour_pred(black));
    cells.lemma_filter_len(grid.flagged_of_colour_pred(black));
}

/// Where cells of the board hold `total` mines, the layout meets the equality that
/// is made for them.
pub proof fn lemma_quota_true(grid: Grid, cells: Seq<usize>, total: usize, layout: Set<usize>)
    requires
        agrees(grid, layout),
        cells.no_duplicates(),
        forall|k: int| 0 <= k < cells.len() ==> grid.in_range(#[trigger] cells[k] as int),
        mines_in(cells.to_set(), layout) == total,
    ensures
        quota_constraint(grid, cells, total) matches Ok(Some(c)) && constraint_true(c, layout),
{
    lemma_list_mines(grid, cells, layout);
    let c = quota_constraint(grid, cells, total)->Ok_0->Some_0;
    assert(constraint_holds(c, layout, 0));
}

/// The layout meets the constraint of each clue of a family.
pub proof fn lemma_clue_true(family: ClueFamily, grid: Grid, index: int, layout: Set<usize>)
    requires
        agrees(grid, layout),
        family_true(family, grid, layout),
        grid.in_range(index),
    ensures
        clue_constraint(family, grid, index) is Ok,
        clue_constraint(family, grid, index) matches Ok(Some(c)) ==> constraint_true(c, layout),
{
    reveal(clue_constraint);
    if let MinesweeperCell::Number(x) = grid.cells[index] {
        match family {
            ClueFamily::Plain(policy) => {
                lemma_around(grid, index, policy);
                let around = grid.next_to(index, policy);
                assert(mines_in(around.to_set(), layout) == x);
                lemma_quota_true(grid, around, x, layout);
            },
            ClueFamily::Multiple => {
                lemma_around(grid, index, NextToPolicy::EightAround);
                let around = grid.eight_around(index);
                lemma_coloured_mines(grid, around, true, layout);
                lemma_coloured_mines(grid, around, false, layout);
                if let Ok(Some(c)) = multiple_constraint(grid, index) {
                    assert(constraint_holds(c, layout, 0));
                }
            },
            ClueFamily::Liar => {
                lemma_around(grid, index, NextToPolicy::EightAround);
                let around = grid.eight_around(index);
                lemma_list_mines(grid, around, layout);
                let open = grid.unrevealed_among(around);
                let flagged = grid.flagged_among(around);
                let mines = mines_in(around.to_set(), layout);
                assert(mines == x + 1 || mines == x - 1);
                if open.len() > 0 {
                    if x == 0 {
                        lemma_quota_true(grid, around, 1, layout);
                    } else {
                        let c = liar_constraint(grid, index)->Ok_0->Some_0;
                        let extra: int = if marked(open, layout) == c.value + 1 {
                            0
                        } else {
                            1
                        };
                        assert(constraint_holds(c, layout, extra));
                    }
                }
            },
            ClueFamily::Negation => {
                lemma_around(grid, index, NextToPolicy::EightAround);
                let around = grid.eight_around(index);
                lemma_coloured_mines(grid, around, true, layout);
                lemma_coloured_mines(grid, around, false, layout);
                let difference = mines_in(coloured_around(grid, index, true), layout) - mines_in(
                    coloured_around(grid, index, false),
                    layout,
                );
                assert(difference == x || difference == -x);
                if let Ok(Some(c)) = negation_constraint(grid, index) {
                    let extra: int = if difference == x {
                        0
                    } else {
                        1
                    };
                    assert(2 * x * 0 == 0 && 2 * x * 1 == 2 * x);
                    assert(constraint_holds(c, layout, extra));
                }
            },
        }
    }
}

/// The layout meets the constraints of the clues of a family.
pub proof fn lemma_clues_true(family: ClueFamily, grid: Grid, layout: Set<usize>, n: nat)
    requires
        agrees(grid, layout),
        family_true(family, grid, layout),
        n <= grid.area(),
    ensures
        clue_constraints(family, grid, n) matches Ok(cs) && all_true(cs, layout),
    decreases n,
{
    if n > 0 {
        lemma_clues_true(family, grid, layout, (n - 1) as nat);
        lemma_clue_true(family, grid, n - 1, layout);
    }
}

/// The layout meets the constraints of the blocks of a column.
pub proof fn lemma_block_column_true(grid: Grid, x: int, rows: nat, layout: Set<usize>)
    requires
        agrees(grid, layout),
        rule_true(ZoneRule::QuadBlocks, grid, layout),
        0 <= x < grid.side - 1,
        rows <= blocks_per_line(grid),
    ensures
        all_true(block_column_constraints(grid, x, rows), layout),
    decreases rows,
{
    if rows > 0 {
        lemma_block_column_true(grid, x, (rows - 1) as nat, layout);
        let y = rows - 1;
        let cells = grid.block(x, y);
        lemma_block_cells(grid, x, y);
        assert(mines_in(cells.to_set(), layout) >= 1);
        lemma_list_mines(grid, cells, layout);
        if let Some(c) = block_constraint(grid, x, y) {
            assert(constraint_holds(c, layout, 0));
        }
    }
}

/// The layout meets the constraints of the blocks.
pub proof fn lemma_blocks_true(grid: Grid, columns: nat, layout: Set<usize>)
    requires
        agrees(grid, layout),
        rule_true(ZoneRule::QuadBlocks, grid, layout),
        columns <= blocks_per_line(grid),
    ensures
        all_true(block_constraints(grid, columns), layout),
    decreases columns,
{
    if columns > 0 {
        lemma_blocks_true(grid, (columns - 1) as nat, layout);
        lemma_block_column_true(grid, columns - 1, blocks_per_line(grid), layout);
    }
}

/// The layout meets the quotas of the rows and columns.
pub proof fn lemma_lines_true(grid: Grid, quota: usize, layout: Set<usize>, n: nat)
    requires
        agrees(grid, layout),
        part_true(Part::Lines, grid, layout),
        line_mines(grid.side) == Some(quota),
        n <= grid.side,
    ensures
        line_constraints(grid, quota, n) matches Ok(cs) && all_true(cs, layout),
    decreases n,
{
    if n > 0 {
        lemma_lines_true(grid, quota, layout, (n - 1) as nat);
        lemma_line_cells(grid, n - 1);
        assert(mines_in(grid.row_cells(n - 1).to_set(), layout) == quota);
        lemma_quota_true(grid, grid.row_cells(n - 1), quota, layout);
        lemma_quota_true(grid, grid.column_cells(n - 1), quota, layout);
    }
}

/// The layout meets the constraints of a part.
pub proof fn lemma_part_true(part: Part, grid: Grid, layout: Set<usize>)
    requires
        agrees(grid, layout),
        part_true(part, grid, layout),
    ensures
        part_constraints(part, grid) matches Ok(cs) && all_true(cs, layout),
{
    match part {
        Part::Clues(family) => lemma_clues_true(family, grid, layout, grid.area() as nat),
        Part::Minecount(table) => {
            let all = grid.all_indices();
            assert(all.no_duplicates());
            assert(all.to_set().intersect(layout) =~= layout) by {
                assert forall|c: usize| layout.contains(c) implies all.to_set().contains(c) by {
                    assert(all[c as int] == c);
                }
            }
            let total = table_mines(table, grid.side)->Some_0;
            lemma_quota_true(grid, all, total, layout);
            let c = quota_constraint(grid, all, total)->Ok_0->Some_0;
            let cs = Seq::<ConstraintView>::empty().push(c);
            assert(cs[0] == c);
        },
        Part::Quads => lemma_blocks_true(grid, blocks_per_line(grid), layout),
        Part::Lines => {
            let quota = line_mines(grid.side)->Some_0;
            lemma_lines_true(grid, quota, layout, grid.side as nat);
        },
    }
}

/// The layout meets the constraints of a list of parts.
pub proof fn lemma_parts_true(parts: Seq<Part>, grid: Grid, layout: Set<usize>, n: nat)
    requires
        game_true(parts, grid, layout),
        n <= parts.len(),
    ensures
        parts_constraints(parts, grid, n) matches Ok(cs) && all_true(cs, layout),
    decreases n,
{
    if n > 0 {
        lemma_parts_true(parts, grid, layout, (n - 1) as nat);
        lemma_part_true(parts[n - 1], grid, layout);
        let before = parts_constraints(parts, grid, (n - 1) as nat)->Ok_0;
        let more = part_constraints(parts[n - 1], grid)->Ok_0;
        assert forall|k: int| 0 <= k < (before + more).len() implies constraint_true(
            #[trigger] (before + more)[k],
            layout,
        ) by {
            if k < before.len() {
                assert((before + more)[k] == before[k]);
            } else {
                assert((before + more)[k] == more[k - before.len()]);
            }
        }
    }
}

/// A board that came from a layout of mines has a constraint set without a fault,
/// and the layout meets every constraint of it.
pub proof fn lemma_game_constraints(parts: Seq<Part>, grid: Grid, layout: Set<usize>)
    requires
        game_true(parts, grid, layout),
    ensures
        constraint_set(parts, grid) matches Ok(set) && all_true(set.constraints, layout),
{
    lemma_parts_true(parts, grid, layout, parts.len());
}

/// Soundness of the exact solver. Where a board came from a layout of mines under
/// the game that a constraint set is made for, and no integer point of a probe's
/// program has an objective above `maximum` or below `minimum`, a cell that the
/// probe calls safe is no mine of the layout, and a cell that it calls a mine is
/// one.
pub proof fn lemma_exact_sound(
    parts: Seq<Part>,
    grid: Grid,
    layout: Set<usize>,
    probe: usize,
    maximum: int,
    minimum: int,
)
    requires
        game_true(parts, grid, layout),
        constraint_set(parts, grid) matches Ok(set) && set.wf() && set.cells.contains(probe) && (
        forall|x: Seq<int>| #[trigger]
            feasible(program_for(set, probe), x) ==> minimum <= objective(
                program_for(set, probe),
                x,
            ) <= maximum),
    ensures
        probe_verdict(maximum, minimum) is Safe ==> !layout.contains(probe),
        probe_verdict(maximum, minimum) is Mine ==> layout.contains(probe),
{
    lemma_game_constraints(parts, grid, layout);
    let set = constraint_set(parts, grid)->Ok_0;
    lemma_probe_sound(set, probe, layout, maximum, minimum);
}

/// The two solvers never contradict each other. Where a board came from a layout
/// of mines under the game that the rules and the constraint set are for, the
/// rule-based solver calls no cell a mine that a probe with true bounds calls safe,
/// and no cell safe that such a probe calls a mine.
pub proof fn lemma_solvers_agree(
    bundle: crate::algorithms::RuleBundle,
    parts: Seq<Part>,
    grid: Grid,
    layout: Set<usize>,
    probe: usize,
    maximum: int,
    minimum: int,
)
    requires
        crate::algorithms::RuleBundle::takes(grid),
        bundle.bounded(),
        crate::truth::consistent(bundle.zone_rules, grid, layout),
        game_true(parts, grid, layout),
        constraint_set(parts, grid) matches Ok(set) && set.wf() && set.cells.contains(probe) && (
        forall|x: Seq<int>| #[trigger]
            feasible(program_for(set, probe), x) ==> minimum <= objective(
                program_for(set, probe),
                x,
            ) <= maximum),
    ensures
        bundle.solve(grid) matches Ok(known) && (known.mines.contains(probe) ==> !(probe_verdict(
            maximum,
            minimum,
        ) is Safe)) && (known.safe.contains(probe) ==> !(probe_verdict(maximum, minimum) is Mine)),
{
    crate::truth::lemma_solver_sound(bundle, grid, layout);
    lemma_exact_sound(parts, grid, layout, probe, maximum, minimum);
}

} // verus!
