//! What an integer program means, and what follows for a probe from a true optimum:
//! a solver that is handed true optima says nothing false, and leaves nothing open
//! where the constraints have one solution.

use crate::linear_programming_solvers::{ConstraintKind, ConstraintSetView, ConstraintView};
use crate::probing::{
    cell_column, cell_terms, extra_column, extras_before, needs_extra, probe_verdict, program_for,
    row_for, Column, Optimum, ProbeResult, ProgramView, RowView, Sense, SessionView,
};
use crate::truth::sound;
use vstd::prelude::*;

verus! {

/// The sum of `factor * value` over the terms of a row, at a point.
pub open spec fn term_sum(terms: Seq<(int, int)>, x: Seq<int>) -> int
    decreases terms.len(),
{
    if terms.len() == 0 {
        0
    } else {
        term_sum(terms.drop_last(), x) + terms.last().1 * x[terms.last().0]
    }
}

/// The point meets a row.
pub open spec fn row_holds(row: RowView, x: Seq<int>) -> bool {
    &&& forall|t: int| 0 <= t < row.terms.len() ==> 0 <= (#[trigger] row.terms[t]).0 < x.len()
    &&& row.lower <= term_sum(row.terms, x)
    &&& row.upper matches Some(upper) ==> term_sum(row.terms, x) <= upper
}

/// The value of the objective over the first `n` columns, at a point.
pub open spec fn objective_upto(columns: Seq<Column>, x: Seq<int>, n: nat) -> int
    decreases n,
{
    if n == 0 {
        0
    } else {
        objective_upto(columns, x, (n - 1) as nat) + columns[n - 1].objective * x[n - 1]
    }
}

/// The value of the objective at a point.
pub open spec fn objective(program: ProgramView, x: Seq<int>) -> int {
    objective_upto(program.columns, x, program.columns.len())
}

/// The point is an integer point of the program: it gives each column a value
/// within the column's bounds, and meets every row.
pub open spec fn feasible(program: ProgramView, x: Seq<int>) -> bool {
    &&& x.len() == program.columns.len()
    &&& forall|j: int|
        0 <= j < x.len() ==> (#[trigger] program.columns[j]).lower <= x[j] <= program.columns[j].upper
    &&& forall|r: int| 0 <= r < program.rows.len() ==> row_holds(#[trigger] program.rows[r], x)
}

/// `value` is the optimum of the program in the given direction: some integer
/// point has it, and none has a better one.
pub open spec fn true_optimum(program: ProgramView, sense: Sense, value: int) -> bool {
    &&& exists|x: Seq<int>| feasible(program, x) && objective(program, x) == value
    &&& forall|x: Seq<int>| #[trigger]
        feasible(program, x) ==> match sense {
            Sense::Maximise => objective(program, x) <= value,
            Sense::Minimise => objective(program, x) >= value,
        }
}

/// One where the cell is a mine of the layout, zero where it is not.
pub open spec fn mine_value(layout: Set<usize>, id: usize) -> int {
    if layout.contains(id) {
        1
    } else {
        0
    }
}

/// How many cells of a list are mines of a layout.
pub open spec fn marked(cells: Seq<usize>, layout: Set<usize>) -> int
    decreases cells.len(),
{
    if cells.len() == 0 {
        0
    } else {
        marked(cells.drop_last(), layout) + mine_value(layout, cells.last())
    }
}

/// The layout meets the constraint, with `extra` as the value of the variable that
/// the constraint brings, where it brings one.
pub open spec fn constraint_holds(c: ConstraintView, layout: Set<usize>, extra: int) -> bool {
    let first = marked(c.cells, layout);
    let second = marked(c.cells2, layout);
    match c.kind {
        ConstraintKind::Equality => first == c.value,
        ConstraintKind::Minimum => first >= c.value,
        ConstraintKind::BlackWhiteEquality => first + 2 * second == c.value,
        ConstraintKind::OffByOne => 0 <= extra <= 1 && first + 2 * extra == c.value + 1,
        ConstraintKind::DifferenceOfColors(bias) => 0 <= extra <= 1 && first - second + 2 * c.value
            * extra == c.value - bias,
    }
}

/// The layout meets the constraint.
pub open spec fn constraint_true(c: ConstraintView, layout: Set<usize>) -> bool {
    exists|extra: int| constraint_holds(c, layout, extra)
}

/// The layout meets every constraint of a list.
pub open spec fn all_true(constraints: Seq<ConstraintView>, layout: Set<usize>) -> bool {
    forall|k: int| 0 <= k < constraints.len() ==> constraint_true(#[trigger] constraints[k], layout)
}

/// A value of the variable that a constraint brings with which the layout meets it.
pub open spec fn witness(c: ConstraintView, layout: Set<usize>) -> int {
    choose|extra: int| constraint_holds(c, layout, extra)
}

/// The values of the variables that the first `k` constraints bring.
pub open spec fn extra_values(constraints: Seq<ConstraintView>, layout: Set<usize>, k: nat) -> Seq<int>
    decreases k,
{
    if k == 0 {
        Seq::empty()
    } else {
        let before = extra_values(constraints, layout, (k - 1) as nat);
        if needs_extra(constraints[k - 1].kind) {
            before.push(witness(constraints[k - 1], layout))
        } else {
            before
        }
    }
}

/// The point of a layout: one for each cell that is a mine, zero for each that is
/// not, and for each variable that a constraint brings a value that meets it.
pub open spec fn layout_point(set: ConstraintSetView, layout: Set<usize>) -> Seq<int> {
    set.cells.map_values(|id: usize| mine_value(layout, id)) + extra_values(
        set.constraints,
        layout,
        set.constraints.len(),
    )
}

/// The sum over two lists of terms is the sum of the sums.
pub proof fn lemma_term_sum_add(a: Seq<(int, int)>, b: Seq<(int, int)>, x: Seq<int>)
    ensures
        term_sum(a + b, x) == term_sum(a, x) + term_sum(b, x),
    decreases b.len(),
{
    if b.len() == 0 {
        assert(a + b =~= a);
    } else {
        assert((a + b).drop_last() =~= a + b.drop_last());
        lemma_term_sum_add(a, b.drop_last(), x);
    }
}

/// The sum over a list of terms with one more term.
pub proof fn lemma_term_sum_push(a: Seq<(int, int)>, t: (int, int), x: Seq<int>)
    ensures
        term_sum(a.push(t), x) == term_sum(a, x) + t.1 * x[t.0],
{
    assert(a.push(t).drop_last() =~= a);
}

/// At a point that gives each cell its mine value, the terms of a list of cells
/// sum to the factor times the number of mines among the cells.
pub proof fn lemma_cell_terms_sum(
    cells: Seq<usize>,
    ids: Seq<usize>,
    factor: int,
    layout: Set<usize>,
    x: Seq<int>,
)
    requires
        x.len() >= cells.len(),
        forall|j: int| 0 <= j < cells.len() ==> x[j] == mine_value(layout, #[trigger] cells[j]),
        forall|j: int| 0 <= j < ids.len() ==> cells.contains(#[trigger] ids[j]),
    ensures
        term_sum(cell_terms(cells, ids, factor), x) == factor * marked(ids, layout),
        forall|t: int|
            0 <= t < ids.len() ==> 0 <= (#[trigger] cell_terms(cells, ids, factor)[t]).0
                < cells.len(),
    decreases ids.len(),
{
    let terms = cell_terms(cells, ids, factor);
    assert forall|t: int| 0 <= t < ids.len() implies 0 <= (#[trigger] terms[t]).0 < cells.len() by {
        assert(cells.contains(ids[t]));
        let i = cells.index_of(ids[t]);
        assert(0 <= i < cells.len() && cells[i] == ids[t]);
    }
    if ids.len() > 0 {
        let rest = ids.drop_last();
        lemma_cell_terms_sum(cells, rest, factor, layout, x);
        assert(terms.drop_last() =~= cell_terms(cells, rest, factor));
        assert(cells.contains(ids[ids.len() - 1]));
        let i = cells.index_of(ids.last());
        assert(0 <= i < cells.len() && cells[i] == ids.last());
        assert(terms.last() == (i, factor));
        assert(factor * (marked(rest, layout) + mine_value(layout, ids.last())) == factor * marked(
            rest,
            layout,
        ) + factor * mine_value(layout, ids.last())) by (nonlinear_arith);
    } else {
        assert(factor * 0 == 0);
    }
}

/// The values of the variables that constraints bring: as many as the constraints
/// bring, each zero or one, and each where its constraint looks for it.
pub proof fn lemma_extra_values(constraints: Seq<ConstraintView>, layout: Set<usize>, k: nat, n: nat)
    requires
        k < n <= constraints.len(),
        all_true(constraints, layout),
    ensures
        extra_values(constraints, layout, n).len() == extras_before(constraints, n),
        extras_before(constraints, k) <= extras_before(constraints, n),
        forall|e: int|
            0 <= e < extras_before(constraints, n) ==> 0 <= #[trigger] extra_values(
                constraints,
                layout,
                n,
            )[e] <= 1,
        needs_extra(constraints[k as int].kind) ==> extras_before(constraints, k)
            < extras_before(constraints, n) && extra_values(
            constraints,
            layout,
            n,
        )[extras_before(constraints, k) as int] == witness(constraints[k as int], layout),
    decreases n,
{
    let last = constraints[n - 1];
    assert(constraint_true(last, layout));
    if n - 1 > k {
        lemma_extra_values(constraints, layout, k, (n - 1) as nat);
    } else if n - 1 > 0 {
        lemma_extra_values(constraints, layout, (k - 1) as nat, (n - 1) as nat);
    }
}

/// The objective of a probe's program over the first `n` cells counts the probed
/// cell where it is a mine.
proof fn lemma_objective_cells(set: ConstraintSetView, probe: usize, layout: Set<usize>, n: nat)
    requires
        set.cells.no_duplicates(),
        n <= set.cells.len(),
    ensures
        objective_upto(program_for(set, probe).columns, layout_point(set, layout), n) == if exists|
            j: int,
        |
            0 <= j < n && set.cells[j] == probe {
            mine_value(layout, probe)
        } else {
            0
        },
    decreases n,
{
    if n > 0 {
        lemma_objective_cells(set, probe, layout, (n - 1) as nat);
        let columns = program_for(set, probe).columns;
        let x = layout_point(set, layout);
        assert(columns[n - 1] == cell_column(set.cells[n - 1], probe));
        assert(x[n - 1] == mine_value(layout, set.cells[n - 1]));
        if set.cells[n - 1] == probe {
            assert(!exists|j: int| 0 <= j < n - 1 && set.cells[j] == probe);
        } else {
            assert((exists|j: int| 0 <= j < n && set.cells[j] == probe) == (exists|j: int|
                0 <= j < n - 1 && set.cells[j] == probe));
        }
    }
}

/// The variables that constraints bring add nothing to the objective.
proof fn lemma_objective_extras(set: ConstraintSetView, probe: usize, layout: Set<usize>, n: nat)
    requires
        set.cells.len() <= n <= program_for(set, probe).columns.len(),
    ensures
        objective_upto(program_for(set, probe).columns, layout_point(set, layout), n)
            == objective_upto(
            program_for(set, probe).columns,
            layout_point(set, layout),
            set.cells.len(),
        ),
    decreases n,
{
    if n > set.cells.len() {
        lemma_objective_extras(set, probe, layout, (n - 1) as nat);
        assert(program_for(set, probe).columns[n - 1] == extra_column());
    }
}

/// The point of a layout that meets the constraints is an integer point of every
/// probe's program, and the objective there is the mine value of the probed cell.
pub proof fn lemma_layout_point(set: ConstraintSetView, probe: usize, layout: Set<usize>)
    requires
        set.wf(),
        set.cells.contains(probe),
        all_true(set.constraints, layout),
    ensures
        feasible(program_for(set, probe), layout_point(set, layout)),
        objective(program_for(set, probe), layout_point(set, layout)) == mine_value(layout, probe),
{
    let program = program_for(set, probe);
    let x = layout_point(set, layout);
    let n = set.constraints.len();
    let cells = set.cells;
    if n > 0 {
        lemma_extra_values(set.constraints, layout, 0, n);
    }
    assert(x.len() == program.columns.len());
    assert forall|j: int| 0 <= j < x.len() implies (#[trigger] program.columns[j]).lower <= x[j]
        <= program.columns[j].upper by {
        if j < cells.len() {
            assert(program.columns[j] == cell_column(cells[j], probe));
        } else {
            assert(program.columns[j] == extra_column());
            assert(x[j] == extra_values(set.constraints, layout, n)[j - cells.len()]);
        }
    }
    assert forall|r: int| 0 <= r < program.rows.len() implies row_holds(
        #[trigger] program.rows[r],
        x,
    ) by {
        lemma_row_holds(set, layout, r);
        assert(program.rows[r] == row_for(set, r));
    }
    lemma_objective_cells(set, probe, layout, cells.len());
    lemma_objective_extras(set, probe, layout, program.columns.len());
    let p = cells.index_of(probe);
    assert(0 <= p < cells.len() && cells[p] == probe);
}

/// The point of a layout that meets the constraints meets the row of each.
proof fn lemma_row_holds(set: ConstraintSetView, layout: Set<usize>, r: int)
    requires
        set.wf(),
        all_true(set.constraints, layout),
        0 <= r < set.constraints.len(),
    ensures
        row_holds(row_for(set, r), layout_point(set, layout)),
{
    let x = layout_point(set, layout);
    let c = set.constraints[r];
    let cells = set.cells;
    let n = set.constraints.len();
    let row = row_for(set, r);
    assert(constraint_true(c, layout));
    let aux = witness(c, layout);
    assert(constraint_holds(c, layout, aux));
    lemma_extra_values(set.constraints, layout, r as nat, n);
    let extra = (cells.len() + extras_before(set.constraints, r as nat)) as int;
    assert forall|j: int| 0 <= j < cells.len() implies x[j] == mine_value(
        layout,
        #[trigger] cells[j],
    ) by {}
    assert forall|j: int| 0 <= j < c.cells.len() implies cells.contains(#[trigger] c.cells[j]) by {}
    assert forall|j: int| 0 <= j < c.cells2.len() implies cells.contains(#[trigger] c.cells2[j]) by {}
    let plain = cell_terms(cells, c.cells, 1);
    lemma_cell_terms_sum(cells, c.cells, 1, layout, x);
    match c.kind {
        ConstraintKind::Equality => {},
        ConstraintKind::Minimum => {},
        ConstraintKind::BlackWhiteEquality => {
            let second = cell_terms(cells, c.cells2, 2);
            lemma_cell_terms_sum(cells, c.cells2, 2, layout, x);
            lemma_term_sum_add(plain, second, x);
            assert forall|t: int| 0 <= t < row.terms.len() implies 0 <= (#[trigger] row.terms[t]).0
                < x.len() by {
                if t < plain.len() {
                    assert(row.terms[t] == plain[t]);
                } else {
                    assert(row.terms[t] == second[t - plain.len()]);
                }
            }
        },
        ConstraintKind::OffByOne => {
            lemma_term_sum_push(plain, (extra, 2), x);
            assert(x[extra] == aux);
            assert forall|t: int| 0 <= t < row.terms.len() implies 0 <= (#[trigger] row.terms[t]).0
                < x.len() by {
                if t < plain.len() {
                    assert(row.terms[t] == plain[t]);
                }
            }
        },
        ConstraintKind::DifferenceOfColors(bias) => {
            let second = cell_terms(cells, c.cells2, -1);
            lemma_cell_terms_sum(cells, c.cells2, -1, layout, x);
            lemma_term_sum_add(plain, second, x);
            lemma_term_sum_push(plain + second, (extra, 2 * c.value), x);
            assert(x[extra] == aux);
            assert forall|t: int| 0 <= t < row.terms.len() implies 0 <= (#[trigger] row.terms[t]).0
                < x.len() by {
                if t < plain.len() {
                    assert(row.terms[t] == plain[t]);
                } else if t < plain.len() + second.len() {
                    assert(row.terms[t] == second[t - plain.len()]);
                }
            }
        },
    }
}

/// Soundness of a probe. Where a layout of mines meets the constraints, and no
/// integer point of the probe's program has an objective above `maximum` or below
/// `minimum`, a cell that the probe calls safe is no mine of the layout, and a
/// cell that it calls a mine is one.
pub proof fn lemma_probe_sound(
    set: ConstraintSetView,
    probe: usize,
    layout: Set<usize>,
    maximum: int,
    minimum: int,
)
    requires
        set.wf(),
        set.cells.contains(probe),
        all_true(set.constraints, layout),
        forall|x: Seq<int>| #[trigger]
            feasible(program_for(set, probe), x) ==> minimum <= objective(
                program_for(set, probe),
                x,
            ) <= maximum,
    ensures
        probe_verdict(maximum, minimum) is Safe ==> !layout.contains(probe),
        probe_verdict(maximum, minimum) is Mine ==> layout.contains(probe),
{
    lemma_layout_point(set, probe, layout);
}

/// Completeness of a probe. Where every integer point of the probe's program gives
/// the probed cell the value that it has in a layout, true optima leave nothing
/// open: the probe calls the cell a mine where it is one, and safe where it is not.
pub proof fn lemma_probe_complete(
    set: ConstraintSetView,
    probe: usize,
    layout: Set<usize>,
    maximum: int,
    minimum: int,
)
    requires
        true_optimum(program_for(set, probe), Sense::Maximise, maximum),
        true_optimum(program_for(set, probe), Sense::Minimise, minimum),
        forall|x: Seq<int>| #[trigger]
            feasible(program_for(set, probe), x) ==> objective(program_for(set, probe), x)
                == mine_value(layout, probe),
    ensures
        probe_verdict(maximum, minimum) == if layout.contains(probe) {
            ProbeResult::Mine
        } else {
            ProbeResult::Safe
        },
{
    let program = program_for(set, probe);
    let high = choose|x: Seq<int>| feasible(program, x) && objective(program, x) == maximum;
    let low = choose|x: Seq<int>| feasible(program, x) && objective(program, x) == minimum;
    assert(feasible(program, high) && feasible(program, low));
}

/// The direction in which a session asks for the next optimum.
pub open spec fn asked_sense(session: SessionView) -> Sense {
    if session.minimising {
        Sense::Minimise
    } else {
        Sense::Maximise
    }
}

/// Soundness of a course of probes. Where a layout of mines meets the constraints,
/// what the session knows is true of the layout, and the answer is the optimum of
/// the program that the session asked for, what the session knows after the answer
/// is true of the layout.
pub proof fn lemma_step_sound(session: SessionView, answer: Optimum, layout: Set<usize>)
    requires
        session.set.wf(),
        all_true(session.set.constraints, layout),
        sound(session.known, layout),
        !session.finished(),
        answer matches Optimum::Optimal(value) ==> true_optimum(
            program_for(session.set, session.cell()),
            asked_sense(session),
            value as int,
        ),
    ensures
        session.step(answer) matches Ok(next) ==> sound(next.known, layout),
{
    let cell = session.cell();
    assert(session.set.cells.contains(cell));
    lemma_layout_point(session.set, cell, layout);
    let program = program_for(session.set, cell);
    assert(feasible(program, layout_point(session.set, layout)));
}

/// Completeness of a course of probes. Where every integer point of the program
/// that the session asked for gives the probed cell the value that it has in a
/// layout, and the answer is the optimum of that program, the cell is left open
/// only to ask for its least value: once the session goes on to the next cell, it
/// knows the cell as a mine or as safe.
pub proof fn lemma_step_complete(session: SessionView, answer: Optimum, layout: Set<usize>)
    requires
        !session.finished(),
        session.minimising ==> layout.contains(session.cell()),
        answer matches Optimum::Optimal(value) && true_optimum(
            program_for(session.set, session.cell()),
            asked_sense(session),
            value as int,
        ),
        forall|x: Seq<int>| #[trigger]
            feasible(program_for(session.set, session.cell()), x) ==> objective(
                program_for(session.set, session.cell()),
                x,
            ) == mine_value(layout, session.cell()),
    ensures
        session.step(answer) matches Ok(next) && (if next.position == session.position {
            next.minimising && layout.contains(session.cell())
        } else {
            next.known.mines.contains(session.cell()) || next.known.safe.contains(session.cell())
        }),
{
    let program = program_for(session.set, session.cell());
    let value = answer->Optimal_0 as int;
    let at = choose|x: Seq<int>| feasible(program, x) && objective(program, x) == value;
    assert(feasible(program, at));
}

} // verus!
