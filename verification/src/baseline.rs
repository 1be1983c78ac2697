//! What the exact solver finds where nothing but the number of mines is known.

use crate::linear_programming_solvers::{ConstraintKind, ConstraintSetView, ConstraintView};
use crate::optimum::{
    all_true, constraint_holds, feasible, layout_point, lemma_layout_point, marked, objective,
    objective_upto, row_holds, term_sum, true_optimum,
};
use crate::probing::{
    cell_column, cell_terms, extras_before, probe_verdict, program_for, row_for, ProbeResult, Sense,
};
use crate::seqs::lemma_len_of_set;
use vstd::prelude::*;

verus! {

/// The constraint set that says one thing only: the cells hold `total` mines.
pub open spec fn total_only(cells: Seq<usize>, total: usize, side: int) -> ConstraintSetView {
    ConstraintSetView {
        cells,
        constraints: seq![
            ConstraintView { kind: ConstraintKind::Equality, value: total, cells, cells2: Seq::empty() },
        ],
        side,
    }
}

/// The objective of a probe's program over the first `n` cells is the value of the
/// probed cell, where that is among them.
proof fn lemma_objective_any(set: ConstraintSetView, probe: usize, x: Seq<int>, n: nat)
    requires
        set.cells.no_duplicates(),
        n <= set.cells.len() <= x.len(),
    ensures
        objective_upto(program_for(set, probe).columns, x, n) == if exists|j: int|
            0 <= j < n && set.cells[j] == probe {
            x[set.cells.index_of(probe)]
        } else {
            0
        },
    decreases n,
{
    if n > 0 {
        lemma_objective_any(set, probe, x, (n - 1) as nat);
        let columns = program_for(set, probe).columns;
        assert(columns[n - 1] == cell_column(set.cells[n - 1], probe));
        if set.cells[n - 1] == probe {
            assert(!exists|j: int| 0 <= j < n - 1 && set.cells[j] == probe);
            crate::probing::lemma_index_of(set.cells, n - 1);
        } else {
            assert((exists|j: int| 0 <= j < n && set.cells[j] == probe) == (exists|j: int|
                0 <= j < n - 1 && set.cells[j] == probe));
        }
    }
}

/// At a point of zeros and ones, the terms of a list of cells sum to no less than
/// the value of any one of the cells, and to no more than that value and one for
/// each other cell.
proof fn lemma_sum_bounds(cells: Seq<usize>, ids: Seq<usize>, x: Seq<int>, id: usize)
    requires
        cells.no_duplicates(),
        ids.no_duplicates(),
        x.len() >= cells.len(),
        forall|j: int| 0 <= j < cells.len() ==> 0 <= #[trigger] x[j] <= 1,
        forall|j: int| 0 <= j < ids.len() ==> cells.contains(#[trigger] ids[j]),
    ensures
        0 <= term_sum(cell_terms(cells, ids, 1), x) <= ids.len(),
        ids.contains(id) ==> x[cells.index_of(id)] <= term_sum(cell_terms(cells, ids, 1), x)
            <= ids.len() - 1 + x[cells.index_of(id)],
    decreases ids.len(),
{
    let terms = cell_terms(cells, ids, 1);
    if ids.len() > 0 {
        let rest = ids.drop_last();
        let last = ids.last();
        lemma_sum_bounds(cells, rest, x, id);
        assert(terms.drop_last() =~= cell_terms(cells, rest, 1));
        assert(cells.contains(ids[ids.len() - 1]));
        let i = cells.index_of(last);
        assert(0 <= i < cells.len() && cells[i] == last);
        assert(terms.last() == (i, 1int));
        assert(0 <= x[i] <= 1);
        if ids.contains(id) && id != last {
            let k = choose|k: int| 0 <= k < ids.len() && ids[k] == id;
            assert(rest[k] == id);
        }
        if rest.contains(last) {
            let k = choose|k: int| 0 <= k < rest.len() && rest[k] == last;
            assert(ids[k] == ids[ids.len() - 1]);
        }
    }
}

/// The first cells of a list, and the same with one cell more or one cell less,
/// as layouts: how many cells of the list they mark.
proof fn lemma_marked_prefix(cells: Seq<usize>, n: int)
    requires
        cells.no_duplicates(),
        0 <= n <= cells.len(),
    ensures
        marked(cells, cells.take(n).to_set()) == n,
        forall|p: int|
            n <= p < cells.len() ==> marked(cells, cells.take(n).to_set().insert(#[trigger] cells[p]))
                == n + 1,
        forall|p: int|
            0 <= p < n ==> marked(cells, cells.take(n).to_set().remove(#[trigger] cells[p])) == n
                - 1,
{
    let first = cells.take(n);
    let s = first.to_set();
    lemma_len_of_set(first);
    lemma_len_of_set(cells);
    crate::games::lemma_marked(cells, s);
    assert(cells.to_set().intersect(s) =~= s) by {
        assert forall|c: usize| s.contains(c) implies cells.to_set().contains(c) by {
            let k = choose|k: int| 0 <= k < first.len() && first[k] == c;
            assert(cells[k] == c);
        }
    }
    assert forall|p: int| n <= p < cells.len() implies marked(
        cells,
        s.insert(#[trigger] cells[p]),
    ) == n + 1 by {
        let more = s.insert(cells[p]);
        crate::games::lemma_marked(cells, more);
        assert(!s.contains(cells[p])) by {
            if s.contains(cells[p]) {
                let k = choose|k: int| 0 <= k < first.len() && first[k] == cells[p];
                assert(cells[k] == cells[p]);
            }
        }
        assert(cells.to_set().intersect(more) =~= more);
    }
    assert forall|p: int| 0 <= p < n implies marked(cells, s.remove(#[trigger] cells[p])) == n
        - 1 by {
        let fewer = s.remove(cells[p]);
        crate::games::lemma_marked(cells, fewer);
        assert(first[p] == cells[p]);
        assert(s.contains(cells[p]));
        assert(cells.to_set().intersect(fewer) =~= fewer);
    }
}

/// Where a layout marks `total` of the cells, the probe's program has an integer
/// point at which the objective is one if the probed cell is marked, zero if not.
proof fn lemma_point_of(cells: Seq<usize>, total: usize, side: int, probe: usize, layout: Set<usize>)
    requires
        cells.no_duplicates(),
        cells.contains(probe),
        marked(cells, layout) == total,
    ensures
        feasible(
            program_for(total_only(cells, total, side), probe),
            layout_point(total_only(cells, total, side), layout),
        ),
        objective(
            program_for(total_only(cells, total, side), probe),
            layout_point(total_only(cells, total, side), layout),
        ) == if layout.contains(probe) {
            1int
        } else {
            0int
        },
{
    let set = total_only(cells, total, side);
    let c = set.constraints[0];
    assert(constraint_holds(c, layout, 0));
    assert(cells + Seq::<usize>::empty() =~= cells);
    assert(all_true(set.constraints, layout));
    assert(set.wf());
    lemma_layout_point(set, probe, layout);
}

/// Baseline uncertainty. Where the only thing known of the cells is that they hold
/// `total` mines, a probe with true optima calls a cell safe if there is no mine,
/// a mine if there are as many mines as cells, and leaves it open otherwise.
pub proof fn lemma_baseline(
    cells: Seq<usize>,
    total: usize,
    side: int,
    probe: usize,
    maximum: int,
    minimum: int,
)
    requires
        cells.no_duplicates(),
        cells.contains(probe),
        true_optimum(program_for(total_only(cells, total, side), probe), Sense::Maximise, maximum),
        true_optimum(program_for(total_only(cells, total, side), probe), Sense::Minimise, minimum),
    ensures
        probe_verdict(maximum, minimum) == if total == 0 {
            ProbeResult::Safe
        } else if total == cells.len() {
            ProbeResult::Mine
        } else {
            ProbeResult::Unknown
        },
{
    let set = total_only(cells, total, side);
    let program = program_for(set, probe);
    let p = cells.index_of(probe);
    assert(0 <= p < cells.len() && cells[p] == probe);
    assert(extras_before(set.constraints, 1) == 0) by {
        assert(extras_before(set.constraints, 0) == 0);
    }
    assert(program.columns.len() == cells.len());
    let high = choose|x: Seq<int>| feasible(program, x) && objective(program, x) == maximum;
    let low = choose|x: Seq<int>| feasible(program, x) && objective(program, x) == minimum;
    assert forall|x: Seq<int>| feasible(program, x) implies objective(program, x) == x[p] && 0
        <= x[p] <= 1 && x[p] <= total <= cells.len() - 1 + x[p] by {
        lemma_objective_any(set, probe, x, cells.len());
        assert(program.columns[p] == cell_column(cells[p], probe));
        assert forall|j: int| 0 <= j < cells.len() implies 0 <= #[trigger] x[j] <= 1 by {
            assert(program.columns[j] == cell_column(cells[j], probe));
        }
        lemma_sum_bounds(cells, cells, x, probe);
        assert(program.rows[0] == row_for(set, 0));
        assert(row_holds(program.rows[0], x));
    }
    assert(feasible(program, high) && feasible(program, low));
    if 0 < total < cells.len() {
        lemma_marked_prefix(cells, total as int);
        lemma_marked_prefix(cells, total - 1);
        lemma_marked_prefix(cells, total + 1);
        let with_probe = if p < total {
            cells.take(total as int).to_set()
        } else {
            cells.take(total - 1).to_set().insert(cells[p])
        };
        let without_probe = if p < total {
            cells.take(total + 1).to_set().remove(cells[p])
        } else {
            cells.take(total as int).to_set()
        };
        assert(with_probe.contains(probe)) by {
            if p < total {
                assert(cells.take(total as int)[p] == probe);
            }
        }
        assert(!without_probe.contains(probe)) by {
            if p >= total && cells.take(total as int).to_set().contains(probe) {
                let k = choose|k: int|
                    0 <= k < cells.take(total as int).len() && cells.take(total as int)[k] == probe;
                assert(cells[k] == cells[p]);
            }
        }
        lemma_point_of(cells, total, side, probe, with_probe);
        lemma_point_of(cells, total, side, probe, without_probe);
        assert(feasible(program, layout_point(set, with_probe)));
        assert(feasible(program, layout_point(set, without_probe)));
    }
}

} // verus!
