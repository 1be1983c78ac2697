//! The exact solver's side of the work: the integer program that probes one cell,
//! what the optimum of a probe means, and the course of probes over a whole board.
//! The optimisation itself is done by whoever drives a `ProbeSession`.

use crate::linear_programming_solvers::{
    constraint_views, ConstraintKind, ConstraintSet, ConstraintSetView, ConstraintView,
};
use crate::rules::{Deductions, KnownSquares};
use std::collections::HashMap;
use vstd::prelude::*;

verus! {

/// What a probe finds of a cell.
#[derive(Copy, Clone, Debug, PartialEq, Eq, Structural)]
pub enum ProbeResult {
    Mine,
    Safe,
    Unknown,
}

/// The direction in which a program is to be optimised.
#[derive(Copy, Clone, Debug, PartialEq, Eq, Structural)]
pub enum Sense {
    Maximise,
    Minimise,
}

/// What an optimisation ended with: the value of the objective at a proved
/// optimum over the integer points, or no such optimum.
#[derive(Copy, Clone, Debug, PartialEq, Eq, Structural)]
pub enum Optimum {
    Optimal(i64),
    NotOptimal,
}

/// Why a session takes no answer.
#[derive(Copy, Clone, Debug, PartialEq, Eq, Structural)]
pub enum ProbeError {
    /// The optimisation did not end at an optimum: the constraints contradict each
    /// other, so the board was read wrongly.
    NotOptimal,
    /// Every cell is probed already, so nothing was asked.
    NothingAsked,
}

/// An integer variable of a program: its factor in the objective and its bounds.
#[derive(Copy, Clone, Debug, PartialEq, Eq, Structural)]
pub struct Column {
    pub objective: i128,
    pub lower: i128,
    pub upper: i128,
}

/// A linear constraint of a program: the sum of `factor * column` over the terms
/// lies between `lower` and `upper`; no `upper` means no upper bound.
#[derive(Clone, Debug)]
pub struct Row {
    pub lower: i128,
    pub upper: Option<i128>,
    pub terms: Vec<(usize, i128)>,
}

/// A row as the contracts speak of it.
pub struct RowView {
    pub lower: int,
    pub upper: Option<int>,
    pub terms: Seq<(int, int)>,
}

/// The terms of a row as pairs of a column's position and a factor.
pub open spec fn term_views(terms: Seq<(usize, i128)>) -> Seq<(int, int)> {
    terms.map_values(|t: (usize, i128)| (t.0 as int, t.1 as int))
}

impl View for Row {
    type V = RowView;

    open spec fn view(&self) -> RowView {
        RowView {
            lower: self.lower as int,
            upper: match self.upper {
                Some(u) => Some(u as int),
                None => None,
            },
            terms: term_views(self.terms@),
        }
    }
}

/// An integer program: every column is an integer variable.
#[derive(Clone, Debug)]
pub struct IntegerProgram {
    pub columns: Vec<Column>,
    pub rows: Vec<Row>,
}

/// A program as the contracts speak of it.
pub struct ProgramView {
    pub columns: Seq<Column>,
    pub rows: Seq<RowView>,
}

/// The views of a list of rows.
pub open spec fn row_views(rows: Seq<Row>) -> Seq<RowView> {
    rows.map_values(|r: Row| r@)
}

impl View for IntegerProgram {
    type V = ProgramView;

    open spec fn view(&self) -> ProgramView {
        ProgramView { columns: self.columns@, rows: row_views(self.rows@) }
    }
}

/// A constraint of this kind brings a variable of its own.
pub open spec fn needs_extra(kind: ConstraintKind) -> bool {
    kind is OffByOne || kind is DifferenceOfColors
}

/// How many variables of their own the first `k` constraints bring.
pub open spec fn extras_before(constraints: Seq<ConstraintView>, k: nat) -> nat
    decreases k,
{
    if k == 0 {
        0
    } else {
        extras_before(constraints, (k - 1) as nat) + if needs_extra(constraints[k - 1].kind) {
            1nat
        } else {
            0nat
        }
    }
}

/// One term with the given factor for each cell of `ids`, on the column of the
/// cell: the position of the cell among the variables.
pub open spec fn cell_terms(cells: Seq<usize>, ids: Seq<usize>, factor: int) -> Seq<(int, int)> {
    ids.map_values(|id: usize| (cells.index_of(id), factor))
}

/// The row of the `k`-th constraint. A variable that the constraint brings stands
/// after the cells and after the variables that earlier constraints brought.
pub open spec fn row_for(set: ConstraintSetView, k: int) -> RowView {
    let c = set.constraints[k];
    let extra = (set.cells.len() + extras_before(set.constraints, k as nat)) as int;
    let plain = cell_terms(set.cells, c.cells, 1);
    match c.kind {
        ConstraintKind::Equality => RowView {
            lower: c.value as int,
            upper: Some(c.value as int),
            terms: plain,
        },
        ConstraintKind::Minimum => RowView { lower: c.value as int, upper: None, terms: plain },
        ConstraintKind::BlackWhiteEquality => RowView {
            lower: c.value as int,
            upper: Some(c.value as int),
            terms: plain + cell_terms(set.cells, c.cells2, 2),
        },
        ConstraintKind::OffByOne => RowView {
            lower: c.value + 1,
            upper: Some(c.value + 1),
            terms: plain.push((extra, 2)),
        },
        ConstraintKind::DifferenceOfColors(bias) => RowView {
            lower: c.value - bias,
            upper: Some(c.value - bias),
            terms: (plain + cell_terms(set.cells, c.cells2, -1)).push((extra, 2 * c.value)),
        },
    }
}

/// The column of a cell: a 0/1 variable that is the objective where the cell is
/// the one probed.
pub open spec fn cell_column(id: usize, probe: usize) -> Column {
    Column { objective: if id == probe {
        1
    } else {
        0
    }, lower: 0, upper: 1 }
}

/// The column of a variable that a constraint brings: a 0/1 variable outside the
/// objective.
pub open spec fn extra_column() -> Column {
    Column { objective: 0, lower: 0, upper: 1 }
}

/// The program that probes a cell: a column for each variable of the set, then
/// a column for each variable that a constraint brings, and a row for each
/// constraint. The objective is the indicator of the probed cell.
pub open spec fn program_for(set: ConstraintSetView, probe: usize) -> ProgramView {
    ProgramView {
        columns: set.cells.map_values(|id: usize| cell_column(id, probe)) + Seq::new(
            extras_before(set.constraints, set.constraints.len()),
            |i: int| extra_column(),
        ),
        rows: Seq::new(set.constraints.len(), |k: int| row_for(set, k)),
    }
}

/// What the optima of a probe say of the cell. A greatest value of zero: safe.
/// Else a least value of one: a mine. Else nothing.
pub open spec fn probe_verdict(maximum: int, minimum: int) -> ProbeResult {
    if maximum <= 0 {
        ProbeResult::Safe
    } else if minimum >= 1 {
        ProbeResult::Mine
    } else {
        ProbeResult::Unknown
    }
}

/// What the optima of a probe say of the cell.
pub fn classify(maximum: i64, minimum: i64) -> (result: ProbeResult)
    ensures
        result == probe_verdict(maximum as int, minimum as int),
{
    if maximum <= 0 {
        ProbeResult::Safe
    } else if minimum >= 1 {
        ProbeResult::Mine
    } else {
        ProbeResult::Unknown
    }
}

/// In a list without repetitions the position of an element is where it stands.
pub proof fn lemma_index_of(cells: Seq<usize>, j: int)
    requires
        cells.no_duplicates(),
        0 <= j < cells.len(),
    ensures
        cells.index_of(cells[j]) == j,
{
    let i = cells.index_of(cells[j]);
    assert(0 <= i < cells.len() && cells[i] == cells[j]);
}

/// The position of each cell of a list.
fn column_lookup(cells: &Vec<usize>) -> (lookup: HashMap<usize, usize>)
    requires
        cells@.no_duplicates(),
    ensures
        forall|id: usize|
            cells@.contains(id) ==> #[trigger] lookup@.contains_key(id) && lookup@[id]
                == cells@.index_of(id),
{
    broadcast use vstd::std_specs::hash::group_hash_axioms;

    let mut lookup: HashMap<usize, usize> = HashMap::new();
    for i in 0..cells.len()
        invariant
            cells@.no_duplicates(),
            forall|j: int|
                0 <= j < i ==> lookup@.contains_key(#[trigger] cells@[j]) && lookup@[cells@[j]]
                    == j,
    {
        lookup.insert(cells[i], i);
    }
    proof {
        assert forall|id: usize| cells@.contains(id) implies #[trigger] lookup@.contains_key(id)
            && lookup@[id] == cells@.index_of(id) by {
            let j = choose|j: int| 0 <= j < cells@.len() && cells@[j] == id;
            lemma_index_of(cells@, j);
        }
    }
    lookup
}

/// Appends a term with the given factor for each cell of `ids`.
fn push_terms(
    lookup: &HashMap<usize, usize>,
    ids: &Vec<usize>,
    factor: i128,
    terms: &mut Vec<(usize, i128)>,
    Ghost(cells): Ghost<Seq<usize>>,
)
    requires
        forall|id: usize|
            cells.contains(id) ==> #[trigger] lookup@.contains_key(id) && lookup@[id]
                == cells.index_of(id),
        forall|j: int| 0 <= j < ids@.len() ==> cells.contains(#[trigger] ids@[j]),
    ensures
        term_views(final(terms)@) == term_views(old(terms)@) + cell_terms(cells, ids@, factor as int),
{
    broadcast use vstd::std_specs::hash::group_hash_axioms;

    let ghost before = term_views(terms@);
    assert(before + cell_terms(cells, ids@.take(0), factor as int) =~= before);
    for j in 0..ids.len()
        invariant
            forall|id: usize|
                cells.contains(id) ==> #[trigger] lookup@.contains_key(id) && lookup@[id]
                    == cells.index_of(id),
            forall|k: int| 0 <= k < ids@.len() ==> cells.contains(#[trigger] ids@[k]),
            term_views(terms@) == before + cell_terms(cells, ids@.take(j as int), factor as int),
    {
        let id = ids[j];
        assert(cells.contains(ids@[j as int]));
        assert(lookup@.contains_key(id));
        let found = lookup.get(&id);
        match found {
            Some(column) => {
                proof {
                    let t = (*column, factor);
                    assert(term_views(terms@.push(t)) =~= term_views(terms@).push(
                        (t.0 as int, t.1 as int),
                    ));
                    assert(ids@.take(j + 1) =~= ids@.take(j as int).push(id));
                    assert(cell_terms(cells, ids@.take(j + 1), factor as int) =~= cell_terms(
                        cells,
                        ids@.take(j as int),
                        factor as int,
                    ).push((cells.index_of(id), factor as int)));
                }
                terms.push((*column, factor));
            },
            None => {
                proof {
                    assert(false);
                }
            },
        }
    }
    assert(ids@.take(ids@.len() as int) =~= ids@);
}

/// The integer program that probes one cell of a constraint set.
pub fn probe_program(constraints: &ConstraintSet, probe_id: usize) -> (program: IntegerProgram)
    ensures
        program@ == program_for(constraints@, probe_id),
{
    let cells = constraints.cells();
    let list = constraints.constraints();
    let ghost set = constraints@;
    let lookup = column_lookup(cells);
    let mut columns: Vec<Column> = Vec::new();
    for i in 0..cells.len()
        invariant
            columns@ == cells@.take(i as int).map_values(|id: usize| cell_column(id, probe_id)),
    {
        let objective: i128 = if cells[i] == probe_id {
            1
        } else {
            0
        };
        proof {
            assert(cells@.take(i + 1) =~= cells@.take(i as int).push(cells@[i as int]));
            assert(cells@.take(i + 1).map_values(|id: usize| cell_column(id, probe_id))
                =~= cells@.take(i as int).map_values(|id: usize| cell_column(id, probe_id)).push(
                cell_column(cells@[i as int], probe_id),
            ));
        }
        columns.push(Column { objective, lower: 0, upper: 1 });
    }
    assert(cells@.take(cells@.len() as int) =~= cells@);
    let ghost cell_columns = columns@;
    let mut rows: Vec<Row> = Vec::new();
    proof {
        assert(row_views(rows@) =~= Seq::new(0, |k: int| row_for(set, k)));
        assert(columns@ =~= cell_columns + Seq::new(0, |i: int| extra_column()));
    }
    for k in 0..list.len()
        invariant
            set == constraints@,
            set.wf(),
            cells@ == set.cells,
            constraint_views(list@) == set.constraints,
            cell_columns.len() == cells@.len(),
            forall|id: usize|
                cells@.contains(id) ==> #[trigger] lookup@.contains_key(id) && lookup@[id]
                    == cells@.index_of(id),
            columns@ == cell_columns + Seq::new(
                extras_before(set.constraints, k as nat),
                |i: int| extra_column(),
            ),
            row_views(rows@) == Seq::new(k as nat, |j: int| row_for(set, j)),
    {
        let constraint = &list[k];
        let ghost c = set.constraints[k as int];
        assert(constraint@ == c);
        proof {
            assert forall|j: int| 0 <= j < c.cells.len() implies cells@.contains(
                #[trigger] c.cells[j],
            ) by {}
            assert forall|j: int| 0 <= j < c.cells2.len() implies cells@.contains(
                #[trigger] c.cells2[j],
            ) by {}
        }
        let value = constraint.value as i128;
        let mut terms: Vec<(usize, i128)> = Vec::new();
        assert(term_views(terms@) =~= Seq::empty());
        push_terms(&lookup, &constraint.cells, 1, &mut terms, Ghost(cells@));
        assert(term_views(terms@) =~= cell_terms(cells@, c.cells, 1));
        let ghost extras = extras_before(set.constraints, k as nat);
        let row = match constraint.kind {
            ConstraintKind::Equality => Row { lower: value, upper: Some(value), terms },
            ConstraintKind::Minimum => Row { lower: value, upper: None, terms },
            ConstraintKind::BlackWhiteEquality => {
                push_terms(&lookup, &constraint.cells2, 2, &mut terms, Ghost(cells@));
                Row { lower: value, upper: Some(value), terms }
            },
            ConstraintKind::OffByOne => {
                let extra = columns.len();
                columns.push(Column { objective: 0, lower: 0, upper: 1 });
                proof {
                    let t = (extra, 2i128);
                    assert(term_views(terms@.push(t)) =~= term_views(terms@).push((extra as int, 2)));
                }
                terms.push((extra, 2));
                Row { lower: value + 1, upper: Some(value + 1), terms }
            },
            ConstraintKind::DifferenceOfColors(bias) => {
                push_terms(&lookup, &constraint.cells2, -1, &mut terms, Ghost(cells@));
                let extra = columns.len();
                columns.push(Column { objective: 0, lower: 0, upper: 1 });
                proof {
                    let t = (extra, (2 * value) as i128);
                    assert(term_views(terms@.push(t)) =~= term_views(terms@).push(
                        (extra as int, 2 * value),
                    ));
                }
                terms.push((extra, 2 * value));
                let bound = value - bias as i128;
                Row { lower: bound, upper: Some(bound), terms }
            },
        };
        proof {
            assert(row@ == row_for(set, k as int));
            assert(row_views(rows@.push(row)) =~= row_views(rows@).push(row@));
            assert(row_views(rows@).push(row@) =~= Seq::new((k + 1) as nat, |j: int| row_for(set, j)));
            assert(columns@ =~= cell_columns + Seq::new(
                extras_before(set.constraints, (k + 1) as nat),
                |i: int| extra_column(),
            ));
        }
        rows.push(row);
    }
    IntegerProgram { columns, rows }
}

/// Where a course of probes stands.
pub struct SessionView {
    pub set: ConstraintSetView,
    /// How many cells are probed already.
    pub position: nat,
    /// The cell in turn may be a mine, and its least value is asked for.
    pub minimising: bool,
    pub known: Deductions,
}

impl SessionView {
    /// Every cell is probed.
    pub open spec fn finished(self) -> bool {
        self.position >= self.set.cells.len()
    }

    /// How many answers the session can still take, at most: two for each cell
    /// that is not probed, less one where the greatest value of the cell in turn
    /// is known already.
    pub open spec fn answers_left(self) -> nat {
        if self.finished() {
            0
        } else if self.minimising {
            (2 * (self.set.cells.len() - self.position) - 1) as nat
        } else {
            (2 * (self.set.cells.len() - self.position)) as nat
        }
    }

    /// The cell in turn.
    pub open spec fn cell(self) -> usize {
        self.set.cells[self.position as int]
    }

    /// The session as it stands with the next cell in turn.
    pub open spec fn advance(self, known: Deductions) -> SessionView {
        SessionView { position: self.position + 1, minimising: false, known, ..self }
    }

    /// The session after an answer to what it asked. The greatest value of the
    /// cell in turn comes first: zero makes the cell safe, anything else asks for
    /// the least value, of which one makes the cell a mine. Then the next cell is
    /// in turn. An answer without an optimum, or where nothing was asked, is a
    /// fault and changes nothing.
    pub open spec fn step(self, answer: Optimum) -> Result<SessionView, ProbeError> {
        if self.finished() {
            Err(ProbeError::NothingAsked)
        } else {
            match answer {
                Optimum::NotOptimal => Err(ProbeError::NotOptimal),
                Optimum::Optimal(value) => if !self.minimising {
                    if value <= 0 {
                        Ok(
                            self.advance(
                                Deductions { safe: self.known.safe.insert(self.cell()), ..self.known },
                            ),
                        )
                    } else {
                        Ok(SessionView { minimising: true, ..self })
                    }
                } else {
                    if value >= 1 {
                        Ok(
                            self.advance(
                                Deductions {
                                    mines: self.known.mines.insert(self.cell()),
                                    ..self.known
                                },
                            ),
                        )
                    } else {
                        Ok(self.advance(self.known))
                    }
                },
            }
        }
    }
}

/// A course of probes ends. How many answers a session can still take falls with
/// each answer that it takes, so the session takes two answers for each cell at
/// most.
pub proof fn lemma_step_progress(session: SessionView, answer: Optimum)
    ensures
        session.step(answer) matches Ok(next) ==> next.set == session.set && next.answers_left()
            < session.answers_left() <= 2 * session.set.cells.len(),
{
}

/// The course of probes over the unrevealed cells of a board: each cell in
/// ascending order, its greatest value first and, where that is not zero, its
/// least. Whoever drives the session solves each program that it asks for and
/// hands it the optimum.
pub struct ProbeSession {
    constraints: ConstraintSet,
    position: usize,
    minimising: bool,
    known: KnownSquares,
}

impl View for ProbeSession {
    type V = SessionView;

    closed spec fn view(&self) -> SessionView {
        SessionView {
            set: self.constraints@,
            position: self.position as nat,
            minimising: self.minimising,
            known: self.known@,
        }
    }
}

impl ProbeSession {
    /// A session that has probed nothing yet.
    pub fn new(constraints: ConstraintSet) -> (session: ProbeSession)
        ensures
            session@ == (SessionView {
                set: constraints@,
                position: 0,
                minimising: false,
                known: Deductions::none(),
            }),
    {
        ProbeSession { constraints, position: 0, minimising: false, known: KnownSquares::new() }
    }

    /// Whether every cell is probed.
    pub fn is_finished(&self) -> (finished: bool)
        ensures
            finished == self@.finished(),
    {
        self.position >= self.constraints.cells().len()
    }

    /// The program to solve next and the direction to solve it in; none when every
    /// cell is probed.
    pub fn request(&self) -> (asked: Option<(IntegerProgram, Sense)>)
        ensures
            asked is None <==> self@.finished(),
            asked matches Some((program, sense)) ==> program@ == program_for(
                self@.set,
                self@.cell(),
            ) && sense == (if self@.minimising {
                Sense::Minimise
            } else {
                Sense::Maximise
            }),
    {
        let cells = self.constraints.cells();
        if self.position >= cells.len() {
            return None;
        }
        let program = probe_program(&self.constraints, cells[self.position]);
        let sense = if self.minimising {
            Sense::Minimise
        } else {
            Sense::Maximise
        };
        Some((program, sense))
    }

    /// Takes the optimum of the program that was asked for.
    pub fn answer(&mut self, answer: Optimum) -> (taken: Result<(), ProbeError>)
        ensures
            match old(self)@.step(answer) {
                Ok(next) => taken is Ok && final(self)@ == next,
                Err(e) => taken == Err::<(), ProbeError>(e) && final(self)@ == old(self)@,
            },
    {
        broadcast use vstd::std_specs::hash::group_hash_axioms;

        let cells = self.constraints.cells();
        if self.position >= cells.len() {
            return Err(ProbeError::NothingAsked);
        }
        let cell = cells[self.position];
        match answer {
            Optimum::NotOptimal => Err(ProbeError::NotOptimal),
            Optimum::Optimal(value) => {
                if !self.minimising {
                    if value <= 0 {
                        self.known.safe.insert(cell);
                        self.position = self.position + 1;
                    } else {
                        self.minimising = true;
                    }
                } else {
                    if value >= 1 {
                        self.known.mines.insert(cell);
                    }
                    self.position = self.position + 1;
                    self.minimising = false;
                }
                Ok(())
            },
        }
    }

    /// What the probes so far have made certain.
    pub fn known(&self) -> (known: &KnownSquares)
        ensures
            known@ == self@.known,
    {
        &self.known
    }

    /// What the probes have made certain, once every cell is probed.
    pub fn finish(self) -> (known: Option<KnownSquares>)
        ensures
            known is Some <==> self@.finished(),
            known matches Some(k) ==> k@ == self@.known,
    {
        if self.position >= self.constraints.cells().len() {
            Some(self.known)
        } else {
            None
        }
    }
}

} // verus!
