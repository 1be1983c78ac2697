//! The rules that read zones off a board: one zone per clue, one for the total
//! number of mines, one per 2x2 block, one per lonely flagged mine.

use crate::board::{all_cells, Board, BoardIndexable};
use crate::grid::{lemma_around, lemma_block_cells, Grid, MinesweeperCell, NextToPolicy};
use crate::rules::SolveError;
use crate::seqs::{lemma_filter_members, span, span_vec};
use crate::zone::{all_wf, between, views, Zone, ZoneView};
use vstd::prelude::*;

verus! {

/// The number of mines on a standard board of a given side.
pub open spec fn standard_mines(side: int) -> Option<usize> {
    if side == 5 {
        Some(10)
    } else if side == 6 {
        Some(14)
    } else if side == 7 {
        Some(20)
    } else if side == 8 {
        Some(26)
    } else {
        None
    }
}

/// The number of mines on a standard board; none for a side that is not supported.
pub fn total_mines(size: usize) -> (total: Option<usize>)
    ensures
        total == standard_mines(size as int),
{
    match size {
        5 => Some(10),
        6 => Some(14),
        7 => Some(20),
        8 => Some(26),
        _ => None,
    }
}

/// A rule that looks at one cell and may give one zone.
#[derive(Copy, Clone, Debug, PartialEq, Eq, Structural)]
pub enum CellZoneRule {
    /// A clue counts the mines among its neighbours under a policy.
    Number(NextToPolicy),
    /// A flagged mine with no flagged neighbour has a mine among its unrevealed
    /// neighbours.
    ConnectedMine,
}

/// A rule that reads zones off a board.
#[derive(Copy, Clone, Debug, PartialEq, Eq, Structural)]
pub enum ZoneRule {
    /// A zone for each clue, over its neighbours one step away.
    NumberAround,
    /// A zone for each clue, over its orthogonal neighbours up to two steps away.
    NumberCross,
    /// One zone over all unrevealed cells, for the total number of mines.
    TotalMines,
    /// A zone for each 2x2 block without a flag: it holds a mine.
    QuadBlocks,
    /// A zone for each flagged mine without a flagged neighbour.
    ConnectedMines,
}

/// A list with one more item, where there is one more; the first fault stands.
pub open spec fn with_zone<T>(
    zones: Result<Seq<T>, SolveError>,
    next: Result<Option<T>, SolveError>,
) -> Result<Seq<T>, SolveError> {
    match zones {
        Err(e) => Err(e),
        Ok(zs) => match next {
            Err(e) => Err(e),
            Ok(None) => Ok(zs),
            Ok(Some(z)) => Ok(zs.push(z)),
        },
    }
}

/// A list followed by another; the first fault stands.
pub open spec fn with_zones<T>(
    zones: Result<Seq<T>, SolveError>,
    more: Result<Seq<T>, SolveError>,
) -> Result<Seq<T>, SolveError> {
    match zones {
        Err(e) => Err(e),
        Ok(zs) => match more {
            Err(e) => Err(e),
            Ok(ms) => Ok(zs + ms),
        },
    }
}

/// The zone of a clue: its unrevealed neighbours hold the clue's number less the
/// flagged neighbours. No zone without an unrevealed neighbour; a fault where more
/// neighbours are flagged than the clue says.
pub open spec fn clue_zone(grid: Grid, index: int, policy: NextToPolicy) -> Result<
    Option<ZoneView>,
    SolveError,
> {
    match grid.cells[index] {
        MinesweeperCell::Number(x) => {
            let around = grid.next_to(index, policy);
            let open = grid.unrevealed_among(around);
            let flagged = grid.flagged_among(around);
            if open.len() == 0 {
                Ok(None)
            } else if flagged > x {
                Err(SolveError::TooManyFlags)
            } else {
                Ok(Some(ZoneView { cells: open.to_set(), counts: set![(x - flagged) as usize] }))
            }
        },
        _ => Ok(None),
    }
}

/// The zone of a flagged mine that no flagged cell touches: one to all of its
/// unrevealed neighbours are mines. A fault where it has no unrevealed neighbour.
pub open spec fn lonely_mine_zone(grid: Grid, index: int) -> Result<Option<ZoneView>, SolveError> {
    match grid.cells[index] {
        MinesweeperCell::Mine => {
            let around = grid.eight_around(index);
            let open = grid.unrevealed_among(around);
            if grid.flagged_among(around) > 0 {
                Ok(None)
            } else if open.len() == 0 {
                Err(SolveError::IsolatedMine)
            } else {
                Ok(Some(ZoneView { cells: open.to_set(), counts: between(1, open.len() as int) }))
            }
        },
        _ => Ok(None),
    }
}

/// What a cell rule gives at one cell.
pub open spec fn cell_zone(rule: CellZoneRule, grid: Grid, index: int) -> Result<
    Option<ZoneView>,
    SolveError,
> {
    match rule {
        CellZoneRule::Number(policy) => clue_zone(grid, index, policy),
        CellZoneRule::ConnectedMine => lonely_mine_zone(grid, index),
    }
}

/// What a cell rule gives on the first `n` cells, in their order.
pub open spec fn cell_zones(rule: CellZoneRule, grid: Grid, n: nat) -> Result<
    Seq<ZoneView>,
    SolveError,
>
    decreases n,
{
    if n == 0 {
        Ok(Seq::empty())
    } else {
        with_zone(cell_zones(rule, grid, (n - 1) as nat), cell_zone(rule, grid, n - 1))
    }
}

/// The zone of the total: the unrevealed cells hold the mines that are not flagged.
/// No zone where no cell is unrevealed.
pub open spec fn total_zone(grid: Grid) -> Result<Seq<ZoneView>, SolveError> {
    let open = grid.unrevealed_among(grid.all_indices());
    let flagged = grid.flagged_among(grid.all_indices());
    match standard_mines(grid.side) {
        None => Err(SolveError::BadBoardSize),
        Some(total) => if flagged > total {
            Err(SolveError::TooManyFlags)
        } else if open.len() == 0 {
            Ok(Seq::empty())
        } else {
            Ok(seq![ZoneView { cells: open.to_set(), counts: set![(total - flagged) as usize] }])
        },
    }
}

/// The zone of a 2x2 block without a flag: one to four of its unrevealed cells are
/// mines. No zone where the block has no unrevealed cell.
pub open spec fn block_zone(grid: Grid, x: int, y: int) -> Option<ZoneView> {
    let cells = grid.block(x, y);
    let open = grid.unrevealed_among(cells);
    if grid.flagged_among(cells) > 0 || open.len() == 0 {
        None
    } else {
        Some(ZoneView { cells: open.to_set(), counts: between(1, 4) })
    }
}

/// The zones of the first `rows` blocks whose left column is `x`, from the top.
pub open spec fn block_column_zones(grid: Grid, x: int, rows: nat) -> Seq<ZoneView>
    decreases rows,
{
    if rows == 0 {
        Seq::empty()
    } else {
        let above = block_column_zones(grid, x, (rows - 1) as nat);
        match block_zone(grid, x, rows - 1) {
            Some(z) => above.push(z),
            None => above,
        }
    }
}

/// How many 2x2 blocks fit side by side on the grid.
pub open spec fn blocks_per_line(grid: Grid) -> nat {
    if grid.side >= 1 {
        (grid.side - 1) as nat
    } else {
        0
    }
}

/// The zones of the blocks whose left column is one of the first `columns`, column
/// by column.
pub open spec fn block_zones(grid: Grid, columns: nat) -> Seq<ZoneView>
    decreases columns,
{
    if columns == 0 {
        Seq::empty()
    } else {
        block_zones(grid, (columns - 1) as nat) + block_column_zones(
            grid,
            columns - 1,
            blocks_per_line(grid),
        )
    }
}

/// The zones that a rule reads off a board.
pub open spec fn rule_zones(rule: ZoneRule, grid: Grid) -> Result<Seq<ZoneView>, SolveError> {
    match rule {
        ZoneRule::NumberAround => cell_zones(
            CellZoneRule::Number(NextToPolicy::EightAround),
            grid,
            grid.area() as nat,
        ),
        ZoneRule::NumberCross => cell_zones(
            CellZoneRule::Number(NextToPolicy::XScape),
            grid,
            grid.area() as nat,
        ),
        ZoneRule::TotalMines => total_zone(grid),
        ZoneRule::QuadBlocks => Ok(block_zones(grid, blocks_per_line(grid))),
        ZoneRule::ConnectedMines => cell_zones(
            CellZoneRule::ConnectedMine,
            grid,
            grid.area() as nat,
        ),
    }
}

/// The zones that the first `n` rules of a list read off a board, rule by rule.
pub open spec fn generate(rules: Seq<ZoneRule>, grid: Grid, n: nat) -> Result<
    Seq<ZoneView>,
    SolveError,
>
    decreases n,
{
    if n == 0 {
        Ok(Seq::empty())
    } else {
        with_zones(generate(rules, grid, (n - 1) as nat), rule_zones(rules[n - 1], grid))
    }
}

/// The zones found are well formed and are the zones named, or the fault is the
/// fault named.
pub open spec fn zones_are(found: Result<Vec<Zone>, SolveError>, named: Result<
    Seq<ZoneView>,
    SolveError,
>) -> bool {
    match (found, named) {
        (Ok(zs), Ok(vs)) => all_wf(zs@) && views(zs@) == vs,
        (Err(e), Err(f)) => e == f,
        _ => false,
    }
}

/// A fault on the first cells is the fault on all.
pub proof fn lemma_cell_fault_stands(rule: CellZoneRule, grid: Grid, k: nat, n: nat)
    requires
        k <= n,
        cell_zones(rule, grid, k) is Err,
    ensures
        cell_zones(rule, grid, n) == cell_zones(rule, grid, k),
    decreases n,
{
    if k < n {
        lemma_cell_fault_stands(rule, grid, k, (n - 1) as nat);
    }
}

/// A fault of the first rules is the fault of all.
pub proof fn lemma_rule_fault_stands(rules: Seq<ZoneRule>, grid: Grid, k: nat, n: nat)
    requires
        k <= n,
        generate(rules, grid, k) is Err,
    ensures
        generate(rules, grid, n) == generate(rules, grid, k),
    decreases n,
{
    if k < n {
        lemma_rule_fault_stands(rules, grid, k, (n - 1) as nat);
    }
}

/// The unrevealed cells among a neighbour list: each once, each on the grid.
proof fn lemma_open_cells(grid: Grid, around: Seq<usize>)
    requires
        around.no_duplicates(),
    ensures
        grid.unrevealed_among(around).no_duplicates(),
        forall|c: usize| #[trigger]
            grid.unrevealed_among(around).contains(c) ==> around.contains(c)
                && grid.is_unrevealed(c as int),
{
    lemma_filter_members(around, grid.unrevealed_pred());
}

/// A list of one count is the set of that count.
proof fn lemma_single(v: usize)
    ensures
        seq![v].to_set() == set![v],
{
    assert(seq![v][0] == v);
    assert(seq![v].to_set() =~= set![v]);
}

/// The list `lo..=hi` is the set of the numbers between them.
pub proof fn lemma_span_set(lo: usize, hi: usize)
    requires
        lo <= hi,
    ensures
        span(lo as int, hi as int).to_set() == between(lo as int, hi as int),
{
    let sp = span(lo as int, hi as int);
    assert forall|c: usize| sp.to_set().contains(c) <==> between(lo as int, hi as int).contains(
        c,
    ) by {
        if lo <= c <= hi {
            assert(sp[c - lo] == c);
        }
    }
    assert(sp.to_set() =~= between(lo as int, hi as int));
}

/// The zone of a clue at `index`, if the cell is a clue with an unrevealed neighbour.
pub fn number_zone(index: usize, board: &Board, policy: NextToPolicy) -> (zone: Result<
    Option<Zone>,
    SolveError,
>)
    requires
        board@.complete(),
        board@.in_range(index as int),
    ensures
        crate::rules::derived_is(zone, clue_zone(board@, index as int, policy)),
{
    let x = match board.rows[index] {
        MinesweeperCell::Number(i) => i,
        _ => {
            return Ok(None);
        },
    };
    assert(board@.area() == board.rows.len());
    let next_to = board.get_next_to(index, policy);
    proof {
        lemma_around(board@, index as int, policy);
        lemma_open_cells(board@, next_to@);
    }
    let (empty, bomb) = board.empty_and_mine_count(&next_to);
    if empty.len() == 0 {
        return Ok(None);
    }
    if bomb > x {
        return Err(SolveError::TooManyFlags);
    }
    let count = x - bomb;
    let zone = Zone::from_parts(empty, vec![count]);
    proof {
        zone.lemma_view();
        lemma_single(count);
        assert(zone.count_seq() =~= seq![count]);
    }
    Ok(Some(zone))
}

/// The zone of a flagged mine at `index`, if the cell is one that no flagged cell
/// touches.
pub fn connected_zone(index: usize, board: &Board) -> (zone: Result<Option<Zone>, SolveError>)
    requires
        board@.complete(),
        board@.in_range(index as int),
    ensures
        crate::rules::derived_is(zone, lonely_mine_zone(board@, index as int)),
{
    if board.rows[index] != MinesweeperCell::Mine {
        return Ok(None);
    }
    assert(board@.area() == board.rows.len());
    let next_to = board.get_next_to(index, NextToPolicy::EightAround);
    proof {
        lemma_around(board@, index as int, NextToPolicy::EightAround);
        lemma_open_cells(board@, next_to@);
    }
    let (empty, bomb) = board.empty_and_mine_count(&next_to);
    if bomb > 0 {
        return Ok(None);
    }
    if empty.len() == 0 {
        return Err(SolveError::IsolatedMine);
    }
    let counts = span_vec(1, empty.len());
    let zone = Zone::from_parts(empty, counts);
    proof {
        zone.lemma_view();
        lemma_span_set(1, empty@.len() as usize);
    }
    Ok(Some(zone))
}

/// What a cell rule gives at every cell of the board, in the order of the cells.
pub fn apply_to_all_squares(board: &Board, rule: CellZoneRule) -> (zones: Result<
    Vec<Zone>,
    SolveError,
>)
    requires
        board@.complete(),
    ensures
        zones_are(zones, cell_zones(rule, board@, board@.area() as nat)),
{
    assert(board@.area() == board.rows.len());
    let n = board.rows.len();
    let mut zones: Vec<Zone> = Vec::new();
    assert(views(zones@) =~= Seq::empty());
    for i in 0..n
        invariant
            board@.complete(),
            n == board@.area(),
            all_wf(zones@),
            cell_zones(rule, board@, i as nat) == Ok::<_, SolveError>(views(zones@)),
    {
        let found = match rule {
            CellZoneRule::Number(policy) => number_zone(i, board, policy),
            CellZoneRule::ConnectedMine => connected_zone(i, board),
        };
        match found {
            Err(e) => {
                proof {
                    lemma_cell_fault_stands(rule, board@, (i + 1) as nat, n as nat);
                }
                return Err(e);
            },
            Ok(None) => {},
            Ok(Some(zone)) => {
                proof {
                    assert(views(zones@.push(zone)) =~= views(zones@).push(zone@));
                }
                zones.push(zone);
            },
        }
    }
    Ok(zones)
}

/// A zone for each clue, over its neighbours one step away.
pub fn add_zone_for_number_v(board: &Board) -> (zones: Result<Vec<Zone>, SolveError>)
    requires
        board@.complete(),
    ensures
        zones_are(zones, rule_zones(ZoneRule::NumberAround, board@)),
{
    apply_to_all_squares(board, CellZoneRule::Number(NextToPolicy::EightAround))
}

/// A zone for each clue, over its orthogonal neighbours up to two steps away.
pub fn add_zone_for_number_x(board: &Board) -> (zones: Result<Vec<Zone>, SolveError>)
    requires
        board@.complete(),
    ensures
        zones_are(zones, rule_zones(ZoneRule::NumberCross, board@)),
{
    apply_to_all_squares(board, CellZoneRule::Number(NextToPolicy::XScape))
}

/// A zone for each flagged mine that no flagged cell touches.
pub fn add_connected_mines(board: &Board) -> (zones: Result<Vec<Zone>, SolveError>)
    requires
        board@.complete(),
    ensures
        zones_are(zones, rule_zones(ZoneRule::ConnectedMines, board@)),
{
    apply_to_all_squares(board, CellZoneRule::ConnectedMine)
}

/// The zone of the total number of mines of a standard board.
pub fn total_mines_standard(board: &Board) -> (zones: Result<Vec<Zone>, SolveError>)
    requires
        board@.complete(),
    ensures
        zones_are(zones, rule_zones(ZoneRule::TotalMines, board@)),
{
    let total_count = match total_mines(board.size) {
        Some(total) => total,
        None => {
            return Err(SolveError::BadBoardSize);
        },
    };
    assert(board@.area() == board.rows.len());
    let all = all_cells(board);
    proof {
        lemma_open_cells(board@, all@);
    }
    let (cells, mines) = board.empty_and_mine_count(&all);
    if mines > total_count {
        return Err(SolveError::TooManyFlags);
    }
    let mut zones: Vec<Zone> = Vec::new();
    if cells.len() == 0 {
        assert(views(zones@) =~= Seq::empty());
        return Ok(zones);
    }
    let count = total_count - mines;
    let zone = Zone::from_parts(cells, vec![count]);
    proof {
        zone.lemma_view();
        lemma_single(count);
        assert(zone.count_seq() =~= seq![count]);
        assert(views(zones@.push(zone)) =~= seq![zone@]);
    }
    zones.push(zone);
    Ok(zones)
}

/// A zone for each 2x2 block that holds no flagged cell.
pub fn add_q_spaces(board: &Board) -> (zones: Result<Vec<Zone>, SolveError>)
    requires
        board@.complete(),
    ensures
        zones_are(zones, rule_zones(ZoneRule::QuadBlocks, board@)),
{
    let mut zones: Vec<Zone> = Vec::new();
    assert(views(zones@) =~= Seq::empty());
    if board.size == 0 {
        return Ok(zones);
    }
    assert(board@.area() == board.rows.len());
    let count = board.size - 1;
    for x in 0..count
        invariant
            board@.complete(),
            count == board.size - 1,
            board@.area() == board.rows.len(),
            all_wf(zones@),
            views(zones@) == block_zones(board@, x as nat),
    {
        let ghost before = views(zones@);
        for y in 0..count
            invariant
                board@.complete(),
                count == board.size - 1,
                board@.area() == board.rows.len(),
                0 <= x < count,
                all_wf(zones@),
                before == block_zones(board@, x as nat),
                views(zones@) == before + block_column_zones(board@, x as int, y as nat),
        {
            proof {
                lemma_block_cells(board@, x as int, y as int);
            }
            let cells = vec![
                x + y * board.size,
                x + y * board.size + 1,
                x + (y + 1) * board.size,
                x + (y + 1) * board.size + 1,
            ];
            assert(cells@ =~= board@.block(x as int, y as int));
            proof {
                lemma_open_cells(board@, cells@);
            }
            let (new_cells, mines) = board.empty_and_mine_count(&cells);
            if mines == 0 && new_cells.len() > 0 {
                let zone = Zone::from_parts(new_cells, vec![1, 2, 3, 4]);
                proof {
                    zone.lemma_view();
                    let s = seq![1usize, 2usize, 3usize, 4usize];
                    assert(zone.count_seq() =~= s);
                    assert(s[0] == 1 && s[1] == 2 && s[2] == 3 && s[3] == 4);
                    assert(s.to_set() =~= between(1, 4));
                    assert(views(zones@.push(zone)) =~= views(zones@).push(zone@));
                    assert(views(zones@).push(zone@) =~= before + block_column_zones(
                        board@,
                        x as int,
                        y as nat,
                    ).push(zone@));
                }
                zones.push(zone);
            }
        }
    }
    Ok(zones)
}

/// The zones that a rule reads off a board.
pub fn zones_of_rule(rule: ZoneRule, board: &Board) -> (zones: Result<Vec<Zone>, SolveError>)
    requires
        board@.complete(),
    ensures
        zones_are(zones, rule_zones(rule, board@)),
{
    match rule {
        ZoneRule::NumberAround => add_zone_for_number_v(board),
        ZoneRule::NumberCross => add_zone_for_number_x(board),
        ZoneRule::TotalMines => total_mines_standard(board),
        ZoneRule::QuadBlocks => add_q_spaces(board),
        ZoneRule::ConnectedMines => add_connected_mines(board),
    }
}

/// Appends a list of zones to another.
pub fn append_zones(zones: &mut Vec<Zone>, more: Vec<Zone>)
    requires
        all_wf(old(zones)@),
        all_wf(more@),
    ensures
        all_wf(final(zones)@),
        final(zones)@ == old(zones)@ + more@,
        views(final(zones)@) == views(old(zones)@) + views(more@),
{
    let mut more = more;
    let ghost added = more@;
    zones.append(&mut more);
    assert(views(zones@) =~= views(old(zones)@) + views(added));
}

} // verus!
