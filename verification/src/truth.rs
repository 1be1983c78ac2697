//! What the zones and the rules mean: a layout of mines that a board came from, and
//! the proof that the rule-based solver says nothing false of such a layout.

use crate::algorithms::{
    combine, combine_all, derive_all, derive_from, index_pairs, lemma_pairs_from,
    overlap_deductions, pair_deductions, pair_zones, paired_deductions, resolve_one, resolve_two,
    single_deductions, zone_deductions, RuleBundle, SolveRule, SolveRuleTwo, ZoneCombineRule,
};
use crate::generation::{
    block_column_zones, block_zone, block_zones, blocks_per_line, cell_zones, clue_zone,
    generate, lonely_mine_zone, rule_zones, standard_mines, total_zone, CellZoneRule, ZoneRule,
};
use crate::grid::{lemma_around, lemma_block_cells, Grid, MinesweeperCell, NextToPolicy};
use crate::rules::{
    min_bound_rule, small_overlap_rule, strict_subset_rule, Deductions, SolveError,
};
use crate::seqs::{lemma_filter_members, lemma_len_of_set};
use crate::zone::{between, differences, ZoneView};
use vstd::prelude::*;
use vstd::set_lib::{lemma_len_intersect, lemma_set_disjoint_lens};

verus! {

/// How many of `cells` are mines of a layout.
pub open spec fn mines_in(cells: Set<usize>, layout: Set<usize>) -> nat {
    cells.intersect(layout).len()
}

/// What a zone says is true of a layout.
pub open spec fn zone_holds(z: ZoneView, layout: Set<usize>) -> bool {
    exists|c: usize| z.counts.contains(c) && c == mines_in(z.cells, layout)
}

/// Every zone of a list is well formed and true of a layout.
pub open spec fn all_hold(zones: Seq<ZoneView>, layout: Set<usize>) -> bool {
    forall|k: int| 0 <= k < zones.len() ==> (#[trigger] zones[k]).wf() && zone_holds(zones[k], layout)
}

/// Nothing said is false: every cell called a mine is one, and no cell called safe.
pub open spec fn sound(d: Deductions, layout: Set<usize>) -> bool {
    d.mines.subset_of(layout) && d.safe.disjoint(layout)
}

/// The layout fits what the board shows: its mines lie on the board, under
/// unrevealed or flagged cells, and every flagged cell is a mine.
pub open spec fn agrees(grid: Grid, layout: Set<usize>) -> bool {
    &&& grid.complete()
    &&& grid.area() <= usize::MAX
    &&& layout.finite()
    &&& forall|c: usize|
        layout.contains(c) ==> grid.in_range(c as int) && (grid.is_unrevealed(c as int)
            || grid.is_flagged(c as int))
    &&& forall|c: usize| grid.in_range(c as int) && grid.is_flagged(c as int) ==> layout.contains(c)
}

/// Every clue is the number of mines among the clue's neighbours.
pub open spec fn clues_true(grid: Grid, layout: Set<usize>, policy: NextToPolicy) -> bool {
    forall|i: int|
        grid.in_range(i) ==> (#[trigger] grid.cells[i] matches MinesweeperCell::Number(x)
            ==> mines_in(grid.next_to(i, policy).to_set(), layout) == x)
}

/// What a rule that reads zones off a board takes the game to be.
pub open spec fn rule_true(rule: ZoneRule, grid: Grid, layout: Set<usize>) -> bool {
    match rule {
        ZoneRule::NumberAround => clues_true(grid, layout, NextToPolicy::EightAround),
        ZoneRule::NumberCross => clues_true(grid, layout, NextToPolicy::XScape),
        ZoneRule::TotalMines => standard_mines(grid.side) matches Some(total) && total
            == layout.len(),
        ZoneRule::QuadBlocks => forall|x: int, y: int|
            0 <= x < grid.side - 1 && 0 <= y < grid.side - 1 ==> mines_in(
                #[trigger] grid.block(x, y).to_set(),
                layout,
            ) >= 1,
        ZoneRule::ConnectedMines => forall|m: usize| #[trigger]
            layout.contains(m) ==> mines_in(grid.eight_around(m as int).to_set(), layout) >= 1,
    }
}

/// The board came from the layout under the game that the rules are for.
pub open spec fn consistent(rules: Seq<ZoneRule>, grid: Grid, layout: Set<usize>) -> bool {
    &&& agrees(grid, layout)
    &&& forall|k: int| 0 <= k < rules.len() ==> rule_true(#[trigger] rules[k], grid, layout)
}

/// The mines among two sets of cells that share no cell add up.
pub proof fn lemma_mines_split(x: Set<usize>, y: Set<usize>, layout: Set<usize>)
    requires
        x.finite(),
        y.finite(),
        x.disjoint(y),
    ensures
        mines_in(x.union(y), layout) == mines_in(x, layout) + mines_in(y, layout),
        mines_in(x, layout) <= x.len(),
        mines_in(y, layout) <= y.len(),
{
    let xl = x.intersect(layout);
    let yl = y.intersect(layout);
    assert(x.union(y).intersect(layout) =~= xl.union(yl));
    assert(xl.disjoint(yl));
    lemma_set_disjoint_lens(xl, yl);
    lemma_len_intersect(x, layout);
    lemma_len_intersect(y, layout);
}

/// Cells that hold as many mines as there are cells are all mines; cells that
/// hold none are all safe.
pub proof fn lemma_all_or_none(x: Set<usize>, layout: Set<usize>)
    requires
        x.finite(),
    ensures
        mines_in(x, layout) <= x.len(),
        mines_in(x, layout) == x.len() ==> x.subset_of(layout),
        mines_in(x, layout) == 0 ==> x.disjoint(layout),
{
    let xl = x.intersect(layout);
    lemma_len_intersect(x, layout);
    if xl.len() == x.len() {
        vstd::set_lib::lemma_subset_equality(xl, x);
        assert(xl =~= x);
        assert forall|c: usize| x.contains(c) implies layout.contains(c) by {
            assert(xl.contains(c));
        }
    }
    if xl.len() == 0 {
        assert forall|c: usize| x.contains(c) && layout.contains(c) implies false by {
            assert(xl.contains(c));
        }
    }
}

/// The mines of two zones, by the cells of each alone and the cells of both.
pub proof fn lemma_sections(a: ZoneView, b: ZoneView, layout: Set<usize>)
    requires
        a.cells.finite(),
        b.cells.finite(),
    ensures
        a.only(b).finite() && b.only(a).finite() && a.shared(b).finite(),
        mines_in(a.cells, layout) == mines_in(a.only(b), layout) + mines_in(a.shared(b), layout),
        mines_in(b.cells, layout) == mines_in(b.only(a), layout) + mines_in(a.shared(b), layout),
        mines_in(a.only(b), layout) <= a.only(b).len(),
        mines_in(b.only(a), layout) <= b.only(a).len(),
        a.cells.subset_of(b.cells) <==> a.only(b).len() == 0,
        b.cells.subset_of(a.cells) <==> b.only(a).len() == 0,
{
    let x = a.only(b);
    let y = a.shared(b);
    let z = b.only(a);
    assert(x.union(y) =~= a.cells);
    assert(z.union(y) =~= b.cells);
    lemma_mines_split(x, y, layout);
    lemma_mines_split(z, y, layout);
    crate::rules::lemma_only_none(a, b);
    crate::rules::lemma_only_none(b, a);
}

/// The zone that is left where one zone lies inside the other is true, and no
/// fault comes of two true zones.
pub proof fn lemma_strict_subset_sound(a: ZoneView, b: ZoneView, layout: Set<usize>)
    requires
        a.wf() && b.wf(),
        zone_holds(a, layout) && zone_holds(b, layout),
    ensures
        strict_subset_rule(a, b) is Ok,
        strict_subset_rule(a, b) matches Ok(Some(z)) ==> z.wf() && zone_holds(z, layout),
{
    lemma_sections(a, b, layout);
    a.lemma_bounds();
    b.lemma_bounds();
    let ma = choose|c: usize| a.counts.contains(c) && c == mines_in(a.cells, layout);
    let mb = choose|c: usize| b.counts.contains(c) && c == mines_in(b.cells, layout);
    lemma_all_or_none(a.only(b), layout);
    lemma_all_or_none(b.only(a), layout);
    if a.cells.subset_of(b.cells) {
        assert(ma <= mb);
        if !b.cells.subset_of(a.cells) {
            let d = (mb - ma) as usize;
            let z = ZoneView { cells: b.only(a), counts: differences(a.counts, b.counts) };
            assert(a.counts.contains(ma) && b.counts.contains(mb) && ma <= mb && d == mb - ma);
            assert(z.counts.contains(d) && d == mines_in(z.cells, layout));
        }
    } else if b.cells.subset_of(a.cells) {
        assert(mb <= ma);
        let d = (ma - mb) as usize;
        let z = ZoneView { cells: a.only(b), counts: differences(b.counts, a.counts) };
        assert(b.counts.contains(mb) && a.counts.contains(ma) && mb <= ma && d == ma - mb);
        assert(z.counts.contains(d) && d == mines_in(z.cells, layout));
    }
}

/// The bound that a zone's need for mines in the overlap gives is true, and no
/// fault comes of two true zones.
pub proof fn lemma_min_bound_sound(a: ZoneView, b: ZoneView, layout: Set<usize>)
    requires
        a.wf() && b.wf(),
        zone_holds(a, layout) && zone_holds(b, layout),
    ensures
        min_bound_rule(a, b) is Ok,
        min_bound_rule(a, b) matches Ok(Some(z)) ==> z.wf() && zone_holds(z, layout),
{
    lemma_sections(a, b, layout);
    a.lemma_bounds();
    b.lemma_bounds();
    let ma = choose|c: usize| a.counts.contains(c) && c == mines_in(a.cells, layout);
    let mb = choose|c: usize| b.counts.contains(c) && c == mines_in(b.cells, layout);
    let x = a.only(b).len();
    let z = b.only(a).len();
    if x == 0 || z == 0 {
    } else if a.min() > x {
        let c = mines_in(b.only(a), layout) as usize;
        let d = ZoneView { cells: b.only(a), counts: between(0, b.max() - (a.min() - x)) };
        assert(d.counts.contains(c) && c == mines_in(d.cells, layout));
    } else if b.min() > z {
        let c = mines_in(a.only(b), layout) as usize;
        let d = ZoneView { cells: a.only(b), counts: between(0, a.max() - (b.min() - z)) };
        assert(d.counts.contains(c) && c == mines_in(d.cells, layout));
    }
}

/// The bound that two separate ranges of counts give is true.
pub proof fn lemma_small_overlap_sound(a: ZoneView, b: ZoneView, layout: Set<usize>)
    requires
        a.wf() && b.wf(),
        zone_holds(a, layout) && zone_holds(b, layout),
    ensures
        small_overlap_rule(a, b) is Ok,
        small_overlap_rule(a, b) matches Ok(Some(z)) ==> z.wf() && zone_holds(z, layout),
{
    lemma_sections(a, b, layout);
    a.lemma_bounds();
    b.lemma_bounds();
    let ma = choose|c: usize| a.counts.contains(c) && c == mines_in(a.cells, layout);
    let mb = choose|c: usize| b.counts.contains(c) && c == mines_in(b.cells, layout);
    if a.only(b).len() == 0 || b.only(a).len() == 0 {
    } else if a.max() < b.min() {
        let c = mines_in(b.only(a), layout) as usize;
        let d = ZoneView { cells: b.only(a), counts: between(b.min() - a.max(), b.max() as int) };
        assert(d.counts.contains(c) && c == mines_in(d.cells, layout));
    } else if b.max() < a.min() {
        let c = mines_in(a.only(b), layout) as usize;
        let d = ZoneView { cells: a.only(b), counts: between(a.min() - b.max(), a.max() as int) };
        assert(d.counts.contains(c) && c == mines_in(d.cells, layout));
    }
}

/// What a combination rule derives from two true zones is true.
pub proof fn lemma_combine_sound(rule: ZoneCombineRule, a: ZoneView, b: ZoneView, layout: Set<usize>)
    requires
        a.wf() && b.wf(),
        zone_holds(a, layout) && zone_holds(b, layout),
    ensures
        combine(rule, a, b) is Ok,
        combine(rule, a, b) matches Ok(Some(z)) ==> z.wf() && zone_holds(z, layout),
{
    match rule {
        ZoneCombineRule::SmallOverlap => lemma_small_overlap_sound(a, b, layout),
        ZoneCombineRule::MinBound => lemma_min_bound_sound(a, b, layout),
        ZoneCombineRule::StrictSubset => lemma_strict_subset_sound(a, b, layout),
    }
}

/// What the rules derive from two true zones is true.
pub proof fn lemma_combine_all_hold(
    rules: Seq<ZoneCombineRule>,
    a: ZoneView,
    b: ZoneView,
    layout: Set<usize>,
    n: nat,
)
    requires
        n <= rules.len(),
        a.wf() && b.wf(),
        zone_holds(a, layout) && zone_holds(b, layout),
    ensures
        combine_all(rules, a, b, n) matches Ok(zs) && all_hold(zs, layout),
    decreases n,
{
    if n > 0 {
        lemma_combine_all_hold(rules, a, b, layout, (n - 1) as nat);
        lemma_combine_sound(rules[n - 1], a, b, layout);
    }
}

/// The pairs name zones of the list.
pub open spec fn pairs_fit(pairs: Seq<Seq<usize>>, n: nat) -> bool {
    forall|k: int|
        0 <= k < pairs.len() ==> {
            let p = #[trigger] pairs[k];
            p.len() == 2 && p[0] < n && p[1] < n
        }
}

/// What the rules derive from true zones is true.
pub proof fn lemma_derive_hold(
    rules: Seq<ZoneCombineRule>,
    zones: Seq<ZoneView>,
    pairs: Seq<Seq<usize>>,
    layout: Set<usize>,
    k: nat,
)
    requires
        k <= pairs.len(),
        pairs_fit(pairs, zones.len()),
        all_hold(zones, layout),
    ensures
        derive_from(rules, zones, pairs, k) matches Ok(zs) && all_hold(zs, layout),
    decreases k,
{
    if k > 0 {
        lemma_derive_hold(rules, zones, pairs, layout, (k - 1) as nat);
        let pair = pairs[k - 1];
        let a = zones[pair[0] as int];
        let b = zones[pair[1] as int];
        lemma_combine_all_hold(rules, a, b, layout, rules.len());
        assert(pair_zones(rules, zones, pair) matches Ok(zs) && all_hold(zs, layout));
    }
}

/// What a rule makes certain of a true zone is so.
pub proof fn lemma_resolve_one_sound(rule: SolveRule, z: ZoneView, layout: Set<usize>)
    requires
        z.wf(),
        zone_holds(z, layout),
    ensures
        sound(resolve_one(rule, z), layout),
{
    z.lemma_bounds();
    lemma_all_or_none(z.cells, layout);
}

/// What a rule makes certain of two true zones is so.
pub proof fn lemma_resolve_two_sound(rule: SolveRuleTwo, a: ZoneView, b: ZoneView, layout: Set<usize>)
    requires
        a.wf() && b.wf(),
        zone_holds(a, layout) && zone_holds(b, layout),
    ensures
        sound(resolve_two(rule, a, b), layout),
{
    lemma_sections(a, b, layout);
    a.lemma_bounds();
    b.lemma_bounds();
    lemma_all_or_none(a.only(b), layout);
    lemma_all_or_none(b.only(a), layout);
    lemma_all_or_none(a.shared(b), layout);
}

/// What the rules make certain of a true zone is so.
pub proof fn lemma_zone_deductions_sound(rules: Seq<SolveRule>, z: ZoneView, layout: Set<usize>, n: nat)
    requires
        n <= rules.len(),
        z.wf(),
        zone_holds(z, layout),
    ensures
        sound(zone_deductions(rules, z, n), layout),
    decreases n,
{
    if n > 0 {
        lemma_zone_deductions_sound(rules, z, layout, (n - 1) as nat);
        lemma_resolve_one_sound(rules[n - 1], z, layout);
    }
}

/// What the rules make certain of true zones, each alone, is so.
pub proof fn lemma_single_sound(rules: Seq<SolveRule>, zones: Seq<ZoneView>, layout: Set<usize>, k: nat)
    requires
        k <= zones.len(),
        all_hold(zones, layout),
    ensures
        sound(single_deductions(rules, zones, k), layout),
    decreases k,
{
    if k > 0 {
        lemma_single_sound(rules, zones, layout, (k - 1) as nat);
        lemma_zone_deductions_sound(rules, zones[k - 1], layout, rules.len());
    }
}

/// What the rules make certain of two true zones is so.
pub proof fn lemma_overlap_sound(
    rules: Seq<SolveRuleTwo>,
    a: ZoneView,
    b: ZoneView,
    layout: Set<usize>,
    n: nat,
)
    requires
        n <= rules.len(),
        a.wf() && b.wf(),
        zone_holds(a, layout) && zone_holds(b, layout),
    ensures
        sound(overlap_deductions(rules, a, b, n), layout),
    decreases n,
{
    if n > 0 {
        lemma_overlap_sound(rules, a, b, layout, (n - 1) as nat);
        lemma_resolve_two_sound(rules[n - 1], a, b, layout);
    }
}

/// What the rules make certain of true zones, pair by pair, is so.
pub proof fn lemma_paired_sound(
    rules: Seq<SolveRuleTwo>,
    zones: Seq<ZoneView>,
    pairs: Seq<Seq<usize>>,
    layout: Set<usize>,
    k: nat,
)
    requires
        k <= pairs.len(),
        pairs_fit(pairs, zones.len()),
        all_hold(zones, layout),
    ensures
        sound(paired_deductions(rules, zones, pairs, k), layout),
    decreases k,
{
    if k > 0 {
        lemma_paired_sound(rules, zones, pairs, layout, (k - 1) as nat);
        let pair = pairs[k - 1];
        lemma_overlap_sound(
            rules,
            zones[pair[0] as int],
            zones[pair[1] as int],
            layout,
            rules.len(),
        );
        assert(sound(pair_deductions(rules, zones, pair), layout));
    }
}

/// All pairs of positions below `n` name positions below `n`.
pub proof fn lemma_index_pairs_fit(n: nat)
    requires
        n <= usize::MAX,
    ensures
        pairs_fit(index_pairs(n), n),
{
    lemma_pairs_from(0, n);
}

/// Among cells of the board, each listed once, the mines are those under the
/// unrevealed cells and the flagged cells.
pub proof fn lemma_open_mines(grid: Grid, cells: Seq<usize>, layout: Set<usize>)
    requires
        agrees(grid, layout),
        cells.no_duplicates(),
        forall|k: int| 0 <= k < cells.len() ==> grid.in_range(#[trigger] cells[k] as int),
    ensures
        mines_in(cells.to_set(), layout) == mines_in(grid.unrevealed_among(cells).to_set(), layout)
            + grid.flagged_among(cells),
        grid.unrevealed_among(cells).to_set().finite(),
        grid.unrevealed_among(cells).to_set().len() == grid.unrevealed_among(cells).len(),
        mines_in(grid.unrevealed_among(cells).to_set(), layout) <= grid.unrevealed_among(cells).len(),
{
    let s = cells.to_set();
    let open = grid.unrevealed_among(cells);
    let flagged = cells.filter(grid.flagged_pred());
    lemma_filter_members(cells, grid.unrevealed_pred());
    lemma_filter_members(cells, grid.flagged_pred());
    lemma_len_of_set(open);
    lemma_len_of_set(flagged);
    lemma_len_of_set(cells);
    let so = open.to_set();
    let sf = flagged.to_set();
    assert forall|c: usize| s.contains(c) implies grid.in_range(c as int) by {
        let k = choose|k: int| 0 <= k < cells.len() && cells[k] == c;
        assert(grid.in_range(cells[k] as int));
    }
    assert(s.intersect(layout) =~= so.intersect(layout).union(sf));
    assert(so.intersect(layout).disjoint(sf));
    lemma_set_disjoint_lens(so.intersect(layout), sf);
    lemma_len_intersect(so, layout);
}

/// The zone of a clue is true, and no fault comes of a true clue.
pub proof fn lemma_clue_zone_holds(grid: Grid, index: int, policy: NextToPolicy, layout: Set<usize>)
    requires
        agrees(grid, layout),
        clues_true(grid, layout, policy),
        grid.in_range(index),
    ensures
        clue_zone(grid, index, policy) is Ok,
        clue_zone(grid, index, policy) matches Ok(Some(z)) ==> z.wf() && zone_holds(z, layout),
{
    if let MinesweeperCell::Number(x) = grid.cells[index] {
        let around = grid.next_to(index, policy);
        lemma_around(grid, index, policy);
        lemma_open_mines(grid, around, layout);
        let open = grid.unrevealed_among(around);
        assert(mines_in(around.to_set(), layout) == x);
        if open.len() > 0 {
            let c = (x - grid.flagged_among(around)) as usize;
            let z = ZoneView { cells: open.to_set(), counts: set![c] };
            assert(z.counts.contains(c) && c == mines_in(z.cells, layout));
        }
    }
}

/// The zone of a lonely flagged mine is true, and no fault comes where every mine
/// touches another.
pub proof fn lemma_lonely_mine_zone_holds(grid: Grid, index: int, layout: Set<usize>)
    requires
        agrees(grid, layout),
        rule_true(ZoneRule::ConnectedMines, grid, layout),
        grid.in_range(index),
    ensures
        lonely_mine_zone(grid, index) is Ok,
        lonely_mine_zone(grid, index) matches Ok(Some(z)) ==> z.wf() && zone_holds(z, layout),
{
    if grid.cells[index] is Mine {
        let around = grid.eight_around(index);
        lemma_around(grid, index, NextToPolicy::EightAround);
        lemma_open_mines(grid, around, layout);
        assert(grid.is_flagged(index));
        assert(layout.contains(index as usize));
        let open = grid.unrevealed_among(around);
        assert(mines_in(around.to_set(), layout) >= 1);
        if grid.flagged_among(around) == 0 {
            let c = mines_in(open.to_set(), layout) as usize;
            let z = ZoneView { cells: open.to_set(), counts: between(1, open.len() as int) };
            assert(z.counts.contains(c) && c == mines_in(z.cells, layout));
        }
    }
}

/// The zones that a cell rule gives are true.
pub proof fn lemma_cell_zones_hold(rule: CellZoneRule, grid: Grid, layout: Set<usize>, n: nat)
    requires
        agrees(grid, layout),
        n <= grid.area(),
        match rule {
            CellZoneRule::Number(policy) => clues_true(grid, layout, policy),
            CellZoneRule::ConnectedMine => rule_true(ZoneRule::ConnectedMines, grid, layout),
        },
    ensures
        cell_zones(rule, grid, n) matches Ok(zs) && all_hold(zs, layout),
    decreases n,
{
    if n > 0 {
        lemma_cell_zones_hold(rule, grid, layout, (n - 1) as nat);
        match rule {
            CellZoneRule::Number(policy) => lemma_clue_zone_holds(grid, n - 1, policy, layout),
            CellZoneRule::ConnectedMine => lemma_lonely_mine_zone_holds(grid, n - 1, layout),
        }
    }
}

/// The zone of the total number of mines is true.
pub proof fn lemma_total_zone_holds(grid: Grid, layout: Set<usize>)
    requires
        agrees(grid, layout),
        rule_true(ZoneRule::TotalMines, grid, layout),
    ensures
        total_zone(grid) matches Ok(zs) && all_hold(zs, layout),
{
    let all = grid.all_indices();
    assert(all.no_duplicates());
    lemma_open_mines(grid, all, layout);
    assert(all.to_set().intersect(layout) =~= layout) by {
        assert forall|c: usize| layout.contains(c) implies all.to_set().contains(c) by {
            assert(all[c as int] == c);
        }
    }
    let open = grid.unrevealed_among(all);
    let total = standard_mines(grid.side)->Some_0;
    if open.len() > 0 {
        let c = (total - grid.flagged_among(all)) as usize;
        let z = ZoneView { cells: open.to_set(), counts: set![c] };
        assert(mines_in(all.to_set(), layout) == layout.len());
        assert(z.counts.contains(c) && c == mines_in(z.cells, layout));
        assert(total_zone(grid) == Ok::<_, SolveError>(seq![z]));
        assert(seq![z][0] == z);
        assert(z.wf() && zone_holds(z, layout));
    }
}

/// The zone of a 2x2 block is true where every block holds a mine.
pub proof fn lemma_block_zone_holds(grid: Grid, x: int, y: int, layout: Set<usize>)
    requires
        agrees(grid, layout),
        rule_true(ZoneRule::QuadBlocks, grid, layout),
        0 <= x < grid.side - 1,
        0 <= y < grid.side - 1,
    ensures
        block_zone(grid, x, y) matches Some(z) ==> z.wf() && zone_holds(z, layout),
{
    let cells = grid.block(x, y);
    lemma_block_cells(grid, x, y);
    assert(mines_in(cells.to_set(), layout) >= 1);
    lemma_open_mines(grid, cells, layout);
    let open = grid.unrevealed_among(cells);
    cells.lemma_filter_len(grid.unrevealed_pred());
    assert(cells.len() == 4);
    if grid.flagged_among(cells) == 0 && open.len() > 0 {
        let c = mines_in(open.to_set(), layout) as usize;
        let z = ZoneView { cells: open.to_set(), counts: between(1, 4) };
        assert(z.counts.contains(c) && c == mines_in(z.cells, layout));
    }
}

/// The zones of the blocks of a column are true where every block holds a mine.
pub proof fn lemma_block_column_hold(grid: Grid, x: int, rows: nat, layout: Set<usize>)
    requires
        agrees(grid, layout),
        rule_true(ZoneRule::QuadBlocks, grid, layout),
        0 <= x < grid.side - 1,
        rows <= blocks_per_line(grid),
    ensures
        all_hold(block_column_zones(grid, x, rows), layout),
    decreases rows,
{
    if rows > 0 {
        lemma_block_column_hold(grid, x, (rows - 1) as nat, layout);
        lemma_block_zone_holds(grid, x, rows - 1, layout);
    }
}

/// The zones of the blocks are true where every block holds a mine.
pub proof fn lemma_block_zones_hold(grid: Grid, columns: nat, layout: Set<usize>)
    requires
        agrees(grid, layout),
        rule_true(ZoneRule::QuadBlocks, grid, layout),
        columns <= blocks_per_line(grid),
    ensures
        all_hold(block_zones(grid, columns), layout),
    decreases columns,
{
    if columns > 0 {
        lemma_block_zones_hold(grid, (columns - 1) as nat, layout);
        lemma_block_column_hold(grid, columns - 1, blocks_per_line(grid), layout);
    }
}

/// The zones that a rule reads off a board are true of the layout that the board
/// came from, and no fault comes of such a board.
pub proof fn lemma_rule_zones_hold(rule: ZoneRule, grid: Grid, layout: Set<usize>)
    requires
        agrees(grid, layout),
        rule_true(rule, grid, layout),
    ensures
        rule_zones(rule, grid) matches Ok(zs) && all_hold(zs, layout),
{
    match rule {
        ZoneRule::NumberAround => lemma_cell_zones_hold(
            CellZoneRule::Number(NextToPolicy::EightAround),
            grid,
            layout,
            grid.area() as nat,
        ),
        ZoneRule::NumberCross => lemma_cell_zones_hold(
            CellZoneRule::Number(NextToPolicy::XScape),
            grid,
            layout,
            grid.area() as nat,
        ),
        ZoneRule::TotalMines => lemma_total_zone_holds(grid, layout),
        ZoneRule::QuadBlocks => lemma_block_zones_hold(grid, blocks_per_line(grid), layout),
        ZoneRule::ConnectedMines => lemma_cell_zones_hold(
            CellZoneRule::ConnectedMine,
            grid,
            layout,
            grid.area() as nat,
        ),
    }
}

/// The zones that the rules read off a board are true of the layout that the
/// board came from.
pub proof fn lemma_generate_hold(rules: Seq<ZoneRule>, grid: Grid, layout: Set<usize>, n: nat)
    requires
        consistent(rules, grid, layout),
        n <= rules.len(),
    ensures
        generate(rules, grid, n) matches Ok(zs) && all_hold(zs, layout),
    decreases n,
{
    if n > 0 {
        lemma_generate_hold(rules, grid, layout, (n - 1) as nat);
        lemma_rule_zones_hold(rules[n - 1], grid, layout);
    }
}

/// Soundness of the rule-based solver. Where a board of a supported side came from
/// a layout of mines under the game that the solver's rules are for, a pass ends
/// without a fault, every cell that it calls a mine is a mine of the layout, and no
/// cell that it calls safe is one.
pub proof fn lemma_solver_sound(bundle: RuleBundle, grid: Grid, layout: Set<usize>)
    requires
        RuleBundle::takes(grid),
        bundle.bounded(),
        consistent(bundle.zone_rules, grid, layout),
    ensures
        bundle.solve(grid) matches Ok(known) && known.mines.subset_of(layout)
            && known.safe.disjoint(layout),
{
    lemma_generate_hold(bundle.zone_rules, grid, layout, bundle.zone_rules.len());
    let base = generate(bundle.zone_rules, grid, bundle.zone_rules.len())->Ok_0;
    crate::algorithms::lemma_generate_len(bundle.zone_rules, grid, bundle.zone_rules.len());
    lemma_index_pairs_fit(base.len());
    lemma_derive_hold(
        bundle.combine_rules,
        base,
        index_pairs(base.len()),
        layout,
        index_pairs(base.len()).len(),
    );
    let derived = derive_all(bundle.combine_rules, base)->Ok_0;
    let all = base + derived;
    assert(all_hold(all, layout)) by {
        assert forall|k: int| 0 <= k < all.len() implies (#[trigger] all[k]).wf() && zone_holds(
            all[k],
            layout,
        ) by {
            if k < base.len() {
                assert(all[k] == base[k]);
            } else {
                assert(all[k] == derived[k - base.len()]);
            }
        }
    }
    assert(all.len() <= 55200) by {
        let n = base.len();
        let p = index_pairs(n).len();
        let r = bundle.combine_rules.len();
        lemma_pairs_from(0, n);
        crate::algorithms::lemma_derive_len(bundle.combine_rules, base, index_pairs(n), p);
        assert(n * (n - 1) <= 192 * 191) by (nonlinear_arith)
            requires
                0 <= n <= 192,
        ;
        assert(p * r <= 18336 * 3) by (nonlinear_arith)
            requires
                0 <= p <= 18336,
                0 <= r <= 3,
        ;
    }
    lemma_index_pairs_fit(all.len());
    lemma_single_sound(bundle.solve_rules, all, layout, all.len());
    lemma_paired_sound(
        bundle.pair_rules,
        all,
        index_pairs(all.len()),
        layout,
        index_pairs(all.len()).len(),
    );
}

} // verus!
