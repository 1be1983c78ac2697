//! The rule-based solver: zones are read off the board, every overlapping pair of
//! them is combined once, and what the resulting zones make certain is collected.

use crate::board::Board;
use crate::generation::{
    append_zones, blocks_per_line, block_column_zones, block_zones, cell_zones, generate,
    lemma_rule_fault_stands, rule_zones, standard_mines, total_mines, with_zone, with_zones,
    zones_are, zones_of_rule, CellZoneRule, ZoneRule,
};
use crate::grid::Grid;
use crate::rules::{
    add_min_bounds, bound_overlap_rule, empty_zone, empty_zone_rule, full_zone, full_zone_rule,
    handle_small_overlaps, max_min_bound_overlap, min_bound_rule, small_overlap_rule,
    strict_subset, strict_subset_rule, Deductions, KnownSquares, SolveError,
};
use crate::zone::{all_wf, views, Zone, ZoneView};
use itertools::Itertools;
use vstd::prelude::*;

verus! {

/// A rule that may derive a zone from two overlapping zones.
#[derive(Copy, Clone, Debug, PartialEq, Eq, Structural)]
pub enum ZoneCombineRule {
    /// The counts of one zone lie wholly above those of the other.
    SmallOverlap,
    /// One zone needs mines in the overlap.
    MinBound,
    /// One zone lies inside the other.
    StrictSubset,
}

/// A rule that reads certain cells off one zone.
#[derive(Copy, Clone, Debug, PartialEq, Eq, Structural)]
pub enum SolveRule {
    /// As many mines as cells.
    FullZone,
    /// No mine.
    EmptyZone,
}

/// A rule that reads certain cells off two overlapping zones.
#[derive(Copy, Clone, Debug, PartialEq, Eq, Structural)]
pub enum SolveRuleTwo {
    /// The counts of the two zones leave one way to place the mines.
    BoundOverlap,
}

/// The pairs `[i, j]` with the given `i` and every `j` above it and below `n`.
pub open spec fn pair_row(i: nat, n: nat) -> Seq<Seq<usize>> {
    Seq::new((n - 1 - i) as nat, |t: int| seq![i as usize, (i + 1 + t) as usize])
}

/// The pairs `[i, j]` with `first <= i < j < n`, ordered by `i` and then by `j`.
pub open spec fn pairs_from(first: nat, n: nat) -> Seq<Seq<usize>>
    decreases n - first,
{
    if first + 1 >= n {
        Seq::empty()
    } else {
        pair_row(first, n) + pairs_from(first + 1, n)
    }
}

/// All pairs `[i, j]` of positions with `i < j < n`, ordered by `i` and then by `j`.
pub open spec fn index_pairs(n: nat) -> Seq<Seq<usize>> {
    pairs_from(0, n)
}

/// What each vector of a list holds.
pub open spec fn pair_views(pairs: Seq<Vec<usize>>) -> Seq<Seq<usize>> {
    pairs.map_values(|p: Vec<usize>| p@)
}

/// How many pairs there are, and that each names two positions in ascending order.
pub proof fn lemma_pairs_from(first: nat, n: nat)
    requires
        first <= n <= usize::MAX,
    ensures
        2 * pairs_from(first, n).len() == (n - first) * (n - first - 1),
        forall|k: int|
            0 <= k < pairs_from(first, n).len() ==> {
                let p = #[trigger] pairs_from(first, n)[k];
                p.len() == 2 && first <= p[0] < p[1] < n
            },
    decreases n - first,
{
    if first + 1 >= n {
        assert((n - first) * (n - first - 1) == 0) by (nonlinear_arith)
            requires
                0 <= n - first <= 1,
        ;
    } else {
        lemma_pairs_from(first + 1, n);
        let d = n - first - 1;
        assert(2 * d + d * (d - 1) == (d + 1) * d) by (nonlinear_arith);
        let row = pair_row(first, n);
        let rest = pairs_from(first + 1, n);
        assert forall|k: int| 0 <= k < (row + rest).len() implies {
            let p = #[trigger] (row + rest)[k];
            p.len() == 2 && first <= p[0] < p[1] < n
        } by {
            if k < row.len() {
                assert((row + rest)[k] == row[k]);
            } else {
                assert((row + rest)[k] == rest[k - row.len()]);
            }
        }
    }
}

/// The pairs of positions below `n`, as `Itertools::combinations` lists them for
/// the range `0..n` and length 2: each pair once, as a vector of two positions in
/// ascending order, the pairs ordered by their first and then by their second
/// position.
#[verifier::external_body]
fn index_combinations(n: usize) -> (pairs: Vec<Vec<usize>>)
    requires
        index_pairs(n as nat).len() <= usize::MAX,
    ensures
        pair_views(pairs@) == index_pairs(n as nat),
{
    (0..n).combinations(2).collect()
}

/// What a combination rule derives from two zones.
pub open spec fn combine(rule: ZoneCombineRule, a: ZoneView, b: ZoneView) -> Result<
    Option<ZoneView>,
    SolveError,
> {
    match rule {
        ZoneCombineRule::SmallOverlap => small_overlap_rule(a, b),
        ZoneCombineRule::MinBound => min_bound_rule(a, b),
        ZoneCombineRule::StrictSubset => strict_subset_rule(a, b),
    }
}

/// What the first `n` rules derive from two zones, rule by rule.
pub open spec fn combine_all(rules: Seq<ZoneCombineRule>, a: ZoneView, b: ZoneView, n: nat) -> Result<
    Seq<ZoneView>,
    SolveError,
>
    decreases n,
{
    if n == 0 {
        Ok(Seq::empty())
    } else {
        with_zone(combine_all(rules, a, b, (n - 1) as nat), combine(rules[n - 1], a, b))
    }
}

/// What the rules derive from the two zones that a pair names: nothing where the
/// zones have no cell in common.
pub open spec fn pair_zones(rules: Seq<ZoneCombineRule>, zones: Seq<ZoneView>, pair: Seq<usize>) -> Result<
    Seq<ZoneView>,
    SolveError,
> {
    let a = zones[pair[0] as int];
    let b = zones[pair[1] as int];
    if a.overlaps(b) {
        combine_all(rules, a, b, rules.len())
    } else {
        Ok(Seq::empty())
    }
}

/// What the rules derive from the first `k` pairs, pair by pair.
pub open spec fn derive_from(
    rules: Seq<ZoneCombineRule>,
    zones: Seq<ZoneView>,
    pairs: Seq<Seq<usize>>,
    k: nat,
) -> Result<Seq<ZoneView>, SolveError>
    decreases k,
{
    if k == 0 {
        Ok(Seq::empty())
    } else {
        with_zones(
            derive_from(rules, zones, pairs, (k - 1) as nat),
            pair_zones(rules, zones, pairs[k - 1]),
        )
    }
}

/// The zones that the rules derive from a list of zones: every pair of zones is
/// taken once, the earlier zone first.
pub open spec fn derive_all(rules: Seq<ZoneCombineRule>, zones: Seq<ZoneView>) -> Result<
    Seq<ZoneView>,
    SolveError,
> {
    derive_from(rules, zones, index_pairs(zones.len()), index_pairs(zones.len()).len())
}

/// What a rule makes certain of one zone.
pub open spec fn resolve_one(rule: SolveRule, z: ZoneView) -> Deductions {
    Deductions::of(
        match rule {
            SolveRule::FullZone => full_zone_rule(z),
            SolveRule::EmptyZone => empty_zone_rule(z),
        },
    )
}

/// What the first `n` rules make certain of one zone.
pub open spec fn zone_deductions(rules: Seq<SolveRule>, z: ZoneView, n: nat) -> Deductions
    decreases n,
{
    if n == 0 {
        Deductions::none()
    } else {
        zone_deductions(rules, z, (n - 1) as nat).union(resolve_one(rules[n - 1], z))
    }
}

/// What the rules make certain of the first `k` zones.
pub open spec fn single_deductions(rules: Seq<SolveRule>, zones: Seq<ZoneView>, k: nat) -> Deductions
    decreases k,
{
    if k == 0 {
        Deductions::none()
    } else {
        single_deductions(rules, zones, (k - 1) as nat).union(
            zone_deductions(rules, zones[k - 1], rules.len()),
        )
    }
}

/// What a rule makes certain of two zones.
pub open spec fn resolve_two(rule: SolveRuleTwo, a: ZoneView, b: ZoneView) -> Deductions {
    Deductions::of(
        match rule {
            SolveRuleTwo::BoundOverlap => bound_overlap_rule(a, b),
        },
    )
}

/// What the first `n` rules make certain of two zones.
pub open spec fn overlap_deductions(rules: Seq<SolveRuleTwo>, a: ZoneView, b: ZoneView, n: nat) -> Deductions
    decreases n,
{
    if n == 0 {
        Deductions::none()
    } else {
        overlap_deductions(rules, a, b, (n - 1) as nat).union(resolve_two(rules[n - 1], a, b))
    }
}

/// What the rules make certain of the two zones that a pair names: nothing where
/// the zones have no cell in common.
pub open spec fn pair_deductions(rules: Seq<SolveRuleTwo>, zones: Seq<ZoneView>, pair: Seq<usize>) -> Deductions {
    let a = zones[pair[0] as int];
    let b = zones[pair[1] as int];
    if a.overlaps(b) {
        overlap_deductions(rules, a, b, rules.len())
    } else {
        Deductions::none()
    }
}

/// What the rules make certain of the first `k` pairs.
pub open spec fn paired_deductions(
    rules: Seq<SolveRuleTwo>,
    zones: Seq<ZoneView>,
    pairs: Seq<Seq<usize>>,
    k: nat,
) -> Deductions
    decreases k,
{
    if k == 0 {
        Deductions::none()
    } else {
        paired_deductions(rules, zones, pairs, (k - 1) as nat).union(
            pair_deductions(rules, zones, pairs[k - 1]),
        )
    }
}

/// Everything that the rules make certain of a list of zones: of each zone alone,
/// and of each pair of zones that overlap.
pub open spec fn resolve(rules: Seq<SolveRule>, pair_rules: Seq<SolveRuleTwo>, zones: Seq<ZoneView>) -> Deductions {
    single_deductions(rules, zones, zones.len()).union(
        paired_deductions(
            pair_rules,
            zones,
            index_pairs(zones.len()),
            index_pairs(zones.len()).len(),
        ),
    )
}

/// The rules of a solver, in the order in which it applies them.
pub struct RuleBundle {
    pub zone_rules: Seq<ZoneRule>,
    pub combine_rules: Seq<ZoneCombineRule>,
    pub solve_rules: Seq<SolveRule>,
    pub pair_rules: Seq<SolveRuleTwo>,
}

impl RuleBundle {
    /// No more than three rules read zones off the board, and no more than three
    /// combine them: so it is with every solver of this library.
    pub open spec fn bounded(self) -> bool {
        self.zone_rules.len() <= 3 && self.combine_rules.len() <= 3
    }

    /// The board is one that the solvers take: a square of a supported side.
    pub open spec fn takes(grid: Grid) -> bool {
        standard_mines(grid.side) is Some && grid.complete()
    }

    /// Every zone that a pass works with: those read off the board, then those
    /// derived from them.
    pub open spec fn zones(self, grid: Grid) -> Result<Seq<ZoneView>, SolveError> {
        match generate(self.zone_rules, grid, self.zone_rules.len()) {
            Err(e) => Err(e),
            Ok(base) => match derive_all(self.combine_rules, base) {
                Err(e) => Err(e),
                Ok(derived) => Ok(base + derived),
            },
        }
    }

    /// What one pass over a board gives: a fault, or what is certain.
    pub open spec fn solve(self, grid: Grid) -> Result<Deductions, SolveError> {
        if !Self::takes(grid) {
            Err(SolveError::BadBoardSize)
        } else {
            match self.zones(grid) {
                Err(e) => Err(e),
                Ok(all) => Ok(resolve(self.solve_rules, self.pair_rules, all)),
            }
        }
    }
}

/// The outcome found is the outcome named.
pub open spec fn outcome_is(found: Result<KnownSquares, SolveError>, named: Result<
    Deductions,
    SolveError,
>) -> bool {
    match (found, named) {
        (Ok(k), Ok(d)) => k@ == d,
        (Err(e), Err(f)) => e == f,
        _ => false,
    }
}

/// Every pair of positions in ascending order is among the pairs.
pub proof fn lemma_pair_present(first: nat, n: nat, i: nat, j: nat)
    requires
        first <= i < j < n <= usize::MAX,
    ensures
        exists|k: int|
            0 <= k < pairs_from(first, n).len() && #[trigger] pairs_from(first, n)[k] == seq![
                i as usize,
                j as usize,
            ],
    decreases n - first,
{
    let row = pair_row(first, n);
    let rest = pairs_from(first + 1, n);
    let all = pairs_from(first, n);
    if i == first {
        let t = j - i - 1;
        assert(row[t] =~= seq![i as usize, j as usize]);
        assert(all[t] == row[t]);
    } else {
        lemma_pair_present(first + 1, n, i, j);
        let k = choose|k: int| 0 <= k < rest.len() && #[trigger] rest[k] == seq![i as usize, j as usize];
        assert(all[row.len() + k] == rest[k]);
    }
}

/// The deductions call the cell a mine, or call it safe.
pub open spec fn picks(d: Deductions, c: usize, mine: bool) -> bool {
    if mine {
        d.mines.contains(c)
    } else {
        d.safe.contains(c)
    }
}

/// Some rule says of some zone alone that the cell is a mine, or that it is safe.
pub open spec fn one_says(rules: Seq<SolveRule>, zones: Seq<ZoneView>, c: usize, mine: bool) -> bool {
    exists|i: int, r: int|
        0 <= i < zones.len() && 0 <= r < rules.len() && picks(
            #[trigger] resolve_one(rules[r], zones[i]),
            c,
            mine,
        )
}

/// Some rule says of two zones that overlap that the cell is a mine, or that it is
/// safe.
pub open spec fn two_say(rules: Seq<SolveRuleTwo>, zones: Seq<ZoneView>, c: usize, mine: bool) -> bool {
    exists|i: int, j: int, r: int|
        0 <= i < j < zones.len() && 0 <= r < rules.len() && zones[i].overlaps(zones[j]) && picks(
            #[trigger] resolve_two(rules[r], zones[i], zones[j]),
            c,
            mine,
        )
}

proof fn lemma_zone_deductions_members(rules: Seq<SolveRule>, z: ZoneView, c: usize, mine: bool, n: nat)
    requires
        n <= rules.len(),
    ensures
        picks(zone_deductions(rules, z, n), c, mine) <==> exists|r: int|
            0 <= r < n && picks(#[trigger] resolve_one(rules[r], z), c, mine),
    decreases n,
{
    if n > 0 {
        lemma_zone_deductions_members(rules, z, c, mine, (n - 1) as nat);
        if picks(resolve_one(rules[n - 1], z), c, mine) {
            assert(0 <= n - 1 < n && picks(resolve_one(rules[n - 1], z), c, mine));
        }
    }
}

proof fn lemma_single_members(rules: Seq<SolveRule>, zones: Seq<ZoneView>, c: usize, mine: bool, k: nat)
    requires
        k <= zones.len(),
    ensures
        picks(single_deductions(rules, zones, k), c, mine) <==> exists|i: int, r: int|
            0 <= i < k && 0 <= r < rules.len() && picks(
                #[trigger] resolve_one(rules[r], zones[i]),
                c,
                mine,
            ),
    decreases k,
{
    if k > 0 {
        lemma_single_members(rules, zones, c, mine, (k - 1) as nat);
        lemma_zone_deductions_members(rules, zones[k - 1], c, mine, rules.len());
        if picks(zone_deductions(rules, zones[k - 1], rules.len()), c, mine) {
            let r = choose|r: int|
                0 <= r < rules.len() && picks(#[trigger] resolve_one(rules[r], zones[k - 1]), c, mine);
            assert(0 <= k - 1 < k && picks(resolve_one(rules[r], zones[k - 1]), c, mine));
        }
    }
}

proof fn lemma_overlap_members(
    rules: Seq<SolveRuleTwo>,
    a: ZoneView,
    b: ZoneView,
    c: usize,
    mine: bool,
    n: nat,
)
    requires
        n <= rules.len(),
    ensures
        picks(overlap_deductions(rules, a, b, n), c, mine) <==> exists|r: int|
            0 <= r < n && picks(#[trigger] resolve_two(rules[r], a, b), c, mine),
    decreases n,
{
    if n > 0 {
        lemma_overlap_members(rules, a, b, c, mine, (n - 1) as nat);
        if picks(resolve_two(rules[n - 1], a, b), c, mine) {
            assert(0 <= n - 1 < n && picks(resolve_two(rules[n - 1], a, b), c, mine));
        }
    }
}

proof fn lemma_paired_members(
    rules: Seq<SolveRuleTwo>,
    zones: Seq<ZoneView>,
    pairs: Seq<Seq<usize>>,
    c: usize,
    mine: bool,
    k: nat,
)
    requires
        k <= pairs.len(),
    ensures
        picks(paired_deductions(rules, zones, pairs, k), c, mine) <==> exists|p: int|
            0 <= p < k && picks(#[trigger] pair_deductions(rules, zones, pairs[p]), c, mine),
    decreases k,
{
    if k > 0 {
        lemma_paired_members(rules, zones, pairs, c, mine, (k - 1) as nat);
        if picks(pair_deductions(rules, zones, pairs[k - 1]), c, mine) {
            assert(0 <= k - 1 < k && picks(pair_deductions(rules, zones, pairs[k - 1]), c, mine));
        }
    }
}

/// What the solver makes certain, said without an order. A cell is called a mine
/// exactly where some rule says so of some zone alone, or of two zones that
/// overlap; and so for the cells that are called safe.
pub proof fn lemma_resolve_members(
    rules: Seq<SolveRule>,
    pair_rules: Seq<SolveRuleTwo>,
    zones: Seq<ZoneView>,
    c: usize,
    mine: bool,
)
    requires
        zones.len() <= usize::MAX,
    ensures
        picks(resolve(rules, pair_rules, zones), c, mine) <==> one_says(rules, zones, c, mine)
            || two_say(pair_rules, zones, c, mine),
{
    let n = zones.len();
    let pairs = index_pairs(n);
    lemma_single_members(rules, zones, c, mine, n);
    lemma_paired_members(pair_rules, zones, pairs, c, mine, pairs.len());
    lemma_pairs_from(0, n);
    if picks(paired_deductions(pair_rules, zones, pairs, pairs.len()), c, mine) {
        let p = choose|p: int|
            0 <= p < pairs.len() && picks(#[trigger] pair_deductions(pair_rules, zones, pairs[p]), c, mine);
        let pair = pairs[p];
        let a = zones[pair[0] as int];
        let b = zones[pair[1] as int];
        lemma_overlap_members(pair_rules, a, b, c, mine, pair_rules.len());
        let r = choose|r: int|
            0 <= r < pair_rules.len() && picks(#[trigger] resolve_two(pair_rules[r], a, b), c, mine);
        assert(0 <= pair[0] < pair[1] < n && a.overlaps(b) && picks(
            resolve_two(pair_rules[r], zones[pair[0] as int], zones[pair[1] as int]),
            c,
            mine,
        ));
    }
    if two_say(pair_rules, zones, c, mine) {
        let (i, j, r) = choose|i: int, j: int, r: int|
            0 <= i < j < zones.len() && 0 <= r < pair_rules.len() && zones[i].overlaps(zones[j])
                && picks(#[trigger] resolve_two(pair_rules[r], zones[i], zones[j]), c, mine);
        lemma_pair_present(0, n, i as nat, j as nat);
        let p = choose|p: int| 0 <= p < pairs.len() && #[trigger] pairs[p] == seq![i as usize, j as usize];
        lemma_overlap_members(pair_rules, zones[i], zones[j], c, mine, pair_rules.len());
        assert(picks(pair_deductions(pair_rules, zones, pairs[p]), c, mine));
    }
}

/// Determinism of the rule-based solver. Two passes with the same rules over boards
/// that show the same end alike: with the same fault, or with the same cells as
/// mines and the same cells as safe.
pub proof fn lemma_same_outcome(
    first: Result<KnownSquares, SolveError>,
    second: Result<KnownSquares, SolveError>,
    bundle: RuleBundle,
    grid: Grid,
)
    requires
        outcome_is(first, bundle.solve(grid)),
        outcome_is(second, bundle.solve(grid)),
    ensures
        match (first, second) {
            (Ok(a), Ok(b)) => a@.mines == b@.mines && a@.safe == b@.safe,
            (Err(e), Err(f)) => e == f,
            _ => false,
        },
{
}

/// Union of deductions is associative and has the empty deductions as its unit.
pub proof fn lemma_union(a: Deductions, b: Deductions, c: Deductions)
    ensures
        a.union(b).union(c) == a.union(b.union(c)),
        a.union(Deductions::none()) == a,
        Deductions::none().union(a) == a,
{
    assert(a.union(b).union(c).mines =~= a.union(b.union(c)).mines);
    assert(a.union(b).union(c).safe =~= a.union(b.union(c)).safe);
    assert(a.union(Deductions::none()).mines =~= a.mines);
    assert(a.union(Deductions::none()).safe =~= a.safe);
    assert(Deductions::none().union(a).mines =~= a.mines);
    assert(Deductions::none().union(a).safe =~= a.safe);
}

/// A fault of the first rules on a pair is the fault of all.
pub proof fn lemma_combine_fault_stands(
    rules: Seq<ZoneCombineRule>,
    a: ZoneView,
    b: ZoneView,
    k: nat,
    n: nat,
)
    requires
        k <= n,
        combine_all(rules, a, b, k) is Err,
    ensures
        combine_all(rules, a, b, n) == combine_all(rules, a, b, k),
    decreases n,
{
    if k < n {
        lemma_combine_fault_stands(rules, a, b, k, (n - 1) as nat);
    }
}

/// A fault on the first pairs is the fault on all.
pub proof fn lemma_derive_fault_stands(
    rules: Seq<ZoneCombineRule>,
    zones: Seq<ZoneView>,
    pairs: Seq<Seq<usize>>,
    k: nat,
    n: nat,
)
    requires
        k <= n,
        derive_from(rules, zones, pairs, k) is Err,
    ensures
        derive_from(rules, zones, pairs, n) == derive_from(rules, zones, pairs, k),
    decreases n,
{
    if k < n {
        lemma_derive_fault_stands(rules, zones, pairs, k, (n - 1) as nat);
    }
}

/// No more zones are derived from a pair than there are rules.
pub proof fn lemma_combine_len(rules: Seq<ZoneCombineRule>, a: ZoneView, b: ZoneView, n: nat)
    ensures
        combine_all(rules, a, b, n) matches Ok(zs) ==> zs.len() <= n,
    decreases n,
{
    if n > 0 {
        lemma_combine_len(rules, a, b, (n - 1) as nat);
    }
}

/// No more zones are derived than there are pairs and rules.
pub proof fn lemma_derive_len(
    rules: Seq<ZoneCombineRule>,
    zones: Seq<ZoneView>,
    pairs: Seq<Seq<usize>>,
    k: nat,
)
    ensures
        derive_from(rules, zones, pairs, k) matches Ok(zs) ==> zs.len() <= k * rules.len(),
    decreases k,
{
    if k > 0 {
        lemma_derive_len(rules, zones, pairs, (k - 1) as nat);
        let pair = pairs[k - 1];
        lemma_combine_len(rules, zones[pair[0] as int], zones[pair[1] as int], rules.len());
        assert((k - 1) * rules.len() + rules.len() == k * rules.len()) by (nonlinear_arith);
    } else {
        assert(0 * rules.len() == 0);
    }
}

/// No cell rule gives more zones than it looks at cells.
pub proof fn lemma_cell_zones_len(rule: CellZoneRule, grid: Grid, n: nat)
    ensures
        cell_zones(rule, grid, n) matches Ok(zs) ==> zs.len() <= n,
    decreases n,
{
    if n > 0 {
        lemma_cell_zones_len(rule, grid, (n - 1) as nat);
    }
}

/// No more block zones than blocks.
pub proof fn lemma_block_zones_len(grid: Grid, columns: nat)
    ensures
        block_zones(grid, columns).len() <= columns * blocks_per_line(grid),
    decreases columns,
{
    if columns > 0 {
        lemma_block_zones_len(grid, (columns - 1) as nat);
        lemma_block_column_len(grid, columns - 1, blocks_per_line(grid));
        assert((columns - 1) * blocks_per_line(grid) + blocks_per_line(grid) == columns
            * blocks_per_line(grid)) by (nonlinear_arith);
    } else {
        assert(0 * blocks_per_line(grid) == 0);
    }
}

proof fn lemma_block_column_len(grid: Grid, x: int, rows: nat)
    ensures
        block_column_zones(grid, x, rows).len() <= rows,
    decreases rows,
{
    if rows > 0 {
        lemma_block_column_len(grid, x, (rows - 1) as nat);
    }
}

/// On a board of side 8 or less no rule gives more than 64 zones.
pub proof fn lemma_rule_zones_len(rule: ZoneRule, grid: Grid)
    requires
        0 <= grid.side <= 8,
    ensures
        rule_zones(rule, grid) matches Ok(zs) ==> zs.len() <= 64,
{
    let s = grid.side;
    assert(s * s <= 64) by (nonlinear_arith)
        requires
            0 <= s <= 8,
    ;
    match rule {
        ZoneRule::NumberAround => {
            lemma_cell_zones_len(
                CellZoneRule::Number(crate::grid::NextToPolicy::EightAround),
                grid,
                grid.area() as nat,
            );
        },
        ZoneRule::NumberCross => {
            lemma_cell_zones_len(
                CellZoneRule::Number(crate::grid::NextToPolicy::XScape),
                grid,
                grid.area() as nat,
            );
        },
        ZoneRule::TotalMines => {},
        ZoneRule::QuadBlocks => {
            lemma_block_zones_len(grid, blocks_per_line(grid));
            let b = blocks_per_line(grid);
            assert(b * b <= 64) by (nonlinear_arith)
                requires
                    0 <= b <= 8,
            ;
        },
        ZoneRule::ConnectedMines => {
            lemma_cell_zones_len(CellZoneRule::ConnectedMine, grid, grid.area() as nat);
        },
    }
}

/// On a board of side 8 or less the first `n` rules give no more than `64 * n` zones.
pub proof fn lemma_generate_len(rules: Seq<ZoneRule>, grid: Grid, n: nat)
    requires
        0 <= grid.side <= 8,
    ensures
        generate(rules, grid, n) matches Ok(zs) ==> zs.len() <= 64 * n,
    decreases n,
{
    if n > 0 {
        lemma_generate_len(rules, grid, (n - 1) as nat);
        lemma_rule_zones_len(rules[n - 1], grid);
    }
}

/// The zones that a list of rules reads off a board, rule by rule.
pub fn generate_zones(rules: &Vec<ZoneRule>, board: &Board) -> (zones: Result<Vec<Zone>, SolveError>)
    requires
        board@.complete(),
    ensures
        zones_are(zones, generate(rules@, board@, rules@.len())),
{
    let mut zones: Vec<Zone> = Vec::new();
    assert(views(zones@) =~= Seq::empty());
    for k in 0..rules.len()
        invariant
            board@.complete(),
            all_wf(zones@),
            generate(rules@, board@, k as nat) == Ok::<_, SolveError>(views(zones@)),
    {
        match zones_of_rule(rules[k], board) {
            Err(e) => {
                proof {
                    lemma_rule_fault_stands(rules@, board@, (k + 1) as nat, rules@.len());
                }
                return Err(e);
            },
            Ok(more) => {
                append_zones(&mut zones, more);
            },
        }
    }
    Ok(zones)
}

/// What a list of rules derives from two zones, rule by rule.
pub fn combine_zones(rules: &Vec<ZoneCombineRule>, a: &Zone, b: &Zone) -> (zones: Result<
    Vec<Zone>,
    SolveError,
>)
    requires
        a.wf(),
        b.wf(),
    ensures
        zones_are(zones, combine_all(rules@, a@, b@, rules@.len())),
{
    let mut zones: Vec<Zone> = Vec::new();
    assert(views(zones@) =~= Seq::empty());
    for k in 0..rules.len()
        invariant
            a.wf(),
            b.wf(),
            all_wf(zones@),
            combine_all(rules@, a@, b@, k as nat) == Ok::<_, SolveError>(views(zones@)),
    {
        let found = match rules[k] {
            ZoneCombineRule::SmallOverlap => handle_small_overlaps(a, b),
            ZoneCombineRule::MinBound => add_min_bounds(a, b),
            ZoneCombineRule::StrictSubset => strict_subset(a, b),
        };
        match found {
            Err(e) => {
                proof {
                    lemma_combine_fault_stands(rules@, a@, b@, (k + 1) as nat, rules@.len());
                }
                return Err(e);
            },
            Ok(None) => {},
            Ok(Some(zone)) => {
                proof {
                    assert(views(zones@.push(zone)) =~= views(zones@).push(zone@));
                }
                zones.push(zone);
            },
        }
    }
    Ok(zones)
}

/// The zones that a list of rules derives from a list of zones.
pub fn derive_zones(rules: &Vec<ZoneCombineRule>, zones: &Vec<Zone>) -> (derived: Result<
    Vec<Zone>,
    SolveError,
>)
    requires
        all_wf(zones@),
        index_pairs(zones@.len()).len() <= usize::MAX,
    ensures
        zones_are(derived, derive_all(rules@, views(zones@))),
{
    let n = zones.len();
    let pairs = index_combinations(n);
    let ghost named = index_pairs(n as nat);
    let mut derived: Vec<Zone> = Vec::new();
    proof {
        lemma_pairs_from(0, n as nat);
        assert(views(derived@) =~= Seq::empty());
        assert(pair_views(pairs@).len() == pairs@.len());
    }
    for k in 0..pairs.len()
        invariant
            n == zones@.len(),
            all_wf(zones@),
            all_wf(derived@),
            named == index_pairs(n as nat),
            pair_views(pairs@) == named,
            forall|j: int|
                0 <= j < named.len() ==> {
                    let p = #[trigger] named[j];
                    p.len() == 2 && p[0] < p[1] < n
                },
            derive_from(rules@, views(zones@), named, k as nat) == Ok::<_, SolveError>(
                views(derived@),
            ),
    {
        let pair = &pairs[k];
        assert(pair@ == pair_views(pairs@)[k as int]);
        assert(pair@ == named[k as int]);
        let a = &zones[pair[0]];
        let b = &zones[pair[1]];
        assert(a@ == views(zones@)[pair@[0] as int]);
        assert(b@ == views(zones@)[pair@[1] as int]);
        if a.has_overlap(b) {
            match combine_zones(rules, a, b) {
                Err(e) => {
                    proof {
                        lemma_derive_fault_stands(
                            rules@,
                            views(zones@),
                            named,
                            (k + 1) as nat,
                            named.len(),
                        );
                    }
                    return Err(e);
                },
                Ok(more) => {
                    append_zones(&mut derived, more);
                },
            }
        } else {
            assert(views(derived@) + Seq::<ZoneView>::empty() =~= views(derived@));
        }
    }
    Ok(derived)
}

/// Adds to `known` what a list of rules makes certain of one zone.
pub fn resolve_zone(rules: &Vec<SolveRule>, zone: &Zone, known: &mut KnownSquares)
    requires
        zone.wf(),
    ensures
        final(known)@ == old(known)@.union(zone_deductions(rules@, zone@, rules@.len())),
{
    proof {
        lemma_union(known@, Deductions::none(), Deductions::none());
    }
    for k in 0..rules.len()
        invariant
            zone.wf(),
            known@ == old(known)@.union(zone_deductions(rules@, zone@, k as nat)),
    {
        let found = match rules[k] {
            SolveRule::FullZone => full_zone(zone),
            SolveRule::EmptyZone => empty_zone(zone),
        };
        proof {
            lemma_union(
                old(known)@,
                zone_deductions(rules@, zone@, k as nat),
                resolve_one(rules@[k as int], zone@),
            );
            lemma_union(known@, Deductions::none(), Deductions::none());
        }
        match found {
            Some(new) => {
                known.absorb(&new);
            },
            None => {},
        }
    }
}

/// Adds to `known` what a list of rules makes certain of two zones.
pub fn resolve_pair(rules: &Vec<SolveRuleTwo>, a: &Zone, b: &Zone, known: &mut KnownSquares)
    requires
        a.wf(),
        b.wf(),
    ensures
        final(known)@ == old(known)@.union(overlap_deductions(rules@, a@, b@, rules@.len())),
{
    proof {
        lemma_union(known@, Deductions::none(), Deductions::none());
    }
    for k in 0..rules.len()
        invariant
            a.wf(),
            b.wf(),
            known@ == old(known)@.union(overlap_deductions(rules@, a@, b@, k as nat)),
    {
        let found = match rules[k] {
            SolveRuleTwo::BoundOverlap => max_min_bound_overlap(a, b),
        };
        proof {
            lemma_union(
                old(known)@,
                overlap_deductions(rules@, a@, b@, k as nat),
                resolve_two(rules@[k as int], a@, b@),
            );
            lemma_union(known@, Deductions::none(), Deductions::none());
        }
        match found {
            Some(new) => {
                known.absorb(&new);
            },
            None => {},
        }
    }
}

/// Everything that the rules make certain of a list of zones.
pub fn resolve_zones(
    rules: &Vec<SolveRule>,
    pair_rules: &Vec<SolveRuleTwo>,
    zones: &Vec<Zone>,
) -> (known: KnownSquares)
    requires
        all_wf(zones@),
        index_pairs(zones@.len()).len() <= usize::MAX,
    ensures
        known@ == resolve(rules@, pair_rules@, views(zones@)),
{
    let n = zones.len();
    let mut known = KnownSquares::new();
    let ghost vs = views(zones@);
    proof {
        lemma_union(Deductions::none(), Deductions::none(), Deductions::none());
    }
    for k in 0..n
        invariant
            n == zones@.len(),
            vs == views(zones@),
            all_wf(zones@),
            known@ == single_deductions(rules@, vs, k as nat),
    {
        assert(zones@[k as int]@ == vs[k as int]);
        resolve_zone(rules, &zones[k], &mut known);
    }
    let ghost singles = known@;
    let pairs = index_combinations(n);
    let ghost named = index_pairs(n as nat);
    proof {
        lemma_pairs_from(0, n as nat);
        lemma_union(singles, Deductions::none(), Deductions::none());
        assert(pair_views(pairs@).len() == pairs@.len());
    }
    for k in 0..pairs.len()
        invariant
            n == zones@.len(),
            vs == views(zones@),
            all_wf(zones@),
            named == index_pairs(n as nat),
            pair_views(pairs@) == named,
            forall|j: int|
                0 <= j < named.len() ==> {
                    let p = #[trigger] named[j];
                    p.len() == 2 && p[0] < p[1] < n
                },
            known@ == singles.union(paired_deductions(pair_rules@, vs, named, k as nat)),
    {
        let pair = &pairs[k];
        assert(pair@ == pair_views(pairs@)[k as int]);
        assert(pair@ == named[k as int]);
        let a = &zones[pair[0]];
        let b = &zones[pair[1]];
        assert(a@ == vs[pair@[0] as int]);
        assert(b@ == vs[pair@[1] as int]);
        proof {
            lemma_union(
                singles,
                paired_deductions(pair_rules@, vs, named, k as nat),
                pair_deductions(pair_rules@, vs, named[k as int]),
            );
            lemma_union(known@, Deductions::none(), Deductions::none());
        }
        if a.has_overlap(b) {
            resolve_pair(pair_rules, a, b, &mut known);
        }
    }
    known
}

/// A solver that works by rules on zones.
pub struct ZoneRuleSolver {
    zone_rules: Vec<ZoneRule>,
    zone_combine_rules: Vec<ZoneCombineRule>,
    solve_rules: Vec<SolveRule>,
    solve_rules_two: Vec<SolveRuleTwo>,
}

impl View for ZoneRuleSolver {
    type V = RuleBundle;

    closed spec fn view(&self) -> RuleBundle {
        RuleBundle {
            zone_rules: self.zone_rules@,
            combine_rules: self.zone_combine_rules@,
            solve_rules: self.solve_rules@,
            pair_rules: self.solve_rules_two@,
        }
    }
}

/// Something that reads certain mines and certain safe cells off a board.
pub trait Solver: Sized {
    /// What the solver finds on a board, or the fault that stops it.
    spec fn outcome(&self, grid: Grid) -> Result<Deductions, SolveError>;

    /// The cells that are certain on a board that stops the solver with no fault.
    fn get_known_squares(self, board: &Board) -> (known: KnownSquares)
        requires
            self.outcome(board@) is Ok,
        ensures
            self.outcome(board@) == Ok::<Deductions, SolveError>(known@),
    ;
}

impl ZoneRuleSolver {
    #[verifier::type_invariant]
    spec fn bounded(self) -> bool {
        self.zone_rules@.len() <= 3 && self.zone_combine_rules@.len() <= 3
    }

    /// The cells that one pass makes certain, or the fault of the board that stops
    /// the pass.
    pub fn try_known_squares(&self, board: &Board) -> (found: Result<KnownSquares, SolveError>)
        ensures
            outcome_is(found, self@.solve(board@)),
    {
        proof {
            use_type_invariant(self);
        }
        if total_mines(board.size).is_none() {
            return Err(SolveError::BadBoardSize);
        }
        if board.rows.len() != board.size * board.size {
            return Err(SolveError::BadBoardSize);
        }
        let mut zones = match generate_zones(&self.zone_rules, board) {
            Ok(zones) => zones,
            Err(e) => {
                return Err(e);
            },
        };
        let ghost base = views(zones@);
        proof {
            lemma_generate_len(self.zone_rules@, board@, self.zone_rules@.len());
            lemma_pairs_from(0, zones@.len());
            let n = zones@.len();
            assert(n * (n - 1) <= 192 * 191) by (nonlinear_arith)
                requires
                    0 <= n <= 192,
            ;
            lemma_derive_len(
                self.zone_combine_rules@,
                base,
                index_pairs(n),
                index_pairs(n).len(),
            );
        }
        let derived = match derive_zones(&self.zone_combine_rules, &zones) {
            Ok(derived) => derived,
            Err(e) => {
                return Err(e);
            },
        };
        proof {
            let p = index_pairs(base.len()).len();
            let r = self.zone_combine_rules@.len();
            assert(p * r <= 18336 * 3) by (nonlinear_arith)
                requires
                    0 <= p <= 18336,
                    0 <= r <= 3,
            ;
        }
        append_zones(&mut zones, derived);
        proof {
            let n = zones@.len();
            lemma_pairs_from(0, n);
            assert(n * (n - 1) <= 55200 * 55199) by (nonlinear_arith)
                requires
                    0 <= n <= 55200,
            ;
        }
        Ok(resolve_zones(&self.solve_rules, &self.solve_rules_two, &zones))
    }
}

impl Solver for ZoneRuleSolver {
    open spec fn outcome(&self, grid: Grid) -> Result<Deductions, SolveError> {
        self@.solve(grid)
    }

    fn get_known_squares(self, board: &Board) -> (known: KnownSquares) {
        match self.try_known_squares(board) {
            Ok(known) => known,
            Err(_) => vstd::pervasive::unreached(),
        }
    }
}

/// The rules for the standard game.
pub open spec fn vanilla_rules() -> RuleBundle {
    RuleBundle {
        zone_rules: seq![ZoneRule::NumberAround, ZoneRule::TotalMines],
        combine_rules: seq![
            ZoneCombineRule::SmallOverlap,
            ZoneCombineRule::MinBound,
            ZoneCombineRule::StrictSubset,
        ],
        solve_rules: seq![SolveRule::FullZone, SolveRule::EmptyZone],
        pair_rules: seq![SolveRuleTwo::BoundOverlap],
    }
}

/// The standard rules with one more rule that reads zones off the board.
pub open spec fn rules_with(extra: ZoneRule) -> RuleBundle {
    RuleBundle {
        zone_rules: seq![ZoneRule::NumberAround, ZoneRule::TotalMines, extra],
        ..vanilla_rules()
    }
}

/// The rules for the game whose clues count along a cross.
pub open spec fn cross_rules() -> RuleBundle {
    RuleBundle { zone_rules: seq![ZoneRule::NumberCross, ZoneRule::TotalMines], ..vanilla_rules() }
}

fn standard_combine_rules() -> (rules: Vec<ZoneCombineRule>)
    ensures
        rules@ == vanilla_rules().combine_rules,
{
    let rules = vec![
        ZoneCombineRule::SmallOverlap,
        ZoneCombineRule::MinBound,
        ZoneCombineRule::StrictSubset,
    ];
    assert(rules@ =~= vanilla_rules().combine_rules);
    rules
}

fn solver_of(zone_rules: Vec<ZoneRule>) -> (solver: ZoneRuleSolver)
    requires
        zone_rules@.len() <= 3,
    ensures
        solver@ == (RuleBundle { zone_rules: zone_rules@, ..vanilla_rules() }),
{
    let solve_rules = vec![SolveRule::FullZone, SolveRule::EmptyZone];
    let solve_rules_two = vec![SolveRuleTwo::BoundOverlap];
    assert(solve_rules@ =~= vanilla_rules().solve_rules);
    assert(solve_rules_two@ =~= vanilla_rules().pair_rules);
    ZoneRuleSolver {
        zone_rules,
        zone_combine_rules: standard_combine_rules(),
        solve_rules,
        solve_rules_two,
    }
}

/// The solver for the standard game.
pub fn vanilla_solver() -> (solver: ZoneRuleSolver)
    ensures
        solver@ == vanilla_rules(),
{
    let zone_rules = vec![ZoneRule::NumberAround, ZoneRule::TotalMines];
    assert(zone_rules@ =~= vanilla_rules().zone_rules);
    solver_of(zone_rules)
}

/// The solver for the game in which every 2x2 block holds a mine.
pub fn quad_solver() -> (solver: ZoneRuleSolver)
    ensures
        solver@ == rules_with(ZoneRule::QuadBlocks),
{
    let zone_rules = vec![ZoneRule::NumberAround, ZoneRule::TotalMines, ZoneRule::QuadBlocks];
    assert(zone_rules@ =~= rules_with(ZoneRule::QuadBlocks).zone_rules);
    solver_of(zone_rules)
}

/// The solver for the game whose clues count along a cross.
pub fn cross_solver() -> (solver: ZoneRuleSolver)
    ensures
        solver@ == cross_rules(),
{
    let zone_rules = vec![ZoneRule::NumberCross, ZoneRule::TotalMines];
    assert(zone_rules@ =~= cross_rules().zone_rules);
    solver_of(zone_rules)
}

/// The solver for the game in which every mine touches another mine.
pub fn connected_solver() -> (solver: ZoneRuleSolver)
    ensures
        solver@ == rules_with(ZoneRule::ConnectedMines),
{
    let zone_rules = vec![ZoneRule::NumberAround, ZoneRule::TotalMines, ZoneRule::ConnectedMines];
    assert(zone_rules@ =~= rules_with(ZoneRule::ConnectedMines).zone_rules);
    solver_of(zone_rules)
}

} // verus!
