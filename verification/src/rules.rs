//! The rules that derive a new zone from two overlapping zones, and the rules that
//! read certain mines and certain safe cells off one zone or off two.

use crate::seqs::{span, span_vec};
use crate::zone::{between, differences, Zone, ZoneView};
use std::collections::HashSet;
use vstd::prelude::*;

verus! {

/// Why a board cannot be solved: each is a fault of the board or of the way it was
/// read, never of a deduction.
#[derive(Copy, Clone, Debug, PartialEq, Eq, Structural)]
pub enum SolveError {
    /// The side is not one of 5, 6, 7, 8, or the cells do not fill the square.
    BadBoardSize,
    /// More cells are flagged than a clue or the total number of mines allows.
    TooManyFlags,
    /// A zone inside another allows only counts above all those of the other.
    SubsetHasOnlyLargerValues,
    /// A zone must hold more mines in an overlap than the other zone allows in all.
    BoundBelowZero,
    /// A flagged mine touches no flagged cell and no unrevealed cell, where every
    /// mine must touch another.
    IsolatedMine,
}

/// The cells that a pass has proved to be mines and those it has proved safe.
pub struct Deductions {
    pub mines: Set<usize>,
    pub safe: Set<usize>,
}

impl Deductions {
    /// No cell.
    pub open spec fn none() -> Deductions {
        Deductions { mines: Set::empty(), safe: Set::empty() }
    }

    /// What either holds.
    pub open spec fn union(self, other: Deductions) -> Deductions {
        Deductions { mines: self.mines.union(other.mines), safe: self.safe.union(other.safe) }
    }

    /// What an optional outcome holds.
    pub open spec fn of(found: Option<Deductions>) -> Deductions {
        match found {
            Some(d) => d,
            None => Deductions::none(),
        }
    }
}

/// The outcome of one pass of a solver.
#[derive(Debug)]
pub struct KnownSquares {
    pub mines: HashSet<usize>,
    pub safe: HashSet<usize>,
}

impl View for KnownSquares {
    type V = Deductions;

    open spec fn view(&self) -> Deductions {
        Deductions { mines: self.mines@, safe: self.safe@ }
    }
}

impl KnownSquares {
    /// Nothing known.
    pub fn new() -> (known: KnownSquares)
        ensures
            known@ == Deductions::none(),
    {
        KnownSquares { mines: HashSet::new(), safe: HashSet::new() }
    }

    /// Adds what `other` knows.
    pub fn absorb(&mut self, other: &KnownSquares)
        ensures
            final(self)@ == old(self)@.union(other@),
    {
        merge_into(&mut self.mines, &other.mines);
        merge_into(&mut self.safe, &other.safe);
    }
}

/// Adds every element of a set to another.
pub fn merge_into(set: &mut HashSet<usize>, more: &HashSet<usize>)
    ensures
        final(set)@ == old(set)@.union(more@),
{
    broadcast use vstd::std_specs::hash::group_hash_axioms;

    for x in it: more.iter()
        invariant
            set@ == old(set)@.union(it.seq().take(it.index() as int).unref().to_set()),
            it.seq().unref().to_set() == more@,
            it.index() == it.seq().len() ==> it.seq().take(it.index() as int) == it.seq(),
    {
        proof {
            let done = it.seq().take(it.index() as int).unref();
            assert(it.seq().take(it.index() + 1).unref() =~= done.push(*x));
            done.lemma_push_to_set_commute(*x);
            assert(old(set)@.union(done.to_set()).insert(*x) =~= old(set)@.union(
                done.push(*x).to_set(),
            ));
        }
        set.insert(*x);
        assert(it.seq().take(it.seq().len() as int) =~= it.seq());
    }
}

/// Adds every element of a list to a set.
pub fn insert_all(set: &mut HashSet<usize>, items: &Vec<usize>)
    ensures
        final(set)@ == old(set)@.union(items@.to_set()),
{
    broadcast use vstd::std_specs::hash::group_hash_axioms;

    for k in 0..items.len()
        invariant
            set@ == old(set)@.union(items@.take(k as int).to_set()),
    {
        proof {
            assert(items@.take(k + 1) =~= items@.take(k as int).push(items@[k as int]));
            items@.take(k as int).lemma_push_to_set_commute(items@[k as int]);
            assert(old(set)@.union(items@.take(k as int).to_set()).insert(items@[k as int])
                =~= old(set)@.union(items@.take(k + 1).to_set()));
        }
        set.insert(items[k]);
    }
    assert(items@.take(items@.len() as int) =~= items@);
}

/// The set of the elements of a list.
pub fn set_of(items: &Vec<usize>) -> (set: HashSet<usize>)
    ensures
        set@ == items@.to_set(),
{
    let mut set: HashSet<usize> = HashSet::new();
    insert_all(&mut set, items);
    assert(Set::<usize>::empty().union(items@.to_set()) =~= items@.to_set());
    set
}

/// The zones are well formed and the derived zone, if any, is the one named.
pub open spec fn derived_is(found: Result<Option<Zone>, SolveError>, named: Result<
    Option<ZoneView>,
    SolveError,
>) -> bool {
    match (found, named) {
        (Ok(Some(z)), Ok(Some(v))) => z.wf() && z@ == v,
        (Ok(None), Ok(None)) => true,
        (Err(e), Err(f)) => e == f,
        _ => false,
    }
}

/// The outcome, if any, is the one named.
pub open spec fn known_is(found: Option<KnownSquares>, named: Option<Deductions>) -> bool {
    match (found, named) {
        (Some(k), Some(d)) => k@ == d,
        (None, None) => true,
        _ => false,
    }
}

/// Where one zone lies inside the other, what is left of the larger holds the
/// difference of their counts. Zones with the same cells derive nothing, but their
/// counts must still meet.
pub open spec fn strict_subset_rule(a: ZoneView, b: ZoneView) -> Result<
    Option<ZoneView>,
    SolveError,
> {
    if a.cells.subset_of(b.cells) {
        if b.max() < a.min() {
            Err(SolveError::SubsetHasOnlyLargerValues)
        } else if b.cells.subset_of(a.cells) {
            Ok(None)
        } else {
            Ok(Some(ZoneView { cells: b.only(a), counts: differences(a.counts, b.counts) }))
        }
    } else if b.cells.subset_of(a.cells) {
        if a.max() < b.min() {
            Err(SolveError::SubsetHasOnlyLargerValues)
        } else {
            Ok(Some(ZoneView { cells: a.only(b), counts: differences(b.counts, a.counts) }))
        }
    } else {
        Ok(None)
    }
}

/// Where a zone needs more mines than its own cells outside the overlap can hold,
/// the overlap holds the rest, and the other zone's own cells at most what its
/// greatest count leaves.
pub open spec fn min_bound_rule(a: ZoneView, b: ZoneView) -> Result<Option<ZoneView>, SolveError> {
    let x = a.only(b).len();
    let z = b.only(a).len();
    if x == 0 || z == 0 {
        Ok(None)
    } else if a.min() > x {
        if b.max() < a.min() - x {
            Err(SolveError::BoundBelowZero)
        } else {
            Ok(Some(ZoneView { cells: b.only(a), counts: between(0, b.max() - (a.min() - x)) }))
        }
    } else if b.min() > z {
        if a.max() < b.min() - z {
            Err(SolveError::BoundBelowZero)
        } else {
            Ok(Some(ZoneView { cells: a.only(b), counts: between(0, a.max() - (b.min() - z)) }))
        }
    } else {
        Ok(None)
    }
}

/// Where every count of one zone is below every count of the other, the other's
/// own cells hold at least the gap between the two ranges, and at most the other's
/// greatest count.
pub open spec fn small_overlap_rule(a: ZoneView, b: ZoneView) -> Result<
    Option<ZoneView>,
    SolveError,
> {
    if a.only(b).len() == 0 || b.only(a).len() == 0 {
        Ok(None)
    } else if a.max() < b.min() {
        Ok(Some(ZoneView { cells: b.only(a), counts: between(b.min() - a.max(), b.max() as int) }))
    } else if b.max() < a.min() {
        Ok(Some(ZoneView { cells: a.only(b), counts: between(a.min() - b.max(), a.max() as int) }))
    } else {
        Ok(None)
    }
}

/// A zone that needs as many mines as it has cells is all mines.
pub open spec fn full_zone_rule(z: ZoneView) -> Option<Deductions> {
    if z.count() == z.min() {
        Some(Deductions { mines: z.cells, safe: Set::empty() })
    } else {
        None
    }
}

/// A zone that allows no mine is all safe.
pub open spec fn empty_zone_rule(z: ZoneView) -> Option<Deductions> {
    if z.max() == 0 {
        Some(Deductions { mines: Set::empty(), safe: z.cells })
    } else {
        None
    }
}

/// Where the least count of one zone exceeds the greatest count of the other by
/// the number of its own cells outside the overlap, those cells are all mines and
/// the other's own cells are all safe.
pub open spec fn bound_overlap_rule(a: ZoneView, b: ZoneView) -> Option<Deductions> {
    if b.min() - a.max() == b.only(a).len() {
        Some(Deductions { mines: b.only(a), safe: a.only(b) })
    } else if a.min() - b.max() == a.only(b).len() {
        Some(Deductions { mines: a.only(b), safe: b.only(a) })
    } else {
        None
    }
}

/// The pair `(i, j)` of positions gives the difference `d`.
pub open spec fn difference_at(small: Seq<usize>, large: Seq<usize>, i: int, j: int, d: usize) -> bool {
    &&& 0 <= i < small.len()
    &&& 0 <= j < large.len()
    &&& small[i] <= large[j]
    &&& d == large[j] - small[i]
}

/// The differences `b - a` for each count `a` of `small` and each count `b` of
/// `large` that is not below it.
pub fn count_differences(small: &Vec<usize>, large: &Vec<usize>) -> (out: Vec<usize>)
    ensures
        out@.to_set() == differences(small@.to_set(), large@.to_set()),
        out@.len() > 0 <==> exists|i: int, j: int|
            0 <= i < small@.len() && 0 <= j < large@.len() && small@[i] <= large@[j],
{
    let mut out: Vec<usize> = Vec::new();
    let ghost s = small@;
    let ghost l = large@;
    for i in 0..small.len()
        invariant
            s == small@,
            l == large@,
            forall|d: usize|
                out@.contains(d) <==> exists|i2: int, j2: int|
                    i2 < i && #[trigger] difference_at(s, l, i2, j2, d),
            out@.len() > 0 <==> exists|i2: int, j2: int|
                0 <= i2 < i && 0 <= j2 < l.len() && #[trigger] s[i2] <= #[trigger] l[j2],
    {
        let a = small[i];
        for j in 0..large.len()
            invariant
                s == small@,
                l == large@,
                0 <= i < s.len(),
                a == s[i as int],
                forall|d: usize|
                    out@.contains(d) <==> exists|i2: int, j2: int|
                        (i2 < i || (i2 == i && j2 < j)) && #[trigger] difference_at(
                            s,
                            l,
                            i2,
                            j2,
                            d,
                        ),
                out@.len() > 0 <==> exists|i2: int, j2: int|
                    0 <= i2 <= i && 0 <= j2 < l.len() && (i2 < i || j2 < j) && #[trigger] s[i2]
                        <= #[trigger] l[j2],
        {
            let b = large[j];
            if a <= b {
                let ghost before = out@;
                let d0 = b - a;
                out.push(d0);
                proof {
                    assert(difference_at(s, l, i as int, j as int, d0));
                    assert(out@[before.len() as int] == d0);
                    assert forall|d: usize|
                        out@.contains(d) <==> exists|i2: int, j2: int|
                            (i2 < i || (i2 == i && j2 < j + 1)) && #[trigger] difference_at(
                                s,
                                l,
                                i2,
                                j2,
                                d,
                            ) by {
                        if before.contains(d) {
                            let k = choose|k: int| 0 <= k < before.len() && before[k] == d;
                            assert(out@[k] == d);
                        }
                        if out@.contains(d) {
                            let k = choose|k: int| 0 <= k < out@.len() && out@[k] == d;
                            if k < before.len() {
                                assert(before[k] == d);
                            }
                        }
                    }
                    assert(s[i as int] <= l[j as int]);
                }
            }
        }
    }
    proof {
        let ss = small@.to_set();
        let ls = large@.to_set();
        assert forall|d: usize| out@.to_set().contains(d) <==> differences(ss, ls).contains(d) by {
            if out@.contains(d) {
                let (i2, j2) = choose|i2: int, j2: int|
                    i2 < s.len() && #[trigger] difference_at(s, l, i2, j2, d);
                assert(ss.contains(s[i2]) && ls.contains(l[j2]));
            }
            if differences(ss, ls).contains(d) {
                let (a, b) = choose|a: usize, b: usize|
                    ss.contains(a) && ls.contains(b) && a <= b && d == b - a;
                let i2 = choose|i2: int| 0 <= i2 < s.len() && s[i2] == a;
                let j2 = choose|j2: int| 0 <= j2 < l.len() && l[j2] == b;
                assert(difference_at(s, l, i2, j2, d));
            }
        }
        assert(out@.to_set() =~= differences(ss, ls));
    }
    out
}

/// A zone over `cells` with every count from `lo` to `hi`.
fn spanning_zone(cells: Vec<usize>, lo: usize, hi: usize) -> (zone: Zone)
    requires
        cells@.no_duplicates(),
        cells@.len() > 0,
        lo <= hi,
    ensures
        zone.wf(),
        zone@ == (ZoneView { cells: cells@.to_set(), counts: between(lo as int, hi as int) }),
{
    let counts = span_vec(lo, hi);
    let zone = Zone::from_parts(cells, counts);
    proof {
        zone.lemma_view();
        let sp = span(lo as int, hi as int);
        assert forall|c: usize| sp.to_set().contains(c) <==> between(lo as int, hi as int).contains(
            c,
        ) by {
            if lo <= c <= hi {
                assert(sp[c - lo] == c);
            }
        }
        assert(sp.to_set() =~= between(lo as int, hi as int));
    }
    zone
}

/// A finite set without members is a set of size zero, and a zone's own cells are
/// none exactly where it lies inside the other.
pub proof fn lemma_only_none(a: ZoneView, b: ZoneView)
    requires
        a.cells.finite(),
    ensures
        a.only(b).finite(),
        a.only(b).len() == 0 <==> a.cells.subset_of(b.cells),
{
    let x = a.only(b);
    if x.len() == 0 {
        assert forall|c: usize| a.cells.contains(c) implies b.cells.contains(c) by {
            if !b.cells.contains(c) {
                assert(x.contains(c));
            }
        }
    }
    if a.cells.subset_of(b.cells) {
        assert(x =~= Set::empty());
    }
}

/// The zone left over where one zone lies inside the other.
pub fn strict_subset(zone1: &Zone, zone2: &Zone) -> (derived: Result<Option<Zone>, SolveError>)
    requires
        zone1.wf(),
        zone2.wf(),
    ensures
        derived_is(derived, strict_subset_rule(zone1@, zone2@)),
{
    let (only_first, _, only_second) = zone1.sections(zone2);
    proof {
        zone1.lemma_view();
        zone2.lemma_view();
        lemma_only_none(zone1@, zone2@);
        lemma_only_none(zone2@, zone1@);
    }
    if only_first.len() == 0 {
        if zone2.max() < zone1.min() {
            return Err(SolveError::SubsetHasOnlyLargerValues);
        }
        if only_second.len() == 0 {
            return Ok(None);
        }
        let counts = count_differences(zone1.counts(), zone2.counts());
        proof {
            let a = zone1@.min();
            let b = zone2@.max();
            assert(zone1.count_seq().contains(a) && zone2.count_seq().contains(b));
            let i = choose|i: int| 0 <= i < zone1.count_seq().len() && zone1.count_seq()[i] == a;
            let j = choose|j: int| 0 <= j < zone2.count_seq().len() && zone2.count_seq()[j] == b;
            assert(zone1.count_seq()[i] <= zone2.count_seq()[j]);
        }
        let zone = Zone::from_parts(only_second, counts);
        proof {
            zone.lemma_view();
        }
        return Ok(Some(zone));
    }
    if only_second.len() == 0 {
        if zone1.max() < zone2.min() {
            return Err(SolveError::SubsetHasOnlyLargerValues);
        }
        let counts = count_differences(zone2.counts(), zone1.counts());
        proof {
            let a = zone2@.min();
            let b = zone1@.max();
            assert(zone2.count_seq().contains(a) && zone1.count_seq().contains(b));
            let i = choose|i: int| 0 <= i < zone2.count_seq().len() && zone2.count_seq()[i] == a;
            let j = choose|j: int| 0 <= j < zone1.count_seq().len() && zone1.count_seq()[j] == b;
            assert(zone2.count_seq()[i] <= zone1.count_seq()[j]);
        }
        let zone = Zone::from_parts(only_first, counts);
        proof {
            zone.lemma_view();
        }
        return Ok(Some(zone));
    }
    Ok(None)
}

/// The bound on one zone's own cells that the other zone's need for mines in the
/// overlap gives.
pub fn add_min_bounds(zone1: &Zone, zone2: &Zone) -> (derived: Result<Option<Zone>, SolveError>)
    requires
        zone1.wf(),
        zone2.wf(),
    ensures
        derived_is(derived, min_bound_rule(zone1@, zone2@)),
{
    let (x_spaces, _, z_spaces) = zone1.sections(zone2);
    if x_spaces.len() == 0 || z_spaces.len() == 0 {
        return Ok(None);
    }
    let amin = zone1.min();
    let xmax = x_spaces.len();
    if amin > xmax {
        let ymin = amin - xmax;
        let bmax = zone2.max();
        if bmax < ymin {
            return Err(SolveError::BoundBelowZero);
        }
        let zmax = bmax - ymin;
        return Ok(Some(spanning_zone(z_spaces, 0, zmax)));
    }
    let bmin = zone2.min();
    let zmax = z_spaces.len();
    if bmin > zmax {
        let ymin = bmin - zmax;
        let amax = zone1.max();
        if amax < ymin {
            return Err(SolveError::BoundBelowZero);
        }
        let xmax = amax - ymin;
        return Ok(Some(spanning_zone(x_spaces, 0, xmax)));
    }
    Ok(None)
}

/// The bound on one zone's own cells where its counts lie wholly above the other's.
pub fn handle_small_overlaps(zone1: &Zone, zone2: &Zone) -> (derived: Result<
    Option<Zone>,
    SolveError,
>)
    requires
        zone1.wf(),
        zone2.wf(),
    ensures
        derived_is(derived, small_overlap_rule(zone1@, zone2@)),
{
    let (x_spaces, _, z_spaces) = zone1.sections(zone2);
    if x_spaces.len() == 0 || z_spaces.len() == 0 {
        return Ok(None);
    }
    let amin = zone1.min();
    let amax = zone1.max();
    let bmin = zone2.min();
    let bmax = zone2.max();
    if amax < bmin {
        return Ok(Some(spanning_zone(z_spaces, bmin - amax, bmax)));
    }
    if bmax < amin {
        return Ok(Some(spanning_zone(x_spaces, amin - bmax, amax)));
    }
    Ok(None)
}

/// All cells of a zone as mines, where the zone needs as many mines as it has cells.
pub fn full_zone(zone: &Zone) -> (known: Option<KnownSquares>)
    requires
        zone.wf(),
    ensures
        known_is(known, full_zone_rule(zone@)),
{
    if zone.count() == zone.min() {
        proof {
            zone.lemma_view();
        }
        return Some(KnownSquares { mines: set_of(zone.cells()), safe: HashSet::new() });
    }
    None
}

/// All cells of a zone as safe, where the zone allows no mine.
pub fn empty_zone(zone: &Zone) -> (known: Option<KnownSquares>)
    requires
        zone.wf(),
    ensures
        known_is(known, empty_zone_rule(zone@)),
{
    if zone.max() == 0 {
        proof {
            zone.lemma_view();
        }
        return Some(KnownSquares { mines: HashSet::new(), safe: set_of(zone.cells()) });
    }
    None
}

/// One zone's own cells as mines and the other's as safe, where the counts of the
/// two zones leave no other way.
pub fn max_min_bound_overlap(zone1: &Zone, zone2: &Zone) -> (known: Option<KnownSquares>)
    requires
        zone1.wf(),
        zone2.wf(),
    ensures
        known_is(known, bound_overlap_rule(zone1@, zone2@)),
{
    let (only_first, _, only_second) = zone1.sections(zone2);
    let z1min = zone1.min();
    let z2min = zone2.min();
    let z1max = zone1.max();
    let z2max = zone2.max();
    let z1ex = only_first.len();
    let z2ex = only_second.len();
    if z2min >= z1max && z2min - z1max == z2ex {
        return Some(KnownSquares { mines: set_of(&only_second), safe: set_of(&only_first) });
    }
    if z1min >= z2max && z1min - z2max == z1ex {
        return Some(KnownSquares { mines: set_of(&only_first), safe: set_of(&only_second) });
    }
    None
}

} // verus!
