//! Zones: a set of unrevealed cells together with the numbers of mines that may lie
//! among them.

use crate::seqs::{holds_value, lemma_filter_members, lemma_filter_to_set, lemma_len_of_set};
use vstd::prelude::*;

verus! {

/// The smallest member of a set of numbers.
#[verifier::opaque]
pub open spec fn least(s: Set<usize>) -> usize {
    choose|m: usize| s.contains(m) && forall|x: usize| s.contains(x) ==> m <= x
}

/// The largest member of a set of numbers.
#[verifier::opaque]
pub open spec fn greatest(s: Set<usize>) -> usize {
    choose|m: usize| s.contains(m) && forall|x: usize| s.contains(x) ==> x <= m
}

/// A member that no member is below is the least.
pub proof fn lemma_least(s: Set<usize>, m: usize)
    requires
        s.contains(m),
        forall|x: usize| s.contains(x) ==> m <= x,
    ensures
        least(s) == m,
{
    reveal(least);
    let l = least(s);
    assert(s.contains(l) && forall|x: usize| s.contains(x) ==> l <= x);
}

/// A member that no member is above is the greatest.
pub proof fn lemma_greatest(s: Set<usize>, m: usize)
    requires
        s.contains(m),
        forall|x: usize| s.contains(x) ==> x <= m,
    ensures
        greatest(s) == m,
{
    reveal(greatest);
    let g = greatest(s);
    assert(s.contains(g) && forall|x: usize| s.contains(x) ==> x <= g);
}

/// Below a member of a set of numbers lies a member that no member is below.
proof fn lemma_has_least(s: Set<usize>, m: usize)
    requires
        s.contains(m),
    ensures
        exists|l: usize| s.contains(l) && forall|x: usize| s.contains(x) ==> l <= x,
    decreases m,
{
    if exists|x: usize| s.contains(x) && x < m {
        let x = choose|x: usize| s.contains(x) && x < m;
        lemma_has_least(s, x);
    } else {
        assert(s.contains(m) && forall|x: usize| s.contains(x) ==> m <= x);
    }
}

/// Above a member of a set of numbers lies a member that no member is above.
proof fn lemma_has_greatest(s: Set<usize>, m: usize)
    requires
        s.contains(m),
    ensures
        exists|g: usize| s.contains(g) && forall|x: usize| s.contains(x) ==> x <= g,
    decreases usize::MAX - m,
{
    if exists|x: usize| s.contains(x) && x > m {
        let x = choose|x: usize| s.contains(x) && x > m;
        lemma_has_greatest(s, x);
    } else {
        assert(s.contains(m) && forall|x: usize| s.contains(x) ==> x <= m);
    }
}

/// A set of numbers that is not empty has a least and a greatest member.
pub proof fn lemma_extremes(s: Set<usize>)
    requires
        exists|c: usize| s.contains(c),
    ensures
        s.contains(least(s)),
        s.contains(greatest(s)),
        forall|x: usize| s.contains(x) ==> least(s) <= x <= greatest(s),
{
    let c = choose|c: usize| s.contains(c);
    lemma_has_least(s, c);
    lemma_has_greatest(s, c);
    let l = choose|l: usize| s.contains(l) && forall|x: usize| s.contains(x) ==> l <= x;
    let g = choose|g: usize| s.contains(g) && forall|x: usize| s.contains(x) ==> x <= g;
    lemma_least(s, l);
    lemma_greatest(s, g);
}

/// The numbers from `lo` to `hi`, both included.
pub open spec fn between(lo: int, hi: int) -> Set<usize> {
    Set::new(|c: usize| lo <= c <= hi)
}

/// The differences `b - a` of a member `a` of `small` and a member `b` of `large`
/// that is not below it.
pub open spec fn differences(small: Set<usize>, large: Set<usize>) -> Set<usize> {
    Set::new(
        |d: usize|
            exists|a: usize, b: usize|
                small.contains(a) && large.contains(b) && a <= b && d == b - a,
    )
}

/// What a zone says: the number of mines among `cells` is one of `counts`.
pub struct ZoneView {
    pub cells: Set<usize>,
    pub counts: Set<usize>,
}

impl ZoneView {
    /// There are finitely many cells, at least one cell and at least one count.
    pub open spec fn wf(self) -> bool {
        &&& self.cells.finite()
        &&& self.cells.len() > 0
        &&& exists|c: usize| self.counts.contains(c)
    }

    /// The least number of mines that the zone allows.
    pub open spec fn min(self) -> usize {
        least(self.counts)
    }

    /// The greatest number of mines that the zone allows.
    pub open spec fn max(self) -> usize {
        greatest(self.counts)
    }

    /// The number of cells.
    pub open spec fn count(self) -> nat {
        self.cells.len()
    }

    /// The cells that this zone has and `other` has not.
    pub open spec fn only(self, other: ZoneView) -> Set<usize> {
        self.cells.difference(other.cells)
    }

    /// The cells that both zones have.
    pub open spec fn shared(self, other: ZoneView) -> Set<usize> {
        self.cells.intersect(other.cells)
    }

    /// The least and the greatest count are counts, and bound every count.
    pub proof fn lemma_bounds(self)
        requires
            self.wf(),
        ensures
            self.counts.contains(self.min()),
            self.counts.contains(self.max()),
            self.min() <= self.max(),
            forall|x: usize| self.counts.contains(x) ==> self.min() <= x <= self.max(),
    {
        lemma_extremes(self.counts);
    }

    /// The zones have a cell in common.
    pub open spec fn overlaps(self, other: ZoneView) -> bool {
        exists|c: usize| self.cells.contains(c) && other.cells.contains(c)
    }
}

/// A zone as the solver holds it: its cells, each once, and the possible counts.
#[derive(Clone, Debug)]
pub struct Zone {
    cells: Vec<usize>,
    minecount: Vec<usize>,
}

impl View for Zone {
    type V = ZoneView;

    closed spec fn view(&self) -> ZoneView {
        ZoneView { cells: self.cells@.to_set(), counts: self.minecount@.to_set() }
    }
}

/// What is in `a` and not in `b`, in the order of `a`.
pub closed spec fn without(a: Seq<usize>, b: Seq<usize>) -> Seq<usize> {
    a.filter(|c: usize| !b.contains(c))
}

/// What is in both `a` and `b`, in the order of `a`.
pub closed spec fn common(a: Seq<usize>, b: Seq<usize>) -> Seq<usize> {
    a.filter(|c: usize| b.contains(c))
}

impl Zone {
    /// The cells in the order in which the zone holds them.
    pub closed spec fn cell_seq(&self) -> Seq<usize> {
        self.cells@
    }

    /// The possible counts in the order in which the zone holds them.
    pub closed spec fn count_seq(&self) -> Seq<usize> {
        self.minecount@
    }

    /// No cell occurs twice, and there is at least one cell and one count.
    pub closed spec fn wf(&self) -> bool {
        &&& self.cells@.no_duplicates()
        &&& self.cells@.len() > 0
        &&& self.minecount@.len() > 0
    }

    /// How the zone's view follows from what it holds.
    pub proof fn lemma_view(&self)
        ensures
            self@.cells == self.cell_seq().to_set(),
            self@.counts == self.count_seq().to_set(),
            self.wf() <==> self.cell_seq().no_duplicates() && self.cell_seq().len() > 0
                && self.count_seq().len() > 0,
            self.wf() ==> self@.wf() && self@.count() == self.cell_seq().len(),
    {
        if self.wf() {
            lemma_len_of_set(self.cells@);
            assert(self.minecount@.to_set().contains(self.minecount@[0]));
        }
    }

    /// A zone over `cells` with the possible counts `minecount`; none where a cell
    /// occurs twice or either list is empty.
    pub fn new(cells: Vec<usize>, minecount: Vec<usize>) -> (zone: Option<Zone>)
        ensures
            zone is Some <==> cells@.no_duplicates() && cells@.len() > 0 && minecount@.len() > 0,
            zone matches Some(z) ==> z.wf() && z.cell_seq() == cells@ && z.count_seq()
                == minecount@,
    {
        if cells.len() == 0 || minecount.len() == 0 {
            return None;
        }
        for k in 0..cells.len()
            invariant
                forall|a: int, b: int| 0 <= a < b < k ==> cells@[a] != cells@[b],
        {
            for j in 0..k
                invariant
                    0 <= k < cells@.len(),
                    forall|a: int| 0 <= a < j ==> cells@[a] != cells@[k as int],
            {
                if cells[j] == cells[k] {
                    return None;
                }
            }
        }
        Some(Zone { cells, minecount })
    }

    /// A zone built from lists that are known to be well formed.
    pub(crate) fn from_parts(cells: Vec<usize>, minecount: Vec<usize>) -> (zone: Zone)
        requires
            cells@.no_duplicates(),
            cells@.len() > 0,
            minecount@.len() > 0,
        ensures
            zone.wf(),
            zone.cell_seq() == cells@,
            zone.count_seq() == minecount@,
    {
        Zone { cells, minecount }
    }

    /// The cells of the zone.
    pub fn cells(&self) -> (cells: &Vec<usize>)
        ensures
            cells@ == self.cell_seq(),
    {
        &self.cells
    }

    /// The possible counts of the zone.
    pub fn counts(&self) -> (counts: &Vec<usize>)
        ensures
            counts@ == self.count_seq(),
    {
        &self.minecount
    }

    /// The least possible count.
    pub fn min(&self) -> (m: usize)
        requires
            self.wf(),
        ensures
            m == self@.min(),
            self@.counts.contains(m),
            self@.min() <= self@.max(),
    {
        let mut m = self.minecount[0];
        for k in 1..self.minecount.len()
            invariant
                self.minecount@.len() > 0,
                self.minecount@.contains(m),
                forall|j: int| 0 <= j < k ==> m <= self.minecount@[j],
        {
            if self.minecount[k] < m {
                m = self.minecount[k];
            }
        }
        proof {
            lemma_least(self@.counts, m);
            self.lemma_view();
            self@.lemma_bounds();
        }
        m
    }

    /// The greatest possible count.
    pub fn max(&self) -> (m: usize)
        requires
            self.wf(),
        ensures
            m == self@.max(),
            self@.counts.contains(m),
            self@.min() <= self@.max(),
    {
        let mut m = self.minecount[0];
        for k in 1..self.minecount.len()
            invariant
                self.minecount@.len() > 0,
                self.minecount@.contains(m),
                forall|j: int| 0 <= j < k ==> self.minecount@[j] <= m,
        {
            if self.minecount[k] > m {
                m = self.minecount[k];
            }
        }
        proof {
            lemma_greatest(self@.counts, m);
            self.lemma_view();
            self@.lemma_bounds();
        }
        m
    }

    /// The number of cells.
    pub fn count(&self) -> (n: usize)
        requires
            self.wf(),
        ensures
            n == self@.count(),
            n == self.cell_seq().len(),
    {
        proof {
            self.lemma_view();
        }
        self.cells.len()
    }

    /// The cells of this zone alone, the cells of both zones, and the cells of
    /// `other` alone, each in the order of the zone it is taken from.
    pub fn sections(&self, other: &Zone) -> (parts: (Vec<usize>, Vec<usize>, Vec<usize>))
        requires
            self.wf(),
            other.wf(),
        ensures
            parts.0@ == without(self.cell_seq(), other.cell_seq()),
            parts.1@ == common(self.cell_seq(), other.cell_seq()),
            parts.2@ == without(other.cell_seq(), self.cell_seq()),
            parts.0@.no_duplicates() && parts.1@.no_duplicates() && parts.2@.no_duplicates(),
            parts.0@.to_set() == self@.only(other@),
            parts.1@.to_set() == self@.shared(other@),
            parts.2@.to_set() == other@.only(self@),
            parts.0@.len() == self@.only(other@).len(),
            parts.1@.len() == self@.shared(other@).len(),
            parts.2@.len() == other@.only(self@).len(),
    {
        let mut only_first: Vec<usize> = Vec::new();
        let mut both: Vec<usize> = Vec::new();
        let mut only_second: Vec<usize> = Vec::new();
        let ghost a = self.cells@;
        let ghost b = other.cells@;
        let ghost not_in_b = |c: usize| !b.contains(c);
        let ghost in_b = |c: usize| b.contains(c);
        let ghost not_in_a = |c: usize| !a.contains(c);
        proof {
            reveal(Seq::filter);
            assert(a.take(0) =~= Seq::empty());
            assert(b.take(0) =~= Seq::empty());
        }
        for k in 0..self.cells.len()
            invariant
                a == self.cells@,
                b == other.cells@,
                not_in_b == (|c: usize| !b.contains(c)),
                in_b == (|c: usize| b.contains(c)),
                only_first@ == a.take(k as int).filter(not_in_b),
                both@ == a.take(k as int).filter(in_b),
        {
            let c = self.cells[k];
            proof {
                assert(a.take(k + 1) =~= a.take(k as int).push(c));
                a.take(k as int).lemma_filter_push(c, not_in_b);
                a.take(k as int).lemma_filter_push(c, in_b);
            }
            if holds_value(&other.cells, c) {
                both.push(c);
            } else {
                only_first.push(c);
            }
        }
        for k in 0..other.cells.len()
            invariant
                a == self.cells@,
                b == other.cells@,
                not_in_a == (|c: usize| !a.contains(c)),
                only_second@ == b.take(k as int).filter(not_in_a),
        {
            let c = other.cells[k];
            proof {
                assert(b.take(k + 1) =~= b.take(k as int).push(c));
                b.take(k as int).lemma_filter_push(c, not_in_a);
            }
            if !holds_value(&self.cells, c) {
                only_second.push(c);
            }
        }
        proof {
            assert(a.take(a.len() as int) =~= a);
            assert(b.take(b.len() as int) =~= b);
            lemma_filter_members(a, not_in_b);
            lemma_filter_members(a, in_b);
            lemma_filter_members(b, not_in_a);
            lemma_filter_to_set(a, not_in_b);
            lemma_filter_to_set(a, in_b);
            lemma_filter_to_set(b, not_in_a);
            assert(a.to_set().filter(not_in_b) =~= self@.only(other@));
            assert(a.to_set().filter(in_b) =~= self@.shared(other@));
            assert(b.to_set().filter(not_in_a) =~= other@.only(self@));
            lemma_len_of_set(only_first@);
            lemma_len_of_set(both@);
            lemma_len_of_set(only_second@);
        }
        (only_first, both, only_second)
    }

    /// Whether the zones have a cell in common.
    pub fn has_overlap(&self, other: &Zone) -> (found: bool)
        ensures
            found == self@.overlaps(other@),
    {
        for k in 0..self.cells.len()
            invariant
                forall|j: int| 0 <= j < k ==> !other.cells@.contains(self.cells@[j]),
        {
            if holds_value(&other.cells, self.cells[k]) {
                assert(self@.cells.contains(self.cells@[k as int]) && other@.cells.contains(
                    self.cells@[k as int],
                ));
                return true;
            }
        }
        proof {
            if self@.overlaps(other@) {
                let c = choose|c: usize| self@.cells.contains(c) && other@.cells.contains(c);
                let j = choose|j: int| 0 <= j < self.cells@.len() && self.cells@[j] == c;
                assert(!other.cells@.contains(self.cells@[j]));
            }
        }
        false
    }
}

/// The views of a list of zones.
pub open spec fn views(zones: Seq<Zone>) -> Seq<ZoneView> {
    zones.map_values(|z: Zone| z@)
}

/// Every zone of a list is well formed.
pub open spec fn all_wf(zones: Seq<Zone>) -> bool {
    forall|k: int| 0 <= k < zones.len() ==> (#[trigger] zones[k]).wf()
}

} // verus!
