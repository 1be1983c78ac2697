//! Facts about sequences without repetitions and the finite sets they list.

use vstd::prelude::*;

verus! {

/// A filtered sequence holds the elements of the sequence that pass the test, and
/// repeats none where the sequence repeats none.
pub proof fn lemma_filter_members<A>(s: Seq<A>, p: spec_fn(A) -> bool)
    ensures
        forall|x: A| #[trigger] s.filter(p).contains(x) <==> s.contains(x) && p(x),
        s.no_duplicates() ==> s.filter(p).no_duplicates(),
    decreases s.len(),
{
    reveal(Seq::filter);
    if s.len() > 0 {
        let rest = s.drop_last();
        let last = s.last();
        lemma_filter_members(rest, p);
        assert(s =~= rest.push(last));
        assert forall|x: A| #[trigger] s.filter(p).contains(x) <==> s.contains(x) && p(x) by {
            if s.contains(x) {
                let k = choose|k: int| 0 <= k < s.len() && s[k] == x;
                if k < rest.len() {
                    assert(rest[k] == x);
                }
            }
            if rest.contains(x) {
                let k = choose|k: int| 0 <= k < rest.len() && rest[k] == x;
                assert(s[k] == x);
            }
            if s.filter(p).contains(x) {
                let k = choose|k: int| 0 <= k < s.filter(p).len() && s.filter(p)[k] == x;
                if k < rest.filter(p).len() {
                    assert(rest.filter(p)[k] == x);
                } else {
                    assert(x == last);
                    assert(s[s.len() - 1] == x);
                }
            }
            if rest.filter(p).contains(x) {
                let k = choose|k: int| 0 <= k < rest.filter(p).len() && rest.filter(p)[k] == x;
                assert(s.filter(p)[k] == x);
            }
            if x == last && p(x) {
                assert(s.filter(p)[s.filter(p).len() - 1] == x);
            }
        }
        if s.no_duplicates() {
            assert(rest.no_duplicates());
            if rest.contains(last) {
                let k = choose|k: int| 0 <= k < rest.len() && rest[k] == last;
                assert(s[k] == s[s.len() - 1]);
            }
            assert(!rest.filter(p).contains(last));
        }
    }
}

/// The set that a filtered sequence lists is the filtered set.
pub proof fn lemma_filter_to_set<A>(s: Seq<A>, p: spec_fn(A) -> bool)
    ensures
        s.filter(p).to_set() == s.to_set().filter(p),
{
    lemma_filter_members(s, p);
    assert(s.filter(p).to_set() =~= s.to_set().filter(p));
}

/// A sequence without repetitions is as long as the set it lists is large.
pub proof fn lemma_len_of_set<A>(s: Seq<A>)
    requires
        s.no_duplicates(),
    ensures
        s.to_set().finite(),
        s.to_set().len() == s.len(),
{
    s.unique_seq_to_set();
    vstd::seq_lib::seq_to_set_is_finite(s);
}

/// The sequence `lo, lo + 1, ..., hi`.
pub open spec fn span(lo: int, hi: int) -> Seq<usize> {
    Seq::new((hi + 1 - lo) as nat, |k: int| (lo + k) as usize)
}

/// The numbers from `lo` to `hi`, both included, in ascending order.
pub fn span_vec(lo: usize, hi: usize) -> (out: Vec<usize>)
    requires
        lo <= hi,
    ensures
        out@ == span(lo as int, hi as int),
{
    let mut out: Vec<usize> = Vec::new();
    let mut next = lo;
    out.push(next);
    while next < hi
        invariant
            lo <= next <= hi,
            out@.len() == next - lo + 1,
            forall|k: int| 0 <= k < out@.len() ==> out@[k] == lo + k,
        decreases hi - next,
    {
        next = next + 1;
        out.push(next);
    }
    assert(out@ =~= span(lo as int, hi as int));
    out
}

/// Whether a vector holds a value.
pub fn holds_value(v: &Vec<usize>, x: usize) -> (found: bool)
    ensures
        found == v@.contains(x),
{
    for k in 0..v.len()
        invariant
            forall|j: int| 0 <= j < k ==> v@[j] != x,
    {
        if v[k] == x {
            return true;
        }
    }
    false
}

} // verus!
