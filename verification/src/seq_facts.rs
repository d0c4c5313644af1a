//! Facts about sequences that the grid's proofs share.

use vstd::prelude::*;
use vstd::seq_lib::*;

verus! {

/// What is kept of a sequence without repeated entries has none.
pub proof fn lemma_filter_keeps_distinct<A>(s: Seq<A>, pred: spec_fn(A) -> bool)
    requires
        s.no_duplicates(),
    ensures
        s.filter(pred).no_duplicates(),
    decreases s.len(),
{
    reveal(Seq::filter);
    if s.len() > 0 {
        let rest = s.drop_last();
        lemma_filter_keeps_distinct(rest, pred);
        if pred(s.last()) {
            let kept = rest.filter(pred);
            if kept.contains(s.last()) {
                rest.lemma_filter_contains_rev(pred, s.last());
            }
        }
    }
}

/// A test that holds of every entry keeps the whole sequence.
pub proof fn lemma_filter_keeps_all<A>(s: Seq<A>, pred: spec_fn(A) -> bool)
    requires
        forall|i: int| 0 <= i < s.len() ==> pred(#[trigger] s[i]),
    ensures
        s.filter(pred) == s,
    decreases s.len(),
{
    reveal(Seq::filter);
    if s.len() > 0 {
        lemma_filter_keeps_all(s.drop_last(), pred);
    }
}

/// A test narrowed by one value keeps all that the wider test keeps but,
/// at most, that value: in a sequence without repeated entries the kept
/// part is shorter by one at most, and not at all where the value does not
/// occur.
pub proof fn lemma_filter_narrowed<A>(
    s: Seq<A>,
    wide: spec_fn(A) -> bool,
    narrow: spec_fn(A) -> bool,
    value: A,
)
    requires
        s.no_duplicates(),
        forall|a: A| #[trigger] narrow(a) == (wide(a) && a != value),
    ensures
        s.filter(narrow).len() + 1 >= s.filter(wide).len(),
        !s.contains(value) ==> s.filter(narrow) == s.filter(wide),
        s.filter(narrow).len() <= s.filter(wide).len(),
    decreases s.len(),
{
    reveal(Seq::filter);
    if s.len() > 0 {
        let rest = s.drop_last();
        lemma_filter_narrowed(rest, wide, narrow, value);
    }
}

/// Two sequences that hold the same entries equally often have the same
/// length and the same entries, and neither repeats one unless the other
/// does.
pub proof fn lemma_same_entries<A>(first: Seq<A>, second: Seq<A>)
    requires
        first.to_multiset() == second.to_multiset(),
    ensures
        first.len() == second.len(),
        forall|a: A| first.contains(a) <==> second.contains(a),
        first.no_duplicates() ==> second.no_duplicates(),
{
    broadcast use group_to_multiset_ensures;

    assert(second.len() == second.to_multiset().len());
    assert forall|a: A| first.contains(a) <==> second.contains(a) by {
        assert(second.contains(a) <==> second.to_multiset().count(a) > 0);
    }
    if first.no_duplicates() {
        first.lemma_multiset_has_no_duplicates();
        second.lemma_multiset_has_no_duplicates_conv();
    }
}

} // verus!
