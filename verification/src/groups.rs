//! Duplicates within one constraint group: a row, a column or a block,
//! given as the sequence of its cell values, 0 for an empty cell.

use vstd::prelude::*;
use vstd::seq_lib::*;

verus! {

/// How often `value` occurs in `group`.
pub open spec fn occurrences(group: Seq<u8>, value: u8) -> nat {
    group.to_multiset().count(value)
}

/// The occurrences of `value` in `group` beyond the first.
pub open spec fn surplus(group: Seq<u8>, value: u8) -> nat {
    if occurrences(group, value) > 1 {
        (occurrences(group, value) - 1) as nat
    } else {
        0
    }
}

/// The surplus of the values `1..=top` in `group`, added up.
pub open spec fn duplicates_among(group: Seq<u8>, top: nat) -> nat
    decreases top,
{
    if top == 0 {
        0
    } else {
        duplicates_among(group, (top - 1) as nat) + surplus(group, top as u8)
    }
}

/// The duplicates of `group`: each value of `1..=9` counts once for every
/// occurrence beyond its first. Empty cells count for nothing.
pub open spec fn group_duplicates(group: Seq<u8>) -> nat {
    duplicates_among(group, 9)
}

/// Whether no value of `1..=9` occurs twice in `group`.
pub open spec fn all_distinct(group: Seq<u8>) -> bool {
    forall|value: u8| 1 <= value <= 9 ==> occurrences(group, value) <= 1
}

/// Appending `value` to `group` adds one duplicate if `value` is one of
/// `1..=top` and occurs in `group` already, and none otherwise.
pub proof fn lemma_duplicates_push(group: Seq<u8>, value: u8, top: nat)
    requires
        top <= 255,
    ensures
        duplicates_among(group.push(value), top) == duplicates_among(group, top) + if 1 <= value
            <= top && occurrences(group, value) >= 1 {
            1nat
        } else {
            0nat
        },
    decreases top,
{
    broadcast use group_to_multiset_ensures;

    if top > 0 {
        lemma_duplicates_push(group, value, (top - 1) as nat);
    }
}

/// A group in which none of `1..=top` occurs twice has no duplicates
/// among them, and the other way round.
pub proof fn lemma_duplicates_none(group: Seq<u8>, top: nat)
    requires
        top <= 255,
    ensures
        duplicates_among(group, top) == 0 <==> forall|value: u8|
            1 <= value <= top ==> occurrences(group, value) <= 1,
    decreases top,
{

    if top > 0 {
        lemma_duplicates_none(group, (top - 1) as nat);
        if duplicates_among(group, top) == 0 {
            assert forall|value: u8| 1 <= value <= top implies occurrences(group, value) <= 1 by {}
        }
    }
}

/// A group has no duplicates exactly when no value of `1..=9` occurs in it
/// twice.
pub proof fn lemma_no_duplicates_iff_distinct(group: Seq<u8>)
    ensures
        group_duplicates(group) == 0 <==> all_distinct(group),
{
    lemma_duplicates_none(group, 9);
}

/// Two groups that hold the same values equally often have the same
/// duplicates.
pub proof fn lemma_duplicates_of_same_values(first: Seq<u8>, second: Seq<u8>, top: nat)
    requires
        first.to_multiset() == second.to_multiset(),
    ensures
        duplicates_among(first, top) == duplicates_among(second, top),
    decreases top,
{
    if top > 0 {
        lemma_duplicates_of_same_values(first, second, (top - 1) as nat);
    }
}

/// Counts the duplicates of `group`.
pub fn count_duplicates(group: &[u8]) -> (duplicates: u32)
    requires
        group@.len() <= u32::MAX,
        forall|i: int| 0 <= i < group@.len() ==> group@[i] <= 9,
    ensures
        duplicates == group_duplicates(group@),
        duplicates <= group@.len(),
{
    let mut seen = [false;10];
    let mut duplicates: u32 = 0;
    proof {
        lemma_duplicates_none(group@.take(0), 9);
        broadcast use group_to_multiset_ensures;

    }
    for i in 0..group.len()
        invariant
            group@.len() <= u32::MAX,
            forall|k: int| 0 <= k < group@.len() ==> group@[k] <= 9,
            duplicates == group_duplicates(group@.take(i as int)),
            duplicates <= i,
            forall|value: int|
                0 <= value < 10 ==> seen[value] == (value != 0 && occurrences(
                    group@.take(i as int),
                    value as u8,
                ) > 0),
    {
        let val = group[i];
        proof {
            broadcast use group_to_multiset_ensures;

            let before = group@.take(i as int);
            assert(before.push(val) =~= group@.take(i + 1));
            lemma_duplicates_push(before, val, 9);
        }
        if val != 0 {
            if seen[val as usize] {
                duplicates += 1;
            }
            seen[val as usize] = true;
        }
    }
    proof {
        assert(group@.take(group@.len() as int) =~= group@);
    }
    duplicates
}

} // verus!
