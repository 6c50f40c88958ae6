use vstd::prelude::*;

verus! {

/// Relies on std's `slice::select_nth_unstable_by_key`: it only reorders the
/// entries, and leaves at `index` an entry that no earlier entry exceeds in
/// distance and no later entry falls below. It panics only for `index >= len`.
#[verifier::external_body]
pub(crate) fn select_by_distance<T>(v: &mut Vec<(T, u64)>, index: usize)
    requires
        index < old(v).len(),
    ensures
        final(v)@.to_multiset() == old(v)@.to_multiset(),
        final(v)@.len() == old(v)@.len(),
        forall|i: int| 0 <= i < index ==> #[trigger] final(v)@[i].1 <= final(v)@[index as int].1,
        forall|i: int|
            index < i < final(v)@.len() ==> #[trigger] final(v)@[i].1 >= final(v)@[index as int].1,
{
    v.select_nth_unstable_by_key(index, |e| e.1);
}

/// Relies on std's `slice::sort_unstable` on pairs: it only reorders the
/// entries, into ascending order of distance, then of index (tuples compare
/// lexicographically).
#[verifier::external_body]
pub(crate) fn sort_entries(v: &mut Vec<(u64, usize)>)
    ensures
        final(v)@.to_multiset() == old(v)@.to_multiset(),
        final(v)@.len() == old(v)@.len(),
        forall|i: int, j: int|
            0 <= i <= j < final(v)@.len() ==> #[trigger] final(v)@[i].0 < #[trigger] final(v)@[j].0 || (
            final(v)@[i].0 == final(v)@[j].0 && final(v)@[i].1 <= final(v)@[j].1),
{
    v.sort_unstable();
}

} // verus!
