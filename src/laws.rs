//! Laws that relate the tree's operations to one another.
use crate::metric::dist;
use crate::vptree::{before, in_order, is_k_nearest, is_nearest, is_within, lists, VPTree};
use vstd::set_lib::lemma_len_subset;
use vstd::multiset::Multiset;
use vstd::prelude::*;

verus! {

/// Two answers to the same nearest query over the same items are equal: ties
/// go to the item given first, so the answer is a function of the items. Trees
/// built from the same slice hold the same items in the same order, and a
/// query keeps a tree's items, so repeated queries and equally built trees
/// answer alike.
pub proof fn lemma_nearest_repeats<T, F: Fn(&T, &T) -> u64>(
    f: F,
    items: Seq<T>,
    needle: T,
    r1: Option<(u64, T)>,
    r2: Option<(u64, T)>,
)
    requires
        is_nearest(f, items, needle, r1),
        is_nearest(f, items, needle, r2),
    ensures
        r1 == r2,
{
    if r1.is_some() && r2.is_some() {
        let e1 = r1.unwrap();
        let e2 = r2.unwrap();
        let j1 = choose|j: int|
            0 <= j < items.len() && #[trigger] items[j] == e1.1 && e1.0 == dist(f, needle, items[j]) && forall|i: int|
                0 <= i < items.len() && i != j ==> #[trigger] before(f, items, needle, j, i);
        let j2 = choose|j: int|
            0 <= j < items.len() && #[trigger] items[j] == e2.1 && e2.0 == dist(f, needle, items[j]) && forall|i: int|
                0 <= i < items.len() && i != j ==> #[trigger] before(f, items, needle, j, i);
        if j1 != j2 {
            assert(before(f, items, needle, j1, j2));
            assert(before(f, items, needle, j2, j1));
        }
    }
}

/// Two position lists in the order of `before` that hold the same positions are equal.
pub proof fn lemma_same_order<T, F: Fn(&T, &T) -> u64>(f: F, items: Seq<T>, needle: T, ix1: Seq<int>, ix2: Seq<int>)
    requires
        in_order(f, items, needle, ix1),
        in_order(f, items, needle, ix2),
        forall|j: int| ix1.contains(j) <==> ix2.contains(j),
    ensures
        ix1 == ix2,
    decreases ix1.len() + ix2.len(),
{
    if ix1.len() == 0 {
        if ix2.len() > 0 {
            assert(ix2.contains(ix2[0]));
        }
        assert(ix1 =~= ix2);
    } else if ix2.len() == 0 {
        assert(ix1.contains(ix1[0]));
    } else {
        let a = ix1[0];
        let b = ix2[0];
        assert(ix1.contains(a));
        assert(ix2.contains(b));
        let p = choose|p: int| 0 <= p < ix2.len() && ix2[p] == a;
        let q = choose|q: int| 0 <= q < ix1.len() && ix1[q] == b;
        if a != b {
            assert(before(f, items, needle, ix2[0], ix2[p]));
            assert(before(f, items, needle, ix1[0], ix1[q]));
        }
        let t1 = ix1.drop_first();
        let t2 = ix2.drop_first();
        assert forall|j: int| t1.contains(j) <==> t2.contains(j) by {
            if t1.contains(j) {
                let i = choose|i: int| 0 <= i < t1.len() && t1[i] == j;
                assert(ix1[i + 1] == j);
                assert(before(f, items, needle, ix1[0], ix1[i + 1]));
                assert(ix2.contains(j));
                let k = choose|k: int| 0 <= k < ix2.len() && ix2[k] == j;
                assert(k != 0);
                assert(t2[k - 1] == j);
            }
            if t2.contains(j) {
                let i = choose|i: int| 0 <= i < t2.len() && t2[i] == j;
                assert(ix2[i + 1] == j);
                assert(before(f, items, needle, ix2[0], ix2[i + 1]));
                assert(ix1.contains(j));
                let k = choose|k: int| 0 <= k < ix1.len() && ix1[k] == j;
                assert(k != 0);
                assert(t1[k - 1] == j);
            }
        }
        assert forall|i: int, j: int| 0 <= i < j < t1.len() implies before(f, items, needle, #[trigger] t1[i], #[trigger] t1[j]) by {
            assert(t1[i] == ix1[i + 1] && t1[j] == ix1[j + 1]);
        }
        assert forall|i: int, j: int| 0 <= i < j < t2.len() implies before(f, items, needle, #[trigger] t2[i], #[trigger] t2[j]) by {
            assert(t2[i] == ix2[i + 1] && t2[j] == ix2[j + 1]);
        }
        lemma_same_order(f, items, needle, t1, t2);
        assert(ix1 =~= seq![a] + t1);
        assert(ix2 =~= seq![b] + t2);
    }
}

/// Answers listed at the same positions are equal.
proof fn lemma_same_answer<T, F: Fn(&T, &T) -> u64>(f: F, items: Seq<T>, needle: T, r1: Seq<(u64, T)>, r2: Seq<(u64, T)>, ix: Seq<int>)
    requires
        lists(f, items, needle, r1, ix),
        lists(f, items, needle, r2, ix),
    ensures
        r1 == r2,
{
    assert forall|i: int| 0 <= i < r1.len() implies r1[i] == r2[i] by {
        let p = ix[i];
        assert(r1[i].1 == items[p] && r2[i].1 == items[p]);
        assert(r1[i].0 == r2[i].0);
    }
    assert(r1 =~= r2);
}

/// Two answers to the same radius query over the same items are equal.
pub proof fn lemma_within_repeats<T, F: Fn(&T, &T) -> u64>(
    f: F,
    items: Seq<T>,
    needle: T,
    threshold: u64,
    r1: Seq<(u64, T)>,
    r2: Seq<(u64, T)>,
)
    requires
        is_within(f, items, needle, threshold, r1),
        is_within(f, items, needle, threshold, r2),
    ensures
        r1 == r2,
{
    let ix1 = choose|ix: Seq<int>| #[trigger] lists(f, items, needle, r1, ix) && in_order(f, items, needle, ix) && forall|j: int|
        0 <= j < items.len() ==> (ix.contains(j) <==> #[trigger] dist(f, needle, items[j]) <= threshold);
    let ix2 = choose|ix: Seq<int>| #[trigger] lists(f, items, needle, r2, ix) && in_order(f, items, needle, ix) && forall|j: int|
        0 <= j < items.len() ==> (ix.contains(j) <==> #[trigger] dist(f, needle, items[j]) <= threshold);
    assert forall|j: int| ix1.contains(j) <==> ix2.contains(j) by {
        if ix1.contains(j) {
            let i = choose|i: int| 0 <= i < ix1.len() && ix1[i] == j;
            assert(0 <= ix1[i] < items.len());
            assert(dist(f, needle, items[j]) <= threshold);
        }
        if ix2.contains(j) {
            let i = choose|i: int| 0 <= i < ix2.len() && ix2[i] == j;
            assert(0 <= ix2[i] < items.len());
            assert(dist(f, needle, items[j]) <= threshold);
        }
    }
    lemma_same_order(f, items, needle, ix1, ix2);
    lemma_same_answer(f, items, needle, r1, r2, ix1);
}

/// Each position of a k-nearest answer is in every other answer to the same query.
proof fn lemma_k_nearest_covers<T, F: Fn(&T, &T) -> u64>(
    f: F,
    items: Seq<T>,
    needle: T,
    ix1: Seq<int>,
    ix2: Seq<int>,
    j: int,
)
    requires
        ix1.len() == ix2.len(),
        ix1.no_duplicates(),
        ix2.no_duplicates(),
        forall|i: int| 0 <= i < ix1.len() ==> 0 <= #[trigger] ix1[i] < items.len(),
        forall|i: int| 0 <= i < ix2.len() ==> 0 <= #[trigger] ix2[i] < items.len(),
        forall|x: int, i: int|
            #![trigger ix1[i], before(f, items, needle, ix1[i], x)]
            0 <= x < items.len() && !ix1.contains(x) && 0 <= i < ix1.len() ==> before(f, items, needle, ix1[i], x),
        forall|x: int, i: int|
            #![trigger ix2[i], before(f, items, needle, ix2[i], x)]
            0 <= x < items.len() && !ix2.contains(x) && 0 <= i < ix2.len() ==> before(f, items, needle, ix2[i], x),
        ix1.contains(j),
    ensures
        ix2.contains(j),
{
    if !ix2.contains(j) {
        let p = choose|p: int| 0 <= p < ix1.len() && ix1[p] == j;
        assert forall|x: int| ix2.to_set().contains(x) implies ix1.to_set().remove(j).contains(x) by {
            let i = choose|i: int| 0 <= i < ix2.len() && ix2[i] == x;
            assert(before(f, items, needle, ix2[i], j));
            if !ix1.contains(x) {
                assert(before(f, items, needle, ix1[p], x));
            }
        }
        ix1.unique_seq_to_set();
        ix2.unique_seq_to_set();
        assert(ix1.to_set().contains(j));
        lemma_len_subset(ix2.to_set(), ix1.to_set().remove(j));
    }
}

/// Two answers to the same k-nearest query over the same items are equal.
pub proof fn lemma_k_nearest_repeats<T, F: Fn(&T, &T) -> u64>(
    f: F,
    items: Seq<T>,
    needle: T,
    k: nat,
    r1: Seq<(u64, T)>,
    r2: Seq<(u64, T)>,
)
    requires
        is_k_nearest(f, items, needle, k, r1),
        is_k_nearest(f, items, needle, k, r2),
    ensures
        r1 == r2,
{
    let ix1 = choose|ix: Seq<int>| #[trigger] lists(f, items, needle, r1, ix) && in_order(f, items, needle, ix) && forall|j: int, i: int|
        #![trigger ix[i], before(f, items, needle, ix[i], j)]
        0 <= j < items.len() && !ix.contains(j) && 0 <= i < r1.len() ==> before(f, items, needle, ix[i], j);
    let ix2 = choose|ix: Seq<int>| #[trigger] lists(f, items, needle, r2, ix) && in_order(f, items, needle, ix) && forall|j: int, i: int|
        #![trigger ix[i], before(f, items, needle, ix[i], j)]
        0 <= j < items.len() && !ix.contains(j) && 0 <= i < r2.len() ==> before(f, items, needle, ix[i], j);
    assert forall|j: int| ix1.contains(j) <==> ix2.contains(j) by {
        if ix1.contains(j) {
            lemma_k_nearest_covers(f, items, needle, ix1, ix2, j);
        }
        if ix2.contains(j) {
            lemma_k_nearest_covers(f, items, needle, ix2, ix1, j);
        }
    }
    lemma_same_order(f, items, needle, ix1, ix2);
    lemma_same_answer(f, items, needle, r1, r2, ix1);
}

/// Buffered additions, however many and in however many calls, cost exactly
/// one rebuild, made by the next query: an `insert`, then an `extend`, then a
/// query, rebuild once.
pub proof fn lemma_one_rebuild<T: Copy, F: Fn(&T, &T) -> u64>(
    t0: VPTree<T, F>,
    t1: VPTree<T, F>,
    t2: VPTree<T, F>,
    t3: VPTree<T, F>,
    more: Seq<T>,
)
    requires
        // what `insert` ensures
        t1.is_dirty(),
        t1.rebuild_count() == t0.rebuild_count(),
        // what `extend` ensures
        t2.is_dirty() == (t1.is_dirty() || more.len() > 0),
        t2.rebuild_count() == t1.rebuild_count(),
        // what each query ensures
        t2.is_dirty() ==> t3.rebuild_count() == t2.rebuild_count() + 1,
        !t2.is_dirty() ==> t3.rebuild_count() == t2.rebuild_count(),
    ensures
        t3.rebuild_count() == t0.rebuild_count() + 1,
{
}

/// The size of a tree built from `built` and then given `added` counts both,
/// buffered items included.
pub proof fn lemma_size_counts_buffered<T: Copy, F: Fn(&T, &T) -> u64>(
    t0: VPTree<T, F>,
    t1: VPTree<T, F>,
    built: Seq<T>,
    added: Seq<T>,
)
    requires
        t0.items().to_multiset() == built.to_multiset(),
        t1.items() == t0.items() + added,
    ensures
        t1.items().len() == built.len() + added.len(),
{
    vstd::seq_lib::to_multiset_len(t0.items());
    vstd::seq_lib::to_multiset_len(built);
}

/// Over no items, every query answers nothing.
pub proof fn lemma_empty_answers<T, F: Fn(&T, &T) -> u64>(
    f: F,
    needle: T,
    k: nat,
    threshold: u64,
    nearest: Option<(u64, T)>,
    closest: Seq<(u64, T)>,
    within: Seq<(u64, T)>,
)
    requires
        is_nearest(f, Seq::empty(), needle, nearest),
        is_k_nearest(f, Seq::empty(), needle, k, closest),
        is_within(f, Seq::empty(), needle, threshold, within),
    ensures
        nearest.is_none(),
        closest.len() == 0,
        within.len() == 0,
{
    let items = Seq::<T>::empty();
    let ix = choose|ix: Seq<int>| #[trigger] lists(f, items, needle, within, ix) && in_order(f, items, needle, ix) && forall|j: int|
        0 <= j < items.len() ==> (ix.contains(j) <==> #[trigger] dist(f, needle, items[j]) <= threshold);
    if within.len() > 0 {
        assert(0 <= ix[0] < items.len());
    }
}

/// Over a single item, each query answers that item at its true distance:
/// for every `k` of at least one, and every radius that reaches it.
pub proof fn lemma_single_answers<T, F: Fn(&T, &T) -> u64>(
    f: F,
    x: T,
    needle: T,
    k: nat,
    threshold: u64,
    nearest: Option<(u64, T)>,
    closest: Seq<(u64, T)>,
    within: Seq<(u64, T)>,
)
    requires
        k >= 1,
        threshold >= dist(f, needle, x),
        is_nearest(f, seq![x], needle, nearest),
        is_k_nearest(f, seq![x], needle, k, closest),
        is_within(f, seq![x], needle, threshold, within),
    ensures
        nearest == Some((dist(f, needle, x), x)),
        closest == seq![(dist(f, needle, x), x)],
        within == seq![(dist(f, needle, x), x)],
{
    let items = seq![x];
    let e = nearest.unwrap();
    let j = choose|j: int|
        0 <= j < items.len() && #[trigger] items[j] == e.1 && e.0 == dist(f, needle, items[j]) && forall|i: int|
            0 <= i < items.len() && i != j ==> #[trigger] before(f, items, needle, j, i);
    assert(j == 0);
    let ix = choose|ix: Seq<int>| #[trigger] lists(f, items, needle, closest, ix) && in_order(f, items, needle, ix) && forall|j: int, i: int|
        #![trigger ix[i], before(f, items, needle, ix[i], j)]
        0 <= j < items.len() && !ix.contains(j) && 0 <= i < closest.len() ==> before(f, items, needle, ix[i], j);
    assert(ix[0] == 0);
    assert(closest =~= seq![(dist(f, needle, x), x)]);
    let iw = choose|ix: Seq<int>| #[trigger] lists(f, items, needle, within, ix) && in_order(f, items, needle, ix) && forall|j: int|
        0 <= j < items.len() ==> (ix.contains(j) <==> #[trigger] dist(f, needle, items[j]) <= threshold);
    assert(dist(f, needle, items[0]) <= threshold);
    assert(iw.contains(0));
    if within.len() > 1 {
        assert(iw[0] == 0 && iw[1] == 0);
    }
    assert(within.len() == 1);
    assert(iw[0] == 0);
    assert(within =~= seq![(dist(f, needle, x), x)]);
}

/// The items at the positions `ix` of `s`, in that order.
pub open spec fn picks<T>(s: Seq<T>, ix: Seq<int>) -> Seq<T> {
    Seq::new(ix.len(), |i: int| s[ix[i]])
}

/// The items of a list of entries.
pub open spec fn listed<T>(r: Seq<(u64, T)>) -> Seq<T> {
    r.map_values(|e: (u64, T)| e.1)
}

/// Items at distinct positions of `s` are, as a multiset, part of `s`.
pub proof fn lemma_picks_within<T>(s: Seq<T>, ix: Seq<int>)
    requires
        ix.no_duplicates(),
        forall|i: int| 0 <= i < ix.len() ==> 0 <= #[trigger] ix[i] < s.len(),
    ensures
        picks(s, ix).to_multiset().subset_of(s.to_multiset()),
    decreases ix.len(),
{
    broadcast use vstd::seq_lib::group_to_multiset_ensures;
    if ix.len() > 0 {
        let p = ix.last();
        let rest = ix.drop_last();
        let shifted = rest.map_values(|q: int| if q > p { q - 1 } else { q });
        let s2 = s.remove(p);
        assert forall|a: int, b: int| 0 <= a < b < shifted.len() implies shifted[a] != shifted[b] by {
            assert(rest[a] == ix[a] && rest[b] == ix[b]);
            assert(ix[a] != ix[b] && ix[a] != p && ix[b] != p);
        }
        assert forall|i: int| 0 <= i < shifted.len() implies 0 <= #[trigger] shifted[i] < s2.len() by {
            assert(rest[i] == ix[i] && ix[i] != p);
        }
        lemma_picks_within(s2, shifted);
        assert(picks(s2, shifted) =~= picks(s, rest)) by {
            assert forall|i: int| 0 <= i < rest.len() implies picks(s2, shifted)[i] == picks(s, rest)[i] by {
                assert(rest[i] == ix[i] && ix[i] != p);
            }
        }
        assert(picks(s, ix) =~= picks(s, rest).push(s[p]));
        assert(s2.to_multiset() =~= s.to_multiset().remove(s[p]));
        assert(s.to_multiset().count(s[p]) > 0) by {
            assert(s.contains(s[p]));
        }
        assert forall|x: T| picks(s, ix).to_multiset().count(x) <= s.to_multiset().count(x) by {
            assert(picks(s2, shifted).to_multiset().count(x) <= s2.to_multiset().count(x));
        }
    } else {
        assert(picks(s, ix) =~= Seq::<T>::empty());
        assert(picks(s, ix).to_multiset() =~= Multiset::empty());
    }
}

/// Items at distinct positions, exactly those whose items `keep` accepts, are
/// as a multiset what `filter` keeps.
pub proof fn lemma_picks_filter<T>(s: Seq<T>, ix: Seq<int>, keep: spec_fn(T) -> bool)
    requires
        ix.no_duplicates(),
        forall|i: int| 0 <= i < ix.len() ==> 0 <= #[trigger] ix[i] < s.len(),
        forall|j: int| 0 <= j < s.len() ==> (ix.contains(j) <==> keep(#[trigger] s[j])),
    ensures
        picks(s, ix).to_multiset() == s.filter(keep).to_multiset(),
    decreases s.len(),
{
    broadcast use vstd::seq_lib::group_to_multiset_ensures;
    if s.len() == 0 {
        if ix.len() > 0 {
            assert(0 <= ix[0] < s.len());
        }
        assert(picks(s, ix) =~= Seq::<T>::empty());
        assert(s.filter(keep) =~= Seq::<T>::empty()) by {
            reveal(Seq::filter);
        }
    } else {
        let last = s.len() - 1;
        let t = s.drop_last();
        assert(s.filter(keep) == if keep(s[last]) { t.filter(keep).push(s[last]) } else { t.filter(keep) }) by {
            reveal(Seq::filter);
        }
        if keep(s[last]) {
            assert(ix.contains(last));
            let q = choose|q: int| 0 <= q < ix.len() && ix[q] == last;
            let ix2 = ix.remove(q);
            assert forall|a: int, b: int| 0 <= a < b < ix2.len() implies ix2[a] != ix2[b] by {
                let a2 = if a < q { a } else { a + 1 };
                let b2 = if b < q { b } else { b + 1 };
                assert(ix2[a] == ix[a2] && ix2[b] == ix[b2]);
            }
            assert forall|i: int| 0 <= i < ix2.len() implies 0 <= #[trigger] ix2[i] < t.len() by {
                let i2 = if i < q { i } else { i + 1 };
                assert(ix2[i] == ix[i2]);
                assert(ix[i2] != ix[q]);
            }
            assert forall|j: int| 0 <= j < t.len() implies (ix2.contains(j) <==> keep(#[trigger] t[j])) by {
                assert(t[j] == s[j]);
                if ix.contains(j) {
                    let k = choose|k: int| 0 <= k < ix.len() && ix[k] == j;
                    assert(k != q);
                    let k2 = if k < q { k } else { k - 1 };
                    assert(ix2[k2] == j);
                }
                if ix2.contains(j) {
                    let k = choose|k: int| 0 <= k < ix2.len() && ix2[k] == j;
                    let k2 = if k < q { k } else { k + 1 };
                    assert(ix[k2] == j);
                }
            }
            lemma_picks_filter(t, ix2, keep);
            assert(picks(t, ix2) =~= picks(s, ix).remove(q)) by {
                assert forall|i: int| 0 <= i < ix2.len() implies picks(t, ix2)[i] == picks(s, ix).remove(q)[i] by {
                    let i2 = if i < q { i } else { i + 1 };
                    assert(ix2[i] == ix[i2]);
                    assert(ix[i2] != last);
                }
            }
            assert(picks(s, ix)[q] == s[last]);
            assert(picks(s, ix).to_multiset().count(s[last]) > 0) by {
                assert(picks(s, ix).contains(s[last]));
            }
            assert(picks(s, ix).to_multiset() =~= picks(s, ix).remove(q).to_multiset().insert(s[last]));
        } else {
            assert forall|i: int| 0 <= i < ix.len() implies 0 <= #[trigger] ix[i] < t.len() by {
                if ix[i] == last {
                    assert(ix.contains(last));
                }
            }
            assert forall|j: int| 0 <= j < t.len() implies (ix.contains(j) <==> keep(#[trigger] t[j])) by {
                assert(t[j] == s[j]);
            }
            lemma_picks_filter(t, ix, keep);
            assert(picks(t, ix) =~= picks(s, ix));
        }
    }
}

/// A k-nearest answer holds no item more often than the tree does.
pub proof fn lemma_k_nearest_within_items<T, F: Fn(&T, &T) -> u64>(
    f: F,
    items: Seq<T>,
    needle: T,
    k: nat,
    r: Seq<(u64, T)>,
)
    requires
        is_k_nearest(f, items, needle, k, r),
    ensures
        listed(r).to_multiset().subset_of(items.to_multiset()),
{
    let ix = choose|ix: Seq<int>| #[trigger] lists(f, items, needle, r, ix) && in_order(f, items, needle, ix) && forall|j: int, i: int|
        #![trigger ix[i], before(f, items, needle, ix[i], j)]
        0 <= j < items.len() && !ix.contains(j) && 0 <= i < r.len() ==> before(f, items, needle, ix[i], j);
    lemma_picks_within(items, ix);
    assert(listed(r) =~= picks(items, ix));
}

/// A radius answer holds, as a multiset, exactly the items within the radius.
pub proof fn lemma_within_is_filter<T, F: Fn(&T, &T) -> u64>(
    f: F,
    items: Seq<T>,
    needle: T,
    threshold: u64,
    r: Seq<(u64, T)>,
)
    requires
        is_within(f, items, needle, threshold, r),
    ensures
        listed(r).to_multiset() == items.filter(|y: T| dist(f, needle, y) <= threshold).to_multiset(),
{
    let ix = choose|ix: Seq<int>| #[trigger] lists(f, items, needle, r, ix) && in_order(f, items, needle, ix) && forall|j: int|
        0 <= j < items.len() ==> (ix.contains(j) <==> #[trigger] dist(f, needle, items[j]) <= threshold);
    let keep = |y: T| dist(f, needle, y) <= threshold;
    assert forall|j: int| 0 <= j < items.len() implies (ix.contains(j) <==> keep(#[trigger] items[j])) by {
        assert(ix.contains(j) <==> dist(f, needle, items[j]) <= threshold);
    }
    lemma_picks_filter(items, ix, keep);
    assert(listed(r) =~= picks(items, ix));
}

} // verus!
