//! The acceptance policies of the three queries: which items the traversal
//! keeps, and which boundary gaps are still worth crossing.
use crate::order::sort_entries;
use vstd::prelude::*;

verus! {

broadcast use vstd::seq_lib::group_to_multiset_ensures;

/// What a query keeps of the items that the traversal offers.
pub enum Policy {
    /// The single closest item.
    Closest,
    /// The given number of closest items.
    ClosestK(usize),
    /// Every item within the given distance.
    Within(u64),
}

/// Entries `(distance, item index)` kept so far under a policy.
pub struct Candidates {
    pub policy: Policy,
    pub found: Vec<(u64, usize)>,
}

pub open spec fn indices(s: Seq<(u64, usize)>) -> Seq<usize> {
    s.map_values(|e: (u64, usize)| e.1)
}

/// Entry `a` comes before entry `b`: it is nearer, or as near with a smaller index.
pub open spec fn precedes(a: (u64, usize), b: (u64, usize)) -> bool {
    a.0 < b.0 || (a.0 == b.0 && a.1 < b.1)
}

/// Each entry comes before every later one.
pub open spec fn ascending(s: Seq<(u64, usize)>) -> bool {
    forall|i: int, j: int| 0 <= i < j < s.len() ==> precedes(#[trigger] s[i], #[trigger] s[j])
}

/// Sorted entries with distinct indices are ascending.
pub proof fn lemma_sorted_ascending(s: Seq<(u64, usize)>)
    requires
        indices(s).no_duplicates(),
        forall|i: int, j: int|
            0 <= i <= j < s.len() ==> #[trigger] s[i].0 < #[trigger] s[j].0 || (s[i].0 == s[j].0 && s[i].1 <= s[j].1),
    ensures
        ascending(s),
{
    assert forall|i: int, j: int| 0 <= i < j < s.len() implies precedes(#[trigger] s[i], #[trigger] s[j]) by {
        assert(indices(s)[i] != indices(s)[j]);
    }
}

/// Reordering entries reorders their indices alike.
pub proof fn lemma_indices_perm(a: Seq<(u64, usize)>, b: Seq<(u64, usize)>)
    requires
        a.to_multiset() == b.to_multiset(),
    ensures
        indices(a).to_multiset() == indices(b).to_multiset(),
    decreases a.len(),
{
    if a.len() > 0 {
        let x = a.last();
        assert(a.contains(x)) by {
            assert(a[a.len() - 1] == x);
        }
        assert(b.to_multiset().count(x) > 0);
        assert(b.contains(x));
        let j = choose|j: int| 0 <= j < b.len() && b[j] == x;
        assert(a.drop_last().to_multiset() == b.remove(j).to_multiset()) by {
            assert(a == a.drop_last().push(x));
        }
        lemma_indices_perm(a.drop_last(), b.remove(j));
        assert(indices(a) == indices(a.drop_last()).push(x.1));
        assert(indices(b.remove(j)) == indices(b).remove(j));
        assert(indices(b).to_multiset().count(x.1) > 0) by {
            assert(indices(b)[j] == x.1);
            assert(indices(b).contains(x.1));
        }
        assert(indices(b).to_multiset() =~= indices(b).remove(j).to_multiset().insert(x.1));
    } else {
        assert(a.to_multiset().len() == 0);
        assert(b.to_multiset().len() == b.len());
        assert(indices(a) =~= indices(b));
    }
}

/// Sorting keeps the entries, and so their distinct indices.
pub proof fn lemma_sorted_keeps(a: Seq<(u64, usize)>, b: Seq<(u64, usize)>)
    requires
        a.to_multiset() == b.to_multiset(),
        indices(a).no_duplicates(),
    ensures
        indices(b).no_duplicates(),
        forall|e: (u64, usize)| a.contains(e) <==> b.contains(e),
{
    lemma_indices_perm(a, b);
    indices(a).lemma_multiset_has_no_duplicates();
    indices(b).lemma_multiset_has_no_duplicates_conv();
    assert forall|e: (u64, usize)| a.contains(e) <==> b.contains(e) by {
        assert(a.contains(e) <==> a.to_multiset().count(e) > 0);
        assert(b.contains(e) <==> b.to_multiset().count(e) > 0);
    }
}

impl Candidates {
    /// The item with index `idx` at distance `d`, when not among the entries,
    /// may stay out of the result.
    pub open spec fn excludes(&self, d: u64, idx: usize) -> bool {
        match self.policy {
            Policy::Closest => self.found@.len() == 1 && precedes(self.found@[0], (d, idx)),
            Policy::ClosestK(k) => self.found@.len() == k && forall|i: int|
                0 <= i < k ==> precedes(#[trigger] self.found@[i], (d, idx)),
            Policy::Within(t) => d > t,
        }
    }

    pub open spec fn wf(&self) -> bool {
        &&& indices(self.found@).no_duplicates()
        &&& match self.policy {
            Policy::Closest => self.found@.len() <= 1,
            Policy::ClosestK(k) => self.found@.len() <= k && (self.found@.len() == k ==> ascending(
                self.found@,
            )),
            Policy::Within(t) => forall|i: int| 0 <= i < self.found@.len() ==> #[trigger] self.found@[i].0 <= t,
        }
    }

    pub fn new(policy: Policy) -> (r: Self)
        ensures
            r.wf(),
            r.policy == policy,
            r.found@.len() == 0,
    {
        let r = Candidates { policy, found: Vec::new() };
        assert(indices(r.found@) =~= Seq::<usize>::empty());
        r
    }

    /// Whether a subtree whose items are all at least `gap` away may still hold
    /// an item that the policy would keep.
    pub fn admits(&self, gap: u64) -> (b: bool)
        requires
            self.wf(),
        ensures
            b == match self.policy {
                Policy::Closest => self.found@.len() == 0 || self.found@[0].0 >= gap,
                Policy::ClosestK(k) => self.found@.len() < k || (k > 0 && self.found@[k - 1].0 >= gap),
                Policy::Within(t) => t >= gap,
            },
            !b ==> forall|d: u64, idx: usize| d >= gap ==> #[trigger] self.excludes(d, idx),
    {
        match self.policy {
            Policy::Closest => self.found.len() == 0 || self.found[0].0 >= gap,
            Policy::ClosestK(k) => {
                if self.found.len() < k {
                    true
                } else if k == 0 {
                    false
                } else if self.found[k - 1].0 >= gap {
                    true
                } else {
                    proof {
                        assert forall|d: u64, idx: usize| d >= gap implies #[trigger] self.excludes(d, idx) by {
                            assert forall|i: int| 0 <= i < k implies precedes(#[trigger] self.found@[i], (d, idx)) by {
                                if i < k - 1 {
                                    assert(precedes(self.found@[i], self.found@[k - 1]));
                                }
                            }
                        }
                    }
                    false
                }
            },
            Policy::Within(t) => t >= gap,
        }
    }

    /// Offers the item with index `idx` at distance `d`.
    #[verifier::rlimit(80)]
    pub fn offer(&mut self, d: u64, idx: usize)
        requires
            old(self).wf(),
            !indices(old(self).found@).contains(idx),
        ensures
            final(self).wf(),
            final(self).policy == old(self).policy,
            forall|i: int|
                0 <= i < final(self).found@.len() ==> #[trigger] final(self).found@[i] == (d, idx)
                    || old(self).found@.contains(final(self).found@[i]),
            final(self).found@.contains((d, idx)) || final(self).excludes(d, idx),
            forall|i: int|
                0 <= i < old(self).found@.len() ==> final(self).found@.contains(
                    #[trigger] old(self).found@[i],
                ) || final(self).excludes(old(self).found@[i].0, old(self).found@[i].1),
            forall|x: u64, y: usize| #[trigger] old(self).excludes(x, y) ==> final(self).excludes(x, y),
    {
        let ghost before = self.found@;
        assert(indices(before.push((d, idx))) =~= indices(before).push(idx));
        match self.policy {
            Policy::Closest => {
                if self.found.len() == 0 {
                    self.found.push((d, idx));
                    assert(self.found@[0] == (d, idx));
                } else if d < self.found[0].0 || (d == self.found[0].0 && idx < self.found[0].1) {
                    self.found.set(0, (d, idx));
                    assert(self.found@[0] == (d, idx));
                    assert(indices(self.found@) =~= seq![idx]);
                } else {
                    assert(before[0] == self.found@[0]);
                    assert(indices(before)[0] != idx);
                }
            },
            Policy::ClosestK(k) => {
                if self.found.len() < k {
                    self.found.push((d, idx));
                    assert(self.found@[self.found@.len() - 1] == (d, idx));
                    assert(forall|i: int| 0 <= i < before.len() ==> self.found@[i] == #[trigger] before[i]);
                    if self.found.len() == k {
                        let ghost pushed = self.found@;
                        sort_entries(&mut self.found);
                        proof {
                            lemma_sorted_keeps(pushed, self.found@);
                            lemma_sorted_ascending(self.found@);
                            assert(pushed.contains((d, idx)));
                            assert forall|i: int| 0 <= i < before.len() implies self.found@.contains(
                                #[trigger] before[i],
                            ) by {
                                assert(pushed[i] == before[i]);
                            }
                            assert forall|i: int| 0 <= i < self.found@.len() implies #[trigger] self.found@[i]
                                == (d, idx) || before.contains(self.found@[i]) by {
                                let e = self.found@[i];
                                assert(self.found@.contains(e));
                                assert(pushed.contains(e));
                                let j = choose|j: int| 0 <= j < pushed.len() && pushed[j] == e;
                                if j < before.len() {
                                    assert(before[j] == e);
                                }
                            }
                        }
                    } else {
                        proof {
                            assert(self.found@.contains((d, idx)));
                            assert forall|i: int| 0 <= i < before.len() implies self.found@.contains(
                                #[trigger] before[i],
                            ) by {
                                assert(self.found@[i] == before[i]);
                            }
                        }
                    }
                } else if k > 0 && (d < self.found[k - 1].0 || (d == self.found[k - 1].0 && idx < self.found[k - 1].1)) {
                    let worst = self.found[k - 1];
                    self.found.pop();
                    let ghost kept = self.found@;
                    assert(kept =~= before.drop_last());
                    proof {
                        assert forall|i: int| 0 <= i < kept.len() implies indices(kept)[i] != idx by {
                            assert(indices(before)[i] == indices(kept)[i]);
                        }
                        assert forall|i: int, j: int| 0 <= i < j < kept.len() implies precedes(#[trigger] kept[i], #[trigger] kept[j]) by {
                            assert(kept[i] == before[i] && kept[j] == before[j]);
                        }
                    }
                    let pos = self.upper_bound(d, idx);
                    self.found.insert(pos, (d, idx));
                    proof {
                        let now = self.found@;
                        assert(now =~= kept.insert(pos as int, (d, idx)));
                        assert(forall|i: int| 0 <= i < kept.len() ==> before[i] == #[trigger] kept[i]);
                        assert forall|i: int| 0 <= i < now.len() implies #[trigger] now[i] == (d, idx)
                            || before.contains(now[i]) by {
                            if i < pos {
                                assert(now[i] == kept[i]);
                                assert(before[i] == kept[i]);
                            } else if i > pos {
                                assert(now[i] == kept[i - 1]);
                                assert(before[i - 1] == kept[i - 1]);
                            }
                        }
                        assert forall|i: int, j: int| 0 <= i < j < now.len() implies precedes(#[trigger] now[i], #[trigger] now[j]) by {
                            if i < pos && j > pos {
                                assert(now[i] == kept[i] && now[j] == kept[j - 1]);
                            } else if i < pos && j < pos {
                                assert(now[i] == kept[i] && now[j] == kept[j]);
                            } else if i > pos {
                                assert(now[i] == kept[i - 1] && now[j] == kept[j - 1]);
                            } else if i == pos && j > pos {
                                assert(now[j] == kept[j - 1]);
                            } else if i < pos && j == pos {
                                assert(now[i] == kept[i]);
                            }
                        }
                        assert(worst == before[k - 1]);
                        assert forall|i: int| 0 <= i < k implies precedes(#[trigger] now[i], worst) by {
                            if i < pos {
                                assert(now[i] == kept[i]);
                                assert(precedes(before[i], before[k - 1]));
                            } else if i > pos {
                                assert(now[i] == kept[i - 1]);
                                assert(precedes(before[i - 1], before[k - 1]));
                            }
                        }
                        assert(now[pos as int] == (d, idx));
                        assert(now.contains((d, idx)));
                        assert forall|i: int| 0 <= i < before.len() implies now.contains(#[trigger] before[i])
                            || self.excludes(before[i].0, before[i].1) by {
                            if i < k - 1 {
                                assert(before[i] == kept[i]);
                                if i < pos {
                                    assert(now[i] == kept[i]);
                                } else {
                                    assert(now[i + 1] == kept[i]);
                                }
                            }
                        }
                        assert forall|x: u64, y: usize| #[trigger] old(self).excludes(x, y) implies self.excludes(x, y) by {
                            assert(precedes(before[k - 1], (x, y)));
                            assert forall|i: int| 0 <= i < k implies precedes(#[trigger] now[i], (x, y)) by {
                                assert(precedes(now[i], worst));
                            }
                        }
                        assert(indices(now) =~= indices(kept).insert(pos as int, idx));
                        assert forall|a: int, b: int| 0 <= a < b < now.len() implies indices(now)[a]
                            != indices(now)[b] by {
                            assert(indices(before).no_duplicates());
                            assert(forall|i: int| 0 <= i < kept.len() ==> indices(kept)[i] == #[trigger] indices(before)[i]);
                            if a != pos && b != pos {
                                let a2 = if a < pos { a } else { a - 1 };
                                let b2 = if b < pos { b } else { b - 1 };
                                assert(indices(now)[a] == indices(before)[a2]);
                                assert(indices(now)[b] == indices(before)[b2]);
                            } else if a == pos {
                                assert(indices(now)[b] == indices(before)[b - 1]);
                            } else {
                                assert(indices(now)[a] == indices(before)[a]);
                            }
                        }
                    }
                } else {
                    proof {
                        if k > 0 {
                            assert(indices(before)[k - 1] != idx);
                            assert(precedes(before[k - 1], (d, idx)));
                            assert forall|i: int| 0 <= i < k implies precedes(#[trigger] before[i], (d, idx)) by {
                                if i < k - 1 {
                                    assert(precedes(before[i], before[k - 1]));
                                }
                            }
                        }
                    }
                }
            },
            Policy::Within(t) => {
                if d <= t {
                    self.found.push((d, idx));
                    assert(self.found@[self.found@.len() - 1] == (d, idx));
                    assert forall|i: int| 0 <= i < before.len() implies self.found@.contains(#[trigger] before[i]) by {
                        assert(self.found@[i] == before[i]);
                    }
                }
            },
        }
    }

    /// Index of the first entry that `(d, idx)` comes before, in an ascending
    /// list that does not hold `idx`.
    fn upper_bound(&self, d: u64, idx: usize) -> (pos: usize)
        requires
            ascending(self.found@),
            forall|i: int| 0 <= i < self.found@.len() ==> #[trigger] indices(self.found@)[i] != idx,
        ensures
            pos <= self.found@.len(),
            forall|i: int| 0 <= i < pos ==> precedes(#[trigger] self.found@[i], (d, idx)),
            forall|i: int| pos <= i < self.found@.len() ==> precedes((d, idx), #[trigger] self.found@[i]),
    {
        let mut lo: usize = 0;
        let mut hi: usize = self.found.len();
        while lo < hi
            invariant
                ascending(self.found@),
                forall|i: int| 0 <= i < self.found@.len() ==> #[trigger] indices(self.found@)[i] != idx,
                lo <= hi <= self.found@.len(),
                forall|i: int| 0 <= i < lo ==> precedes(#[trigger] self.found@[i], (d, idx)),
                forall|i: int| hi <= i < self.found@.len() ==> precedes((d, idx), #[trigger] self.found@[i]),
            decreases hi - lo,
        {
            let mid = lo + (hi - lo) / 2;
            let e = self.found[mid];
            if e.0 < d || (e.0 == d && e.1 < idx) {
                proof {
                    assert forall|i: int| 0 <= i < mid + 1 implies precedes(#[trigger] self.found@[i], (d, idx)) by {
                        if i < mid {
                            assert(precedes(self.found@[i], self.found@[mid as int]));
                        }
                    }
                }
                lo = mid + 1;
            } else {
                proof {
                    assert(indices(self.found@)[mid as int] != idx);
                    assert forall|i: int| mid <= i < self.found@.len() implies precedes((d, idx), #[trigger] self.found@[i]) by {
                        if i > mid {
                            assert(precedes(self.found@[mid as int], self.found@[i]));
                        }
                    }
                }
                hi = mid;
            }
        }
        lo
    }
}

} // verus!
