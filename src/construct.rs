//! Bulk construction: a queue-driven partition of the items into internal
//! nodes (breadth-first order) and leaf groups (left to right).
use crate::layout::{
    fits, group_end, group_start, leaves_before, lemma_group_start_mono, pow2, shape_for, Shape,
};
use crate::metric::{dist, is_metric, measure};
use crate::order::select_by_distance;
use crate::position::parent;
use std::collections::VecDeque;
use vstd::multiset::Multiset;
use vstd::prelude::*;

verus! {

broadcast use vstd::seq_lib::group_to_multiset_ensures;

/// An internal node: its vantage point and the distance that separates its
/// near subtree (at most `radius` from the vantage point) from its far one
/// (at least `radius`: subtree sizes are fixed by the layout, so items at
/// exactly the split distance may fall on either side).
pub struct Node<T> {
    pub vantage_point: T,
    pub radius: u64,
}

pub open spec fn firsts<T>(s: Seq<(T, u64)>) -> Seq<T> {
    s.map_values(|e: (T, u64)| e.0)
}

pub open spec fn vantage_points<T>(nodes: Seq<Node<T>>) -> Seq<T> {
    nodes.map_values(|n: Node<T>| n.vantage_point)
}

/// Item `x` lies on the side of the boundary of `t`'s parent that `t` stands for.
pub open spec fn on_side<T, F: Fn(&T, &T) -> u64>(nodes: Seq<Node<(T, usize)>>, f: F, t: int, x: (T, usize)) -> bool {
    let p = parent(t);
    if t % 2 == 1 {
        dist(f, nodes[p].vantage_point.0, x.0) <= nodes[p].radius
    } else {
        dist(f, nodes[p].vantage_point.0, x.0) >= nodes[p].radius
    }
}

/// Item `x` lies on the right side of every boundary on the way from the root to `t`.
pub open spec fn on_path<T, F: Fn(&T, &T) -> u64>(nodes: Seq<Node<(T, usize)>>, f: F, t: int, x: (T, usize)) -> bool
    decreases t,
{
    if t <= 0 {
        true
    } else {
        on_side(nodes, f, t, x) && on_path(nodes, f, parent(t), x)
    }
}

/// Internal nodes and leaf groups laid out as the shape `s` says, every item
/// on the right side of each boundary above it.
pub open spec fn arranged<T, F: Fn(&T, &T) -> u64>(
    f: F,
    nodes: Seq<Node<(T, usize)>>,
    leaves: Seq<(T, usize)>,
    s: Shape,
) -> bool {
    &&& nodes.len() + 1 == s.groups
    &&& s.holds(nodes.len() + leaves.len())
    &&& forall|p: int| 0 <= p < nodes.len() ==> on_path(nodes, f, p, #[trigger] nodes[p].vantage_point)
    &&& forall|g: int, li: int|
        0 <= g < s.groups && group_start(s.leaf_size as int, s.decrementation_point as int, g) <= li
            < group_end(s.leaf_size as int, s.decrementation_point as int, g) ==> #[trigger] on_path(
            nodes,
            f,
            nodes.len() + g,
            leaves[li],
        )
}

pub proof fn lemma_path_push<T, F: Fn(&T, &T) -> u64>(
    nodes: Seq<Node<(T, usize)>>,
    f: F,
    n: Node<(T, usize)>,
    t: int,
    x: (T, usize),
)
    requires
        0 <= t <= 2 * nodes.len(),
    ensures
        on_path(nodes.push(n), f, t, x) == on_path(nodes, f, t, x),
    decreases t,
{
    if t > 0 {
        lemma_path_push(nodes, f, n, parent(t), x);
    }
}

/// Reordering entries reorders their items alike.
pub proof fn lemma_firsts_perm<T>(a: Seq<(T, u64)>, b: Seq<(T, u64)>)
    requires
        a.to_multiset() == b.to_multiset(),
    ensures
        firsts(a).to_multiset() == firsts(b).to_multiset(),
    decreases a.len(),
{
    if a.len() > 0 {
        let x = a.last();
        assert(a.contains(x)) by {
            assert(a[a.len() - 1] == x);
        }
        assert(b.to_multiset().count(x) > 0);
        assert(b.contains(x));
        let j = choose|j: int| 0 <= j < b.len() && b[j] == x;
        assert(a.drop_last().to_multiset() == b.remove(j).to_multiset()) by {
            assert(a == a.drop_last().push(x));
        }
        lemma_firsts_perm(a.drop_last(), b.remove(j));
        assert(firsts(a) == firsts(a.drop_last()).push(x.0));
        assert(firsts(b.remove(j)) == firsts(b).remove(j));
        assert(firsts(b).to_multiset().count(x.0) > 0) by {
            assert(firsts(b)[j] == x.0);
            assert(firsts(b).contains(x.0));
        }
        assert(firsts(b).to_multiset() =~= firsts(b).remove(j).to_multiset().insert(x.0));
    } else {
        assert(a.to_multiset().len() == 0);
        assert(b.to_multiset().len() == b.len());
        assert(firsts(a) =~= firsts(b));
    }
}

/// Splits `part` by distance from `vp` into the `split` nearest entries and
/// the rest; the returned radius separates the two.
fn partition<T: Copy, F: Fn(&T, &T) -> u64>(
    f: &F,
    vp: &(T, usize),
    part: &Vec<((T, usize), u64)>,
    split: usize,
) -> (r: (Vec<((T, usize), u64)>, Vec<((T, usize), u64)>, u64, Ghost<nat>))
    requires
        is_metric(*f),
        split <= part@.len(),
    ensures
        r.3@ == part@.len(),
        r.0@.len() == split,
        r.1@.len() == part@.len() - split,
        (firsts(r.0@) + firsts(r.1@)).to_multiset() == firsts(part@).to_multiset(),
        forall|i: int|
            0 <= i < r.0@.len() ==> firsts(part@).contains(#[trigger] r.0@[i].0) && dist(
                *f,
                vp.0,
                r.0@[i].0.0,
            ) <= r.2,
        forall|i: int|
            0 <= i < r.1@.len() ==> firsts(part@).contains(#[trigger] r.1@[i].0) && dist(
                *f,
                vp.0,
                r.1@[i].0.0,
            ) >= r.2,
{
    let mut measured: Vec<((T, usize), u64)> = Vec::new();
    let mut i: usize = 0;
    let ghost mut calls: nat = 0;
    while i < part.len()
        invariant
            calls == i,
            is_metric(*f),
            i <= part@.len(),
            measured@.len() == i,
            forall|j: int|
                0 <= j < i ==> (#[trigger] measured@[j]).0 == part@[j].0 && measured@[j].1 == dist(
                    *f,
                    vp.0,
                    part@[j].0.0,
                ),
        decreases part@.len() - i,
    {
        let x = part[i].0;
        let d = measure(f, &vp.0, &x.0);
        proof {
            calls = calls + 1;
        }
        measured.push((x, d));
        i = i + 1;
    }
    assert(firsts(measured@) =~= firsts(part@));
    let ghost before = measured@;
    let radius = if split < measured.len() {
        select_by_distance(&mut measured, split);
        measured[split].1
    } else {
        u64::MAX
    };
    proof {
        lemma_firsts_perm(before, measured@);
        assert forall|i: int| 0 <= i < measured@.len() implies firsts(part@).contains(
            (#[trigger] measured@[i]).0,
        ) && measured@[i].1 == dist(*f, vp.0, measured@[i].0.0) by {
            let e = measured@[i];
            assert(measured@.contains(e));
            assert(before.to_multiset().count(e) > 0);
            assert(before.contains(e));
            let j = choose|j: int| 0 <= j < before.len() && before[j] == e;
            assert(firsts(part@)[j] == e.0);
        }
    }
    let ghost whole = measured@;
    let far = measured.split_off(split);
    assert(whole =~= measured@ + far@);
    assert(firsts(whole) =~= firsts(measured@) + firsts(far@));
    proof {
        assert forall|i: int| 0 <= i < far@.len() implies far@[i] == whole[split + i] by {}
        assert forall|i: int| 0 <= i < measured@.len() implies measured@[i] == whole[i] by {}
    }
    (measured, far, radius, Ghost(calls))
}

pub open spec fn is_pow2(w: int) -> bool
    decreases w,
{
    if w <= 1 {
        w == 1
    } else {
        w % 2 == 0 && is_pow2(w / 2)
    }
}

pub proof fn lemma_pow2_is_pow2(d: nat)
    ensures
        is_pow2(pow2(d) as int),
        pow2(d) >= 1,
    decreases d,
{
    if d > 0 {
        lemma_pow2_is_pow2((d - 1) as nat);
        assert(pow2(d) / 2 == pow2((d - 1) as nat));
    }
}

/// Layers of internal nodes above leaf groups spanning `w` groups.
pub open spec fn lg(w: int) -> nat
    decreases w,
{
    if w <= 1 {
        0
    } else {
        1 + lg(w / 2)
    }
}

pub proof fn lemma_lg_pow2(d: nat)
    ensures
        lg(pow2(d) as int) == d,
    decreases d,
{
    if d > 0 {
        lemma_lg_pow2((d - 1) as nat);
        crate::layout::lemma_pow2_positive((d - 1) as nat);
        assert(pow2(d) / 2 == pow2((d - 1) as nat));
    }
}

/// Distance evaluations still to come for the queued parts: each item is
/// measured once per layer of internal nodes left above its leaf group.
pub open spec fn budget<T>(q: Seq<(Vec<(T, u64)>, usize, usize)>) -> int
    decreases q.len(),
{
    if q.len() == 0 {
        0
    } else {
        q[0].0@.len() * lg(q[0].2 - q[0].1) + budget(q.drop_first())
    }
}

pub proof fn lemma_budget_push<T>(q: Seq<(Vec<(T, u64)>, usize, usize)>, x: (Vec<(T, u64)>, usize, usize))
    ensures
        budget(q.push(x)) == budget(q) + x.0@.len() * lg(x.2 - x.1),
    decreases q.len(),
{
    if q.len() == 0 {
        assert(q.push(x).drop_first() =~= q);
    } else {
        assert(q.push(x).drop_first() =~= q.drop_first().push(x));
        lemma_budget_push(q.drop_first(), x);
    }
}

pub proof fn lemma_budget_nonneg<T>(q: Seq<(Vec<(T, u64)>, usize, usize)>)
    ensures
        budget(q) >= 0,
    decreases q.len(),
{
    if q.len() > 0 {
        lemma_budget_nonneg(q.drop_first());
        assert(q[0].0@.len() * lg(q[0].2 - q[0].1) >= 0) by (nonlinear_arith);
    }
}

/// A span of groups at an internal position holds at least two groups, evenly.
pub proof fn lemma_inner_width(lo: int, groups: int, t: int, w: int)
    requires
        lo >= 0,
        t >= 0,
        t + 1 < groups,
        lo + groups == (t + 1) * w,
        is_pow2(w),
    ensures
        w >= 2,
        w % 2 == 0,
        is_pow2(w / 2),
{
    if w == 1 {
        assert((t + 1) * w == t + 1);
    }
}

/// At a position below the last internal layer, a span holds one group.
pub proof fn lemma_leaf_width(lo: int, groups: int, j: int, w: int)
    requires
        j >= 0,
        w >= 1,
        lo >= 0,
        lo + w <= groups,
        lo + groups == (groups + j) * w,
    ensures
        w == 1,
        lo == j,
{
    if w >= 2 {
        assert((groups + j) * w >= 2 * groups) by (nonlinear_arith)
            requires
                w >= 2,
                j >= 0,
                groups >= 1,
        ;
    }
}

/// Number of items in the subtree whose leaf groups are `lo .. hi`.
pub open spec fn sub_size(s: Shape, lo: int, hi: int) -> int {
    (hi - lo - 1) + group_start(s.leaf_size as int, s.decrementation_point as int, hi) - group_start(
        s.leaf_size as int,
        s.decrementation_point as int,
        lo,
    )
}

/// The items still queued, over all pending parts.
pub open spec fn queued<T>(q: Seq<(Vec<(T, u64)>, usize, usize)>) -> Multiset<T>
    decreases q.len(),
{
    if q.len() == 0 {
        Multiset::empty()
    } else {
        firsts(q[0].0@).to_multiset().add(queued(q.drop_first()))
    }
}

/// A queued part for position `pos`: it spans leaf groups `e.1 .. e.2`, has
/// the subtree's size, and every item in it is on the path to `pos`.
pub open spec fn pending_ok<T, F: Fn(&T, &T) -> u64>(
    f: F,
    nodes: Seq<Node<(T, usize)>>,
    s: Shape,
    e: (Vec<((T, usize), u64)>, usize, usize),
    pos: int,
) -> bool {
    &&& e.1 < e.2 <= s.groups
    &&& e.1 + s.groups == (pos + 1) * (e.2 - e.1)
    &&& is_pow2(e.2 - e.1)
    &&& e.0@.len() == sub_size(s, e.1 as int, e.2 as int)
    &&& forall|i: int| 0 <= i < e.0@.len() ==> on_path(nodes, f, pos, #[trigger] e.0@[i].0)
}

pub proof fn lemma_queued_push<T>(q: Seq<(Vec<(T, u64)>, usize, usize)>, x: (Vec<(T, u64)>, usize, usize))
    ensures
        queued(q.push(x)) =~= queued(q).add(firsts(x.0@).to_multiset()),
    decreases q.len(),
{
    if q.len() == 0 {
        assert(q.push(x).drop_first() =~= q);
    } else {
        assert(q.push(x).drop_first() =~= q.drop_first().push(x));
        lemma_queued_push(q.drop_first(), x);
    }
}

pub proof fn lemma_pending_push<T, F: Fn(&T, &T) -> u64>(
    f: F,
    nodes: Seq<Node<(T, usize)>>,
    n: Node<(T, usize)>,
    s: Shape,
    e: (Vec<((T, usize), u64)>, usize, usize),
    pos: int,
)
    requires
        0 <= pos <= 2 * nodes.len(),
        pending_ok(f, nodes, s, e, pos),
    ensures
        pending_ok(f, nodes.push(n), s, e, pos),
{
    assert forall|i: int| 0 <= i < e.0@.len() implies on_path(nodes.push(n), f, pos, #[trigger] e.0@[i].0) by {
        lemma_path_push(nodes, f, n, pos, e.0@[i].0);
    }
}

/// Builds the internal nodes and leaf groups over `items`.
pub fn arrange<T: Copy, F: Fn(&T, &T) -> u64>(f: &F, items: Vec<(T, usize)>) -> (r: (Vec<Node<(T, usize)>>, Vec<(T, usize)>, Shape, Ghost<nat>))
    requires
        is_metric(*f),
    ensures
        r.3@ <= items@.len() * r.2.depth,
        items@.len() > 0 ==> r.2.decrementation_point >= 1,
        arranged(*f, r.0@, r.1@, r.2),
        (vantage_points(r.0@) + r.1@).to_multiset() == items@.to_multiset(),
        fits(items@.len(), r.2.depth as nat),
        r.2.depth == 0 || !fits(items@.len(), (r.2.depth - 1) as nat),
{
    let n = items.len();
    let shape = shape_for(n);
    let groups = shape.groups;
    let ls = shape.leaf_size;
    let dp = shape.decrementation_point;
    let nl = groups - 1;
    let mut all: Vec<((T, usize), u64)> = Vec::new();
    let mut i: usize = 0;
    while i < n
        invariant
            n == items@.len(),
            i <= n,
            firsts(all@) =~= items@.subrange(0, i as int),
        decreases n - i,
    {
        let ghost before = all@;
        all.push((items[i], 0));
        assert(firsts(all@) =~= firsts(before).push(items@[i as int]));
        i = i + 1;
    }
    assert(items@.subrange(0, n as int) =~= items@);
    let ghost whole = items@.to_multiset();
    proof {
        lemma_pow2_is_pow2(shape.depth as nat);
        lemma_group_start_mono(ls as int, dp as int, 0, groups as int);
    }
    let mut queue: VecDeque<(Vec<((T, usize), u64)>, usize, usize)> = VecDeque::new();
    let mut nodes: Vec<Node<(T, usize)>> = Vec::new();
    let ghost all_items = firsts(all@);
    let ghost mut calls: nat = 0;
    queue.push_back((all, 0, groups));
    proof {
        lemma_lg_pow2(shape.depth as nat);
        assert(queue@.drop_first() =~= Seq::<(Vec<((T, usize), u64)>, usize, usize)>::empty());
        assert(queue@[0].0@.len() == n);
        assert(groups as int == pow2(shape.depth as nat));
        assert(budget(queue@.drop_first()) == 0);
        assert(budget(queue@) == n * shape.depth);
        assert(queue@.drop_first() =~= Seq::<(Vec<((T, usize), u64)>, usize, usize)>::empty());
        assert(queued(queue@.drop_first()) =~= Multiset::empty());
        assert(queued(queue@) =~= all_items.to_multiset());
        assert(vantage_points(nodes@) =~= Seq::<(T, usize)>::empty());
        assert(vantage_points(nodes@).to_multiset() =~= Multiset::empty());
        assert(vantage_points(nodes@).to_multiset().add(queued(queue@)) =~= whole);
    }
    while nodes.len() < nl
        invariant
            is_metric(*f),
            shape.holds(n as nat),
            groups == shape.groups,
            ls == shape.leaf_size,
            dp == shape.decrementation_point,
            nl + 1 == groups,
            nodes@.len() <= nl,
            queue@.len() == nodes@.len() + 1,
            forall|j: int|
                0 <= j < queue@.len() ==> pending_ok(*f, nodes@, shape, #[trigger] queue@[j], nodes@.len() + j),
            forall|p: int| 0 <= p < nodes@.len() ==> on_path(nodes@, *f, p, #[trigger] nodes@[p].vantage_point),
            vantage_points(nodes@).to_multiset().add(queued(queue@)) == whole,
            calls + budget(queue@) <= n * shape.depth,
        decreases nl - nodes@.len(),
    {
        let ghost t = nodes@.len() as int;
        let ghost q0 = queue@;
        let ghost old_nodes = nodes@;
        assert(pending_ok(*f, nodes@, shape, q0[0], t));
        let (mut part, lo, hi) = queue.pop_front().unwrap();
        assert(queue@ =~= q0.drop_first());
        let w = hi - lo;
        proof {
            lemma_inner_width(lo as int, groups as int, t, w as int);
        }
        let half = w / 2;
        let mid = lo + half;
        proof {
            lemma_group_start_mono(ls as int, dp as int, lo as int, mid as int);
            lemma_group_start_mono(ls as int, dp as int, mid as int, hi as int);
            lemma_group_start_mono(ls as int, dp as int, hi as int, groups as int);
        }
        let ghost full = part@;
        let vp = part.pop().unwrap().0;
        assert(full =~= part@.push((vp, full.last().1)));
        let split = (half - 1) + (leaves_before(ls, dp, groups, mid) - leaves_before(ls, dp, groups, lo));
        let (near, far, radius, Ghost(made)) = partition(f, &vp, &part, split);
        proof {
            calls = calls + made;
        }
        let node = Node { vantage_point: vp, radius };
        nodes.push(node);
        let ghost rest = queue@;
        queue.push_back((near, lo, mid));
        queue.push_back((far, mid, hi));
        proof {
            assert(nodes@ == old_nodes.push(node));
            assert(parent(2 * t + 1) == t && parent(2 * t + 2) == t);
            assert(lo + groups == (2 * t + 2) * half && mid + groups == (2 * t + 3) * half) by (nonlinear_arith)
                requires
                    lo + groups == (t + 1) * w,
                    w == 2 * half,
                    mid == lo + half,
            ;
            assert forall|i: int| 0 <= i < part@.len() implies on_path(old_nodes, *f, t, #[trigger] firsts(part@)[i]) by {
                assert(full[i] == part@[i]);
            }
            assert forall|i: int| 0 <= i < near@.len() implies on_path(nodes@, *f, 2 * t + 1, #[trigger] near@[i].0) by {
                let x = near@[i].0;
                let k = choose|k: int| 0 <= k < firsts(part@).len() && firsts(part@)[k] == x;
                lemma_path_push(old_nodes, *f, node, t, x);
            }
            assert forall|i: int| 0 <= i < far@.len() implies on_path(nodes@, *f, 2 * t + 2, #[trigger] far@[i].0) by {
                let x = far@[i].0;
                let k = choose|k: int| 0 <= k < firsts(part@).len() && firsts(part@)[k] == x;
                lemma_path_push(old_nodes, *f, node, t, x);
            }
            assert forall|j: int| 0 <= j < queue@.len() implies pending_ok(*f, nodes@, shape, #[trigger] queue@[j], nodes@.len() + j) by {
                if j < rest.len() {
                    assert(queue@[j] == q0[j + 1]);
                    assert(pending_ok(*f, old_nodes, shape, q0[j + 1], t + j + 1));
                    lemma_pending_push(*f, old_nodes, node, shape, q0[j + 1], t + j + 1);
                }
            }
            assert forall|p: int| 0 <= p < nodes@.len() implies on_path(nodes@, *f, p, #[trigger] nodes@[p].vantage_point) by {
                if p < t {
                    lemma_path_push(old_nodes, *f, node, p, old_nodes[p].vantage_point);
                } else {
                    assert(on_path(old_nodes, *f, t, full[full.len() - 1].0));
                    lemma_path_push(old_nodes, *f, node, t, vp);
                }
            }
            lemma_queued_push(rest, (near, lo, mid));
            lemma_queued_push(rest.push((near, lo, mid)), (far, mid, hi));
            lemma_budget_push(rest, (near, lo, mid));
            lemma_budget_push(rest.push((near, lo, mid)), (far, mid, hi));
            let h = lg(half as int);
            assert(lg(w as int) == 1 + h);
            assert(budget(q0) == full.len() * lg(w as int) + budget(rest));
            assert(near@.len() * h + far@.len() * h + part@.len() <= full.len() * (1 + h)) by (nonlinear_arith)
                requires
                    near@.len() + far@.len() == part@.len(),
                    full.len() == part@.len() + 1,
            ;
            assert(firsts(full) =~= firsts(part@).push(vp));
            assert(vantage_points(nodes@) =~= vantage_points(old_nodes).push(vp));
            assert(queued(q0) == firsts(full).to_multiset().add(queued(rest)));
            vstd::seq_lib::lemma_multiset_commutative(firsts(near@), firsts(far@));
            let mp = firsts(part@).to_multiset();
            assert(firsts(near@).to_multiset().add(firsts(far@).to_multiset()) == mp);
            assert(queued(queue@) =~= queued(rest).add(mp));
            assert(firsts(full).to_multiset() =~= mp.insert(vp));
            assert(vantage_points(nodes@).to_multiset() =~= vantage_points(old_nodes).to_multiset().insert(vp));
            assert(vantage_points(nodes@).to_multiset().add(queued(queue@)) =~= whole);
        }
    }
    let mut leaves: Vec<(T, usize)> = Vec::new();
    let mut g: usize = 0;
    proof {
        lemma_budget_nonneg(queue@);
        assert forall|j: int| 0 <= j < queue@.len() implies queue@[j].1 == j && queue@[j].2 == j + 1 by {
            let e = queue@[j];
            assert(pending_ok(*f, nodes@, shape, e, nl + j));
            lemma_leaf_width(e.1 as int, groups as int, j, e.2 - e.1);
        }
        assert(vantage_points(nodes@).to_multiset().add(leaves@.to_multiset()).add(queued(queue@)) =~= whole);
    }
    while g < groups
        invariant
            is_metric(*f),
            shape.holds(n as nat),
            groups == shape.groups,
            ls == shape.leaf_size,
            dp == shape.decrementation_point,
            nl + 1 == groups,
            nodes@.len() == nl,
            g <= groups,
            queue@.len() == groups - g,
            forall|j: int|
                0 <= j < queue@.len() ==> pending_ok(*f, nodes@, shape, #[trigger] queue@[j], nl + g + j)
                    && queue@[j].1 == g + j && queue@[j].2 == g + j + 1,
            forall|p: int| 0 <= p < nodes@.len() ==> on_path(nodes@, *f, p, #[trigger] nodes@[p].vantage_point),
            leaves@.len() == group_start(ls as int, dp as int, g as int),
            forall|h: int, li: int|
                0 <= h < g && group_start(ls as int, dp as int, h) <= li < group_end(ls as int, dp as int, h)
                    ==> #[trigger] on_path(nodes@, *f, nl + h, leaves@[li]),
            vantage_points(nodes@).to_multiset().add(leaves@.to_multiset()).add(queued(queue@)) == whole,
            calls <= n * shape.depth,
        decreases groups - g,
    {
        let ghost q0 = queue@;
        let ghost old_leaves = leaves@;
        assert(pending_ok(*f, nodes@, shape, q0[0], nl + g) && q0[0].1 == g);
        let (part, lo, hi) = queue.pop_front().unwrap();
        assert(queue@ =~= q0.drop_first());
        let mut k: usize = 0;
        while k < part.len()
            invariant
                leaves@ =~= old_leaves + firsts(part@).subrange(0, k as int),
                k <= part@.len(),
            decreases part@.len() - k,
        {
            leaves.push(part[k].0);
            k = k + 1;
        }
        proof {
            assert(firsts(part@).subrange(0, part@.len() as int) =~= firsts(part@));
            lemma_group_start_mono(ls as int, dp as int, g as int, g + 1);
            assert forall|h: int, li: int|
                0 <= h < g + 1 && group_start(ls as int, dp as int, h) <= li < group_end(ls as int, dp as int, h)
                    implies #[trigger] on_path(nodes@, *f, nl + h, leaves@[li]) by {
                if h < g {
                    lemma_group_start_mono(ls as int, dp as int, h + 1, g as int);
                    assert(leaves@[li] == old_leaves[li]);
                } else {
                    let i = li - old_leaves.len();
                    assert(leaves@[li] == part@[i].0);
                }
            }
            assert forall|j: int| 0 <= j < queue@.len() implies pending_ok(*f, nodes@, shape, #[trigger] queue@[j], nl + (g + 1) + j)
                    && queue@[j].1 == (g + 1) + j && queue@[j].2 == (g + 1) + j + 1 by {
                assert(queue@[j] == q0[j + 1]);
            }
            vstd::seq_lib::lemma_multiset_commutative(old_leaves, firsts(part@));
            assert(vantage_points(nodes@).to_multiset().add(leaves@.to_multiset()).add(queued(queue@)) =~= whole);
        }
        g = g + 1;
    }
    proof {
        assert(queue@.len() == 0);
        vstd::seq_lib::lemma_multiset_commutative(vantage_points(nodes@), leaves@);
        assert((vantage_points(nodes@) + leaves@).to_multiset() =~= whole);
    }
    (nodes, leaves, shape, Ghost(calls))
}

} // verus!
