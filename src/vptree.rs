//! The tree: indexed layers, the items in the order given, and the queries.
use crate::candidates::{ascending, indices, lemma_sorted_ascending, lemma_sorted_keeps, precedes, Candidates, Policy};
use crate::construct::{arrange, arranged, on_path, on_side, vantage_points, Node};
use crate::layout::{
    fits, group_bounds, pow2, LEAF_WIDTH, group_end, group_of, group_start, lemma_fewer_nodes, lemma_groups_within_width, lemma_group_of, lemma_groups_disjoint, Shape,
};
use crate::order::sort_entries;
use vstd::set_lib::{lemma_int_range, lemma_len_subset, set_int_range};
use crate::metric::{dist, is_metric, lemma_outside_boundary, measure};
use crate::position::{
    in_subtree, lemma_child_unrelated, lemma_subtree_of_child, lemma_subtree_of_leaf,
    lemma_subtree_split, parent,
};
use vstd::prelude::*;

verus! {

/// Item `x` on the path to `t` is on the path to every position above `t`.
pub proof fn lemma_path_up<T, F: Fn(&T, &T) -> u64>(nodes: Seq<Node<(T, usize)>>, f: F, t: int, c: int, x: (T, usize))
    requires
        c >= 0,
        in_subtree(t, c),
        on_path(nodes, f, t, x),
    ensures
        on_path(nodes, f, c, x),
    decreases t,
{
    if t > c {
        lemma_path_up(nodes, f, parent(t), c, x);
    }
}

pub proof fn lemma_under_root(t: int)
    requires
        t >= 0,
    ensures
        in_subtree(t, 0),
    decreases t,
{
    if t > 0 {
        lemma_under_root(parent(t));
    }
}

/// Some pending branch of `stack` holds position `t`.
pub open spec fn covered(stack: Seq<(usize, u64)>, t: int) -> bool
    decreases stack.len(),
{
    if stack.len() == 0 {
        false
    } else {
        in_subtree(t, stack.last().0 as int) || covered(stack.drop_last(), t)
    }
}

pub proof fn lemma_covered_push(stack: Seq<(usize, u64)>, e: (usize, u64), t: int)
    ensures
        covered(stack.push(e), t) == (in_subtree(t, e.0 as int) || covered(stack, t)),
{
    assert(stack.push(e).drop_last() =~= stack);
}

pub proof fn lemma_covered_witness(stack: Seq<(usize, u64)>, t: int) -> (j: int)
    requires
        covered(stack, t),
    ensures
        0 <= j < stack.len(),
        in_subtree(t, stack[j].0 as int),
    decreases stack.len(),
{
    if in_subtree(t, stack.last().0 as int) {
        stack.len() - 1
    } else {
        lemma_covered_witness(stack.drop_last(), t)
    }
}

/// Positions at or below `t`, counted over the whole tree of `nodes` internal nodes.
pub open spec fn weight(nodes: int, t: int) -> nat
    decreases 2 * nodes + 1 - t,
{
    if t < 0 || t >= nodes {
        1
    } else {
        1 + weight(nodes, 2 * t + 1) + weight(nodes, 2 * t + 2)
    }
}

pub open spec fn stack_weight(nodes: int, stack: Seq<(usize, u64)>) -> nat
    decreases stack.len(),
{
    if stack.len() == 0 {
        0
    } else {
        weight(nodes, stack.last().0 as int) + stack_weight(nodes, stack.drop_last())
    }
}

/// `r` lists distinct entries of `items` (at positions `ix`), each with its distance from `needle`.
pub open spec fn lists<T, F: Fn(&T, &T) -> u64>(f: F, items: Seq<T>, needle: T, r: Seq<(u64, T)>, ix: Seq<int>) -> bool {
    &&& ix.len() == r.len()
    &&& ix.no_duplicates()
    &&& forall|i: int|
        0 <= i < r.len() ==> 0 <= #[trigger] ix[i] < items.len() && r[i].1 == items[ix[i]] && r[i].0 == dist(
            f,
            needle,
            items[ix[i]],
        )
}

pub open spec fn by_distance<T>(r: Seq<(u64, T)>) -> bool {
    forall|i: int, j: int| 0 <= i <= j < r.len() ==> #[trigger] r[i].0 <= #[trigger] r[j].0
}

/// The item at position `a` of `items` comes before the one at `b`: it is
/// nearer to `needle`, or as near and earlier. Ties go to the item given first.
pub open spec fn before<T, F: Fn(&T, &T) -> u64>(f: F, items: Seq<T>, needle: T, a: int, b: int) -> bool {
    dist(f, needle, items[a]) < dist(f, needle, items[b]) || (dist(f, needle, items[a]) == dist(
        f,
        needle,
        items[b],
    ) && a < b)
}

/// Each position of `ix` comes before every later one.
pub open spec fn in_order<T, F: Fn(&T, &T) -> u64>(f: F, items: Seq<T>, needle: T, ix: Seq<int>) -> bool {
    forall|i: int, j: int| 0 <= i < j < ix.len() ==> before(f, items, needle, #[trigger] ix[i], #[trigger] ix[j])
}

/// `r` is the first item of `items` in the order of `before` (the nearest to
/// `needle`, and of those the earliest), with its distance; there is none only
/// when `items` is empty.
pub open spec fn is_nearest<T, F: Fn(&T, &T) -> u64>(f: F, items: Seq<T>, needle: T, r: Option<(u64, T)>) -> bool {
    match r {
        None => items.len() == 0,
        Some(e) => exists|j: int|
            0 <= j < items.len() && #[trigger] items[j] == e.1 && e.0 == dist(f, needle, items[j]) && forall|i: int|
                0 <= i < items.len() && i != j ==> #[trigger] before(f, items, needle, j, i),
    }
}

/// `r` holds the first `min(k, |items|)` items of `items` in the order of
/// `before`, in that order, each with its distance from `needle`.
pub open spec fn is_k_nearest<T, F: Fn(&T, &T) -> u64>(f: F, items: Seq<T>, needle: T, k: nat, r: Seq<(u64, T)>) -> bool {
    &&& r.len() == if k < items.len() { k } else { items.len() }
    &&& by_distance(r)
    &&& exists|ix: Seq<int>| #[trigger] lists(f, items, needle, r, ix) && in_order(f, items, needle, ix) && forall|j: int, i: int|
            #![trigger ix[i], before(f, items, needle, ix[i], j)]
            0 <= j < items.len() && !ix.contains(j) && 0 <= i < r.len() ==> before(f, items, needle, ix[i], j)
}

/// `r` holds exactly the items of `items` within `threshold` of `needle`, in
/// the order of `before`, each with its distance.
pub open spec fn is_within<T, F: Fn(&T, &T) -> u64>(f: F, items: Seq<T>, needle: T, threshold: u64, r: Seq<(u64, T)>) -> bool {
    &&& by_distance(r)
    &&& exists|ix: Seq<int>| #[trigger] lists(f, items, needle, r, ix) && in_order(f, items, needle, ix) && forall|j: int|
            0 <= j < items.len() ==> (ix.contains(j) <==> #[trigger] dist(f, needle, items[j]) <= threshold)
}

/// Distinct positions below `n` number at most `n`, and exactly `n` when they all occur.
pub proof fn lemma_distinct_positions(ix: Seq<int>, n: int)
    requires
        n >= 0,
        ix.no_duplicates(),
        forall|i: int| 0 <= i < ix.len() ==> 0 <= #[trigger] ix[i] < n,
    ensures
        ix.len() <= n,
        (forall|j: int| 0 <= j < n ==> #[trigger] ix.contains(j)) ==> ix.len() == n,
{
    ix.unique_seq_to_set();
    lemma_int_range(0, n);
    assert(ix.to_set().subset_of(set_int_range(0, n)));
    lemma_len_subset(ix.to_set(), set_int_range(0, n));
    if forall|j: int| 0 <= j < n ==> #[trigger] ix.contains(j) {
        assert(set_int_range(0, n).subset_of(ix.to_set()));
        lemma_len_subset(set_int_range(0, n), ix.to_set());
    }
}

/// `a` holds items of `arr` with their ranks: each rank below `a.len()`,
/// naming the item at that position of `arr`, and no rank twice.
pub open spec fn ranked<T>(a: Seq<(T, usize)>, arr: Seq<T>) -> bool {
    &&& a.len() <= arr.len()
    &&& forall|j: int| 0 <= j < a.len() ==> (#[trigger] a[j]).1 < a.len() && a[j].0 == arr[a[j].1 as int]
    &&& forall|i: int, j: int| 0 <= i < j < a.len() ==> #[trigger] a[i].1 != #[trigger] a[j].1
}

pub open spec fn ranks<T>(a: Seq<(T, usize)>) -> Seq<int> {
    a.map_values(|e: (T, usize)| e.1 as int)
}

/// The ranks of a ranked sequence are exactly `0 .. a.len()`.
pub proof fn lemma_ranks_onto<T>(a: Seq<(T, usize)>, arr: Seq<T>)
    requires
        ranked(a, arr),
    ensures
        forall|r: int| 0 <= r < a.len() ==> #[trigger] ranks(a).contains(r),
{
    let rs = ranks(a);
    assert forall|i: int, j: int| 0 <= i < j < rs.len() implies rs[i] != rs[j] by {
        assert(a[i].1 != a[j].1);
    }
    assert(rs.no_duplicates());
    rs.unique_seq_to_set();
    assert forall|r: int| 0 <= r < a.len() implies #[trigger] ranks(a).contains(r) by {
        if !rs.contains(r) {
            lemma_int_range(0, a.len() as int);
            assert(rs.to_set().subset_of(set_int_range(0, a.len() as int).remove(r))) by {
                assert forall|x: int| rs.to_set().contains(x) implies set_int_range(0, a.len() as int).remove(r).contains(x) by {
                    let i = choose|i: int| 0 <= i < rs.len() && rs[i] == x;
                    assert(a[i].1 < a.len());
                }
            }
            lemma_len_subset(rs.to_set(), set_int_range(0, a.len() as int).remove(r));
        }
    }
}

/// Reordering ranked items keeps them ranked.
pub proof fn lemma_ranks_carry<T>(a: Seq<(T, usize)>, b: Seq<(T, usize)>, arr: Seq<T>)
    requires
        a.to_multiset() == b.to_multiset(),
        ranked(a, arr),
    ensures
        ranked(b, arr),
{
    broadcast use vstd::seq_lib::group_to_multiset_ensures;
    vstd::seq_lib::to_multiset_len(a);
    vstd::seq_lib::to_multiset_len(b);
    assert(a.len() == b.len());
    assert forall|j: int| 0 <= j < b.len() implies (#[trigger] b[j]).1 < b.len() && b[j].0 == arr[b[j].1 as int] by {
        assert(b.contains(b[j]));
        assert(b.to_multiset().count(b[j]) > 0);
        assert(a.to_multiset().count(b[j]) > 0);
        assert(a.contains(b[j]));
        let p = choose|p: int| 0 <= p < a.len() && a[p] == b[j];
        assert(a[p].1 < a.len());
    }
    assert forall|i: int, j: int| 0 <= i < j < a.len() implies a[i] != a[j] by {
        assert(a[i].1 != a[j].1);
    }
    a.lemma_multiset_has_no_duplicates();
    b.lemma_multiset_has_no_duplicates_conv();
    assert forall|i: int, j: int| 0 <= i < j < b.len() implies #[trigger] b[i].1 != #[trigger] b[j].1 by {
        if b[i].1 == b[j].1 {
            assert(b.contains(b[i]) && b.contains(b[j]));
            let p = choose|p: int| 0 <= p < a.len() && a[p] == b[i];
            let q = choose|q: int| 0 <= q < a.len() && a[q] == b[j];
            if p != q {
                if p < q {
                    assert(a[p].1 != a[q].1);
                } else {
                    assert(a[q].1 != a[p].1);
                }
            }
            assert(b[i] == b[j]);
        }
    }
}

/// A vantage-point tree over items of type `T`, compared only through the
/// caller's metric `F`. Internal nodes form an implicit complete binary tree
/// (children of `i` at `2i + 1` and `2i + 2`); the remaining items sit in leaf
/// groups whose bounds follow from `leaf_size` and `decrementation_point`.
/// Every stored item carries its rank: its position in the order in which
/// the items were given. Items added after the last rebuild wait, unindexed,
/// until the next query or `update`.
pub struct VPTree<T, F> {
    distance_calculator: F,
    nodes: Vec<Node<(T, usize)>>,
    leaves: Vec<(T, usize)>,
    leaf_size: usize,
    decrementation_point: usize,
    depth: usize,
    arrival: Vec<T>,
    dirty: bool,
    rebuilds: Ghost<nat>,
    evaluations: Ghost<nat>,
}

impl<T: Copy, F: Fn(&T, &T) -> u64> VPTree<T, F> {
    /// The distance function that the tree was given.
    pub closed spec fn metric(&self) -> F {
        self.distance_calculator
    }

    /// The ranked items folded into the internal nodes and leaf groups, nodes first.
    pub closed spec fn indexed(&self) -> Seq<(T, usize)> {
        vantage_points(self.nodes@) + self.leaves@
    }

    /// The items added since the last rebuild, in the order they were given.
    pub closed spec fn buffered(&self) -> Seq<T> {
        self.arrival@.subrange(self.indexed().len() as int, self.arrival@.len() as int)
    }

    /// Every item the tree holds, in the order they were given.
    pub closed spec fn items(&self) -> Seq<T> {
        self.arrival@
    }

    /// The rank of the indexed item `idx`.
    pub closed spec fn rank(&self, idx: int) -> usize {
        self.indexed()[idx].1
    }

    /// The indexed position of the item of rank `r`.
    pub closed spec fn at(&self, r: int) -> int {
        choose|p: int| 0 <= p < self.indexed().len() && self.indexed()[p].1 == r
    }

    /// Inserted items wait for a rebuild.
    pub closed spec fn is_dirty(&self) -> bool {
        self.dirty
    }

    /// How many times this tree has called its distance function.
    pub closed spec fn evaluations(&self) -> nat {
        self.evaluations@
    }

    /// The same tree, but for the count of distance evaluations.
    pub closed spec fn same_apart_from_count(&self, o: Self) -> bool {
        &&& self.distance_calculator == o.distance_calculator
        &&& self.nodes == o.nodes
        &&& self.leaves == o.leaves
        &&& self.leaf_size == o.leaf_size
        &&& self.decrementation_point == o.decrementation_point
        &&& self.depth == o.depth
        &&& self.arrival == o.arrival
        &&& self.dirty == o.dirty
        &&& self.rebuilds == o.rebuilds
    }

    /// How many rebuilds this tree has gone through.
    pub closed spec fn rebuild_count(&self) -> nat {
        self.rebuilds@
    }

    pub closed spec fn shape(&self) -> Shape {
        Shape {
            depth: self.depth,
            groups: (self.nodes@.len() + 1) as usize,
            leaf_size: self.leaf_size,
            decrementation_point: self.decrementation_point,
        }
    }

    /// The depth is the least at which the indexed items fit into `2^depth - 1`
    /// internal nodes and `2^depth` leaf groups of the target width, and no
    /// leaf group is wider than that target.
    pub closed spec fn layout_is_least(&self) -> bool {
        let n = (self.nodes@.len() + self.leaves@.len()) as nat;
        &&& fits(n, self.depth as nat)
        &&& (self.depth == 0 || !fits(n, (self.depth - 1) as nat))
        &&& self.shape().widest_group() <= crate::layout::LEAF_WIDTH
        &&& self.leaf_size <= crate::layout::LEAF_WIDTH
        &&& (n > 0 ==> self.decrementation_point >= 1)
    }

    /// Width of the wider leaf groups.
    pub closed spec fn leaf_size(&self) -> nat {
        self.leaf_size as nat
    }

    /// Number of leading leaf groups of width `leaf_size`; the rest hold one item fewer.
    pub closed spec fn decrementation_point(&self) -> nat {
        self.decrementation_point as nat
    }

    /// Number of layers of internal nodes.
    pub closed spec fn depth(&self) -> nat {
        self.depth as nat
    }

    pub closed spec fn wf(&self) -> bool {
        &&& self.layout_is_least()
        &&& is_metric(self.distance_calculator)
        &&& arranged(self.distance_calculator, self.nodes@, self.leaves@, self.shape())
        &&& ranked(self.indexed(), self.arrival@)
        &&& self.arrival@.len() <= usize::MAX
        &&& self.dirty == (self.arrival@.len() > self.indexed().len())
        &&& self.nodes@.len() <= self.leaves@.len()
    }

    /// Ranks and indexed positions correspond one to one.
    proof fn lemma_rank_at(&self)
        requires
            self.wf(),
        ensures
            forall|p: int| 0 <= p < self.indexed().len() ==> #[trigger] self.at(self.rank(p) as int) == p,
            forall|r: int| 0 <= r < self.indexed().len() ==> 0 <= #[trigger] self.at(r) < self.indexed().len()
                && self.rank(self.at(r)) == r,
    {
        let a = self.indexed();
        lemma_ranks_onto(a, self.arrival@);
        assert forall|r: int| 0 <= r < a.len() implies 0 <= #[trigger] self.at(r) < a.len() && self.rank(self.at(r)) == r by {
            assert(ranks(a).contains(r));
            let i = choose|i: int| 0 <= i < ranks(a).len() && ranks(a)[i] == r;
            assert(a[i].1 == r);
        }
        assert forall|p: int| 0 <= p < a.len() implies #[trigger] self.at(self.rank(p) as int) == p by {
            let q = self.at(self.rank(p) as int);
            assert(0 <= q < a.len() && a[q].1 == a[p].1);
            if q < p {
                assert(a[q].1 != a[p].1);
            } else if p < q {
                assert(a[p].1 != a[q].1);
            }
        }
    }

    /// Distance from `needle` to the indexed item `idx`.
    pub closed spec fn gap_to(&self, needle: T, idx: int) -> u64 {
        dist(self.distance_calculator, needle, self.indexed()[idx].0)
    }

    /// The tree position that holds the indexed item `idx`.
    pub closed spec fn pos_of(&self, idx: int) -> int {
        let nl = self.nodes@.len() as int;
        if idx < nl {
            idx
        } else {
            nl + group_of(self.leaf_size as int, self.decrementation_point as int, idx - nl)
        }
    }

    /// The positions whose items have been measured are finite, in range, and
    /// outside every pending branch.
    pub closed spec fn measured_ok(&self, stack: Seq<(usize, u64)>, measured: Set<int>) -> bool {
        &&& measured.finite()
        &&& forall|x: int| #[trigger] measured.contains(x) ==> 0 <= x < self.indexed().len() && !covered(stack, self.pos_of(x))
    }

    pub closed spec fn search_inv(&self, needle: T, stack: Seq<(usize, u64)>, c: Candidates) -> bool {
        let n = self.indexed().len();
        &&& c.wf()
        &&& forall|j: int| 0 <= j < stack.len() ==> (#[trigger] stack[j]).0 < 2 * self.nodes@.len() + 1
        &&& forall|j: int, idx: int|
            0 <= j < stack.len() && 0 <= idx < n && #[trigger] in_subtree(self.pos_of(idx), stack[j].0 as int)
                ==> self.gap_to(needle, idx) >= stack[j].1
        &&& forall|a: int, b: int|
            0 <= a < stack.len() && 0 <= b < stack.len() && a != b ==> !#[trigger] in_subtree(
                stack[a].0 as int,
                stack[b].0 as int,
            )
        &&& forall|i: int|
            0 <= i < c.found@.len() ==> (#[trigger] c.found@[i]).1 < n && c.found@[i].0 == self.gap_to(
                needle,
                self.at(c.found@[i].1 as int),
            ) && !covered(stack, self.pos_of(self.at(c.found@[i].1 as int)))
        &&& forall|idx: int|
            0 <= idx < n ==> covered(stack, #[trigger] self.pos_of(idx)) || indices(c.found@).contains(
                self.rank(idx),
            ) || c.excludes(self.gap_to(needle, idx), self.rank(idx))
    }

    proof fn lemma_item_place(&self, idx: int)
        requires
            self.wf(),
            0 <= idx < self.indexed().len(),
        ensures
            0 <= self.pos_of(idx) < 2 * self.nodes@.len() + 1,
            on_path(self.nodes@, self.distance_calculator, self.pos_of(idx), self.indexed()[idx]),
            idx < self.nodes@.len() <==> self.pos_of(idx) < self.nodes@.len(),
    {
        let nl = self.nodes@.len() as int;
        let s = self.shape();
        if idx < nl {
            assert(self.indexed()[idx] == self.nodes@[idx].vantage_point);
        } else {
            let li = idx - nl;
            lemma_group_of(s.leaf_size as int, s.decrementation_point as int, s.groups as int, li);
            let g = group_of(s.leaf_size as int, s.decrementation_point as int, li);
            assert(self.indexed()[idx] == self.leaves@[li]);
            assert(on_path(self.nodes@, self.distance_calculator, nl + g, self.leaves@[li]));
        }
    }

    /// Visits internal node `pos`: offers its vantage point, then queues both
    /// children, the one on the needle's side on top.
    #[verifier::rlimit(80)]
    fn visit_node(
        &self,
        needle: &T,
        stack: &mut Vec<(usize, u64)>,
        cands: &mut Candidates,
        pos: usize,
        gap: u64,
        Ghost(measured): Ghost<Set<int>>,
    ) -> (m: Ghost<(Set<int>, nat)>)
        requires
            self.wf(),
            pos < self.nodes@.len(),
            self.search_inv(*needle, old(stack)@.push((pos, gap)), *old(cands)),
            self.measured_ok(old(stack)@.push((pos, gap)), measured),
        ensures
            m@.1 == 1,
            m@.0 == measured.insert(pos as int),
            m@.0.len() == measured.len() + m@.1,
            self.measured_ok(final(stack)@, m@.0),
            self.search_inv(*needle, final(stack)@, *final(cands)),
            final(cands).policy == old(cands).policy,
            stack_weight(self.nodes@.len() as int, final(stack)@) < stack_weight(
                self.nodes@.len() as int,
                old(stack)@.push((pos, gap)),
            ),
    {
        let ghost rest = stack@;
        let ghost s0 = rest.push((pos, gap));
        let ghost c0 = *cands;
        let ghost nl = self.nodes@.len() as int;
        let ghost f = self.distance_calculator;
        let vp = self.nodes[pos].vantage_point;
        let d = measure(&self.distance_calculator, needle, &vp.0);
        let radius = self.nodes[pos].radius;
        proof {
            self.lemma_rank_at();
            assert(self.indexed()[pos as int] == vp);
            assert(self.rank(pos as int) == vp.1);
            assert(self.at(vp.1 as int) == pos);
            assert(self.pos_of(pos as int) == pos);
            assert(in_subtree(pos as int, pos as int));
            lemma_covered_push(rest, (pos, gap), pos as int);
            assert(!measured.contains(pos as int));
            if indices(c0.found@).contains(vp.1) {
                let i = choose|i: int| 0 <= i < c0.found@.len() && indices(c0.found@)[i] == vp.1;
                assert(c0.found@[i].1 == vp.1);
            }
        }
        cands.offer(d, vp.1);
        let near: usize = 2 * pos + 1;
        let far: usize = 2 * pos + 2;
        let (first, second) = if d < radius {
            ((far, radius - d), (near, 0))
        } else {
            ((near, d - radius), (far, 0))
        };
        stack.push(first);
        stack.push(second);
        proof {
            let s2 = stack@;
            let c2 = *cands;
            assert(s2 == rest.push(first).push(second));
            lemma_subtree_of_child(pos as int);
            assert forall|t: int| #[trigger] covered(s2, t) == (in_subtree(t, second.0 as int) || in_subtree(t, first.0 as int) || covered(rest, t)) by {
                lemma_covered_push(rest.push(first), second, t);
                lemma_covered_push(rest, first, t);
            }
            assert forall|t: int| #[trigger] covered(s0, t) == (in_subtree(t, pos as int) || covered(rest, t)) by {
                lemma_covered_push(rest, (pos, gap), t);
            }
            assert forall|t: int| in_subtree(t, near as int) || in_subtree(t, far as int) implies #[trigger] in_subtree(t, pos as int) by {
                if in_subtree(t, near as int) {
                    crate::position::lemma_subtree_trans(t, near as int, pos as int);
                } else {
                    crate::position::lemma_subtree_trans(t, far as int, pos as int);
                }
            }
            assert forall|j: int| 0 <= j < s2.len() implies (#[trigger] s2[j]).0 < 2 * nl + 1 by {
                if j < rest.len() {
                    assert(s2[j] == s0[j]);
                }
            }
            // gaps of the two children
            assert forall|j: int, idx: int|
                0 <= j < s2.len() && 0 <= idx < self.indexed().len() && #[trigger] in_subtree(self.pos_of(idx), s2[j].0 as int)
                    implies self.gap_to(*needle, idx) >= s2[j].1 by {
                if j < rest.len() {
                    assert(s2[j] == s0[j]);
                } else if s2[j].1 > 0 {
                    let c = s2[j].0 as int;
                    let x = self.indexed()[idx];
                    self.lemma_item_place(idx);
                    lemma_path_up(self.nodes@, f, self.pos_of(idx), c, x);
                    assert(parent(c) == pos);
                    assert(on_side(self.nodes@, f, c, x));
                    lemma_outside_boundary(f, *needle, vp.0, x.0);
                }
            }
            // pending branches stay unrelated
            assert forall|a: int, b: int|
                0 <= a < s2.len() && 0 <= b < s2.len() && a != b implies !#[trigger] in_subtree(s2[a].0 as int, s2[b].0 as int) by {
                if a < rest.len() && b < rest.len() {
                    assert(s2[a] == s0[a] && s2[b] == s0[b]);
                } else if a < rest.len() {
                    assert(s2[a] == s0[a]);
                    assert(!in_subtree(s0[a].0 as int, pos as int) && !in_subtree(pos as int, s0[a].0 as int)) by {
                        assert(s0[rest.len() as int].0 == pos);
                    }
                    lemma_child_unrelated(pos as int, s2[b].0 as int, s2[a].0 as int);
                } else if b < rest.len() {
                    assert(s2[b] == s0[b]);
                    assert(!in_subtree(s0[b].0 as int, pos as int) && !in_subtree(pos as int, s0[b].0 as int)) by {
                        assert(s0[rest.len() as int].0 == pos);
                    }
                    lemma_child_unrelated(pos as int, s2[a].0 as int, s2[b].0 as int);
                }
            }
            // kept entries lie outside every pending branch
            assert forall|i: int| 0 <= i < c2.found@.len() implies (#[trigger] c2.found@[i]).1 < self.indexed().len()
                && c2.found@[i].0 == self.gap_to(*needle, self.at(c2.found@[i].1 as int)) && !covered(s2, self.pos_of(self.at(c2.found@[i].1 as int))) by {
                let e = c2.found@[i];
                if e == (d, vp.1) {
                    if covered(rest, pos as int) {
                        let j = lemma_covered_witness(rest, pos as int);
                        assert(s0[j] == rest[j]);
                        assert(s0[rest.len() as int].0 == pos);
                    }
                } else {
                    let k = choose|k: int| 0 <= k < c0.found@.len() && c0.found@[k] == e;
                    assert(c0.found@[k] == e);
                }
            }
            // every item is pending, kept, or excluded
            assert forall|idx: int| 0 <= idx < self.indexed().len() implies covered(s2, #[trigger] self.pos_of(idx))
                || indices(c2.found@).contains(self.rank(idx)) || c2.excludes(self.gap_to(*needle, idx), self.rank(idx)) by {
                let t = self.pos_of(idx);
                self.lemma_item_place(idx);
                if covered(s0, t) {
                    if in_subtree(t, pos as int) {
                        if t == pos {
                            assert(idx == pos);
                            if c2.found@.contains((d, vp.1)) {
                                let i = choose|i: int| 0 <= i < c2.found@.len() && c2.found@[i] == (d, vp.1);
                                assert(indices(c2.found@)[i] == vp.1);
                            }
                        } else {
                            lemma_subtree_split(t, pos as int);
                        }
                    }
                } else if indices(c0.found@).contains(self.rank(idx)) {
                    let i = choose|i: int| 0 <= i < c0.found@.len() && indices(c0.found@)[i] == self.rank(idx);
                    let e = c0.found@[i];
                    if c2.found@.contains(e) {
                        let k = choose|k: int| 0 <= k < c2.found@.len() && c2.found@[k] == e;
                        assert(indices(c2.found@)[k] == self.rank(idx));
                    }
                }
            }
            assert(stack_weight(nl, s2) == weight(nl, second.0 as int) + stack_weight(nl, rest.push(first))) by {
                assert(s2.drop_last() =~= rest.push(first));
            }
            assert(stack_weight(nl, rest.push(first)) == weight(nl, first.0 as int) + stack_weight(nl, rest)) by {
                assert(rest.push(first).drop_last() =~= rest);
            }
            assert(stack_weight(nl, s0) == weight(nl, pos as int) + stack_weight(nl, rest)) by {
                assert(s0.drop_last() =~= rest);
            }
            assert(!covered(s2, pos as int)) by {
                if covered(rest, pos as int) {
                    let j = lemma_covered_witness(rest, pos as int);
                    assert(s0[j] == rest[j]);
                    assert(s0[rest.len() as int].0 == pos);
                }
            }
            assert forall|x: int| #[trigger] measured.insert(pos as int).contains(x) implies 0 <= x < self.indexed().len()
                && !covered(s2, self.pos_of(x)) by {
                if x != pos as int {
                    assert(measured.contains(x));
                }
            }
        }
        Ghost((measured.insert(pos as int), 1))
    }

    /// Facts about dropping the top entry of a pending stack.
    proof fn lemma_drop_top(&self, needle: T, rest: Seq<(usize, u64)>, top: (usize, u64), c: Candidates)
        requires
            self.wf(),
            self.search_inv(needle, rest.push(top), c),
        ensures
            forall|t: int| #[trigger] covered(rest.push(top), t) == (in_subtree(t, top.0 as int) || covered(rest, t)),
            forall|j: int| 0 <= j < rest.len() ==> !#[trigger] in_subtree(top.0 as int, rest[j].0 as int),
            forall|j: int| 0 <= j < rest.len() ==> !#[trigger] in_subtree(rest[j].0 as int, top.0 as int),
            forall|idx: int|
                0 <= idx < self.indexed().len() && #[trigger] in_subtree(self.pos_of(idx), top.0 as int)
                    ==> self.gap_to(needle, idx) >= top.1,
            forall|j: int| 0 <= j < rest.len() ==> (#[trigger] rest[j]).0 < 2 * self.nodes@.len() + 1,
            forall|j: int, idx: int|
                0 <= j < rest.len() && 0 <= idx < self.indexed().len() && #[trigger] in_subtree(self.pos_of(idx), rest[j].0 as int)
                    ==> self.gap_to(needle, idx) >= rest[j].1,
            forall|a: int, b: int| 0 <= a < rest.len() && 0 <= b < rest.len() && a != b
                ==> !#[trigger] in_subtree(rest[a].0 as int, rest[b].0 as int),
            !covered(rest, top.0 as int),
            forall|i: int| 0 <= i < c.found@.len() ==> !covered(rest, self.pos_of(self.at((#[trigger] c.found@[i]).1 as int)))
                && !in_subtree(self.pos_of(self.at(c.found@[i].1 as int)), top.0 as int),
    {
        let s0 = rest.push(top);
        assert forall|t: int| #[trigger] covered(s0, t) == (in_subtree(t, top.0 as int) || covered(rest, t)) by {
            lemma_covered_push(rest, top, t);
        }
        assert forall|j: int| 0 <= j < rest.len() implies !#[trigger] in_subtree(top.0 as int, rest[j].0 as int) by {
            assert(s0[j] == rest[j] && s0[rest.len() as int] == top);
        }
        assert forall|j: int| 0 <= j < rest.len() implies !#[trigger] in_subtree(rest[j].0 as int, top.0 as int) by {
            assert(s0[j] == rest[j] && s0[rest.len() as int] == top);
        }
        assert forall|idx: int|
            0 <= idx < self.indexed().len() && #[trigger] in_subtree(self.pos_of(idx), top.0 as int)
                implies self.gap_to(needle, idx) >= top.1 by {
            assert(s0[rest.len() as int] == top);
        }
        assert forall|j: int, idx: int|
            0 <= j < rest.len() && 0 <= idx < self.indexed().len() && #[trigger] in_subtree(self.pos_of(idx), rest[j].0 as int)
                implies self.gap_to(needle, idx) >= rest[j].1 by {
            assert(s0[j] == rest[j]);
        }
        assert forall|a: int, b: int| 0 <= a < rest.len() && 0 <= b < rest.len() && a != b
            implies !#[trigger] in_subtree(rest[a].0 as int, rest[b].0 as int) by {
            assert(s0[a] == rest[a] && s0[b] == rest[b]);
        }
        assert forall|j: int| 0 <= j < rest.len() implies (#[trigger] rest[j]).0 < 2 * self.nodes@.len() + 1 by {
            assert(s0[j] == rest[j]);
        }
        if covered(rest, top.0 as int) {
            let j = lemma_covered_witness(rest, top.0 as int);
        }
        assert forall|i: int| 0 <= i < c.found@.len() implies !covered(rest, self.pos_of(self.at((#[trigger] c.found@[i]).1 as int)))
            && !in_subtree(self.pos_of(self.at(c.found@[i].1 as int)), top.0 as int) by {
            assert(!covered(s0, self.pos_of(self.at(c.found@[i].1 as int))));
        }
    }

    /// Visits the leaf group at position `pos`: offers each of its items.
    fn visit_leaf(
        &self,
        needle: &T,
        stack: &Vec<(usize, u64)>,
        cands: &mut Candidates,
        pos: usize,
        gap: u64,
        Ghost(measured): Ghost<Set<int>>,
    ) -> (m: Ghost<(Set<int>, nat)>)
        requires
            self.wf(),
            self.nodes@.len() <= pos < 2 * self.nodes@.len() + 1,
            self.search_inv(*needle, stack@.push((pos, gap)), *old(cands)),
            self.measured_ok(stack@.push((pos, gap)), measured),
        ensures
            m@.0.len() == measured.len() + m@.1,
            self.measured_ok(stack@, m@.0),
            self.search_inv(*needle, stack@, *final(cands)),
            final(cands).policy == old(cands).policy,
    {
        let ghost rest = stack@;
        let ghost s0 = rest.push((pos, gap));
        let ghost c0 = *cands;
        let ghost n = self.indexed().len();
        let nl = self.nodes.len();
        let g = pos - nl;
        let ghost ls = self.leaf_size as int;
        let ghost dp = self.decrementation_point as int;
        proof {
            self.lemma_drop_top(*needle, rest, (pos, gap), c0);
        }
        let (start, end) = group_bounds(self.leaf_size, self.decrementation_point, nl + 1, g);
        // every item at this position lies in group g
        proof {
            assert forall|idx: int| 0 <= idx < n && #[trigger] self.pos_of(idx) == pos implies nl + start <= idx < nl + end by {
                self.lemma_item_place(idx);
                lemma_group_of(ls, dp, nl + 1, idx - nl);
            }
        }
        proof {
            assert forall|idx: int| 0 <= idx < n implies covered(rest, #[trigger] self.pos_of(idx))
                || (self.pos_of(idx) == pos && idx >= nl + start)
                || indices(c0.found@).contains(self.rank(idx))
                || c0.excludes(self.gap_to(*needle, idx), self.rank(idx)) by {
                self.lemma_item_place(idx);
                if in_subtree(self.pos_of(idx), pos as int) {
                    lemma_subtree_of_leaf(self.pos_of(idx), pos as int);
                }
            }
        }
        let ghost mut seen = measured;
        let ghost mut calls: nat = 0;
        proof {
            assert forall|x: int| #[trigger] measured.contains(x) implies !covered(rest, self.pos_of(x))
                && (self.pos_of(x) != pos || x < nl + start) by {
                assert(!covered(s0, self.pos_of(x)));
                assert(in_subtree(pos as int, pos as int));
            }
        }
        let mut li = start;
        while li < end
            invariant
                seen.finite(),
                seen.len() == measured.len() + calls,
                forall|x: int| #[trigger] seen.contains(x) ==> 0 <= x < n && !covered(rest, self.pos_of(x))
                    && (self.pos_of(x) != pos || x < nl + li),
                self.wf(),
                nl == self.nodes@.len(),
                n == self.indexed().len(),
                g == pos - nl,
                ls == self.leaf_size && dp == self.decrementation_point,
                start == group_start(ls, dp, g as int),
                end == group_end(ls, dp, g as int),
                start <= li <= end,
                end <= self.leaves@.len(),
                cands.wf(),
                cands.policy == c0.policy,
                !covered(rest, pos as int),
                n == nl + self.leaves@.len(),
                forall|idx: int| 0 <= idx < n && #[trigger] self.pos_of(idx) == pos ==> nl + start <= idx < nl + end,
                forall|i: int| 0 <= i < cands.found@.len() ==> (#[trigger] cands.found@[i]).1 < n
                    && cands.found@[i].0 == self.gap_to(*needle, self.at(cands.found@[i].1 as int))
                    && !covered(rest, self.pos_of(self.at(cands.found@[i].1 as int)))
                    && (self.pos_of(self.at(cands.found@[i].1 as int)) != pos || self.at(cands.found@[i].1 as int) < nl + li),
                forall|idx: int| 0 <= idx < n ==> covered(rest, #[trigger] self.pos_of(idx))
                    || (self.pos_of(idx) == pos && idx >= nl + li)
                    || indices(cands.found@).contains(self.rank(idx))
                    || cands.excludes(self.gap_to(*needle, idx), self.rank(idx)),
            decreases end - li,
        {
            let ghost c1 = *cands;
            let ghost idx: usize = (nl + li) as usize;
            let d = measure(&self.distance_calculator, needle, &self.leaves[li].0);
            let rk = self.leaves[li].1;
            proof {
                self.lemma_rank_at();
                assert(self.indexed().len() <= self.arrival@.len());
                assert(idx as int == nl + li);
                assert(self.indexed()[idx as int] == self.leaves@[li as int]);
                assert(self.rank(idx as int) == rk);
                assert(0 <= idx < self.indexed().len());
                assert(self.at(self.rank(idx as int) as int) == idx as int);
                assert(self.at(rk as int) == idx as int);
                assert(self.indexed()[idx as int] == self.leaves@[li as int]);
                lemma_group_of(ls, dp, nl + 1, li as int);
                lemma_groups_disjoint(ls, dp, g as int, group_of(ls, dp, li as int), li as int);
                assert(self.pos_of(idx as int) == pos);
                if indices(c1.found@).contains(rk) {
                    let i = choose|i: int| 0 <= i < c1.found@.len() && indices(c1.found@)[i] == rk;
                    assert(c1.found@[i].1 == rk);
                    assert(self.at(rk as int) == idx as int);
                    assert(self.pos_of(self.at(c1.found@[i].1 as int)) != pos || self.at(c1.found@[i].1 as int) < nl + li);
                    assert(false);
                }
            }
            cands.offer(d, rk);
            proof {
                assert(!seen.contains(idx as int));
                seen = seen.insert(idx as int);
                calls = calls + 1;
                let c2 = *cands;
                assert forall|i: int| 0 <= i < c2.found@.len() implies (#[trigger] c2.found@[i]).1 < n
                    && c2.found@[i].0 == self.gap_to(*needle, self.at(c2.found@[i].1 as int))
                    && !covered(rest, self.pos_of(self.at(c2.found@[i].1 as int)))
                    && (self.pos_of(self.at(c2.found@[i].1 as int)) != pos || self.at(c2.found@[i].1 as int) < nl + li + 1) by {
                    let e = c2.found@[i];
                    if e != (d, rk) {
                        let k = choose|k: int| 0 <= k < c1.found@.len() && c1.found@[k] == e;
                        assert(c1.found@[k] == e);
                    } else {
                        assert(self.gap_to(*needle, idx as int) == d);
                    }
                }
                assert forall|x: int| 0 <= x < n implies covered(rest, #[trigger] self.pos_of(x))
                    || (self.pos_of(x) == pos && x >= nl + li + 1)
                    || indices(c2.found@).contains(self.rank(x))
                    || c2.excludes(self.gap_to(*needle, x), self.rank(x)) by {
                    if x == idx as int {
                        if c2.found@.contains((d, rk)) {
                            let i = choose|i: int| 0 <= i < c2.found@.len() && c2.found@[i] == (d, rk);
                            assert(indices(c2.found@)[i] == rk);
                        }
                    } else if !covered(rest, self.pos_of(x)) && !(self.pos_of(x) == pos && x >= nl + li) {
                        if indices(c1.found@).contains(self.rank(x)) {
                            let i = choose|i: int| 0 <= i < c1.found@.len() && indices(c1.found@)[i] == self.rank(x);
                            let e = c1.found@[i];
                            if c2.found@.contains(e) {
                                let k = choose|k: int| 0 <= k < c2.found@.len() && c2.found@[k] == e;
                                assert(indices(c2.found@)[k] == self.rank(x));
                            }
                        }
                    }
                }
            }
            li = li + 1;
        }
        proof {
            assert forall|x: int| 0 <= x < n implies covered(rest, #[trigger] self.pos_of(x))
                || indices(cands.found@).contains(self.rank(x))
                || cands.excludes(self.gap_to(*needle, x), self.rank(x)) by {
                if self.pos_of(x) == pos {
                    assert(x < nl + end);
                }
            }
            assert forall|x: int| #[trigger] seen.contains(x) implies 0 <= x < n && !covered(stack@, self.pos_of(x)) by {
                if self.pos_of(x) == pos {
                    assert(x < nl + end);
                }
            }
        }
        Ghost((seen, calls))
    }

    /// The shared branch-and-bound traversal: offers to `cands` every item that
    /// could still matter, and prunes branches that cannot.
    fn search(&self, needle: &T, cands: &mut Candidates) -> (calls: Ghost<nat>)
        requires
            self.wf(),
            old(cands).wf(),
            old(cands).found@.len() == 0,
        ensures
            calls@ <= self.indexed().len(),
            final(cands).wf(),
            final(cands).policy == old(cands).policy,
            forall|i: int| 0 <= i < final(cands).found@.len() ==> (#[trigger] final(cands).found@[i]).1 < self.indexed().len()
                && final(cands).found@[i].0 == self.gap_to(*needle, self.at(final(cands).found@[i].1 as int)),
            forall|idx: int| 0 <= idx < self.indexed().len() ==> indices(final(cands).found@).contains(self.rank(idx))
                || final(cands).excludes(#[trigger] self.gap_to(*needle, idx), self.rank(idx)),
    {
        let nl = self.nodes.len();
        let mut stack: Vec<(usize, u64)> = Vec::with_capacity(self.depth);
        stack.push((0, 0));
        proof {
            let s = stack@;
            assert(s.drop_last() =~= Seq::<(usize, u64)>::empty());
            assert forall|idx: int| 0 <= idx < self.indexed().len() implies covered(s, #[trigger] self.pos_of(idx)) by {
                self.lemma_item_place(idx);
                lemma_under_root(self.pos_of(idx));
            }
            assert(indices(cands.found@).len() == 0);
        }
        let ghost mut measured: Set<int> = Set::empty();
        let ghost mut calls: nat = 0;
        while stack.len() > 0
            invariant
                self.wf(),
                nl == self.nodes@.len(),
                self.search_inv(*needle, stack@, *cands),
                self.measured_ok(stack@, measured),
                calls == measured.len(),
                cands.policy == old(cands).policy,
            decreases stack_weight(nl as int, stack@),
        {
            let ghost s0 = stack@;
            let (pos, gap) = stack.pop().unwrap();
            assert(s0 == stack@.push((pos, gap)));
            assert(stack_weight(nl as int, s0) == weight(nl as int, pos as int) + stack_weight(nl as int, stack@)) by {
                assert(s0.drop_last() =~= stack@);
            }
            assert(pos < 2 * nl + 1) by {
                assert(s0[stack@.len() as int] == (pos, gap));
            }
            if cands.admits(gap) {
                if pos < nl {
                    let Ghost(m) = self.visit_node(needle, &mut stack, cands, pos, gap, Ghost(measured));
                    proof {
                        measured = m.0;
                        calls = calls + m.1;
                    }
                } else {
                    let Ghost(m) = self.visit_leaf(needle, &stack, cands, pos, gap, Ghost(measured));
                    proof {
                        measured = m.0;
                        calls = calls + m.1;
                    }
                }
            } else {
                proof {
                    self.lemma_drop_top(*needle, stack@, (pos, gap), *cands);
                    assert forall|x: int| #[trigger] measured.contains(x) implies 0 <= x < self.indexed().len()
                        && !covered(stack@, self.pos_of(x)) by {
                        assert(!covered(s0, self.pos_of(x)));
                    }
                    assert forall|x: int| 0 <= x < self.indexed().len() implies covered(stack@, #[trigger] self.pos_of(x))
                        || indices(cands.found@).contains(self.rank(x))
                        || cands.excludes(self.gap_to(*needle, x), self.rank(x)) by {
                        if in_subtree(self.pos_of(x), pos as int) {
                            assert(self.gap_to(*needle, x) >= gap);
                        }
                    }
                }
            }
        }
        proof {
            assert forall|idx: int| 0 <= idx < self.indexed().len() implies indices(cands.found@).contains(self.rank(idx))
                || cands.excludes(#[trigger] self.gap_to(*needle, idx), self.rank(idx)) by {
                assert(!covered(stack@, self.pos_of(idx)));
            }
            lemma_int_range(0, self.indexed().len() as int);
            assert(measured.subset_of(set_int_range(0, self.indexed().len() as int)));
            lemma_len_subset(measured, set_int_range(0, self.indexed().len() as int));
        }
        Ghost(calls)
    }

    /// Distances to the item of rank `r` are distances to `items()[r]`.
    proof fn lemma_gap_of_rank(&self, needle: T)
        requires
            self.wf(),
            self.indexed().len() == self.arrival@.len(),
        ensures
            forall|r: int| 0 <= r < self.indexed().len() ==> #[trigger] self.gap_to(needle, self.at(r)) == dist(
                self.distance_calculator,
                needle,
                self.arrival@[r],
            ),
            forall|p: int| 0 <= p < self.indexed().len() ==> (#[trigger] self.rank(p)) < self.indexed().len()
                && self.gap_to(needle, p) == dist(self.distance_calculator, needle, self.arrival@[self.rank(p) as int]),
    {
        self.lemma_rank_at();
        assert forall|r: int| 0 <= r < self.indexed().len() implies #[trigger] self.gap_to(needle, self.at(r)) == dist(
            self.distance_calculator,
            needle,
            self.arrival@[r],
        ) by {
            let p = self.at(r);
            assert(self.indexed()[p].1 == r);
        }
        assert forall|p: int| 0 <= p < self.indexed().len() implies (#[trigger] self.rank(p)) < self.indexed().len()
            && self.gap_to(needle, p) == dist(self.distance_calculator, needle, self.arrival@[self.rank(p) as int]) by {
            assert(self.indexed()[p] == self.indexed()[p]);
        }
    }

    /// Every item with its rank: the indexed ones, then the waiting ones.
    fn ranked_input(&self) -> (r: Vec<(T, usize)>)
        requires
            self.wf(),
        ensures
            ranked(r@, self.arrival@),
            r@.len() == self.arrival@.len(),
    {
        let mut all: Vec<(T, usize)> = Vec::new();
        let mut i: usize = 0;
        while i < self.nodes.len()
            invariant
                i <= self.nodes@.len(),
                all@ =~= vantage_points(self.nodes@).subrange(0, i as int),
            decreases self.nodes@.len() - i,
        {
            all.push(self.nodes[i].vantage_point);
            i = i + 1;
        }
        let mut i: usize = 0;
        while i < self.leaves.len()
            invariant
                i <= self.leaves@.len(),
                all@ =~= vantage_points(self.nodes@) + self.leaves@.subrange(0, i as int),
            decreases self.leaves@.len() - i,
        {
            all.push(self.leaves[i]);
            i = i + 1;
        }
        let ghost k = self.indexed().len();
        assert(all@ =~= self.indexed());
        let mut i: usize = all.len();
        while i < self.arrival.len()
            invariant
                self.wf(),
                k == self.indexed().len(),
                k <= i <= self.arrival@.len(),
                all@.len() == i,
                forall|t: int| 0 <= t < k ==> #[trigger] all@[t] == self.indexed()[t],
                forall|t: int| k <= t < i ==> #[trigger] all@[t] == (self.arrival@[t], t as usize),
            decreases self.arrival@.len() - i,
        {
            all.push((self.arrival[i], i));
            i = i + 1;
        }
        proof {
            let a = all@;
            let ix = self.indexed();
            assert forall|j: int| 0 <= j < a.len() implies (#[trigger] a[j]).1 < a.len() && a[j].0 == self.arrival@[a[j].1 as int] by {
                if j < k {
                    assert(a[j] == ix[j]);
                }
            }
            assert forall|x: int, y: int| 0 <= x < y < a.len() implies #[trigger] a[x].1 != #[trigger] a[y].1 by {
                if y < k {
                    assert(a[x] == ix[x] && a[y] == ix[y]);
                } else if x < k {
                    assert(a[x] == ix[x]);
                    assert(ix[x].1 < k);
                }
            }
        }
        all
    }

    /// Builds a tree over the given items, all folded into the indexed layers.
    pub fn build(items: Vec<T>, distance_calculator: F) -> (r: Self)
        requires
            is_metric(distance_calculator),
        ensures
            r.wf(),
            r.layout_is_least(),
            r.metric() == distance_calculator,
            r.items() == items@,
            r.buffered().len() == 0,
            !r.is_dirty(),
            fits(items@.len(), r.depth()),
            r.depth() == 0 || !fits(items@.len(), (r.depth() - 1) as nat),
            items@.len() <= LEAF_WIDTH ==> r.depth() == 0,
            r.leaf_size() <= LEAF_WIDTH,
            items@.len() > 0 ==> r.decrementation_point() >= 1,
            r.decrementation_point() <= pow2(r.depth()),
            r.indexed().len() == (pow2(r.depth()) - 1) + group_start(
                r.leaf_size() as int,
                r.decrementation_point() as int,
                pow2(r.depth()) as int,
            ),
            r.rebuild_count() == 0,
            r.evaluations() <= items@.len() * r.depth(),
    {
        let mut all: Vec<(T, usize)> = Vec::new();
        let mut i: usize = 0;
        while i < items.len()
            invariant
                i <= items@.len(),
                all@.len() == i,
                forall|t: int| 0 <= t < i ==> #[trigger] all@[t] == (items@[t], t as usize),
            decreases items@.len() - i,
        {
            all.push((items[i], i));
            i = i + 1;
        }
        let ghost given = all@;
        assert(ranked(given, items@));
        let (nodes, leaves, shape, Ghost(calls)) = arrange(&distance_calculator, all);
        proof {
            vstd::seq_lib::to_multiset_len(given);
            vstd::seq_lib::to_multiset_len(vantage_points(nodes@) + leaves@);
            lemma_ranks_carry(given, vantage_points(nodes@) + leaves@, items@);
            lemma_fewer_nodes((nodes@.len() + leaves@.len()) as nat, shape);
            lemma_groups_within_width((nodes@.len() + leaves@.len()) as nat, shape);
        }
        let r = VPTree {
            distance_calculator,
            nodes,
            leaves,
            leaf_size: shape.leaf_size,
            decrementation_point: shape.decrementation_point,
            depth: shape.depth,
            arrival: items,
            dirty: false,
            rebuilds: Ghost(0),
            evaluations: Ghost(calls),
        };
        assert(r.shape() == shape);
        assert(vantage_points(r.nodes@).len() == r.nodes@.len());
        assert(r.indexed().len() == given.len());
        assert(r.buffered() =~= Seq::<T>::empty());
        r
    }

    /// Builds a tree over copies of the given items.
    pub fn new(items: &[T], distance_calculator: F) -> (r: Self)
        requires
            is_metric(distance_calculator),
        ensures
            r.wf(),
            r.metric() == distance_calculator,
            r.items() == items@,
            r.buffered().len() == 0,
            !r.is_dirty(),
            fits(items@.len(), r.depth()),
            r.depth() == 0 || !fits(items@.len(), (r.depth() - 1) as nat),
            items@.len() <= LEAF_WIDTH ==> r.depth() == 0,
            r.leaf_size() <= LEAF_WIDTH,
            items@.len() > 0 ==> r.decrementation_point() >= 1,
            r.decrementation_point() <= pow2(r.depth()),
            r.indexed().len() == (pow2(r.depth()) - 1) + group_start(
                r.leaf_size() as int,
                r.decrementation_point() as int,
                pow2(r.depth()) as int,
            ),
            r.rebuild_count() == 0,
            r.evaluations() <= items@.len() * r.depth(),
    {
        let mut copied: Vec<T> = Vec::new();
        let mut i: usize = 0;
        while i < items.len()
            invariant
                i <= items@.len(),
                copied@ =~= items@.subrange(0, i as int),
            decreases items@.len() - i,
        {
            copied.push(items[i]);
            i = i + 1;
        }
        assert(copied@ =~= items@);
        Self::build(copied, distance_calculator)
    }

    /// A tree that holds nothing yet.
    pub fn empty(distance_calculator: F) -> (r: Self)
        requires
            is_metric(distance_calculator),
        ensures
            r.wf(),
            r.metric() == distance_calculator,
            r.items().len() == 0,
            !r.is_dirty(),
            r.evaluations() == 0,
    {
        let none: Vec<T> = Vec::new();
        Self::build(none, distance_calculator)
    }

    /// Folds every item, waiting ones included, into freshly built indexed layers.
    fn rebalance(&mut self)
        requires
            old(self).wf(),
        ensures
            final(self).wf(),
            final(self).layout_is_least(),
            final(self).metric() == old(self).metric(),
            final(self).items() == old(self).items(),
            final(self).buffered().len() == 0,
            !final(self).is_dirty(),
            final(self).rebuild_count() == old(self).rebuild_count() + 1,
            final(self).evaluations() <= old(self).evaluations() + old(self).items().len() * final(self).depth(),
            final(self).evaluations() >= old(self).evaluations(),
    {
        let all = self.ranked_input();
        let ghost given = all@;
        let (nodes, leaves, shape, Ghost(calls)) = arrange(&self.distance_calculator, all);
        proof {
            vstd::seq_lib::to_multiset_len(given);
            vstd::seq_lib::to_multiset_len(vantage_points(nodes@) + leaves@);
            lemma_ranks_carry(given, vantage_points(nodes@) + leaves@, self.arrival@);
            lemma_fewer_nodes((nodes@.len() + leaves@.len()) as nat, shape);
            lemma_groups_within_width((nodes@.len() + leaves@.len()) as nat, shape);
        }
        self.nodes = nodes;
        self.leaves = leaves;
        self.leaf_size = shape.leaf_size;
        self.decrementation_point = shape.decrementation_point;
        self.depth = shape.depth;
        self.dirty = false;
        self.rebuilds = Ghost(self.rebuilds@ + 1);
        self.evaluations = Ghost(self.evaluations@ + calls);
        assert(self.shape() == shape);
        assert(vantage_points(self.nodes@).len() == self.nodes@.len());
        assert(self.indexed().len() == given.len());
        assert(self.buffered() =~= Seq::<T>::empty());
    }

    /// Folds waiting items into the indexed layers, if there are any.
    pub fn update(&mut self)
        requires
            old(self).wf(),
        ensures
            final(self).wf(),
            final(self).layout_is_least(),
            final(self).metric() == old(self).metric(),
            final(self).items() == old(self).items(),
            final(self).buffered().len() == 0,
            !final(self).is_dirty(),
            old(self).is_dirty() ==> final(self).rebuild_count() == old(self).rebuild_count() + 1,
            old(self).is_dirty() ==> final(self).evaluations() <= old(self).evaluations() + old(self).items().len()
                * final(self).depth(),
            !old(self).is_dirty() ==> *final(self) == *old(self),
            final(self).evaluations() >= old(self).evaluations(),
    {
        if self.dirty {
            self.rebalance();
        } else {
            assert(self.buffered() =~= Seq::<T>::empty());
        }
    }

    /// Adds an item; it joins the indexed layers at the next query or update.
    pub fn insert(&mut self, item: T)
        requires
            old(self).wf(),
            old(self).items().len() < usize::MAX,
        ensures
            final(self).wf(),
            final(self).metric() == old(self).metric(),
            final(self).indexed() == old(self).indexed(),
            final(self).buffered() == old(self).buffered().push(item),
            final(self).items() == old(self).items().push(item),
            final(self).is_dirty(),
            final(self).rebuild_count() == old(self).rebuild_count(),
            final(self).evaluations() == old(self).evaluations(),
    {
        self.arrival.push(item);
        self.dirty = true;
        proof {
            let a = self.indexed();
            assert forall|j: int| 0 <= j < a.len() implies (#[trigger] a[j]).1 < a.len() && a[j].0 == self.arrival@[a[j].1 as int] by {
                assert(a[j] == old(self).indexed()[j]);
            }
            assert(self.buffered() =~= old(self).buffered().push(item));
        }
    }

    /// Adds items; they join the indexed layers at the next query or update.
    /// Adding none leaves the tree as it was.
    pub fn extend(&mut self, items: Vec<T>)
        requires
            old(self).wf(),
            old(self).items().len() + items@.len() <= usize::MAX,
        ensures
            final(self).wf(),
            final(self).metric() == old(self).metric(),
            final(self).indexed() == old(self).indexed(),
            final(self).buffered() == old(self).buffered() + items@,
            final(self).items() == old(self).items() + items@,
            final(self).is_dirty() == (old(self).is_dirty() || items@.len() > 0),
            final(self).rebuild_count() == old(self).rebuild_count(),
            final(self).evaluations() == old(self).evaluations(),
            items@.len() == 0 ==> *final(self) == *old(self),
    {
        if items.len() > 0 {
            let mut i: usize = 0;
            while i < items.len()
                invariant
                    i <= items@.len(),
                    self.nodes == old(self).nodes,
                    self.leaves == old(self).leaves,
                    self.leaf_size == old(self).leaf_size,
                    self.decrementation_point == old(self).decrementation_point,
                    self.depth == old(self).depth,
                    self.distance_calculator == old(self).distance_calculator,
                    self.rebuilds == old(self).rebuilds,
                    self.evaluations == old(self).evaluations,
                    self.dirty == old(self).dirty,
                    self.arrival@ =~= old(self).arrival@ + items@.subrange(0, i as int),
                    old(self).items().len() + items@.len() <= usize::MAX,
                decreases items@.len() - i,
            {
                self.arrival.push(items[i]);
                i = i + 1;
            }
            self.dirty = true;
            proof {
                assert(items@.subrange(0, items@.len() as int) =~= items@);
                let a = self.indexed();
                assert(a == old(self).indexed());
                assert forall|j: int| 0 <= j < a.len() implies (#[trigger] a[j]).1 < a.len() && a[j].0 == self.arrival@[a[j].1 as int] by {
                    assert(a[j] == old(self).indexed()[j]);
                }
                assert(self.buffered() =~= old(self).buffered() + items@);
            }
        } else {
            assert(items@ =~= Seq::<T>::empty());
            assert(self.buffered() =~= old(self).buffered() + items@);
            assert(self.items() =~= old(self).items() + items@);
        }
    }

    /// Number of items held, waiting ones included.
    pub fn len(&self) -> (r: usize)
        requires
            self.wf(),
        ensures
            r == self.items().len(),
    {
        self.arrival.len()
    }

    /// The item closest to `needle` with its distance (of equally close items,
    /// the one given first), or `None` when the tree is empty. Rebuilds first
    /// if items were added since the last rebuild.
    pub fn find_nearest_neighbor(&mut self, needle: &T) -> (r: Option<(u64, T)>)
        requires
            old(self).wf(),
        ensures
            final(self).wf(),
            final(self).metric() == old(self).metric(),
            final(self).items() == old(self).items(),
            !final(self).is_dirty(),
            old(self).is_dirty() ==> final(self).rebuild_count() == old(self).rebuild_count() + 1,
            !old(self).is_dirty() ==> final(self).same_apart_from_count(*old(self)),
            !old(self).is_dirty() ==> final(self).rebuild_count() == old(self).rebuild_count(),
            final(self).evaluations() >= old(self).evaluations(),
            !old(self).is_dirty() ==> final(self).evaluations() <= old(self).evaluations() + old(self).items().len(),
            old(self).is_dirty() ==> final(self).evaluations() <= old(self).evaluations() + old(self).items().len() * (
            final(self).depth() + 1),
            is_nearest(final(self).metric(), final(self).items(), *needle, r),
    {
        let mut c = Candidates::new(Policy::Closest);
        self.update();
        let Ghost(calls) = self.search(needle, &mut c);
        proof {
            self.lemma_rank_at();
            self.lemma_gap_of_rank(*needle);
            let n0 = self.items().len();
            let d0 = self.depth();
            assert(n0 * (d0 + 1) == n0 * d0 + n0) by (nonlinear_arith);
        }
        let ghost items = self.items();
        let result = if c.found.len() == 0 {
            proof {
                if items.len() > 0 {
                    assert(indices(c.found@).len() == 0);
                    assert(c.excludes(self.gap_to(*needle, 0), self.rank(0)));
                }
            }
            None
        } else {
            let (d, key) = c.found[0];
            let x = self.arrival[key];
            proof {
                let j0 = key as int;
                assert(items[j0] == x);
                assert(d == dist(self.metric(), *needle, items[j0]));
                assert forall|i: int| 0 <= i < items.len() && i != j0 implies #[trigger] before(self.metric(), items, *needle, j0, i) by {
                    let p = self.at(i);
                    assert(self.rank(p) == i);
                    assert(self.gap_to(*needle, p) == dist(self.metric(), *needle, items[i]));
                    if indices(c.found@).contains(self.rank(p)) {
                        let e = choose|e: int| 0 <= e < c.found@.len() && indices(c.found@)[e] == self.rank(p);
                        assert(e == 0);
                    }
                    assert(c.excludes(self.gap_to(*needle, p), self.rank(p)));
                }
            }
            Some((d, x))
        };
        self.count_evaluations(Ghost(calls));
        result
    }

    /// Adds the distance evaluations of one search, at most one per item.
    fn count_evaluations(&mut self, calls: Ghost<nat>)
        requires
            old(self).wf(),
            !old(self).is_dirty(),
            calls@ <= old(self).items().len(),
        ensures
            final(self).wf(),
            final(self).same_apart_from_count(*old(self)),
            final(self).items() == old(self).items(),
            final(self).metric() == old(self).metric(),
            final(self).depth() == old(self).depth(),
            final(self).rebuild_count() == old(self).rebuild_count(),
            !final(self).is_dirty(),
            final(self).evaluations() == old(self).evaluations() + calls@,
    {
        self.evaluations = Ghost(self.evaluations@ + calls@);
    }

    /// Pairs each kept entry with its item.
    fn entries_to_items(&self, found: &Vec<(u64, usize)>) -> (r: Vec<(u64, T)>)
        requires
            forall|i: int| 0 <= i < found@.len() ==> (#[trigger] found@[i]).1 < self.arrival@.len(),
        ensures
            r@.len() == found@.len(),
            forall|i: int| 0 <= i < r@.len() ==> #[trigger] r@[i] == (found@[i].0, self.arrival@[found@[i].1 as int]),
    {
        let mut r: Vec<(u64, T)> = Vec::new();
        let mut i: usize = 0;
        while i < found.len()
            invariant
                forall|i: int| 0 <= i < found@.len() ==> (#[trigger] found@[i]).1 < self.arrival@.len(),
                i <= found@.len(),
                r@.len() == i,
                forall|j: int| 0 <= j < i ==> #[trigger] r@[j] == (found@[j].0, self.arrival@[found@[j].1 as int]),
            decreases found@.len() - i,
        {
            let e = found[i];
            r.push((e.0, self.arrival[e.1]));
            i = i + 1;
        }
        r
    }

    /// Proves that `r`, built from the entries of `c`, lists them.
    proof fn lemma_lists(&self, needle: T, c: Candidates, r: Seq<(u64, T)>) -> (ix: Seq<int>)
        requires
            self.arrival@.len() <= usize::MAX,
            c.wf(),
            forall|i: int| 0 <= i < c.found@.len() ==> (#[trigger] c.found@[i]).1 < self.arrival@.len()
                && c.found@[i].0 == dist(self.distance_calculator, needle, self.arrival@[c.found@[i].1 as int]),
            r.len() == c.found@.len(),
            forall|i: int| 0 <= i < r.len() ==> #[trigger] r[i] == (c.found@[i].0, self.arrival@[c.found@[i].1 as int]),
        ensures
            lists(self.distance_calculator, self.items(), needle, r, ix),
            ix == indices(c.found@).map_values(|u: usize| u as int),
            forall|j: int| 0 <= j < self.items().len() ==> (ix.contains(j) <==> indices(c.found@).contains(j as usize)),
            ascending(c.found@) ==> in_order(self.distance_calculator, self.items(), needle, ix),
            forall|i: int, j: int| 0 <= i < r.len() && 0 <= j < self.items().len()
                && #[trigger] precedes(c.found@[i], (dist(self.distance_calculator, needle, self.items()[j]), j as usize))
                ==> #[trigger] before(self.distance_calculator, self.items(), needle, ix[i], j),
    {
        let ix = indices(c.found@).map_values(|u: usize| u as int);
        assert forall|a: int, b: int| 0 <= a < b < ix.len() implies ix[a] != ix[b] by {
            assert(indices(c.found@)[a] != indices(c.found@)[b]);
        }
        assert forall|j: int| 0 <= j < self.items().len() implies (ix.contains(j) <==> indices(c.found@).contains(j as usize)) by {
            if ix.contains(j) {
                let i = choose|i: int| 0 <= i < ix.len() && ix[i] == j;
                assert(indices(c.found@)[i] == j as usize);
            }
            if indices(c.found@).contains(j as usize) {
                let i = choose|i: int| 0 <= i < indices(c.found@).len() && indices(c.found@)[i] == j as usize;
                assert(ix[i] == j);
            }
        }
        if ascending(c.found@) {
            assert forall|i: int, j: int| 0 <= i < j < ix.len() implies before(
                self.distance_calculator,
                self.items(),
                needle,
                #[trigger] ix[i],
                #[trigger] ix[j],
            ) by {
                assert(precedes(c.found@[i], c.found@[j]));
            }
        }
        ix
    }

    /// The `k` items closest to `needle` (all of them when there are fewer),
    /// ascending by distance, equally distant items in the order given.
    /// Rebuilds first if items were added since the last rebuild.
    pub fn find_k_nearest_neighbors(&mut self, needle: &T, k: usize) -> (r: Vec<(u64, T)>)
        requires
            old(self).wf(),
        ensures
            final(self).wf(),
            final(self).metric() == old(self).metric(),
            final(self).items() == old(self).items(),
            !final(self).is_dirty(),
            old(self).is_dirty() ==> final(self).rebuild_count() == old(self).rebuild_count() + 1,
            !old(self).is_dirty() ==> final(self).same_apart_from_count(*old(self)),
            !old(self).is_dirty() ==> final(self).rebuild_count() == old(self).rebuild_count(),
            final(self).evaluations() >= old(self).evaluations(),
            !old(self).is_dirty() ==> final(self).evaluations() <= old(self).evaluations() + old(self).items().len(),
            old(self).is_dirty() ==> final(self).evaluations() <= old(self).evaluations() + old(self).items().len() * (
            final(self).depth() + 1),
            is_k_nearest(final(self).metric(), final(self).items(), *needle, k as nat, r@),
    {
        let mut c = Candidates::new(Policy::ClosestK(k));
        self.update();
        let Ghost(calls) = self.search(needle, &mut c);
        proof {
            self.lemma_rank_at();
            self.lemma_gap_of_rank(*needle);
            let n0 = self.items().len();
            let d0 = self.depth();
            assert(n0 * (d0 + 1) == n0 * d0 + n0) by (nonlinear_arith);
        }
        let ghost items = self.items();
        let ghost searched = c;
        if c.found.len() < k {
            sort_entries(&mut c.found);
            proof {
                lemma_sorted_keeps(searched.found@, c.found@);
                lemma_sorted_ascending(c.found@);
                assert forall|i: int| 0 <= i < c.found@.len() implies (#[trigger] c.found@[i]).1 < self.indexed().len()
                    && c.found@[i].0 == self.gap_to(*needle, self.at(c.found@[i].1 as int)) by {
                    assert(c.found@.contains(c.found@[i]));
                    let j = choose|j: int| 0 <= j < searched.found@.len() && searched.found@[j] == c.found@[i];
                }
                assert forall|r: int| 0 <= r < items.len() implies indices(c.found@).contains(#[trigger] (r as usize)) by {
                    let p = self.at(r);
                    assert(self.rank(p) == r);
                    assert(!searched.excludes(self.gap_to(*needle, p), self.rank(p)));
                    let i = choose|i: int| 0 <= i < searched.found@.len() && indices(searched.found@)[i] == self.rank(p);
                    assert(searched.found@.contains(searched.found@[i]));
                    let j = choose|j: int| 0 <= j < c.found@.len() && c.found@[j] == searched.found@[i];
                    assert(indices(c.found@)[j] == r as usize);
                }
            }
        }
        let r = self.entries_to_items(&c.found);
        proof {
            let n = items.len() as int;
            assert forall|i: int| 0 <= i < c.found@.len() implies (#[trigger] c.found@[i]).1 < self.arrival@.len()
                && c.found@[i].0 == dist(self.distance_calculator, *needle, self.arrival@[c.found@[i].1 as int]) by {
                assert(self.gap_to(*needle, self.at(c.found@[i].1 as int)) == dist(self.distance_calculator, *needle, self.arrival@[c.found@[i].1 as int]));
            }
            let ix = self.lemma_lists(*needle, c, r@);
            lemma_distinct_positions(ix, n);
            if c.found@.len() < k {
                assert forall|j: int| 0 <= j < n implies #[trigger] ix.contains(j) by {
                    assert(indices(c.found@).contains(j as usize));
                }
            }
            assert(ascending(c.found@));
            assert forall|j: int, i: int| #![trigger ix[i], before(self.metric(), items, *needle, ix[i], j)]
                0 <= j < n && !ix.contains(j) && 0 <= i < r@.len()
                implies before(self.metric(), items, *needle, ix[i], j) by {
                let p = self.at(j);
                assert(self.rank(p) == j);
                assert(self.gap_to(*needle, p) == dist(self.metric(), *needle, items[j]));
                assert(c.excludes(self.gap_to(*needle, p), self.rank(p)));
                assert(precedes(c.found@[i], (dist(self.metric(), *needle, items[j]), j as usize)));
            }
            assert forall|i: int, j: int| 0 <= i <= j < r@.len() implies #[trigger] r@[i].0 <= #[trigger] r@[j].0 by {
                if i < j {
                    assert(precedes(c.found@[i], c.found@[j]));
                }
            }
            assert(lists(self.metric(), items, *needle, r@, ix));
        }
        self.count_evaluations(Ghost(calls));
        r
    }

    /// Every item within `threshold` of `needle`, ascending by distance,
    /// equally distant items in the order given. Rebuilds first if items were
    /// added since the last rebuild.
    pub fn find_neighbors_within_radius(&mut self, needle: &T, threshold: u64) -> (r: Vec<(u64, T)>)
        requires
            old(self).wf(),
        ensures
            final(self).wf(),
            final(self).metric() == old(self).metric(),
            final(self).items() == old(self).items(),
            !final(self).is_dirty(),
            old(self).is_dirty() ==> final(self).rebuild_count() == old(self).rebuild_count() + 1,
            !old(self).is_dirty() ==> final(self).same_apart_from_count(*old(self)),
            !old(self).is_dirty() ==> final(self).rebuild_count() == old(self).rebuild_count(),
            final(self).evaluations() >= old(self).evaluations(),
            !old(self).is_dirty() ==> final(self).evaluations() <= old(self).evaluations() + old(self).items().len(),
            old(self).is_dirty() ==> final(self).evaluations() <= old(self).evaluations() + old(self).items().len() * (
            final(self).depth() + 1),
            is_within(final(self).metric(), final(self).items(), *needle, threshold, r@),
    {
        let mut c = Candidates::new(Policy::Within(threshold));
        self.update();
        let Ghost(calls) = self.search(needle, &mut c);
        proof {
            self.lemma_rank_at();
            self.lemma_gap_of_rank(*needle);
            let n0 = self.items().len();
            let d0 = self.depth();
            assert(n0 * (d0 + 1) == n0 * d0 + n0) by (nonlinear_arith);
        }
        let ghost items = self.items();
        let ghost searched = c;
        sort_entries(&mut c.found);
        proof {
            lemma_sorted_keeps(searched.found@, c.found@);
            lemma_sorted_ascending(c.found@);
            assert forall|i: int| 0 <= i < c.found@.len() implies (#[trigger] c.found@[i]).1 < self.arrival@.len()
                && c.found@[i].0 == dist(self.distance_calculator, *needle, self.arrival@[c.found@[i].1 as int])
                && c.found@[i].0 <= threshold by {
                assert(c.found@.contains(c.found@[i]));
                let j = choose|j: int| 0 <= j < searched.found@.len() && searched.found@[j] == c.found@[i];
                assert(self.gap_to(*needle, self.at(c.found@[i].1 as int)) == dist(self.distance_calculator, *needle, self.arrival@[c.found@[i].1 as int]));
            }
            assert forall|r: int| 0 <= r < items.len() && dist(self.metric(), *needle, items[r]) <= threshold
                implies indices(c.found@).contains(#[trigger] (r as usize)) by {
                let p = self.at(r);
                assert(self.rank(p) == r);
                assert(self.gap_to(*needle, p) == dist(self.metric(), *needle, items[r]));
                let i = choose|i: int| 0 <= i < searched.found@.len() && indices(searched.found@)[i] == self.rank(p);
                assert(searched.found@.contains(searched.found@[i]));
                let j = choose|j: int| 0 <= j < c.found@.len() && c.found@[j] == searched.found@[i];
                assert(indices(c.found@)[j] == r as usize);
            }
        }
        let r = self.entries_to_items(&c.found);
        proof {
            let ix = self.lemma_lists(*needle, c, r@);
            assert forall|j: int| 0 <= j < items.len() implies (ix.contains(j) <==> #[trigger] dist(self.metric(), *needle, items[j]) <= threshold) by {
                if ix.contains(j) {
                    let i = choose|i: int| 0 <= i < indices(c.found@).len() && indices(c.found@)[i] == j as usize;
                    assert(c.found@[i].0 <= threshold);
                }
            }
            assert forall|i: int, j: int| 0 <= i <= j < r@.len() implies #[trigger] r@[i].0 <= #[trigger] r@[j].0 by {
                if i < j {
                    assert(precedes(c.found@[i], c.found@[j]));
                }
            }
            assert(lists(self.metric(), items, *needle, r@, ix));
        }
        self.count_evaluations(Ghost(calls));
        r
    }
}

} // verus!
