use vstd::arithmetic::div_mod::{lemma_fundamental_div_mod, lemma_mod_pos_bound};
use vstd::prelude::*;

verus! {

/// The leaf-group width that the builder aims for: more means shallower trees
/// and longer linear scans at the leaves.
pub const LEAF_WIDTH: usize = 8;

pub open spec fn pow2(d: nat) -> nat
    decreases d,
{
    if d == 0 { 1 } else { 2 * pow2((d - 1) as nat) }
}

/// `n` items fit into `2^d - 1` internal nodes plus `2^d` leaf groups of the target width.
pub open spec fn fits(n: nat, d: nat) -> bool {
    n + 1 <= pow2(d) * (LEAF_WIDTH + 1)
}

/// First leaf-array position of group `g`: the groups before `dp` hold `ls`
/// items each, the others `ls - 1`.
pub open spec fn group_start(ls: int, dp: int, g: int) -> int {
    if g <= dp { g * ls } else { dp * ls + (g - dp) * (ls - 1) }
}

pub open spec fn group_end(ls: int, dp: int, g: int) -> int {
    group_start(ls, dp, g + 1)
}

/// The group that holds leaf-array position `li`.
pub open spec fn group_of(ls: int, dp: int, li: int) -> int {
    if li < dp * ls { li / ls } else { dp + (li - dp * ls) / (ls - 1) }
}

/// The shape of a tree over some number of items.
pub struct Shape {
    pub depth: usize,
    pub groups: usize,
    pub leaf_size: usize,
    pub decrementation_point: usize,
}

impl Shape {
    /// The shape holds `n` items: `groups - 1` internal nodes and the leaf groups.
    pub open spec fn holds(&self, n: nat) -> bool {
        &&& self.groups as nat == pow2(self.depth as nat)
        &&& self.leaf_size >= 1
        &&& self.decrementation_point <= self.groups
        &&& n == (self.groups - 1) + group_start(
            self.leaf_size as int,
            self.decrementation_point as int,
            self.groups as int,
        )
    }
}

/// Picks the smallest depth at which `n` items fit, and spreads the items
/// below the internal nodes over `2^depth` groups whose sizes differ by at most one.
pub fn shape_for(n: usize) -> (s: Shape)
    ensures
        s.holds(n as nat),
        n > 0 ==> s.decrementation_point >= 1,
        fits(n as nat, s.depth as nat),
        s.depth == 0 || !fits(n as nat, (s.depth - 1) as nat),
{
    let width: u128 = (LEAF_WIDTH + 1) as u128;
    let total: u128 = n as u128 + 1;
    let mut groups: u128 = 1;
    let mut depth: usize = 0;
    loop
        invariant
            groups <= total,
            width == LEAF_WIDTH + 1,
            total == n + 1,
            groups == pow2(depth as nat),
            depth == 0 || !fits(n as nat, (depth - 1) as nat),
            depth == 0 || groups <= n,
            depth < groups,
            groups >= 1,
        ensures
            total <= groups * width,
            groups == pow2(depth as nat),
            depth == 0 || !fits(n as nat, (depth - 1) as nat),
            depth == 0 || groups <= n,
            groups >= 1,
        decreases total - groups,
    {
        assert(groups * width <= 0xffff_ffff_ffff_ffff_ffff) by (nonlinear_arith)
            requires
                groups <= total,
                total <= 0x1_0000_0000_0000_0000,
                width == LEAF_WIDTH + 1,
        ;
        let cap: u128 = groups * width;
        if total <= cap {
            break;
        }
        assert(2 * groups <= n && 2 * groups <= total) by (nonlinear_arith)
            requires
                groups * width < total,
                width == LEAF_WIDTH + 1,
                total == n + 1,
                groups >= 1,
        ;
        groups = 2 * groups;
        depth = depth + 1;
        assert(pow2(depth as nat) == 2 * pow2((depth - 1) as nat));
    }
    assert(depth == 0 ==> groups == 1);
    assert(groups <= usize::MAX);
    let g: usize = groups as usize;
    let nodes: usize = g - 1;
    assert(nodes <= n) by (nonlinear_arith)
        requires
            total <= groups * width,
            depth == 0 || groups <= n,
            depth == 0 ==> groups == 1,
            total == n + 1,
            nodes == groups - 1,
            width == LEAF_WIDTH + 1,
    ;
    let rest: usize = n - nodes;
    let q: usize = rest / g;
    let r: usize = rest % g;
    assert(rest == q * g + r) by (nonlinear_arith)
        requires
            q == rest / g,
            r == rest % g,
            g >= 1,
    ;
    assert(q < rest || q == 0 || g == 1) by (nonlinear_arith)
        requires
            q == rest / g,
            g >= 1,
    ;
    assert(q + 1 <= usize::MAX) by {
        if g == 1 {
            assert(depth == 0);
            assert(n + 1 <= LEAF_WIDTH + 1);
        }
    }
    assert(n > 0 ==> rest > 0);
    assert(q == 0 && r == 0 ==> rest == 0) by (nonlinear_arith)
        requires
            rest == q * g + r,
    ;
    let s = if r == 0 && q > 0 {
        // every group holds q items
        Shape { depth, groups: g, leaf_size: q, decrementation_point: g }
    } else {
        Shape { depth, groups: g, leaf_size: q + 1, decrementation_point: r }
    };
    assert(group_start(s.leaf_size as int, s.decrementation_point as int, g as int) == rest) by (nonlinear_arith)
        requires
            r == 0 && q > 0 ==> s.leaf_size == q && s.decrementation_point == g,
            !(r == 0 && q > 0) ==> s.leaf_size == q + 1 && s.decrementation_point == r,
            group_start(s.leaf_size as int, s.decrementation_point as int, g as int) == if g <= s.decrementation_point {
                g * s.leaf_size
            } else {
                s.decrementation_point * s.leaf_size + (g - s.decrementation_point) * (s.leaf_size - 1)
            },
            rest == q * g + r,
            r < g,
    ;
    s
}


pub proof fn lemma_group_start_mono(ls: int, dp: int, g1: int, g2: int)
    requires
        ls >= 1,
        dp >= 0,
        0 <= g1 <= g2,
    ensures
        group_start(ls, dp, g1) <= group_start(ls, dp, g2),
{
    assert(group_start(ls, dp, g1) <= group_start(ls, dp, g2)) by (nonlinear_arith)
        requires
            ls >= 1,
            dp >= 0,
            0 <= g1 <= g2,
            group_start(ls, dp, g1) == (if g1 <= dp { g1 * ls } else { dp * ls + (g1 - dp) * (ls - 1) }),
            group_start(ls, dp, g2) == (if g2 <= dp { g2 * ls } else { dp * ls + (g2 - dp) * (ls - 1) }),
    ;
}

/// Each leaf-array position lies in exactly the group that `group_of` names.
pub proof fn lemma_group_of(ls: int, dp: int, groups: int, li: int)
    requires
        ls >= 1,
        0 <= dp <= groups,
        0 <= li < group_start(ls, dp, groups),
    ensures
        0 <= group_of(ls, dp, li) < groups,
        group_start(ls, dp, group_of(ls, dp, li)) <= li < group_end(ls, dp, group_of(ls, dp, li)),
{
    let g = group_of(ls, dp, li);
    if li < dp * ls {
        lemma_fundamental_div_mod(li, ls);
        lemma_mod_pos_bound(li, ls);
        assert(g == li / ls);
        assert(0 <= g < dp && g * ls <= li < (g + 1) * ls) by (nonlinear_arith)
            requires
                li == ls * (li / ls) + li % ls,
                0 <= li % ls < ls,
                g == li / ls,
                0 <= li < dp * ls,
                ls >= 1,
        ;
        assert(group_start(ls, dp, g) == g * ls);
        assert(group_start(ls, dp, g + 1) == (g + 1) * ls);
    } else {
        assert(dp * ls + (groups - dp) * (ls - 1) > li);
        assert(ls >= 2) by (nonlinear_arith)
            requires
                dp * ls + (groups - dp) * (ls - 1) > li,
                li >= dp * ls,
                ls >= 1,
                dp <= groups,
        ;
        let x = li - dp * ls;
        let k = x / (ls - 1);
        lemma_fundamental_div_mod(x, ls - 1);
        lemma_mod_pos_bound(x, ls - 1);
        assert(0 <= k < groups - dp && k * (ls - 1) <= x < (k + 1) * (ls - 1)) by (nonlinear_arith)
            requires
                x == (ls - 1) * k + x % (ls - 1),
                0 <= x % (ls - 1) < ls - 1,
                0 <= x < (groups - dp) * (ls - 1),
                ls >= 2,
        ;
        assert(g == dp + k);
    }
}

/// Two groups that share a position are the same group.
pub proof fn lemma_groups_disjoint(ls: int, dp: int, g1: int, g2: int, li: int)
    requires
        ls >= 1,
        dp >= 0,
        0 <= g1,
        0 <= g2,
        group_start(ls, dp, g1) <= li < group_end(ls, dp, g1),
        group_start(ls, dp, g2) <= li < group_end(ls, dp, g2),
    ensures
        g1 == g2,
{
    if g1 < g2 {
        lemma_group_start_mono(ls, dp, g1 + 1, g2);
    } else if g2 < g1 {
        lemma_group_start_mono(ls, dp, g2 + 1, g1);
    }
}

/// Start and end positions of leaf group `g` in the leaf array.
pub fn group_bounds(leaf_size: usize, dp: usize, groups: usize, g: usize) -> (r: (usize, usize))
    requires
        leaf_size >= 1,
        dp <= groups,
        g < groups,
        group_start(leaf_size as int, dp as int, groups as int) <= usize::MAX,
    ensures
        r.0 == group_start(leaf_size as int, dp as int, g as int),
        r.1 == group_end(leaf_size as int, dp as int, g as int),
        r.0 <= r.1 <= group_start(leaf_size as int, dp as int, groups as int),
{
    proof {
        lemma_group_start_mono(leaf_size as int, dp as int, g as int, g + 1);
        lemma_group_start_mono(leaf_size as int, dp as int, g + 1, groups as int);
    }
    let ghost ls = leaf_size as int;
    if g < dp {
        assert((g + 1) * ls == g * ls + ls) by (nonlinear_arith);
        let start = g * leaf_size;
        (start, start + leaf_size)
    } else {
        let before = dp * leaf_size;
        let ghost k = g as int - dp as int;
        assert(k * (ls - 1) >= 0) by (nonlinear_arith)
            requires
                k >= 0,
                ls >= 1,
        ;
        assert(group_start(ls, dp as int, g as int) == dp * ls + k * (ls - 1)) by {
            if k == 0 {
                assert(k * (ls - 1) == 0) by (nonlinear_arith)
                    requires
                        k == 0,
                ;
            }
        }
        let start = before + (g - dp) * (leaf_size - 1);
        assert((g + 1 - dp) * (ls - 1) == (g - dp) * (ls - 1) + (ls - 1)) by (nonlinear_arith);
        (start, start + (leaf_size - 1))
    }
}

/// Number of leaf-array positions before group `g`.
pub fn leaves_before(leaf_size: usize, dp: usize, groups: usize, g: usize) -> (r: usize)
    requires
        leaf_size >= 1,
        dp <= groups,
        g <= groups,
        group_start(leaf_size as int, dp as int, groups as int) <= usize::MAX,
    ensures
        r == group_start(leaf_size as int, dp as int, g as int),
{
    proof {
        lemma_group_start_mono(leaf_size as int, dp as int, g as int, groups as int);
    }
    let ghost ls = leaf_size as int;
    if g <= dp {
        g * leaf_size
    } else {
        let before = dp * leaf_size;
        let ghost k = g as int - dp as int;
        assert(k * (ls - 1) >= 0) by (nonlinear_arith)
            requires
                k >= 0,
                ls >= 1,
        ;
        before + (g - dp) * (leaf_size - 1)
    }
}

/// At the smallest depth that fits, the leaf groups hold more items than the internal nodes.
pub proof fn lemma_fewer_nodes(n: nat, s: Shape)
    requires
        s.holds(n),
        s.depth == 0 || !fits(n, (s.depth - 1) as nat),
    ensures
        2 * (s.groups - 1) <= n,
{
    if s.depth > 0 {
        assert(pow2(s.depth as nat) == 2 * pow2((s.depth - 1) as nat));
    }
}

impl Shape {
    /// Items in the widest leaf group.
    pub open spec fn widest_group(&self) -> int {
        if self.decrementation_point > 0 { self.leaf_size as int } else { self.leaf_size - 1 }
    }
}

/// When `n` items fit at the shape's depth, no leaf group is wider than the target.
pub proof fn lemma_groups_within_width(n: nat, s: Shape)
    requires
        s.holds(n),
        fits(n, s.depth as nat),
        n > 0 ==> s.decrementation_point >= 1,
        s.depth == 0 || !fits(n, (s.depth - 1) as nat),
    ensures
        s.widest_group() <= LEAF_WIDTH,
        s.leaf_size <= LEAF_WIDTH,
        n <= LEAF_WIDTH ==> s.depth == 0,
{
    if n <= LEAF_WIDTH && s.depth > 0 {
        lemma_pow2_positive((s.depth - 1) as nat);
        assert(pow2((s.depth - 1) as nat) * (LEAF_WIDTH + 1) >= LEAF_WIDTH + 1) by (nonlinear_arith)
            requires
                pow2((s.depth - 1) as nat) >= 1,
        ;
    }
    if s.decrementation_point == 0 {
        let g = s.groups as int;
        let ls = s.leaf_size as int;
        assert(group_start(ls, 0, g) == g * (ls - 1)) by (nonlinear_arith)
            requires
                group_start(ls, 0, g) == if g <= 0 { g * ls } else { 0 * ls + (g - 0) * (ls - 1) },
                g >= 1,
        ;
        assert(ls <= 1) by (nonlinear_arith)
            requires
                n == (g - 1) + g * (ls - 1),
                n == 0,
                g >= 1,
        ;
    }
    let g = s.groups as int;
    let ls = s.leaf_size as int;
    let dp = s.decrementation_point as int;
    assert(group_start(ls, dp, g) == g * (ls - 1) + dp) by (nonlinear_arith)
        requires
            dp <= g,
            group_start(ls, dp, g) == if g <= dp { g * ls } else { dp * ls + (g - dp) * (ls - 1) },
    ;
    assert(g * (ls - 1) + dp <= g * (LEAF_WIDTH as int)) by (nonlinear_arith)
        requires
            n == (g - 1) + g * (ls - 1) + dp,
            n + 1 <= g * (LEAF_WIDTH + 1),
    ;
    if dp > 0 {
        assert(ls - 1 < LEAF_WIDTH) by (nonlinear_arith)
            requires
                g * (ls - 1) + dp <= g * (LEAF_WIDTH as int),
                dp > 0,
                g >= 1,
        ;
    } else {
        assert(ls - 1 <= LEAF_WIDTH) by (nonlinear_arith)
            requires
                g * (ls - 1) <= g * (LEAF_WIDTH as int),
                g >= 1,
        ;
    }
}

pub proof fn lemma_pow2_positive(d: nat)
    ensures
        pow2(d) >= 1,
    decreases d,
{
    if d > 0 {
        lemma_pow2_positive((d - 1) as nat);
    }
}

} // verus!
