//! Positions in the implicit binary tree: the root is 0, the children of `p`
//! are `2p + 1` (near side) and `2p + 2` (far side).
use vstd::prelude::*;

verus! {

pub open spec fn parent(t: int) -> int {
    (t - 1) / 2
}

/// Position `t` lies in the subtree rooted at position `c`.
pub open spec fn in_subtree(t: int, c: int) -> bool
    decreases t,
{
    if t <= c {
        t == c
    } else if t <= 0 {
        false
    } else {
        in_subtree(parent(t), c)
    }
}

pub proof fn lemma_subtree_of_child(c: int)
    requires
        c >= 0,
    ensures
        in_subtree(2 * c + 1, c),
        in_subtree(2 * c + 2, c),
        !in_subtree(2 * c + 1, 2 * c + 2),
        !in_subtree(2 * c + 2, 2 * c + 1),
        !in_subtree(c, 2 * c + 1),
        !in_subtree(c, 2 * c + 2),
{
    assert(parent(2 * c + 1) == c);
    assert(parent(2 * c + 2) == c);
    assert(in_subtree(c, c));
    assert(!in_subtree(c, 2 * c + 1));
}

pub proof fn lemma_subtree_ge(t: int, c: int)
    requires
        in_subtree(t, c),
    ensures
        t >= c,
    decreases t,
{
}

pub proof fn lemma_subtree_trans(t: int, a: int, b: int)
    requires
        in_subtree(t, a),
        in_subtree(a, b),
    ensures
        in_subtree(t, b),
    decreases t,
{
    if t > a {
        lemma_subtree_trans(parent(t), a, b);
        lemma_subtree_ge(a, b);
    }
}

/// A position below `c` other than `c` lies below one of its two children.
pub proof fn lemma_subtree_split(t: int, c: int)
    requires
        c >= 0,
        in_subtree(t, c),
        t != c,
    ensures
        in_subtree(t, 2 * c + 1) || in_subtree(t, 2 * c + 2),
    decreases t,
{
    lemma_subtree_of_child(c);
    if parent(t) != c {
        lemma_subtree_split(parent(t), c);
        if in_subtree(parent(t), 2 * c + 1) {
            lemma_subtree_ge(parent(t), 2 * c + 1);
        } else {
            lemma_subtree_ge(parent(t), 2 * c + 2);
        }
    }
}

/// Nothing below `c` comes before `c`'s first child but `c` itself.
pub proof fn lemma_subtree_of_leaf(t: int, c: int)
    requires
        c >= 0,
        in_subtree(t, c),
        t < 2 * c + 1,
    ensures
        t == c,
{
    if t != c {
        lemma_subtree_split(t, c);
        if in_subtree(t, 2 * c + 1) {
            lemma_subtree_ge(t, 2 * c + 1);
        } else {
            lemma_subtree_ge(t, 2 * c + 2);
        }
    }
}

/// A child of `p` is unrelated to every position that is unrelated to `p`.
pub proof fn lemma_child_unrelated(p: int, c: int, e: int)
    requires
        p >= 0,
        e >= 0,
        c == 2 * p + 1 || c == 2 * p + 2,
        !in_subtree(p, e),
        !in_subtree(e, p),
    ensures
        !in_subtree(c, e),
        !in_subtree(e, c),
{
    lemma_subtree_of_child(p);
    assert(parent(c) == p);
    if in_subtree(e, c) {
        lemma_subtree_trans(e, c, p);
    }
    if in_subtree(c, e) {
        if c == e {
            assert(in_subtree(e, p));
        } else {
            lemma_subtree_ge(c, e);
        }
    }
}

} // verus!
