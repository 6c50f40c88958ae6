use vstd::prelude::*;

verus! {

/// The spec function `m` gives every result of the caller's function `f`, which
/// may be called on any two items, and `m` is a metric: symmetric and obeying
/// the triangle inequality.
#[verifier::opaque]
pub open spec fn metric_by<T, F: Fn(&T, &T) -> u64>(f: F, m: spec_fn(T, T) -> u64) -> bool {
    &&& forall|a: &T, b: &T| #[trigger] f.requires((a, b))
    &&& forall|a: &T, b: &T, r: u64| #[trigger] f.ensures((a, b), r) ==> r == m(*a, *b)
    &&& forall|a: T, b: T| #[trigger] m(a, b) == m(b, a)
    &&& forall|a: T, b: T, c: T|
        #![trigger m(a, b), m(b, c), m(a, c)]
        m(a, c) <= m(a, b) + m(b, c)
}

/// Some metric gives every result of `f`. A caller shows this by naming it.
pub open spec fn is_metric<T, F: Fn(&T, &T) -> u64>(f: F) -> bool {
    exists|m: spec_fn(T, T) -> u64| #[trigger] metric_by(f, m)
}

/// The distance that the caller's function `f` reports from `a` to `b`.
pub open spec fn dist<T, F: Fn(&T, &T) -> u64>(f: F, a: T, b: T) -> u64 {
    (choose|m: spec_fn(T, T) -> u64| #[trigger] metric_by(f, m))(a, b)
}

pub proof fn lemma_triangle<T, F: Fn(&T, &T) -> u64>(f: F, a: T, b: T, c: T)
    requires
        is_metric(f),
    ensures
        dist(f, a, c) <= dist(f, a, b) + dist(f, b, c),
        dist(f, a, b) == dist(f, b, a),
{
    let m = choose|m: spec_fn(T, T) -> u64| #[trigger] metric_by(f, m);
    reveal(metric_by);
    assert(m(a, c) <= m(a, b) + m(b, c));
    assert(m(a, b) == m(b, a));
}

/// Seen from `needle`, an item `x` lies at least as far as the difference
/// between the distances of `x` and of `needle` from a third item `v`.
pub proof fn lemma_outside_boundary<T, F: Fn(&T, &T) -> u64>(f: F, needle: T, v: T, x: T)
    requires
        is_metric(f),
    ensures
        dist(f, needle, x) >= dist(f, v, x) - dist(f, needle, v),
        dist(f, needle, x) >= dist(f, needle, v) - dist(f, v, x),
{
    lemma_triangle(f, v, needle, x);
    lemma_triangle(f, needle, x, v);
    lemma_triangle(f, needle, v, x);
    lemma_triangle(f, v, x, needle);
}

/// Calls the caller's distance function.
pub fn measure<T, F: Fn(&T, &T) -> u64>(f: &F, a: &T, b: &T) -> (r: u64)
    requires
        is_metric(*f),
    ensures
        r == dist(*f, *a, *b),
{
    proof {
        let m = choose|m: spec_fn(T, T) -> u64| #[trigger] metric_by(*f, m);
        reveal(metric_by);
        assert(f.requires((a, b)));
    }
    let r = f(a, b);
    proof {
        reveal(metric_by);
    }
    r
}

} // verus!
