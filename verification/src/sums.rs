//! Sums of integers over ranges, and over the sets of a partition.

use vstd::prelude::*;

verus! {

/// `f(0) + f(1) + ...` up to `f(n - 1)`.
pub open spec fn sum(n: int, f: spec_fn(int) -> int) -> int
    decreases n,
{
    if n <= 0 {
        0
    } else {
        sum(n - 1, f) + f(n - 1)
    }
}

/// `value`, if `condition` holds.
pub open spec fn only(condition: bool, value: int) -> int {
    if condition {
        value
    } else {
        0
    }
}

/// Equal terms have equal sums.
pub(crate) proof fn lemma_same(n: int, f: spec_fn(int) -> int, g: spec_fn(int) -> int)
    requires
        forall|i: int| 0 <= i < n ==> #[trigger] f(i) == g(i),
    ensures
        sum(n, f) == sum(n, g),
    decreases n,
{
    if 0 < n {
        lemma_same(n - 1, f, g);
        assert(f(n - 1) == g(n - 1));
    }
}

/// Sums are added term by term.
pub(crate) proof fn lemma_plus(n: int, f: spec_fn(int) -> int, g: spec_fn(int) -> int)
    ensures
        sum(n, |i: int| f(i) + g(i)) == sum(n, f) + sum(n, g),
    decreases n,
{
    if 0 < n {
        lemma_plus(n - 1, f, g);
    }
}

/// A factor can be taken out.
pub(crate) proof fn lemma_times(n: int, c: int, f: spec_fn(int) -> int)
    ensures
        sum(n, |i: int| c * f(i)) == c * sum(n, f),
    decreases n,
{
    if 0 < n {
        lemma_times(n - 1, c, f);
        assert(c * (sum(n - 1, f) + f(n - 1)) == c * sum(n - 1, f) + c * f(n - 1))
            by (nonlinear_arith);
    } else {
        assert(c * 0 == 0) by (nonlinear_arith);
    }
}

/// A sum of nothing is zero.
pub(crate) proof fn lemma_zero(n: int, f: spec_fn(int) -> int)
    requires
        forall|i: int| 0 <= i < n ==> #[trigger] f(i) == 0,
    ensures
        sum(n, f) == 0,
    decreases n,
{
    if 0 < n {
        lemma_zero(n - 1, f);
        assert(f(n - 1) == 0);
    }
}

/// A sum with one term.
pub(crate) proof fn lemma_one(n: int, k: int, f: spec_fn(int) -> int)
    requires
        0 <= k < n,
        forall|i: int| 0 <= i < n && i != k ==> #[trigger] f(i) == 0,
    ensures
        sum(n, f) == f(k),
    decreases n,
{
    if k == n - 1 {
        lemma_zero(n - 1, f);
    } else {
        lemma_one(n - 1, k, f);
        assert(f(n - 1) == 0);
    }
}

/// The order of summation is irrelevant.
pub(crate) proof fn lemma_swap(n: int, m: int, f: spec_fn(int, int) -> int)
    ensures
        sum(n, |a: int| sum(m, |b: int| f(a, b))) == sum(m, |b: int| sum(n, |a: int| f(a, b))),
    decreases n,
{
    if n <= 0 {
        lemma_zero(m, |b: int| sum(n, |a: int| f(a, b)));
    } else {
        lemma_swap(n - 1, m, f);
        let fewer = |b: int| sum(n - 1, |a: int| f(a, b));
        let last = |b: int| f(n - 1, b);
        lemma_plus(m, fewer, last);
        lemma_same(m, |b: int| sum(n, |a: int| f(a, b)), |b: int| fewer(b) + last(b));
        lemma_same(m, |b: int| f(n - 1, b), last);
    }
}

/// The sum over the members of a set.
pub open spec fn sum_in(n: int, part: Set<usize>, f: spec_fn(int) -> int) -> int {
    sum(n, |a: int| only(part.contains(a as usize), f(a)))
}

/// Summing over the sets of a partition is summing over all.
pub(crate) proof fn lemma_parts(n: int, parts: Seq<Set<usize>>, f: spec_fn(int) -> int)
    requires
        0 <= n <= usize::MAX,
        crate::refine::partitions(parts, crate::refine::numbers(n as nat)),
    ensures
        sum(parts.len() as int, |x: int| sum_in(n, parts[x], f)) == sum(n, f),
{
    let p = parts.len() as int;
    let h = |x: int, a: int| only(parts[x].contains(a as usize), f(a));
    let by_part = |x: int| sum_in(n, parts[x], f);
    let rows = |x: int| sum(n, |a: int| h(x, a));
    assert forall|x: int| 0 <= x < p implies #[trigger] by_part(x) == rows(x) by {
        lemma_same(
            n,
            |a: int| only(parts[x].contains(a as usize), f(a)),
            |a: int| h(x, a),
        );
    }
    lemma_same(p, by_part, rows);
    lemma_swap(p, n, h);
    let columns = |a: int| sum(p, |x: int| h(x, a));
    assert forall|a: int| 0 <= a < n implies #[trigger] columns(a) == f(a) by {
        let node = a as usize;
        let all = crate::refine::numbers(n as nat);
        assert(all.contains(node));
        let k = choose|k: int| 0 <= k < parts.len() && (#[trigger] parts[k]).contains(node);
        let column = |x: int| h(x, a);
        assert forall|x: int| 0 <= x < p && x != k implies #[trigger] column(x) == 0 by {
            assert(parts[x].disjoint(parts[k]));
        }
        lemma_one(p, k, column);
    }
    lemma_same(n, columns, f);
    lemma_same(p, |x: int| sum_in(n, parts[x], f), by_part);
}

/// The product of two sums over sets is the sum of the products.
pub(crate) proof fn lemma_product(
    n: int,
    first: Set<usize>,
    second: Set<usize>,
    f: spec_fn(int) -> int,
    g: spec_fn(int) -> int,
)
    ensures
        sum_in(n, first, f) * sum_in(n, second, g) == sum_in(
            n,
            first,
            |a: int| sum_in(n, second, |b: int| f(a) * g(b)),
        ),
{
    let total = sum_in(n, second, g);
    let inner = |a: int| only(first.contains(a as usize), f(a));
    lemma_times(n, total, inner);
    let whole = |a: int| sum_in(n, second, |b: int| f(a) * g(b));
    let left = |a: int| total * inner(a);
    let right = |a: int| only(first.contains(a as usize), whole(a));
    assert forall|a: int| 0 <= a < n implies #[trigger] left(a) == right(a) by {
        if first.contains(a as usize) {
            let c = f(a);
            let terms = |b: int| only(second.contains(b as usize), g(b));
            lemma_times(n, c, terms);
            let scaled = |b: int| c * terms(b);
            let products = |b: int| only(second.contains(b as usize), f(a) * g(b));
            assert forall|b: int| 0 <= b < n implies #[trigger] scaled(b) == products(b) by {
                assert(c * 0 == 0) by (nonlinear_arith);
            }
            lemma_same(n, scaled, products);
            lemma_same(n, |b: int| c * terms(b), scaled);
            lemma_same(
                n,
                |b: int| only(second.contains(b as usize), (|b: int| f(a) * g(b))(b)),
                products,
            );
            assert(total * c == c * total) by (nonlinear_arith);
        } else {
            assert(total * 0 == 0) by (nonlinear_arith);
        }
    }
    lemma_same(n, left, right);
    lemma_same(n, |a: int| total * inner(a), left);
    lemma_same(n, |a: int| only(first.contains(a as usize), whole(a)), right);
    assert(sum_in(n, first, f) * total == total * sum_in(n, first, f)) by (nonlinear_arith);
}

} // verus!
