//! Finite sums, and the few facts about them that the evaluation of terminal
//! nodes rests on.

use vstd::prelude::*;

verus! {

/// The sum of `f(0)`, ..., `f(n - 1)`.
pub open spec fn sum_all(f: spec_fn(int) -> int, n: int) -> int
    decreases n,
{
    if n <= 0 {
        0
    } else {
        sum_all(f, n - 1) + f(n - 1)
    }
}

/// The sum of `f` over the first `p` entries of a list of positions.
pub open spec fn sum_over(order: Seq<usize>, f: spec_fn(int) -> int, p: int) -> int
    decreases p,
{
    if p <= 0 {
        0
    } else {
        sum_over(order, f, p - 1) + f(order[p - 1] as int)
    }
}

/// Functions that agree below `n` have the same sum.
pub proof fn lemma_sum_same(f: spec_fn(int) -> int, g: spec_fn(int) -> int, n: int)
    requires
        forall|j: int| 0 <= j < n ==> #[trigger] f(j) == g(j),
    ensures
        sum_all(f, n) == sum_all(g, n),
    decreases n,
{
    if n > 0 {
        lemma_sum_same(f, g, n - 1);
    }
}

/// The sum of a function that is zero below `n` is zero.
pub proof fn lemma_sum_zero(f: spec_fn(int) -> int, n: int)
    requires
        forall|j: int| 0 <= j < n ==> #[trigger] f(j) == 0,
    ensures
        sum_all(f, n) == 0,
    decreases n,
{
    if n > 0 {
        lemma_sum_zero(f, n - 1);
    }
}

/// The sum of differences is the difference of the sums.
pub proof fn lemma_sum_difference(
    f: spec_fn(int) -> int,
    g: spec_fn(int) -> int,
    h: spec_fn(int) -> int,
    n: int,
)
    requires
        forall|j: int| 0 <= j < n ==> #[trigger] h(j) == f(j) - g(j),
    ensures
        sum_all(h, n) == sum_all(f, n) - sum_all(g, n),
    decreases n,
{
    if n > 0 {
        lemma_sum_difference(f, g, h, n - 1);
    }
}

/// A factor can be taken into a sum.
pub proof fn lemma_sum_scaled(f: spec_fn(int) -> int, g: spec_fn(int) -> int, c: int, n: int)
    requires
        forall|j: int| 0 <= j < n ==> #[trigger] g(j) == c * f(j),
    ensures
        sum_all(g, n) == c * sum_all(f, n),
    decreases n,
{
    if n > 0 {
        lemma_sum_scaled(f, g, c, n - 1);
        assert(c * (sum_all(f, n - 1) + f(n - 1)) == c * sum_all(f, n - 1) + c * f(n - 1))
            by (nonlinear_arith);
    } else {
        assert(c * 0 == 0);
    }
}

/// A sum of terms between `-bound` and `bound` lies between its number of
/// terms times `-bound` and times `bound`.
pub proof fn lemma_sum_bound(f: spec_fn(int) -> int, n: int, bound: int)
    requires
        0 <= n,
        0 <= bound,
        forall|j: int| 0 <= j < n ==> -bound <= #[trigger] f(j) <= bound,
    ensures
        -(n * bound) <= sum_all(f, n) <= n * bound,
    decreases n,
{
    if n > 0 {
        lemma_sum_bound(f, n - 1, bound);
        assert(-bound <= f(n - 1) <= bound);
        assert(n * bound == (n - 1) * bound + bound) by (nonlinear_arith);
    } else {
        assert(0 * bound == 0);
    }
}

/// A sum of sums can be taken in either order: if `rows(i)` is the sum of
/// `g(i, j)` over `j < m` and `columns(j)` the sum of `g(i, j)` over `i < n`,
/// the sum of the rows is the sum of the columns.
pub proof fn lemma_sum_exchange(
    g: spec_fn(int, int) -> int,
    rows: spec_fn(int) -> int,
    columns: spec_fn(int) -> int,
    n: int,
    m: int,
)
    requires
        0 <= n,
        0 <= m,
        forall|i: int| 0 <= i < n ==> #[trigger] rows(i) == sum_all(|j: int| g(i, j), m),
        forall|j: int| 0 <= j < m ==> #[trigger] columns(j) == sum_all(|i: int| g(i, j), n),
    ensures
        sum_all(rows, n) == sum_all(columns, m),
    decreases n,
{
    if n == 0 {
        lemma_sum_zero(rows, 0);
        lemma_sum_zero(columns, m);
    } else {
        let shorter = |j: int| sum_all(|i: int| g(i, j), n - 1);
        lemma_sum_exchange(g, rows, shorter, n - 1, m);
        let last = |j: int| g(n - 1, j);
        assert forall|j: int| 0 <= j < m implies #[trigger] last(j) == columns(j) - shorter(j) by {
            assert(sum_all(|i: int| g(i, j), n) == sum_all(|i: int| g(i, j), n - 1) + (|i: int|
                g(i, j))(n - 1));
        }
        lemma_sum_difference(columns, shorter, last, m);
        assert(rows(n - 1) == sum_all(last, m));
    }
}

/// A list of positions without the entry at `q` sums to what the whole list
/// sums to, less the term of that entry.
pub proof fn lemma_sum_over_remove(order: Seq<usize>, f: spec_fn(int) -> int, q: int)
    requires
        0 <= q < order.len(),
    ensures
        sum_over(order, f, order.len() as int) == sum_over(
            order.remove(q),
            f,
            order.len() - 1,
        ) + f(order[q] as int),
    decreases order.len(),
{
    let n = order.len() as int;
    let shorter = order.remove(q);
    if q == n - 1 {
        assert(shorter =~= order.drop_last());
        lemma_sum_over_prefix(order, shorter, f, n - 1);
    } else {
        let front = order.drop_last();
        lemma_sum_over_remove(front, f, q);
        assert(front.remove(q) =~= shorter.drop_last());
        lemma_sum_over_prefix(order, front, f, n - 1);
        lemma_sum_over_prefix(shorter, shorter.drop_last(), f, n - 2);
        assert(shorter[n - 2] == order[n - 1]);
    }
}

/// Lists of positions that agree on their first `p` entries have the same sum
/// over them.
pub proof fn lemma_sum_over_prefix(a: Seq<usize>, b: Seq<usize>, f: spec_fn(int) -> int, p: int)
    requires
        p <= a.len(),
        p <= b.len(),
        forall|k: int| 0 <= k < p ==> a[k] == b[k],
    ensures
        sum_over(a, f, p) == sum_over(b, f, p),
    decreases p,
{
    if p > 0 {
        lemma_sum_over_prefix(a, b, f, p - 1);
    }
}

/// Terms that agree on the entries from `p` up to `q` add the same to a sum
/// over a list.
pub proof fn lemma_sum_over_same(
    order: Seq<usize>,
    f: spec_fn(int) -> int,
    g: spec_fn(int) -> int,
    p: int,
    q: int,
)
    requires
        0 <= p <= q <= order.len(),
        forall|k: int| p <= k < q ==> f(#[trigger] order[k] as int) == g(order[k] as int),
    ensures
        sum_over(order, f, q) - sum_over(order, f, p) == sum_over(order, g, q) - sum_over(
            order,
            g,
            p,
        ),
    decreases q - p,
{
    if p < q {
        lemma_sum_over_same(order, f, g, p, q - 1);
        assert(f(order[q - 1] as int) == g(order[q - 1] as int));
    }
}

/// Terms that are zero on the entries from `p` up to `q` add nothing to a sum
/// over a list.
pub proof fn lemma_sum_over_nothing(order: Seq<usize>, f: spec_fn(int) -> int, p: int, q: int)
    requires
        0 <= p <= q <= order.len(),
        forall|k: int| p <= k < q ==> f(#[trigger] order[k] as int) == 0,
    ensures
        sum_over(order, f, q) == sum_over(order, f, p),
    decreases q - p,
{
    if p < q {
        lemma_sum_over_nothing(order, f, p, q - 1);
        assert(f(order[q - 1] as int) == 0);
    }
}

/// A sum of terms between `-bound` and `bound` lies between its number of
/// terms times `-bound` and times `bound`.
pub proof fn lemma_sum_over_bound(order: Seq<usize>, f: spec_fn(int) -> int, p: int, bound: int)
    requires
        0 <= p <= order.len(),
        0 <= bound,
        forall|k: int| 0 <= k < p ==> -bound <= f(#[trigger] order[k] as int) <= bound,
    ensures
        -(p * bound) <= sum_over(order, f, p) <= p * bound,
    decreases p,
{
    if p > 0 {
        lemma_sum_over_bound(order, f, p - 1, bound);
        assert(-bound <= f(order[p - 1] as int) <= bound);
        assert(p * bound == (p - 1) * bound + bound) by (nonlinear_arith);
    } else {
        assert(0 * bound == 0);
    }
}

/// Whether a list holds each position below `n` that `keep` holds of, once,
/// and nothing else.
pub open spec fn lists_exactly(order: Seq<usize>, keep: spec_fn(int) -> bool, n: int) -> bool {
    &&& forall|k: int| 0 <= k < order.len() ==> #[trigger] order[k] < n && keep(order[k] as int)
    &&& forall|k: int, l: int| 0 <= k < l < order.len() ==> order[k] != order[l]
    &&& forall|j: int|
        0 <= j < n && #[trigger] keep(j) ==> exists|k: int|
            0 <= k < order.len() && #[trigger] order[k] == j
}

/// The order of the terms does not matter: a sum over a list that holds each
/// position once is the sum over the positions, as far as the terms of the
/// positions that the list leaves out are zero.
pub proof fn lemma_sum_over_all(
    order: Seq<usize>,
    keep: spec_fn(int) -> bool,
    f: spec_fn(int) -> int,
    n: int,
)
    requires
        0 <= n,
        lists_exactly(order, keep, n),
        forall|j: int| 0 <= j < n && !keep(j) ==> #[trigger] f(j) == 0,
    ensures
        sum_over(order, f, order.len() as int) == sum_all(f, n),
    decreases n,
{
    if n == 0 {
        if order.len() > 0 {
            assert(order[0] < n);
        }
    } else if keep(n - 1) {
        let q = choose|k: int| 0 <= k < order.len() && #[trigger] order[k] == n - 1;
        let shorter = order.remove(q);
        assert forall|k: int| 0 <= k < shorter.len() implies #[trigger] shorter[k] < n - 1 && keep(
            shorter[k] as int,
        ) by {
            let k0 = if k < q {
                k
            } else {
                k + 1
            };
            assert(shorter[k] == order[k0]);
            assert(order[k0] != order[q]);
        }
        assert forall|k: int, l: int| 0 <= k < l < shorter.len() implies shorter[k]
            != shorter[l] by {
            let k0 = if k < q {
                k
            } else {
                k + 1
            };
            let l0 = if l < q {
                l
            } else {
                l + 1
            };
            assert(shorter[k] == order[k0] && shorter[l] == order[l0]);
        }
        assert forall|j: int| 0 <= j < n - 1 && #[trigger] keep(j) implies exists|k: int|
            0 <= k < shorter.len() && #[trigger] shorter[k] == j by {
            let k0 = choose|k: int| 0 <= k < order.len() && #[trigger] order[k] == j;
            let k = if k0 < q {
                k0
            } else {
                k0 - 1
            };
            assert(shorter[k] == j);
        }
        lemma_sum_over_all(shorter, keep, f, n - 1);
        lemma_sum_over_remove(order, f, q);
    } else {
        assert forall|k: int| 0 <= k < order.len() implies #[trigger] order[k] < n - 1 && keep(
            order[k] as int,
        ) by {
            assert(order[k] < n && keep(order[k] as int));
        }
        lemma_sum_over_all(order, keep, f, n - 1);
    }
}

} // verus!
