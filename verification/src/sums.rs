use vstd::prelude::*;

verus! {

/// The sum of `f(0)`, ..., `f(m - 1)`.
pub open spec fn sum_upto(f: spec_fn(int) -> int, m: int) -> int
    decreases m,
{
    if m <= 0 {
        0
    } else {
        sum_upto(f, m - 1) + f(m - 1)
    }
}

/// One for a true statement, zero for a false one.
pub open spec fn ind(b: bool) -> int {
    if b {
        1
    } else {
        0
    }
}

/// The sum of `f(r, c)` over the rows `r` and columns `c` of a square of side `n`.
pub open spec fn grid_sum(f: spec_fn(int, int) -> int, n: int) -> int {
    sum_upto(|c: int| sum_upto(|r: int| f(r, c), n), n)
}

/// Sums of functions that agree below `m` agree.
pub proof fn lemma_sum_ext(f: spec_fn(int) -> int, g: spec_fn(int) -> int, m: int)
    requires
        forall|i: int| 0 <= i < m ==> #[trigger] f(i) == g(i),
    ensures
        sum_upto(f, m) == sum_upto(g, m),
    decreases m,
{
    if m > 0 {
        lemma_sum_ext(f, g, m - 1);
    }
}

/// The sum of `a * f + b * g` is `a` times the sum of `f` plus `b` times the sum of `g`.
pub proof fn lemma_sum_linear(
    f: spec_fn(int) -> int,
    g: spec_fn(int) -> int,
    a: int,
    b: int,
    m: int,
)
    ensures
        sum_upto(|i: int| a * f(i) + b * g(i), m) == a * sum_upto(f, m) + b * sum_upto(g, m),
    decreases m,
{
    let h = |i: int| a * f(i) + b * g(i);
    if m > 0 {
        lemma_sum_linear(f, g, a, b, m - 1);
        assert(a * (sum_upto(f, m - 1) + f(m - 1)) + b * (sum_upto(g, m - 1) + g(m - 1)) == a
            * sum_upto(f, m - 1) + b * sum_upto(g, m - 1) + (a * f(m - 1) + b * g(m - 1)))
            by (nonlinear_arith);
        assert(h(m - 1) == a * f(m - 1) + b * g(m - 1));
    } else {
        assert(a * 0 + b * 0 == 0);
    }
}

/// The sum over an interval of a function that is `k` there and zero elsewhere.
pub proof fn lemma_sum_interval(f: spec_fn(int) -> int, lo: int, hi: int, k: int, m: int)
    requires
        0 <= lo <= hi <= m,
        forall|i: int| 0 <= i < m ==> #[trigger] f(i) == (if lo <= i < hi {
            k
        } else {
            0
        }),
    ensures
        sum_upto(f, m) == k * (hi - lo),
    decreases m,
{
    if m > 0 {
        if hi == m {
            if lo == hi {
                lemma_sum_interval(f, m - 1, m - 1, k, m - 1);
                assert(k * 0 == 0);
            } else {
                lemma_sum_interval(f, lo, hi - 1, k, m - 1);
                assert(k * (hi - 1 - lo) + k == k * (hi - lo)) by (nonlinear_arith);
            }
        } else {
            lemma_sum_interval(f, lo, hi, k, m - 1);
        }
    } else {
        assert(k * 0 == 0);
    }
}

/// Summing in pairs.
pub proof fn lemma_sum_pairs(f: spec_fn(int) -> int, m: int)
    requires
        0 <= m,
    ensures
        sum_upto(f, 2 * m) == sum_upto(|t: int| f(2 * t) + f(2 * t + 1), m),
    decreases m,
{
    if m > 0 {
        lemma_sum_pairs(f, m - 1);
        assert(sum_upto(f, 2 * m) == sum_upto(f, 2 * m - 1) + f(2 * m - 1));
        assert(sum_upto(f, 2 * m - 1) == sum_upto(f, 2 * m - 2) + f(2 * m - 2));
    }
}

/// Summing backwards.
pub proof fn lemma_sum_reversed(f: spec_fn(int) -> int, m: int)
    requires
        0 <= m,
    ensures
        sum_upto(|t: int| f(m - 1 - t), m) == sum_upto(f, m),
    decreases m,
{
    if m > 0 {
        let backwards = |t: int| f(m - 1 - t);
        let shifted = |t: int| f(t + 1);
        let shifted_backwards = |t: int| shifted(m - 2 - t);
        lemma_sum_ext(backwards, shifted_backwards, m - 1);
        lemma_sum_reversed(shifted, m - 1);
        lemma_sum_shift(f, m - 1);
    }
}

/// Splitting off the first term.
pub proof fn lemma_sum_shift(f: spec_fn(int) -> int, m: int)
    requires
        0 <= m,
    ensures
        sum_upto(f, m + 1) == f(0) + sum_upto(|t: int| f(t + 1), m),
    decreases m,
{
    if m > 0 {
        lemma_sum_shift(f, m - 1);
    } else {
        assert(sum_upto(f, 1) == sum_upto(f, 0) + f(0));
    }
}

/// The number of entries of a sequence that a predicate keeps.
pub proof fn lemma_filter_count<A>(s: Seq<A>, pred: spec_fn(A) -> bool)
    ensures
        s.filter(pred).len() == sum_upto(|i: int| ind(pred(s[i])), s.len() as int),
    decreases s.len(),
{
    reveal(Seq::filter);
    if s.len() > 0 {
        let head = s.drop_last();
        lemma_filter_count(head, pred);
        lemma_sum_ext(
            |i: int| ind(pred(head[i])),
            |i: int| ind(pred(s[i])),
            head.len() as int,
        );
    }
}

/// The sum over a square of a product of a function of the row and a function of
/// the column.
pub proof fn lemma_grid_sum_product(
    f: spec_fn(int, int) -> int,
    p: spec_fn(int) -> int,
    q: spec_fn(int) -> int,
    n: int,
)
    requires
        0 <= n,
        forall|r: int, c: int| 0 <= r < n && 0 <= c < n ==> #[trigger] f(r, c) == p(r) * q(c),
    ensures
        grid_sum(f, n) == sum_upto(p, n) * sum_upto(q, n),
{
    let total = sum_upto(p, n);
    let columns = |c: int| sum_upto(|r: int| f(r, c), n);
    let scaled = |c: int| total * q(c) + 0 * q(c);
    assert forall|c: int| 0 <= c < n implies #[trigger] columns(c) == scaled(c) by {
        let column = |r: int| f(r, c);
        let multiple = |r: int| q(c) * p(r) + 0 * p(r);
        assert forall|r: int| 0 <= r < n implies #[trigger] column(r) == multiple(r) by {
            assert(p(r) * q(c) == q(c) * p(r) + 0 * p(r)) by (nonlinear_arith);
        }
        lemma_sum_ext(column, multiple, n);
        lemma_sum_linear(p, p, q(c), 0, n);
        assert(q(c) * total + 0 * total == total * q(c) + 0 * q(c)) by (nonlinear_arith);
    }
    lemma_sum_ext(columns, scaled, n);
    lemma_sum_linear(q, q, total, 0, n);
    assert(total * sum_upto(q, n) + 0 * sum_upto(q, n) == total * sum_upto(q, n))
        by (nonlinear_arith);
}

/// The sum over a square of `a * f + b * g`.
pub proof fn lemma_grid_sum_linear(
    h: spec_fn(int, int) -> int,
    f: spec_fn(int, int) -> int,
    g: spec_fn(int, int) -> int,
    a: int,
    b: int,
    n: int,
)
    requires
        0 <= n,
        forall|r: int, c: int|
            0 <= r < n && 0 <= c < n ==> #[trigger] h(r, c) == a * f(r, c) + b * g(r, c),
    ensures
        grid_sum(h, n) == a * grid_sum(f, n) + b * grid_sum(g, n),
{
    let hc = |c: int| sum_upto(|r: int| h(r, c), n);
    let fc = |c: int| sum_upto(|r: int| f(r, c), n);
    let gc = |c: int| sum_upto(|r: int| g(r, c), n);
    let combined = |c: int| a * fc(c) + b * gc(c);
    assert forall|c: int| 0 <= c < n implies #[trigger] hc(c) == combined(c) by {
        let hr = |r: int| h(r, c);
        let fr = |r: int| f(r, c);
        let gr = |r: int| g(r, c);
        lemma_sum_linear(fr, gr, a, b, n);
        lemma_sum_ext(hr, |r: int| a * fr(r) + b * gr(r), n);
    }
    lemma_sum_ext(hc, combined, n);
    lemma_sum_linear(fc, gc, a, b, n);
}

} // verus!
