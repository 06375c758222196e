use vstd::prelude::*;
use crate::alignment::{
    alignment_centers, covered_by, in_alignment_pattern, lemma_alignment_centers, pattern_at,
};
use crate::ecc_data::{
    alignment_axis_count, data_module_count, function_module_count, remainder_bits, total_codewords,
};
use crate::patterns::{lemma_centres_apart, lemma_covering_centre, near_centre};
use crate::pixel_mapping::{
    data_positions, is_data_cell, is_function_module_at, strip_cell, strip_cells, strip_right,
    sweep_upto,
};
use crate::sums::{
    grid_sum, ind, lemma_filter_count, lemma_grid_sum_linear, lemma_grid_sum_product, lemma_sum_ext,
    lemma_sum_interval, lemma_sum_linear, lemma_sum_pairs, lemma_sum_reversed, sum_upto,
};
use crate::types::Version;

verus! {

/// The number of data modules in column `c` of a version-`v` symbol.
pub open spec fn column_data(v: int, c: int) -> int {
    sum_upto(|r: int| ind(!is_function_module_at(v, r, c)), 17 + 4 * v)
}

/// Whether the module is a function module for another reason than an alignment
/// pattern.
pub open spec fn is_fixed(v: int, r: int, c: int) -> bool {
    let n = 17 + 4 * v;
    ||| (r < 9 && c < 9)
    ||| (r < 9 && c >= n - 8)
    ||| (r >= n - 8 && c < 9)
    ||| r == 6
    ||| c == 6
    ||| (v >= 7 && r < 6 && n - 11 <= c < n - 8)
    ||| (v >= 7 && c < 6 && n - 11 <= r < n - 8)
}

/// Whether the coordinate lies within two modules of one of the first `i` centres.
pub open spec fn near_first(v: int, i: int, x: int) -> bool {
    exists|q: int| 0 <= q < i && #[trigger] near_centre(v, q, x)
}

/// Whether the coordinate lies within two modules of a centre.
pub open spec fn near_any(v: int, x: int) -> bool {
    near_first(v, alignment_centers(v).len() as int, x)
}

/// A strip holds as many data modules as its two columns together.
proof fn lemma_strip_count(v: int, p: int)
    requires
        1 <= v <= 40,
        0 <= p < (17 + 4 * v - 1) / 2,
    ensures
        strip_cells(17 + 4 * v, p).filter(is_data_cell(v)).len() == column_data(
            v,
            strip_right(17 + 4 * v, p),
        ) + column_data(v, strip_right(17 + 4 * v, p) - 1),
{
    let n = 17 + 4 * v;
    let strip = strip_cells(n, p);
    let pred = is_data_cell(v);
    let right = strip_right(n, p);
    lemma_filter_count(strip, pred);
    let kept = |w: int| ind(pred(strip[w]));
    let g = |w: int| ind(!is_function_module_at(v, strip_cell(n, p, w).0, strip_cell(n, p, w).1));
    assert forall|w: int| 0 <= w < 2 * n implies #[trigger] kept(w) == g(w) by {}
    lemma_sum_ext(kept, g, 2 * n);
    lemma_sum_pairs(g, n);
    let paired = |t: int| g(2 * t) + g(2 * t + 1);
    let in_right = |r: int| ind(!is_function_module_at(v, r, right));
    let in_left = |r: int| ind(!is_function_module_at(v, r, right - 1));
    let both = |r: int| 1 * in_right(r) + 1 * in_left(r);
    lemma_sum_linear(in_right, in_left, 1, 1, n);
    if p % 2 == 0 {
        let flipped = |t: int| both(n - 1 - t);
        assert forall|t: int| 0 <= t < n implies #[trigger] paired(t) == flipped(t) by {
            assert(strip_cell(n, p, 2 * t) == (n - 1 - t, right));
            assert(strip_cell(n, p, 2 * t + 1) == (n - 1 - t, right - 1));
        }
        lemma_sum_ext(paired, flipped, n);
        lemma_sum_reversed(both, n);
    } else {
        assert forall|t: int| 0 <= t < n implies #[trigger] paired(t) == both(t) by {
            assert(strip_cell(n, p, 2 * t) == (t, right));
            assert(strip_cell(n, p, 2 * t + 1) == (t, right - 1));
        }
        lemma_sum_ext(paired, both, n);
    }
}

/// The first `p` strips hold the data modules of the columns that they cover.
proof fn lemma_sweep_count(v: int, p: nat)
    requires
        1 <= v <= 40,
        p <= (17 + 4 * v - 1) / 2,
    ensures
        ({
            let n = 17 + 4 * v;
            let columns = |c: int| column_data(v, c);
            sweep_upto(n, p).filter(is_data_cell(v)).len() == (if 2 * p <= n - 7 {
                sum_upto(columns, n) - sum_upto(columns, n - 2 * p)
            } else {
                sum_upto(columns, n) - sum_upto(columns, n - 1 - 2 * p) - column_data(v, 6)
            })
        }),
    decreases p,
{
    let n = 17 + 4 * v;
    let columns = |c: int| column_data(v, c);
    let pred = is_data_cell(v);
    if p == 0 {
        reveal(Seq::filter);
        assert(sweep_upto(n, 0).filter(pred) =~= Seq::<(int, int)>::empty());
    } else {
        let q = (p - 1) as nat;
        lemma_sweep_count(v, q);
        lemma_strip_count(v, q as int);
        Seq::filter_distributes_over_add(sweep_upto(n, q), strip_cells(n, q as int), pred);
        let right = strip_right(n, q as int);
        assert(sum_upto(columns, right + 1) == sum_upto(columns, right) + columns(right));
        assert(sum_upto(columns, right) == sum_upto(columns, right - 1) + columns(right - 1));
        if 2 * q <= n - 7 && !(2 * p <= n - 7) {
            assert(right == 5);
            assert(sum_upto(columns, 7) == sum_upto(columns, 6) + columns(6));
        }
    }
}

/// Column 6 holds no data module.
proof fn lemma_timing_column(v: int)
    requires
        1 <= v <= 40,
    ensures
        column_data(v, 6) == 0,
{
    let n = 17 + 4 * v;
    let f = |r: int| ind(!is_function_module_at(v, r, 6));
    lemma_sum_interval(f, 0, 0, 0, n);
}

/// The sweep meets as many data modules as the symbol has modules that are not
/// function modules.
proof fn lemma_sweep_total(v: int)
    requires
        1 <= v <= 40,
    ensures
        data_positions(v).len() == (17 + 4 * v) * (17 + 4 * v) - grid_sum(
            |r: int, c: int| ind(is_function_module_at(v, r, c)),
            17 + 4 * v,
        ),
{
    let n = 17 + 4 * v;
    let columns = |c: int| column_data(v, c);
    lemma_sweep_count(v, ((n - 1) / 2) as nat);
    lemma_timing_column(v);
    assert(sum_upto(columns, 0) == 0);
    let free = |r: int, c: int| ind(!is_function_module_at(v, r, c));
    let taken = |r: int, c: int| ind(is_function_module_at(v, r, c));
    let one = |r: int, c: int| 1int;
    let free_columns = |c: int| sum_upto(|r: int| free(r, c), n);
    assert forall|c: int| 0 <= c < n implies #[trigger] columns(c) == free_columns(c) by {
        lemma_sum_ext(
            |r: int| ind(!is_function_module_at(v, r, c)),
            |r: int| free(r, c),
            n,
        );
    }
    lemma_sum_ext(columns, free_columns, n);
    assert(grid_sum(free, n) == sum_upto(columns, n));
    lemma_grid_sum_linear(free, one, taken, 1, -1, n);
    let unit = |i: int| 1int;
    lemma_grid_sum_product(one, unit, unit, n);
    lemma_sum_interval(unit, 0, n, 1, n);
}

/// The sum over the square of the indicator of a rectangle.
proof fn lemma_rectangle(
    f: spec_fn(int, int) -> int,
    n: int,
    top: int,
    bottom: int,
    left: int,
    right: int,
)
    requires
        0 <= top <= bottom <= n,
        0 <= left <= right <= n,
        forall|r: int, c: int|
            0 <= r < n && 0 <= c < n ==> #[trigger] f(r, c) == ind(
                top <= r < bottom && left <= c < right,
            ),
    ensures
        grid_sum(f, n) == (bottom - top) * (right - left),
{
    let rows = |r: int| ind(top <= r < bottom);
    let cols = |c: int| ind(left <= c < right);
    assert forall|r: int, c: int| 0 <= r < n && 0 <= c < n implies #[trigger] f(r, c) == rows(r)
        * cols(c) by {
        assert(ind(top <= r < bottom) * ind(left <= c < right) == ind(
            top <= r < bottom && left <= c < right,
        )) by (nonlinear_arith)
            requires
                0 <= ind(top <= r < bottom) <= 1,
                0 <= ind(left <= c < right) <= 1,
                ind(top <= r < bottom && left <= c < right) == (if ind(top <= r < bottom) == 1
                    && ind(left <= c < right) == 1 {
                    1int
                } else {
                    0int
                }),
        ;
    }
    lemma_grid_sum_product(f, rows, cols, n);
    lemma_sum_interval(rows, top, bottom, 1, n);
    lemma_sum_interval(cols, left, right, 1, n);
    assert(1 * (bottom - top) == bottom - top);
    assert(1 * (right - left) == right - left);
}

/// The sum over the square of the indicator of a region that is a rectangle added
/// to a region beside it.
proof fn lemma_add_rectangle(
    whole: spec_fn(int, int) -> int,
    part: spec_fn(int, int) -> int,
    n: int,
    top: int,
    bottom: int,
    left: int,
    right: int,
)
    requires
        0 <= top <= bottom <= n,
        0 <= left <= right <= n,
        forall|r: int, c: int|
            0 <= r < n && 0 <= c < n ==> #[trigger] whole(r, c) == part(r, c) + ind(
                top <= r < bottom && left <= c < right,
            ),
    ensures
        grid_sum(whole, n) == grid_sum(part, n) + (bottom - top) * (right - left),
{
    let rect = |r: int, c: int| ind(top <= r < bottom && left <= c < right);
    lemma_rectangle(rect, n, top, bottom, left, right);
    lemma_grid_sum_linear(whole, part, rect, 1, 1, n);
}

/// The number of function modules apart from the alignment patterns.
proof fn lemma_fixed_count(v: int)
    requires
        1 <= v <= 40,
    ensures
        grid_sum(|r: int, c: int| ind(is_fixed(v, r, c)), 17 + 4 * v) == 225 + 8 * v + (if v
            >= 7 {
            36int
        } else {
            0int
        }),
{
    let n = 17 + 4 * v;
    let t = if v >= 7 {
        3int
    } else {
        0int
    };
    let s1 = |r: int, c: int| ind(r < 9 && c < 9);
    let s2 = |r: int, c: int| ind((r < 9 && c < 9) || (r < 9 && c >= n - 8));
    let s3 = |r: int, c: int|
        ind((r < 9 && c < 9) || (r < 9 && c >= n - 8) || (r >= n - 8 && c < 9));
    let s4 = |r: int, c: int|
        ind(
            (r < 9 && c < 9) || (r < 9 && c >= n - 8) || (r >= n - 8 && c < 9) || (r == 6 && 9
                <= c < n - 8),
        );
    let s5 = |r: int, c: int|
        ind(
            (r < 9 && c < 9) || (r < 9 && c >= n - 8) || (r >= n - 8 && c < 9) || r == 6 || (c
                == 6 && 9 <= r < n - 8),
        );
    let s6 = |r: int, c: int|
        ind(
            (r < 9 && c < 9) || (r < 9 && c >= n - 8) || (r >= n - 8 && c < 9) || r == 6 || c
                == 6 || (v >= 7 && r < 6 && n - 11 <= c < n - 8),
        );
    let s7 = |r: int, c: int| ind(is_fixed(v, r, c));
    lemma_rectangle(s1, n, 0, 9, 0, 9);
    lemma_add_rectangle(s2, s1, n, 0, 9, n - 8, n);
    lemma_add_rectangle(s3, s2, n, n - 8, n, 0, 9);
    lemma_add_rectangle(s4, s3, n, 6, 7, 9, n - 8);
    lemma_add_rectangle(s5, s4, n, 9, n - 8, 6, 7);
    lemma_add_rectangle(s6, s5, n, 0, 2 * t, n - 11, n - 11 + t);
    lemma_add_rectangle(s7, s6, n, n - 11, n - 11 + t, 0, 2 * t);
    assert((9 - 0) * (9 - 0) == 81);
    assert((9 - 0) * (n - (n - 8)) == 72);
    assert((n - (n - 8)) * (9 - 0) == 72);
    assert((7 - 6) * (n - 8 - 9) == n - 17);
    assert((n - 8 - 9) * (7 - 6) == n - 17);
    assert((2 * t - 0) * (n - 11 + t - (n - 11)) == 2 * t * t) by (nonlinear_arith);
    assert((n - 11 + t - (n - 11)) * (2 * t - 0) == 2 * t * t) by (nonlinear_arith);
    assert(2 * t * t == (if v >= 7 {
        18int
    } else {
        0int
    })) by (nonlinear_arith)
        requires
            t == (if v >= 7 {
                3int
            } else {
                0int
            }),
    ;
}

/// The first `i` bands of five coordinates around the centres hold `5 * i` coordinates.
proof fn lemma_band_count(v: int, i: int)
    requires
        1 <= v <= 40,
        0 <= i <= alignment_centers(v).len(),
    ensures
        sum_upto(|x: int| ind(near_first(v, i, x)), 17 + 4 * v) == 5 * i,
    decreases i,
{
    let n = 17 + 4 * v;
    let now = |x: int| ind(near_first(v, i, x));
    lemma_alignment_centers(v);
    if i == 0 {
        lemma_sum_interval(now, 0, 0, 0, n);
    } else {
        let before = |x: int| ind(near_first(v, i - 1, x));
        let centre = alignment_centers(v)[i - 1];
        let band = |x: int| ind(centre - 2 <= x <= centre + 2);
        lemma_band_count(v, i - 1);
        assert forall|x: int| 0 <= x < n implies #[trigger] now(x) == 1 * before(x) + 1 * band(
            x,
        ) by {
            if near_first(v, i - 1, x) {
                let q = choose|q: int| 0 <= q < i - 1 && #[trigger] near_centre(v, q, x);
                assert(near_centre(v, q, x));
                lemma_centres_apart(v, q, i - 1);
            }
            if centre - 2 <= x <= centre + 2 {
                assert(near_centre(v, i - 1, x));
            }
            if near_first(v, i, x) {
                let q = choose|q: int| 0 <= q < i && #[trigger] near_centre(v, q, x);
                if q < i - 1 {
                    assert(near_first(v, i - 1, x));
                }
            }
        }
        lemma_sum_ext(now, |x: int| 1 * before(x) + 1 * band(x), n);
        lemma_sum_linear(before, band, 1, 1, n);
        let band_interval = |x: int| ind(centre - 2 <= x < centre + 3);
        lemma_sum_ext(band, band_interval, n);
        lemma_sum_interval(band_interval, centre - 2, centre + 3, 1, n);
    }
}

/// A module belongs to an alignment pattern exactly when its row and its column
/// each lie near a centre, but for the three corners that finder patterns take.
proof fn lemma_alignment_shape(v: int, r: int, c: int)
    requires
        2 <= v <= 40,
        0 <= r < 17 + 4 * v,
        0 <= c < 17 + 4 * v,
    ensures
        ({
            let n = 17 + 4 * v;
            let first_r = 4 <= r <= 8;
            let first_c = 4 <= c <= 8;
            let last_r = n - 9 <= r <= n - 5;
            let last_c = n - 9 <= c <= n - 5;
            &&& in_alignment_pattern(v, r, c) <==> (near_any(v, r) && near_any(v, c) && !(
            first_r && first_c) && !(first_r && last_c) && !(last_r && first_c))
            &&& first_r ==> near_any(v, r)
            &&& last_r ==> near_any(v, r)
            &&& first_c ==> near_any(v, c)
            &&& last_c ==> near_any(v, c)
        }),
{
    let n = 17 + 4 * v;
    let k = alignment_centers(v).len() as int;
    lemma_alignment_centers(v);
    assert(k >= 2);
    let first_r = 4 <= r <= 8;
    let first_c = 4 <= c <= 8;
    let last_r = n - 9 <= r <= n - 5;
    let last_c = n - 9 <= c <= n - 5;
    if first_r {
        assert(near_centre(v, 0, r));
    }
    if first_c {
        assert(near_centre(v, 0, c));
    }
    if last_r {
        assert(near_centre(v, k - 1, r));
    }
    if last_c {
        assert(near_centre(v, k - 1, c));
    }
    if in_alignment_pattern(v, r, c) {
        let (i, j) = choose|i: int, j: int| #[trigger] covered_by(v, i, j, r, c);
        assert(near_centre(v, i, r));
        assert(near_centre(v, j, c));
        if first_r {
            lemma_covering_centre(v, 0, r);
            lemma_covering_centre(v, i, r);
        }
        if first_c {
            lemma_covering_centre(v, 0, c);
            lemma_covering_centre(v, j, c);
        }
        if last_r {
            lemma_covering_centre(v, k - 1, r);
            lemma_covering_centre(v, i, r);
        }
        if last_c {
            lemma_covering_centre(v, k - 1, c);
            lemma_covering_centre(v, j, c);
        }
    }
    if near_any(v, r) && near_any(v, c) && !(first_r && first_c) && !(first_r && last_c) && !(
    last_r && first_c) {
        let i = choose|i: int| 0 <= i < k && #[trigger] near_centre(v, i, r);
        let j = choose|j: int| 0 <= j < k && #[trigger] near_centre(v, j, c);
        assert(pattern_at(v, i, j));
        assert(covered_by(v, i, j, r, c));
    }
}

/// The number of modules of alignment patterns.
proof fn lemma_alignment_count(v: int)
    requires
        1 <= v <= 40,
    ensures
        grid_sum(|r: int, c: int| ind(in_alignment_pattern(v, r, c)), 17 + 4 * v) == (if v >= 2 {
            25 * (alignment_axis_count(v) * alignment_axis_count(v) - 3)
        } else {
            0
        }),
{
    let n = 17 + 4 * v;
    let k = alignment_centers(v).len() as int;
    lemma_alignment_centers(v);
    let patterns = |r: int, c: int| ind(in_alignment_pattern(v, r, c));
    if v == 1 {
        let none = |r: int, c: int| ind(0 <= r < 0 && 0 <= c < 0);
        assert forall|r: int, c: int| 0 <= r < n && 0 <= c < n implies #[trigger] patterns(r, c)
            == none(r, c) by {
            if in_alignment_pattern(v, r, c) {
                let (i, j) = choose|i: int, j: int| #[trigger] covered_by(v, i, j, r, c);
                assert(pattern_at(v, i, j));
            }
        }
        lemma_rectangle(patterns, n, 0, 0, 0, 0);
        assert((0 - 0) * (0 - 0) == 0);
    } else {
        let near = |x: int| ind(near_any(v, x));
        let first = |x: int| ind(4 <= x < 9);
        let last = |x: int| ind(n - 9 <= x < n - 4);
        lemma_band_count(v, k);
        lemma_sum_ext(near, |x: int| ind(near_first(v, k, x)), n);
        lemma_sum_interval(first, 4, 9, 1, n);
        lemma_sum_interval(last, n - 9, n - 4, 1, n);
        let all = |r: int, c: int| near(r) * near(c);
        let corner_a = |r: int, c: int| first(r) * first(c);
        let corner_b = |r: int, c: int| first(r) * last(c);
        let corner_c = |r: int, c: int| last(r) * first(c);
        lemma_grid_sum_product(all, near, near, n);
        lemma_grid_sum_product(corner_a, first, first, n);
        lemma_grid_sum_product(corner_b, first, last, n);
        lemma_grid_sum_product(corner_c, last, first, n);
        let less_a = |r: int, c: int| all(r, c) - corner_a(r, c);
        let less_b = |r: int, c: int| less_a(r, c) - corner_b(r, c);
        assert forall|r: int, c: int| 0 <= r < n && 0 <= c < n implies #[trigger] less_a(r, c) == 1
            * all(r, c) + (-1) * corner_a(r, c) by {}
        lemma_grid_sum_linear(less_a, all, corner_a, 1, -1, n);
        assert forall|r: int, c: int| 0 <= r < n && 0 <= c < n implies #[trigger] less_b(r, c) == 1
            * less_a(r, c) + (-1) * corner_b(r, c) by {}
        lemma_grid_sum_linear(less_b, less_a, corner_b, 1, -1, n);
        assert forall|r: int, c: int| 0 <= r < n && 0 <= c < n implies #[trigger] patterns(r, c)
            == 1 * less_b(r, c) + (-1) * corner_c(r, c) by {
            lemma_alignment_shape(v, r, c);
            lemma_indicator_products(
                near_any(v, r),
                near_any(v, c),
                4 <= r < 9,
                4 <= c < 9,
                n - 9 <= r < n - 4,
                n - 9 <= c < n - 4,
            );
        }
        lemma_grid_sum_linear(patterns, less_b, corner_c, 1, -1, n);
        assert((5 * k) * (5 * k) == 25 * (k * k)) by (nonlinear_arith);
        assert(5 * 5 == 25);
        assert(1 * 5 == 5);
        assert(25 * (k * k - 3) == 25 * (k * k) - 75) by (nonlinear_arith);
    }
}

/// The indicator of a statement made of others, as sums and products of their
/// indicators.
proof fn lemma_indicator_products(a: bool, b: bool, p: bool, q: bool, s: bool, t: bool)
    requires
        p ==> a,
        s ==> a,
        q ==> b,
        t ==> b,
        !(p && s),
        !(q && t),
    ensures
        ind(a && b && !(p && q) && !(p && t) && !(s && q)) == 1 * (1 * (1 * (ind(a) * ind(b))
            + (-1) * (ind(p) * ind(q))) + (-1) * (ind(p) * ind(t))) + (-1) * (ind(s) * ind(q)),
{
    assert(ind(a) * ind(b) == ind(a && b)) by (nonlinear_arith)
        requires
            ind(a) == (if a {
                1int
            } else {
                0int
            }),
            ind(b) == (if b {
                1int
            } else {
                0int
            }),
            ind(a && b) == (if a && b {
                1int
            } else {
                0int
            }),
    ;
    assert(ind(p) * ind(q) == ind(p && q)) by (nonlinear_arith)
        requires
            ind(p) == (if p {
                1int
            } else {
                0int
            }),
            ind(q) == (if q {
                1int
            } else {
                0int
            }),
            ind(p && q) == (if p && q {
                1int
            } else {
                0int
            }),
    ;
    assert(ind(p) * ind(t) == ind(p && t)) by (nonlinear_arith)
        requires
            ind(p) == (if p {
                1int
            } else {
                0int
            }),
            ind(t) == (if t {
                1int
            } else {
                0int
            }),
            ind(p && t) == (if p && t {
                1int
            } else {
                0int
            }),
    ;
    assert(ind(s) * ind(q) == ind(s && q)) by (nonlinear_arith)
        requires
            ind(s) == (if s {
                1int
            } else {
                0int
            }),
            ind(q) == (if q {
                1int
            } else {
                0int
            }),
            ind(s && q) == (if s && q {
                1int
            } else {
                0int
            }),
    ;
}

/// The number of modules that belong to an alignment pattern and to a timing line:
/// five for each pattern centred on one.
proof fn lemma_overlap_count(v: int)
    requires
        1 <= v <= 40,
    ensures
        grid_sum(
            |r: int, c: int| ind(is_fixed(v, r, c) && in_alignment_pattern(v, r, c)),
            17 + 4 * v,
        ) == (if v >= 2 {
            10 * (alignment_axis_count(v) - 2)
        } else {
            0
        }),
{
    let n = 17 + 4 * v;
    let k = alignment_centers(v).len() as int;
    lemma_alignment_centers(v);
    let overlap = |r: int, c: int| ind(is_fixed(v, r, c) && in_alignment_pattern(v, r, c));
    if v == 1 {
        assert forall|r: int, c: int| 0 <= r < n && 0 <= c < n implies #[trigger] overlap(r, c)
            == ind(0 <= r < 0 && 0 <= c < 0) by {
            if in_alignment_pattern(v, r, c) {
                let (i, j) = choose|i: int, j: int| #[trigger] covered_by(v, i, j, r, c);
                assert(pattern_at(v, i, j));
            }
        }
        lemma_rectangle(overlap, n, 0, 0, 0, 0);
        assert((0 - 0) * (0 - 0) == 0);
    } else {
        let near = |x: int| ind(near_any(v, x));
        let first = |x: int| ind(4 <= x < 9);
        let last = |x: int| ind(n - 9 <= x < n - 4);
        let six = |x: int| ind(6 <= x < 7);
        lemma_band_count(v, k);
        lemma_sum_ext(near, |x: int| ind(near_first(v, k, x)), n);
        lemma_sum_interval(first, 4, 9, 1, n);
        lemma_sum_interval(last, n - 9, n - 4, 1, n);
        lemma_sum_interval(six, 6, 7, 1, n);
        let less_first = |x: int| 1 * near(x) + (-1) * first(x);
        let middle = |x: int| 1 * less_first(x) + (-1) * last(x);
        lemma_sum_linear(near, first, 1, -1, n);
        lemma_sum_linear(less_first, last, 1, -1, n);
        let in_row = |r: int, c: int| six(r) * middle(c);
        let in_column = |r: int, c: int| middle(r) * six(c);
        lemma_grid_sum_product(in_row, six, middle, n);
        lemma_grid_sum_product(in_column, middle, six, n);
        assert forall|r: int, c: int| 0 <= r < n && 0 <= c < n implies #[trigger] overlap(r, c)
            == 1 * in_row(r, c) + 1 * in_column(r, c) by {
            lemma_alignment_shape(v, r, c);
            lemma_alignment_shape(v, c, r);
            lemma_alignment_shape(v, 6, 6);
            let mid_r = near_any(v, r) && !(4 <= r < 9) && !(n - 9 <= r < n - 4);
            let mid_c = near_any(v, c) && !(4 <= c < 9) && !(n - 9 <= c < n - 4);
            assert(middle(r) == ind(mid_r));
            assert(middle(c) == ind(mid_c));
            assert(six(r) == ind(r == 6));
            assert(six(c) == ind(c == 6));
            assert(is_fixed(v, r, c) && in_alignment_pattern(v, r, c) <==> (r == 6 && mid_c) || (
            c == 6 && mid_r)) by {
                if in_alignment_pattern(v, r, c) {
                    lemma_near_edges(v, r);
                    lemma_near_edges(v, c);
                }
            }
            lemma_indicator_sum(r == 6, mid_c, c == 6, mid_r);
        }
        lemma_grid_sum_linear(overlap, in_row, in_column, 1, 1, n);
        assert(1 * (5 * k - 5 - 5) == 5 * k - 10);
    }
}

/// A coordinate near a centre lies near the first centre if it is below 9, near the
/// last if it is among the last eight, and not among the first two coordinates of
/// a version block.
proof fn lemma_near_edges(v: int, x: int)
    requires
        2 <= v <= 40,
        0 <= x < 17 + 4 * v,
        near_any(v, x),
    ensures
        x < 9 ==> 4 <= x,
        x >= 17 + 4 * v - 8 ==> x <= 17 + 4 * v - 5,
        !(17 + 4 * v - 11 <= x < 17 + 4 * v - 9),
{
    let k = alignment_centers(v).len() as int;
    lemma_alignment_centers(v);
    let q = choose|q: int| 0 <= q < k && #[trigger] near_centre(v, q, x);
    if q < k - 1 {
        lemma_centres_apart(v, q, k - 1);
    }
    if q > 0 {
        lemma_centres_apart(v, 0, q);
    }
}

/// The indicator of a disjunction of two conjunctions that exclude each other is
/// the sum of the products of the indicators.
proof fn lemma_indicator_sum(a: bool, b: bool, c: bool, d: bool)
    requires
        !(a && b && c && d),
    ensures
        ind((a && b) || (c && d)) == 1 * (ind(a) * ind(b)) + 1 * (ind(d) * ind(c)),
{
    assert(ind(a) * ind(b) == ind(a && b)) by (nonlinear_arith)
        requires
            ind(a) == (if a {
                1int
            } else {
                0int
            }),
            ind(b) == (if b {
                1int
            } else {
                0int
            }),
            ind(a && b) == (if a && b {
                1int
            } else {
                0int
            }),
    ;
    assert(ind(d) * ind(c) == ind(c && d)) by (nonlinear_arith)
        requires
            ind(c) == (if c {
                1int
            } else {
                0int
            }),
            ind(d) == (if d {
                1int
            } else {
                0int
            }),
            ind(c && d) == (if c && d {
                1int
            } else {
                0int
            }),
    ;
}

/// The number of function modules of a symbol is what its parts add up to.
proof fn lemma_function_count(v: int)
    requires
        1 <= v <= 40,
    ensures
        grid_sum(|r: int, c: int| ind(is_function_module_at(v, r, c)), 17 + 4 * v)
            == function_module_count(v),
{
    let n = 17 + 4 * v;
    let all = |r: int, c: int| ind(is_function_module_at(v, r, c));
    let fixed = |r: int, c: int| ind(is_fixed(v, r, c));
    let patterns = |r: int, c: int| ind(in_alignment_pattern(v, r, c));
    let overlap = |r: int, c: int| ind(is_fixed(v, r, c) && in_alignment_pattern(v, r, c));
    let either = |r: int, c: int| 1 * fixed(r, c) + 1 * patterns(r, c);
    lemma_fixed_count(v);
    lemma_alignment_count(v);
    lemma_overlap_count(v);
    lemma_grid_sum_linear(either, fixed, patterns, 1, 1, n);
    assert forall|r: int, c: int| 0 <= r < n && 0 <= c < n implies #[trigger] all(r, c) == 1
        * either(r, c) + (-1) * overlap(r, c) by {}
    lemma_grid_sum_linear(all, either, overlap, 1, -1, n);
    lemma_alignment_centers(v);
}

/// Serpentine count: the sweep meets as many modules as the codewords of the symbol
/// have bits, and the remainder bits of the version besides.
pub proof fn lemma_sweep_length(version: Version)
    ensures
        data_positions(version.number()).len() == data_module_count(version.number()),
        data_positions(version.number()).len() == 8 * total_codewords(version.number())
            + remainder_bits(version.number()),
{
    let v = version.number();
    lemma_sweep_total(v);
    lemma_function_count(v);
}

} // verus!
