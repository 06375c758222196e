use vstd::prelude::*;
use crate::gf256::{
    gf_add, gf_multiply, gf_product, gf_sum, lemma_product_associates, lemma_product_commutes,
    lemma_product_distributes, lemma_product_one, lemma_product_zero, lemma_xor,
};

verus! {

/// A sequence of `n` zero coefficients.
pub open spec fn zeros(n: nat) -> Seq<u8> {
    Seq::new(n, |i: int| 0u8)
}

/// The value at `x` of the polynomial whose coefficients are `p`, the highest power first.
pub open spec fn poly_eval(p: Seq<u8>, x: u8) -> u8
    decreases p.len(),
{
    if p.len() == 0 {
        0
    } else {
        gf_sum(gf_product(poly_eval(p.drop_last(), x), x), p.last())
    }
}

/// `x` raised to the power `n`.
pub open spec fn gf_power(x: u8, n: nat) -> u8
    decreases n,
{
    if n == 0 {
        1
    } else {
        gf_product(gf_power(x, (n - 1) as nat), x)
    }
}

/// The value at `x` of the polynomial whose coefficients are `p`, the constant term first.
pub open spec fn poly_eval_low(p: Seq<u8>, x: u8) -> u8
    decreases p.len(),
{
    if p.len() == 0 {
        0
    } else {
        gf_sum(
            poly_eval_low(p.drop_last(), x),
            gf_product(p.last(), gf_power(x, (p.len() - 1) as nat)),
        )
    }
}

/// Coefficient by coefficient sum of two polynomials of one length.
pub open spec fn poly_sum(a: Seq<u8>, b: Seq<u8>) -> Seq<u8> {
    Seq::new(a.len(), |i: int| gf_sum(a[i], b[i]))
}

/// Every coefficient of `p` multiplied by `c`.
pub open spec fn poly_scale(c: u8, p: Seq<u8>) -> Seq<u8> {
    Seq::new(p.len(), |i: int| gf_product(p[i], c))
}

/// The product of `p`, highest power first, and the linear factor `x + r`.
pub open spec fn poly_times_linear(p: Seq<u8>, r: u8) -> Seq<u8> {
    Seq::new(
        p.len() + 1,
        |j: int|
            gf_sum(
                if j < p.len() {
                    p[j]
                } else {
                    0
                },
                if j > 0 {
                    gf_product(p[j - 1], r)
                } else {
                    0
                },
            ),
    )
}

/// The zero polynomial has the value zero at every point.
pub proof fn lemma_eval_zeros(n: nat, x: u8)
    ensures
        poly_eval(zeros(n), x) == 0,
    decreases n,
{
    if n > 0 {
        assert(zeros(n).drop_last() =~= zeros((n - 1) as nat));
        lemma_eval_zeros((n - 1) as nat, x);
        lemma_product_zero(x, 0);
        lemma_xor(0, 0, 0);
    }
}

/// The value of a concatenation: the first part is shifted up by the length of the second.
pub proof fn lemma_eval_concat(p: Seq<u8>, q: Seq<u8>, x: u8)
    ensures
        poly_eval(p + q, x) == gf_sum(
            gf_product(poly_eval(p, x), gf_power(x, q.len())),
            poly_eval(q, x),
        ),
    decreases q.len(),
{
    if q.len() == 0 {
        assert(p + q =~= p);
        lemma_product_one(poly_eval(p, x));
        lemma_xor(poly_eval(p, x), 0, 0);
    } else {
        let q0 = q.drop_last();
        assert((p + q).drop_last() =~= p + q0);
        assert((p + q).last() == q.last());
        lemma_eval_concat(p, q0, x);
        let ep = poly_eval(p, x);
        let eq0 = poly_eval(q0, x);
        let pw = gf_power(x, q0.len());
        // ((ep * pw) ^ eq0) * x ^ last == (ep * (pw * x)) ^ (eq0 * x ^ last)
        lemma_product_distributes(x, gf_product(ep, pw), eq0);
        lemma_product_associates(ep, pw, x);
        lemma_xor(gf_product(gf_product(ep, pw), x), gf_product(eq0, x), q.last());
    }
}

/// Evaluation is additive.
pub proof fn lemma_eval_sum(a: Seq<u8>, b: Seq<u8>, x: u8)
    requires
        a.len() == b.len(),
    ensures
        poly_eval(poly_sum(a, b), x) == gf_sum(poly_eval(a, x), poly_eval(b, x)),
    decreases a.len(),
{
    if a.len() == 0 {
        lemma_xor(0, 0, 0);
    } else {
        let s = poly_sum(a, b);
        assert(s.drop_last() =~= poly_sum(a.drop_last(), b.drop_last()));
        lemma_eval_sum(a.drop_last(), b.drop_last(), x);
        let ea = poly_eval(a.drop_last(), x);
        let eb = poly_eval(b.drop_last(), x);
        lemma_product_distributes(x, ea, eb);
        let pa = gf_product(ea, x);
        let pb = gf_product(eb, x);
        lemma_xor4(pa, pb, a.last(), b.last());
    }
}

/// A sum of two sums, regrouped.
pub proof fn lemma_xor4(a: u8, b: u8, c: u8, d: u8)
    by (bit_vector)
    ensures
        (a ^ b) ^ (c ^ d) == (a ^ c) ^ (b ^ d),
{
}

/// Evaluation commutes with scaling.
pub proof fn lemma_eval_scale(c: u8, p: Seq<u8>, x: u8)
    ensures
        poly_eval(poly_scale(c, p), x) == gf_product(poly_eval(p, x), c),
    decreases p.len(),
{
    if p.len() == 0 {
        lemma_product_zero(c, 0);
    } else {
        let s = poly_scale(c, p);
        assert(s.drop_last() =~= poly_scale(c, p.drop_last()));
        lemma_eval_scale(c, p.drop_last(), x);
        let e = poly_eval(p.drop_last(), x);
        // (e * c) * x ^ (last * c) == ((e * x) ^ last) * c
        lemma_product_associates(e, c, x);
        lemma_product_commutes(c, x);
        lemma_product_associates(e, x, c);
        lemma_product_distributes(c, gf_product(e, x), p.last());
    }
}

/// The value of `p * (x + r)` is the value of `p` times the value of `x + r`.
pub proof fn lemma_eval_times_linear(p: Seq<u8>, r: u8, x: u8)
    ensures
        poly_eval(poly_times_linear(p, r), x) == gf_product(poly_eval(p, x), gf_sum(x, r)),
{
    let n = p.len();
    let shifted = p + zeros(1);
    let scaled = zeros(1) + poly_scale(r, p);
    assert(poly_times_linear(p, r) =~= poly_sum(shifted, scaled)) by {
        assert forall|j: int| 0 <= j < n + 1 implies poly_times_linear(p, r)[j] == poly_sum(
            shifted,
            scaled,
        )[j] by {
            lemma_xor(p[j], 0, 0);
        }
    }
    lemma_eval_sum(shifted, scaled, x);
    let e = poly_eval(p, x);
    // shifted: e * x ^ 0
    lemma_eval_concat(p, zeros(1), x);
    lemma_eval_zeros(1, x);
    assert(gf_power(x, 1) == x) by {
        assert(gf_power(x, 0) == 1);
        lemma_product_one(x);
    }
    lemma_xor(gf_product(e, x), 0, 0);
    assert(poly_eval(shifted, x) == gf_product(e, x));
    // scaled: 0 * x^n ^ (e * r)
    lemma_eval_concat(zeros(1), poly_scale(r, p), x);
    lemma_product_zero(gf_power(x, n), 0);
    lemma_eval_scale(r, p, x);
    lemma_xor(gf_product(e, r), 0, 0);
    assert(poly_eval(scaled, x) == gf_product(e, r));
    lemma_product_distributes(e, x, r);
}

/// The product of a polynomial and a linear factor: `x + root` for coefficients with
/// the highest power first, `1 + root * x` for coefficients with the constant term
/// first.
pub fn times_linear(poly: &Vec<u8>, root: u8) -> (product: Vec<u8>)
    requires
        poly.len() < usize::MAX,
    ensures
        product@ == poly_times_linear(poly@, root),
{
    let mut product: Vec<u8> = Vec::new();
    let mut j: usize = 0;
    while j <= poly.len()
        invariant
            j <= poly.len() + 1,
            poly.len() < usize::MAX,
            product.len() == j,
            forall|q: int| 0 <= q < j ==> product@[q] == poly_times_linear(poly@, root)[q],
        decreases poly.len() + 1 - j,
    {
        let kept: u8 = if j < poly.len() {
            poly[j]
        } else {
            0
        };
        let carried: u8 = if j > 0 {
            gf_multiply(poly[j - 1], root)
        } else {
            0
        };
        product.push(gf_add(kept, carried));
        j = j + 1;
    }
    assert(product@ =~= poly_times_linear(poly@, root));
    product
}

} // verus!
