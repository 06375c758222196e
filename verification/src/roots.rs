use vstd::prelude::*;
use crate::gf256::{
    gf_product, gf_sum, lemma_product_associates, lemma_product_commutes,
    lemma_product_distributes, lemma_product_one, lemma_product_zero, lemma_xor,
};
use crate::locator::derivative_low;
use crate::poly::{gf_power, lemma_xor4, poly_eval, poly_eval_low, poly_times_linear};

verus! {

/// Powers of two elements that are inverse to each other are inverse to each other.
pub proof fn lemma_power_of_inverse(x: u8, y: u8, n: nat)
    requires
        gf_product(x, y) == 1,
    ensures
        gf_product(gf_power(x, n), gf_power(y, n)) == 1,
        gf_power(x, n) != 0,
    decreases n,
{
    if n == 0 {
        lemma_product_one(1);
    } else {
        let px = gf_power(x, (n - 1) as nat);
        let py = gf_power(y, (n - 1) as nat);
        lemma_power_of_inverse(x, y, (n - 1) as nat);
        lemma_product_associates(px, x, gf_product(py, y));
        lemma_product_associates(x, py, y);
        lemma_product_commutes(x, py);
        lemma_product_associates(py, x, y);
        lemma_product_one(py);
    }
    lemma_product_zero(gf_power(x, n), gf_power(y, n));
}

/// A polynomial read highest power first has at `x` the value that it has, read
/// constant term first, at the inverse `y` of `x`, times `x` to its degree.
pub proof fn lemma_eval_reversed(c: Seq<u8>, x: u8, y: u8)
    requires
        c.len() >= 1,
        gf_product(x, y) == 1,
    ensures
        poly_eval(c, x) == gf_product(gf_power(x, (c.len() - 1) as nat), poly_eval_low(c, y)),
    decreases c.len(),
{
    let a = c.last();
    let c0 = c.drop_last();
    if c.len() == 1 {
        assert(poly_eval(c0, x) == 0);
        assert(poly_eval_low(c0, y) == 0);
        lemma_product_zero(x, 0);
        lemma_product_one(a);
        lemma_xor(a, 0, 0);
    } else {
        let n = (c.len() - 1) as nat;
        let low = poly_eval_low(c0, y);
        let xs = gf_power(x, (n - 1) as nat);
        let xn = gf_power(x, n);
        let yn = gf_power(y, n);
        lemma_eval_reversed(c0, x, y);
        lemma_power_of_inverse(x, y, n);
        // (xs * low) * x == (xs * x) * low
        lemma_product_associates(xs, low, x);
        lemma_product_commutes(low, x);
        lemma_product_associates(xs, x, low);
        // xn * (a * yn) == a
        lemma_product_commutes(a, yn);
        lemma_product_associates(xn, yn, a);
        lemma_product_one(a);
        lemma_product_distributes(xn, low, gf_product(a, yn));
    }
}

/// The quotient of the polynomial `p`, highest power first, by `x + r`: the values
/// that the rule of Horner passes through on the way to the value of `p` at `r`.
pub open spec fn quotient_by(p: Seq<u8>, r: u8) -> Seq<u8> {
    Seq::new((p.len() - 1) as nat, |k: int| poly_eval(p.take(k + 1), r))
}

/// A polynomial that vanishes at `r` is its quotient by `x + r` times `x + r`.
pub proof fn lemma_exact_division(p: Seq<u8>, r: u8)
    requires
        p.len() >= 1,
        poly_eval(p, r) == 0,
    ensures
        p == poly_times_linear(quotient_by(p, r), r),
        quotient_by(p, r).len() == p.len() - 1,
        p.len() >= 2 ==> quotient_by(p, r)[0] == p[0],
{
    let q = quotient_by(p, r);
    let product = poly_times_linear(q, r);
    let n = p.len() as int;
    assert forall|j: int| 0 <= j < n implies product[j] == p[j] by {
        if j < n - 1 {
            assert(p.take(j + 1).drop_last() =~= p.take(j));
            assert(p.take(j + 1).last() == p[j]);
            if j == 0 {
                assert(poly_eval(p.take(0), r) == 0);
                lemma_product_zero(r, 0);
                lemma_xor(p[j], 0, 0);
            } else {
                lemma_xor(p[j], gf_product(q[j - 1], r), 0);
            }
        } else {
            assert(p.take(n) =~= p);
            assert(p.drop_last() =~= p.take(n - 1));
            if j == 0 {
                assert(poly_eval(p.drop_last(), r) == 0);
                lemma_product_zero(r, 0);
                lemma_xor(p[j], 0, 0);
            } else {
                lemma_xor(gf_product(q[j - 1], r), p[j], 0);
            }
        }
    }
    assert(product =~= p);
    if n >= 2 {
        assert(p.take(1).drop_last() =~= p.take(0));
        assert(poly_eval(p.take(0), r) == 0);
        lemma_product_zero(r, 0);
        lemma_xor(p[0], 0, 0);
    }
}

/// Read constant term first, the product of `q` and `1 + r * x` has at `z` the value
/// of `q` times the value of `1 + r * x`.
pub proof fn lemma_eval_low_times_linear(q: Seq<u8>, r: u8, z: u8)
    ensures
        poly_eval_low(poly_times_linear(q, r), z) == gf_product(
            poly_eval_low(q, z),
            gf_sum(1, gf_product(r, z)),
        ),
    decreases q.len(),
{
    let factor = gf_sum(1, gf_product(r, z));
    let whole = poly_times_linear(q, r);
    if q.len() == 0 {
        assert(whole.drop_last() =~= Seq::<u8>::empty());
        assert(poly_eval_low(whole.drop_last(), z) == 0);
        lemma_xor(0, 0, 0);
        lemma_product_zero(gf_power(z, 0), 0);
        lemma_product_zero(factor, 0);
    } else {
        let n = q.len() as int;
        let a = q.last();
        let q0 = q.drop_last();
        let part = poly_times_linear(q0, r);
        lemma_eval_low_times_linear(q0, r, z);
        let head = poly_eval_low(part.drop_last(), z);
        assert(whole.drop_last().drop_last() =~= part.drop_last());
        let carried = part[n - 1];
        let zn1 = gf_power(z, (n - 1) as nat);
        let zn = gf_power(z, n as nat);
        assert(whole[n - 1] == gf_sum(a, carried)) by {
            lemma_xor(a, carried, 0);
            if n - 1 > 0 {
                lemma_xor(gf_product(q[n - 2], r), 0, 0);
            } else {
                lemma_xor(0, 0, 0);
            }
        }
        assert(whole[n] == gf_product(a, r)) by {
            lemma_xor(gf_product(a, r), 0, 0);
        }
        // whole(z) = head + (a + carried) z^(n-1) + (a r) z^n
        // part(z) = head + carried z^(n-1)
        let t1 = gf_product(a, zn1);
        let t2 = gf_product(carried, zn1);
        let t3 = gf_product(gf_product(a, r), zn);
        lemma_product_distributes(zn1, a, carried);
        assert(poly_eval_low(whole.drop_last(), z) == gf_sum(head, gf_sum(t1, t2)));
        assert(poly_eval_low(whole, z) == gf_sum(gf_sum(head, gf_sum(t1, t2)), t3));
        assert(poly_eval_low(part, z) == gf_sum(head, t2));
        // (low(q0) + a z^(n-1)) * factor
        let low0 = poly_eval_low(q0, z);
        lemma_product_distributes(factor, low0, t1);
        lemma_product_distributes(t1, 1, gf_product(r, z));
        lemma_product_one(t1);
        // t1 * (r z) == (a r) z^n
        lemma_product_associates(a, zn1, gf_product(r, z));
        lemma_product_commutes(r, z);
        lemma_product_associates(zn1, z, r);
        lemma_product_commutes(zn, r);
        lemma_product_associates(a, r, zn);
        assert(gf_product(t1, gf_product(r, z)) == t3);
        lemma_xor(head, t1, t2);
        lemma_xor(t1, t2, t3);
        lemma_xor(gf_sum(head, t2), t1, t3);
        lemma_xor(head, t2, t1);
        lemma_xor(head, gf_sum(t1, t2), t3);
        lemma_xor4(head, t2, t1, t3);
        lemma_xor4(head, t1, t2, t3);
    }
}

/// Sums of five terms, regrouped.
proof fn lemma_regroup(h: u8, o: u8, u: u8, m: u8, rl: u8, fd: u8)
    by (bit_vector)
    ensures
        (h ^ 0 == rl ^ fd) ==> ((h ^ 0) ^ m == (rl ^ m) ^ fd),
        (h ^ o == rl ^ fd) ==> ((h ^ (u ^ o)) ^ 0 == (rl ^ m) ^ (fd ^ (u ^ m))),
        u ^ 0 == u,
        0 ^ 0 == 0u8,
{
}

/// The two coefficients at the top of the product of `q` and `1 + r * x`.
proof fn lemma_top_of_product(q: Seq<u8>, r: u8)
    requires
        q.len() >= 1,
    ensures
        poly_times_linear(q, r)[q.len() as int] == gf_product(q.last(), r),
        poly_times_linear(q, r)[q.len() - 1] == gf_sum(
            q.last(),
            poly_times_linear(q.drop_last(), r)[q.len() - 1],
        ),
        poly_times_linear(q, r).drop_last().drop_last() == poly_times_linear(
            q.drop_last(),
            r,
        ).drop_last(),
{
    let n = q.len() as int;
    let whole = poly_times_linear(q, r);
    let part = poly_times_linear(q.drop_last(), r);
    lemma_xor(gf_product(q.last(), r), 0, 0);
    lemma_xor(q.last(), part[n - 1], 0);
    if n - 1 > 0 {
        lemma_xor(gf_product(q[n - 2], r), 0, 0);
    } else {
        lemma_xor(0, 0, 0);
    }
    assert(whole.drop_last().drop_last() =~= part.drop_last());
}

/// The formal derivative of the product of `q` and `1 + r * x`, both constant term
/// first: `r` times `q`, plus `1 + r * x` times the derivative of `q`.
pub proof fn lemma_derivative_times_linear(q: Seq<u8>, r: u8, z: u8)
    ensures
        derivative_low(poly_times_linear(q, r), z) == gf_sum(
            gf_product(r, poly_eval_low(q, z)),
            gf_product(gf_sum(1, gf_product(r, z)), derivative_low(q, z)),
        ),
    decreases q.len(),
{
    let factor = gf_sum(1, gf_product(r, z));
    let whole = poly_times_linear(q, r);
    if q.len() == 0 {
        assert(whole.drop_last() =~= Seq::<u8>::empty());
        assert(derivative_low(whole.drop_last(), z) == 0);
        lemma_xor(0, 0, 0);
        lemma_product_zero(r, 0);
        lemma_product_zero(factor, 0);
    } else {
        let n = q.len() as int;
        let a = q.last();
        let q0 = q.drop_last();
        let part = poly_times_linear(q0, r);
        lemma_derivative_times_linear(q0, r, z);
        lemma_top_of_product(q, r);
        let head = derivative_low(part.drop_last(), z);
        let carried = part[n - 1];
        let low0 = poly_eval_low(q0, z);
        let d0 = derivative_low(q0, z);
        let zn1 = gf_power(z, (n - 1) as nat);
        let top = gf_product(a, zn1);
        let moved = gf_product(r, top);
        let rl = gf_product(r, low0);
        let fd = gf_product(factor, d0);
        assert(gf_product(r, poly_eval_low(q, z)) == gf_sum(rl, moved)) by {
            lemma_product_distributes(r, low0, top);
        }
        assert(moved == gf_product(gf_product(a, r), zn1)) by {
            lemma_product_associates(r, a, zn1);
            lemma_product_commutes(r, a);
        }
        assert(derivative_low(part, z) == gf_sum(rl, fd));
        if n % 2 == 1 {
            assert(derivative_low(whole.drop_last(), z) == gf_sum(head, 0));
            assert(derivative_low(whole, z) == gf_sum(gf_sum(head, 0), moved));
            assert(derivative_low(part, z) == gf_sum(head, 0));
            assert(derivative_low(q, z) == d0) by {
                lemma_regroup(0, 0, d0, 0, 0, 0);
            }
            lemma_regroup(head, 0, 0, moved, rl, fd);
        } else {
            let zn2 = gf_power(z, (n - 2) as nat);
            let under = gf_product(a, zn2);
            let other = gf_product(carried, zn2);
            assert(gf_product(gf_sum(a, carried), zn2) == gf_sum(under, other)) by {
                lemma_product_distributes(zn2, a, carried);
            }
            assert(derivative_low(whole.drop_last(), z) == gf_sum(head, gf_sum(under, other)));
            assert(derivative_low(whole, z) == gf_sum(gf_sum(head, gf_sum(under, other)), 0));
            assert(derivative_low(part, z) == gf_sum(head, other));
            assert(derivative_low(q, z) == gf_sum(d0, under));
            assert(gf_product(under, gf_product(r, z)) == moved) by {
                lemma_product_commutes(r, z);
                lemma_product_associates(under, z, r);
                lemma_product_associates(a, zn2, z);
                lemma_product_commutes(top, r);
            }
            assert(gf_product(factor, gf_sum(d0, under)) == gf_sum(fd, gf_sum(under, moved))) by {
                lemma_product_distributes(factor, d0, under);
                lemma_product_distributes(under, 1, gf_product(r, z));
                lemma_product_one(under);
                lemma_product_commutes(factor, under);
            }
            lemma_regroup(head, other, under, moved, rl, fd);
        }
    }
}

} // verus!
