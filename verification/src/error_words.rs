use vstd::prelude::*;
use crate::distance::{
    lemma_light_codeword_is_zero, lemma_powers_differ, lemma_single_entry_value,
    lemma_weight_is_sum, lemma_weight_less, lemma_weight_positive, lemma_weight_zero,
    lemma_weighted_value, lemma_zero_word_value, weight, weighted,
};
use crate::ecc::{is_codeword, syndrome, syndromes_of};
use crate::gf256::{
    alpha_pow, gf_product, gf_quotient, gf_sum, lemma_alpha_pow_add, lemma_product_associates,
    lemma_product_commutes, lemma_product_distributes, lemma_product_one, lemma_product_zero,
    lemma_quotient, lemma_tables, lemma_xor,
};
use crate::locator::{
    derivative_low, dot, evaluator_of, generates, inverse_exponent, locator_of, magnitudes_of,
    roots_of,
};
use crate::poly::{
    gf_power, lemma_eval_scale, lemma_eval_sum, lemma_eval_times_linear, poly_eval, poly_eval_low,
    poly_scale, poly_sum, poly_times_linear,
};
use crate::roots::{
    lemma_derivative_times_linear, lemma_eval_low_times_linear, lemma_eval_reversed,
    lemma_exact_division, lemma_power_of_inverse, quotient_by,
};
use crate::sums::{ind, lemma_filter_count, lemma_sum_ext, lemma_sum_reversed};

verus! {

/// The power of `alpha` that the entry at index `a` of a word of `n` entries is
/// multiplied by in the syndromes: the first entry stands for the highest power.
pub open spec fn place_power(n: nat, a: int) -> u8 {
    alpha_pow((n - 1 - a) as nat)
}

/// The word `d` with each entry multiplied by the value, at the power of `alpha` of
/// its place, of the first `j` coefficients of `c` read highest power first.
pub open spec fn graded(d: Seq<u8>, c: Seq<u8>, j: int) -> Seq<u8> {
    Seq::new(d.len(), |a: int| gf_product(d[a], poly_eval(c.take(j), place_power(d.len(), a))))
}

/// The value that the first `j` terms of a recurrence give at a place of the
/// syndromes of a word is a syndrome of the graded word.
pub proof fn lemma_exchange(d: Seq<u8>, c: Seq<u8>, t: nat, j: nat, i: nat)
    requires
        j <= c.len(),
        i + j <= t,
    ensures
        syndrome(graded(d, c, j as int), i) == dot(c, syndromes_of(d, t), i + j - 1, j),
    decreases j,
{
    let n = d.len();
    if j == 0 {
        let w = graded(d, c, 0);
        assert forall|a: int| 0 <= a < w.len() implies w[a] == 0 by {
            assert(c.take(0).len() == 0);
            lemma_product_zero(d[a], 0);
        }
        lemma_zero_word_value(w, alpha_pow(i));
    } else {
        let short = (j - 1) as nat;
        let w0 = graded(d, c, short as int);
        let w1 = graded(d, c, j as int);
        let moved = weighted(w0, 0, 0);
        let scaled = poly_scale(c[short as int], d);
        assert(w1 =~= poly_sum(moved, scaled)) by {
            assert forall|a: int| 0 <= a < n implies w1[a] == poly_sum(moved, scaled)[a] by {
                let x = place_power(n, a);
                let e = poly_eval(c.take(short as int), x);
                assert(c.take(j as int).drop_last() =~= c.take(short as int));
                assert(c.take(j as int).last() == c[short as int]);
                lemma_product_distributes(d[a], gf_product(e, x), c[short as int]);
                lemma_product_associates(d[a], e, x);
                lemma_xor(x, 0, 0);
            }
        }
        lemma_eval_sum(moved, scaled, alpha_pow(i));
        lemma_weighted_value(w0, 0, 0, i);
        lemma_eval_scale(c[short as int], d, alpha_pow(i));
        lemma_exchange(d, c, t, short, i + 1);
        lemma_tables(0);
        lemma_product_one(poly_eval(w0, alpha_pow(i + 1)));
        lemma_product_zero(poly_eval(w0, alpha_pow(i)), 0);
        lemma_xor(poly_eval(w0, alpha_pow(i + 1)), 0, 0);
        lemma_product_commutes(c[short as int], syndrome(d, i));
        assert(syndromes_of(d, t)[i as int] == syndrome(d, i));
    }
}

/// A word that is zero wherever another is weighs no more.
pub proof fn lemma_weight_within(w: Seq<u8>, d: Seq<u8>)
    requires
        w.len() == d.len(),
        forall|a: int| 0 <= a < d.len() && d[a] == 0 ==> w[a] == 0,
    ensures
        weight(w) <= weight(d),
    decreases d.len(),
{
    if d.len() > 0 {
        lemma_weight_within(w.drop_last(), d.drop_last());
    }
}

/// A recurrence that the syndromes of a word obey, and that is short enough for
/// the number of syndromes, vanishes at the power of `alpha` of every nonzero entry
/// of the word, its coefficients read highest power first.
pub proof fn lemma_recurrence_vanishes(d: Seq<u8>, c: Seq<u8>, t: nat)
    requires
        d.len() <= 255,
        generates(c, syndromes_of(d, t)),
        c.len() - 1 + weight(d) <= t,
    ensures
        forall|a: int|
            0 <= a < d.len() && d[a] != 0 ==> poly_eval(c, #[trigger] place_power(d.len(), a))
                == 0,
{
    let n = d.len();
    let length = (c.len() - 1) as nat;
    let rest = (t - length) as nat;
    let w = graded(d, c, c.len() as int);
    let s = syndromes_of(d, t);
    assert(c.take(c.len() as int) =~= c);
    assert forall|i: nat| i < rest implies syndrome(w, i) == 0 by {
        lemma_exchange(d, c, t, c.len(), i);
        assert(dot(c, s, (i + length) as int, c.len()) == 0);
    }
    assert(is_codeword(w, rest));
    assert forall|a: int| 0 <= a < n && d[a] == 0 implies w[a] == 0 by {
        lemma_product_zero(d[a], poly_eval(c, place_power(n, a)));
    }
    lemma_weight_within(w, d);
    lemma_light_codeword_is_zero(w, rest);
    lemma_weight_zero(w);
    assert forall|a: int| 0 <= a < n && d[a] != 0 implies poly_eval(
        c,
        #[trigger] place_power(n, a),
    ) == 0 by {
        assert(w[a] == 0);
        lemma_product_zero(d[a], poly_eval(c, place_power(n, a)));
    }
}

/// A polynomial with no more coefficients than a word has nonzero entries, which
/// vanishes at the power of `alpha` of each of these entries, is zero.
pub proof fn lemma_root_bound(p: Seq<u8>, d: Seq<u8>)
    requires
        d.len() <= 255,
        p.len() <= weight(d),
        forall|a: int|
            0 <= a < d.len() && d[a] != 0 ==> poly_eval(p, #[trigger] place_power(d.len(), a))
                == 0,
    ensures
        forall|j: int| 0 <= j < p.len() ==> p[j] == 0,
    decreases p.len(),
{
    if p.len() > 0 {
        let n = d.len();
        let q = lemma_weight_positive(d);
        let r = place_power(n, q);
        lemma_exact_division(p, r);
        let quotient = quotient_by(p, r);
        let thinner = weighted(d, 0, r);
        assert forall|a: int| 0 <= a < n implies (thinner[a] != 0) == (d[a] != 0 && a != q) by {
            let x = alpha_pow((n - 1 - a) as nat);
            lemma_product_zero(d[a], gf_sum(x, r));
            lemma_xor(x, r, 0);
            if a != q {
                lemma_powers_differ((n - 1 - a) as nat, (n - 1 - q) as nat);
            }
        }
        lemma_weight_less(d, thinner, q);
        assert forall|a: int| 0 <= a < thinner.len() && thinner[a] != 0 implies poly_eval(
            quotient,
            #[trigger] place_power(thinner.len(), a),
        ) == 0 by {
            let x = place_power(n, a);
            lemma_eval_times_linear(quotient, r, x);
            assert(poly_eval(p, x) == 0);
            lemma_powers_differ((n - 1 - a) as nat, (n - 1 - q) as nat);
            lemma_xor(x, r, 0);
            lemma_product_zero(poly_eval(quotient, x), gf_sum(x, r));
        }
        lemma_root_bound(quotient, thinner);
        assert forall|j: int| 0 <= j < p.len() implies p[j] == 0 by {
            lemma_product_zero(r, 0);
            lemma_xor(0, 0, 0);
        }
    }
}

/// The places of the nonzero entries of a word among those that stand for a power
/// of `alpha` below `m`, each place named by its power, in rising order.
pub open spec fn places_below(d: Seq<u8>, m: nat) -> Seq<int> {
    Seq::new(m, |i: int| i).filter(|i: int| d[d.len() - 1 - i] != 0)
}

/// The places of the nonzero entries of a word, each named by the power of `alpha`
/// that it stands for, in rising order.
pub open spec fn error_places(d: Seq<u8>) -> Seq<int> {
    places_below(d, d.len())
}

/// The entries of a word at the given places.
pub open spec fn entries_at(d: Seq<u8>, places: Seq<int>) -> Seq<u8> {
    places.map_values(|i: int| d[d.len() - 1 - i])
}

/// The places below `m + 1` are those below `m`, and `m` if the entry there is not
/// zero.
pub proof fn lemma_places_step(d: Seq<u8>, m: nat)
    ensures
        places_below(d, m + 1) == (if d[d.len() - 1 - m] != 0 {
            places_below(d, m).push(m as int)
        } else {
            places_below(d, m)
        }),
        places_below(d, 0).len() == 0,
{
    let pred = |i: int| d[d.len() - 1 - i] != 0;
    let before = Seq::new(m, |i: int| i);
    assert(Seq::new(m + 1, |i: int| i) =~= before.push(m as int));
    before.lemma_filter_push(m as int, pred);
    reveal(Seq::filter);
    assert(Seq::new(0, |i: int| i).filter(pred) =~= Seq::<int>::empty());
}

/// The locator of the places below `m`: its length, its first coefficient, its
/// roots, and what the places hold.
pub proof fn lemma_locator_below(d: Seq<u8>, m: nat)
    requires
        m <= d.len(),
    ensures
        locator_of(places_below(d, m)).len() == places_below(d, m).len() + 1,
        locator_of(places_below(d, m))[0] == 1,
        forall|i: int|
            0 <= i < m && d[d.len() - 1 - i] != 0 ==> poly_eval(
                locator_of(places_below(d, m)),
                #[trigger] alpha_pow(i as nat),
            ) == 0,
        forall|k: int|
            0 <= k < places_below(d, m).len() ==> 0 <= (#[trigger] places_below(d, m)[k]) < m
                && d[d.len() - 1 - places_below(d, m)[k]] != 0,
        forall|i: int|
            0 <= i < m && d[d.len() - 1 - i] != 0 ==> #[trigger] places_below(d, m).contains(i),
    decreases m,
{
    lemma_places_step(d, (m - 1) as nat);
    if m > 0 {
        let last = (m - 1) as nat;
        let before = places_below(d, last);
        let places = places_below(d, m);
        lemma_locator_below(d, last);
        if d[d.len() - 1 - last] != 0 {
            let r = alpha_pow(last);
            assert(places.drop_last() =~= before);
            assert(places.last() == last);
            assert(locator_of(places) == poly_times_linear(locator_of(before), r));
            lemma_xor(1, 0, 0);
            assert forall|i: int| 0 <= i < m && d[d.len() - 1 - i] != 0 implies poly_eval(
                locator_of(places),
                #[trigger] alpha_pow(i as nat),
            ) == 0 by {
                let x = alpha_pow(i as nat);
                lemma_eval_times_linear(locator_of(before), r, x);
                lemma_xor(x, r, 0);
                lemma_product_zero(poly_eval(locator_of(before), x), gf_sum(x, r));
            }
            assert forall|i: int| 0 <= i < m && d[d.len() - 1 - i] != 0 implies #[trigger] places.contains(
                i,
            ) by {
                if i < last {
                    assert(before.contains(i));
                    let k = choose|k: int| 0 <= k < before.len() && before[k] == i;
                    assert(places[k] == i);
                } else {
                    assert(places[places.len() - 1] == i);
                }
            }
        }
    }
}

/// A word has as many places of nonzero entries as it weighs.
pub proof fn lemma_places_count(d: Seq<u8>)
    ensures
        error_places(d).len() == weight(d),
{
    let n = d.len();
    let all = Seq::new(n, |i: int| i);
    let pred = |i: int| d[d.len() - 1 - i] != 0;
    lemma_filter_count(all, pred);
    let counted = |i: int| ind(pred(all[i]));
    let nonzero = |i: int| ind(d[i] != 0);
    let backwards = |i: int| nonzero(n - 1 - i);
    assert forall|i: int| 0 <= i < n implies #[trigger] counted(i) == backwards(i) by {}
    lemma_sum_ext(counted, backwards, n as int);
    lemma_sum_reversed(nonzero, n as int);
    lemma_weight_is_sum(d, n as int);
    assert(d.take(n as int) =~= d);
}

/// The locator of a word generates its syndromes.
pub proof fn lemma_locator_generates(d: Seq<u8>, t: nat)
    requires
        d.len() <= 255,
    ensures
        generates(locator_of(error_places(d)), syndromes_of(d, t)),
{
    let n = d.len();
    let locator = locator_of(error_places(d));
    let s = syndromes_of(d, t);
    lemma_locator_below(d, n);
    let length = (locator.len() - 1) as nat;
    assert(locator.take(locator.len() as int) =~= locator);
    assert forall|k: int| locator.len() - 1 <= k < s.len() implies #[trigger] dot(
        locator,
        s,
        k,
        locator.len(),
    ) == 0 by {
        let i = (k - length) as nat;
        lemma_exchange(d, locator, t, locator.len(), i);
        let w = graded(d, locator, locator.len() as int);
        assert forall|a: int| 0 <= a < w.len() implies w[a] == 0 by {
            let x = alpha_pow((n - 1 - a) as nat);
            if d[a] != 0 {
                assert(d[n - 1 - (n - 1 - a)] != 0);
                assert(poly_eval(locator, alpha_pow((n - 1 - a) as nat)) == 0);
            }
            lemma_product_zero(d[a], poly_eval(locator, x));
        }
        lemma_zero_word_value(w, alpha_pow(i));
    }
}

/// A power of `alpha` times the power with the inverse exponent is 1.
pub proof fn lemma_inverse_power(i: int)
    requires
        0 <= i < 255,
    ensures
        gf_product(alpha_pow(i as nat), alpha_pow(inverse_exponent(i))) == 1,
{
    lemma_alpha_pow_add(i as nat, inverse_exponent(i));
    lemma_tables(0);
}

/// Filtering by two predicates that agree on the entries of a sequence gives the
/// same.
pub proof fn lemma_filter_agrees<A>(s: Seq<A>, p: spec_fn(A) -> bool, q: spec_fn(A) -> bool)
    requires
        forall|i: int| 0 <= i < s.len() ==> p(s[i]) == q(s[i]),
    ensures
        s.filter(p) == s.filter(q),
    decreases s.len(),
{
    reveal(Seq::filter);
    if s.len() > 0 {
        lemma_filter_agrees(s.drop_last(), p, q);
    }
}

/// A shortest recurrence that the syndromes of a word obey, where the word has at
/// most half as many nonzero entries as there are syndromes: it has one
/// coefficient more than the word has nonzero entries, and it vanishes, read
/// constant term first, at the inverse of the power of `alpha` of a place exactly
/// where the entry of the word is not zero.
pub proof fn lemma_shortest_recurrence(d: Seq<u8>, t: nat, c: Seq<u8>)
    requires
        d.len() <= 255,
        2 * weight(d) <= t,
        generates(c, syndromes_of(d, t)),
        forall|other: Seq<u8>| #[trigger]
            generates(other, syndromes_of(d, t)) ==> c.len() <= other.len(),
    ensures
        c.len() == weight(d) + 1,
        roots_of(c, d.len()) == error_places(d),
{
    let n = d.len();
    let locator = locator_of(error_places(d));
    lemma_locator_generates(d, t);
    lemma_locator_below(d, n);
    lemma_places_count(d);
    assert(c.len() <= locator.len());
    lemma_recurrence_vanishes(d, c, t);
    if c.len() <= weight(d) {
        lemma_root_bound(c, d);
        assert(false);
    }
    let is_root = |i: int| poly_eval_low(c, alpha_pow(inverse_exponent(i))) == 0;
    let is_place = |i: int| d[d.len() - 1 - i] != 0;
    let all = Seq::new(n, |i: int| i);
    assert forall|i: int| 0 <= i < all.len() implies is_root(all[i]) == is_place(all[i]) by {
        let x = alpha_pow(i as nat);
        let y = alpha_pow(inverse_exponent(i));
        lemma_inverse_power(i);
        lemma_eval_reversed(c, x, y);
        lemma_power_of_inverse(x, y, (c.len() - 1) as nat);
        lemma_product_zero(gf_power(x, (c.len() - 1) as nat), poly_eval_low(c, y));
        let a = n - 1 - i;
        assert(place_power(n, a) == x);
        if d[a] == 0 && poly_eval(c, x) == 0 {
            let more = d.update(a, 1u8);
            assert forall|b: int| 0 <= b < n implies (d[b] != 0) == (more[b] != 0 && b != a) by {}
            lemma_weight_less(more, d, a);
            assert forall|b: int| 0 <= b < more.len() && more[b] != 0 implies poly_eval(
                c,
                #[trigger] place_power(more.len(), b),
            ) == 0 by {
                if b != a {
                    assert(d[b] != 0);
                    assert(poly_eval(c, place_power(n, b)) == 0);
                }
            }
            lemma_root_bound(c, more);
            assert(false);
        }
    }
    lemma_filter_agrees(all, is_root, is_place);
}

/// Coefficients of zero at the top of a polynomial, constant term first, add
/// nothing to its value.
pub proof fn lemma_low_zero_tail(p: Seq<u8>, m: int, z: u8)
    requires
        0 <= m <= p.len(),
        forall|k: int| m <= k < p.len() ==> p[k] == 0,
    ensures
        poly_eval_low(p, z) == poly_eval_low(p.take(m), z),
    decreases p.len(),
{
    if p.len() > m {
        lemma_low_zero_tail(p.drop_last(), m, z);
        assert(p.drop_last().take(m) =~= p.take(m));
        lemma_product_zero(gf_power(z, (p.len() - 1) as nat), 0);
        lemma_xor(poly_eval_low(p.drop_last(), z), 0, 0);
    } else {
        assert(p.take(m) =~= p);
    }
}

/// The word `d` with each entry multiplied by the value at `z` of the first `m`
/// coefficients, constant term first, of the quotient of `lam` by `x` plus the
/// power of `alpha` of the entry's place.
pub open spec fn spread(d: Seq<u8>, lam: Seq<u8>, m: int, z: u8) -> Seq<u8> {
    Seq::new(
        d.len(),
        |a: int|
            gf_product(
                d[a],
                poly_eval_low(quotient_by(lam, place_power(d.len(), a)).take(m), z),
            ),
    )
}

/// The first coefficients of the evaluator of a word, taken at `z`, are the sum of
/// the entries of the spread word.
pub proof fn lemma_evaluator_prefix(d: Seq<u8>, t: nat, m: nat, z: u8)
    requires
        d.len() <= 255,
        m <= weight(d) <= t,
    ensures
        poly_eval_low(
            evaluator_of(syndromes_of(d, t), locator_of(error_places(d))).take(m as int),
            z,
        ) == poly_eval(spread(d, locator_of(error_places(d)), m as int, z), 1),
    decreases m,
{
    let n = d.len();
    let s = syndromes_of(d, t);
    let lam = locator_of(error_places(d));
    let omega = evaluator_of(s, lam);
    lemma_locator_below(d, n);
    lemma_places_count(d);
    if m == 0 {
        let v = spread(d, lam, 0, z);
        assert forall|a: int| 0 <= a < v.len() implies v[a] == 0 by {
            assert(quotient_by(lam, place_power(n, a)).take(0).len() == 0);
            lemma_product_zero(d[a], 0);
        }
        lemma_zero_word_value(v, 1);
        assert(omega.take(0).len() == 0);
    } else {
        let k = (m - 1) as nat;
        lemma_evaluator_prefix(d, t, k, z);
        let v0 = spread(d, lam, k as int, z);
        let v1 = spread(d, lam, m as int, z);
        let g = graded(d, lam, m as int);
        let zk = gf_power(z, k);
        assert(omega.take(m as int).drop_last() =~= omega.take(k as int));
        assert(omega.take(m as int).last() == omega[k as int]);
        assert(omega[k as int] == dot(lam, s, k as int, m));
        lemma_exchange(d, lam, t, m, 0);
        lemma_tables(0);
        assert(omega[k as int] == poly_eval(g, 1));
        assert(v1 =~= poly_sum(v0, poly_scale(zk, g))) by {
            assert forall|a: int| 0 <= a < n implies v1[a] == poly_sum(v0, poly_scale(zk, g))[a] by {
                let quotient = quotient_by(lam, place_power(n, a));
                assert(quotient.take(m as int).drop_last() =~= quotient.take(k as int));
                assert(quotient.take(m as int).last() == quotient[k as int]);
                let low0 = poly_eval_low(quotient.take(k as int), z);
                lemma_product_distributes(d[a], low0, gf_product(quotient[k as int], zk));
                lemma_product_associates(d[a], quotient[k as int], zk);
            }
        }
        lemma_eval_sum(v0, poly_scale(zk, g), 1);
        lemma_eval_scale(zk, g, 1);
    }
}

/// The quotient of the locator of a word by the factor of one of its places does
/// not vanish at the inverse of the power of that place.
proof fn lemma_quotient_stays(d: Seq<u8>, a: int)
    requires
        d.len() <= 255,
        0 <= a < d.len(),
        d[a] != 0,
    ensures
        poly_eval_low(
            quotient_by(locator_of(error_places(d)), place_power(d.len(), a)),
            alpha_pow(inverse_exponent(d.len() - 1 - a)),
        ) != 0,
{
    let n = d.len();
    let i = n - 1 - a;
    let x = place_power(n, a);
    let z = alpha_pow(inverse_exponent(i));
    let lam = locator_of(error_places(d));
    let quotient = quotient_by(lam, x);
    lemma_locator_below(d, n);
    lemma_places_count(d);
    assert(d[n - 1 - i] != 0);
    assert(poly_eval(lam, alpha_pow(i as nat)) == 0);
    assert(error_places(d).contains(i));
    lemma_exact_division(lam, x);
    if poly_eval_low(quotient, z) == 0 {
        lemma_inverse_power(i);
        lemma_eval_reversed(quotient, x, z);
        lemma_product_zero(gf_power(x, (quotient.len() - 1) as nat), 0);
        assert forall|b: int| 0 <= b < n && d[b] != 0 implies poly_eval(
            quotient,
            #[trigger] place_power(n, b),
        ) == 0 by {
            let y = place_power(n, b);
            if b != a {
                assert(d[n - 1 - (n - 1 - b)] != 0);
                assert(poly_eval(lam, alpha_pow((n - 1 - b) as nat)) == 0);
                lemma_eval_times_linear(quotient, x, y);
                lemma_powers_differ((n - 1 - b) as nat, (n - 1 - a) as nat);
                lemma_xor(y, x, 0);
                lemma_product_zero(poly_eval(quotient, y), gf_sum(y, x));
            }
        }
        lemma_root_bound(quotient, d);
        assert(false);
    }
}

/// The quotient of the locator of a word by the factor of one of its places
/// vanishes at the inverse of the power of every other place.
proof fn lemma_quotient_vanishes(d: Seq<u8>, a: int, b: int)
    requires
        d.len() <= 255,
        0 <= a < d.len(),
        0 <= b < d.len(),
        d[a] != 0,
        d[b] != 0,
        a != b,
    ensures
        poly_eval_low(
            quotient_by(locator_of(error_places(d)), place_power(d.len(), b)),
            alpha_pow(inverse_exponent(d.len() - 1 - a)),
        ) == 0,
{
    let n = d.len();
    let i = n - 1 - a;
    let x = place_power(n, a);
    let y = place_power(n, b);
    let z = alpha_pow(inverse_exponent(i));
    let lam = locator_of(error_places(d));
    let quotient = quotient_by(lam, y);
    lemma_locator_below(d, n);
    assert(d[n - 1 - i] != 0);
    assert(poly_eval(lam, alpha_pow(i as nat)) == 0);
    assert(d[n - 1 - (n - 1 - b)] != 0);
    assert(poly_eval(lam, alpha_pow((n - 1 - b) as nat)) == 0);
    lemma_inverse_power(i);
    lemma_eval_reversed(lam, x, z);
    lemma_power_of_inverse(x, z, (lam.len() - 1) as nat);
    lemma_product_zero(gf_power(x, (lam.len() - 1) as nat), poly_eval_low(lam, z));
    assert(poly_eval_low(lam, z) == 0);
    lemma_exact_division(lam, y);
    lemma_eval_low_times_linear(quotient, y, z);
    let factor = gf_sum(1, gf_product(y, z));
    if factor == 0 {
        lemma_xor(1, gf_product(y, z), 0);
        lemma_product_associates(x, y, z);
        lemma_product_commutes(x, y);
        lemma_product_associates(y, x, z);
        lemma_product_one(x);
        lemma_product_one(y);
        lemma_powers_differ((n - 1 - b) as nat, (n - 1 - a) as nat);
        assert(false);
    }
    lemma_product_zero(poly_eval_low(quotient, z), factor);
}

/// Forney's formula at one place of a word: the derivative of the locator does not
/// vanish there, and the power of `alpha` of the place times the evaluator over
/// the derivative is the entry of the word.
pub proof fn lemma_magnitude(d: Seq<u8>, t: nat, a: int)
    requires
        d.len() <= 255,
        weight(d) <= t,
        0 <= a < d.len(),
        d[a] != 0,
    ensures
        derivative_low(
            locator_of(error_places(d)),
            alpha_pow(inverse_exponent(d.len() - 1 - a)),
        ) != 0,
        gf_product(
            alpha_pow((d.len() - 1 - a) as nat),
            gf_quotient(
                poly_eval_low(
                    evaluator_of(syndromes_of(d, t), locator_of(error_places(d))),
                    alpha_pow(inverse_exponent(d.len() - 1 - a)),
                ),
                derivative_low(
                    locator_of(error_places(d)),
                    alpha_pow(inverse_exponent(d.len() - 1 - a)),
                ),
            ),
        ) == d[a],
{
    let n = d.len();
    let i = n - 1 - a;
    let x = place_power(n, a);
    let z = alpha_pow(inverse_exponent(i));
    let s = syndromes_of(d, t);
    let lam = locator_of(error_places(d));
    let omega = evaluator_of(s, lam);
    let count = weight(d);
    let quotient = quotient_by(lam, x);
    let q = poly_eval_low(quotient, z);
    lemma_locator_below(d, n);
    lemma_places_count(d);
    lemma_locator_generates(d, t);
    lemma_inverse_power(i);
    assert(d[n - 1 - i] != 0);
    assert(poly_eval(lam, alpha_pow(i as nat)) == 0);
    assert(error_places(d).contains(i));
    lemma_exact_division(lam, x);
    lemma_quotient_stays(d, a);
    // The derivative of the locator.
    lemma_derivative_times_linear(quotient, x, z);
    lemma_xor(1, 1, 0);
    lemma_product_zero(derivative_low(quotient, z), 0);
    lemma_xor(gf_product(x, q), 0, 0);
    let below = derivative_low(lam, z);
    assert(below == gf_product(x, q));
    lemma_alpha_pow_add(i as nat, 0);
    lemma_product_zero(x, q);
    // The evaluator.
    assert forall|k: int| count <= k < omega.len() implies omega[k] == 0 by {
        assert(dot(lam, s, k, lam.len()) == 0);
    }
    lemma_low_zero_tail(omega, count as int, z);
    lemma_evaluator_prefix(d, t, count, z);
    let v = spread(d, lam, count as int, z);
    assert forall|b: int| 0 <= b < v.len() && b != a implies v[b] == 0 by {
        let other = quotient_by(lam, place_power(n, b));
        assert(other.take(count as int) =~= other);
        if d[b] != 0 {
            lemma_quotient_vanishes(d, a, b);
        }
        lemma_product_zero(d[b], poly_eval_low(other, z));
    }
    lemma_single_entry_value(v, a);
    assert(quotient.take(count as int) =~= quotient);
    let above = poly_eval_low(omega, z);
    assert(above == gf_product(d[a], q));
    // x * (above / below) == d[a]
    let ratio = gf_quotient(above, below);
    lemma_quotient(above, below);
    lemma_product_associates(ratio, x, q);
    lemma_quotient(gf_product(ratio, x), q);
    lemma_quotient(d[a], q);
    lemma_product_commutes(ratio, x);
}

/// Forney's algorithm finds the entries of a word: from the syndromes of a word
/// with no more nonzero entries than there are syndromes and from the places of
/// these entries, it gives the entries.
pub proof fn lemma_forney(d: Seq<u8>, t: nat)
    requires
        d.len() <= 255,
        weight(d) <= t,
    ensures
        magnitudes_of(syndromes_of(d, t), error_places(d)) == entries_at(d, error_places(d)),
{
    let n = d.len();
    let s = syndromes_of(d, t);
    let places = error_places(d);
    let found = magnitudes_of(s, places);
    let entries = entries_at(d, places);
    lemma_locator_below(d, n);
    lemma_places_count(d);
    if places.len() == 1 {
        let a = n - 1 - places[0];
        let thinner = d.update(a, 0u8);
        assert forall|b: int| 0 <= b < n implies (thinner[b] != 0) == (d[b] != 0 && b != a) by {}
        lemma_weight_less(d, thinner, a);
        lemma_weight_zero(thinner);
        assert forall|b: int| 0 <= b < n && b != a implies d[b] == 0 by {
            assert(thinner[b] == 0);
        }
        lemma_single_entry_value(d, a);
        lemma_tables(0);
        assert(s[0] == syndrome(d, 0));
        assert(found =~= entries);
    } else {
        assert forall|k: int| 0 <= k < places.len() implies found[k] == entries[k] by {
            let a = n - 1 - places[k];
            lemma_magnitude(d, t, a);
        }
        assert(found =~= entries);
    }
}

/// The roots that the Chien search finds are places of the word.
pub proof fn lemma_roots_in_range(c: Seq<u8>, n: nat, q: int)
    requires
        0 <= q < roots_of(c, n).len(),
    ensures
        0 <= roots_of(c, n)[q] < n,
{
    let all = Seq::new(n, |i: int| i);
    let is_root = |i: int| poly_eval_low(c, alpha_pow(inverse_exponent(i))) == 0;
    let found = roots_of(c, n)[q];
    assert(all.filter(is_root).contains(found));
    all.lemma_filter_contains_rev(is_root, found);
    let j = choose|j: int| 0 <= j < all.len() && all[j] == found;
    assert(all[j] == j);
}

} // verus!
