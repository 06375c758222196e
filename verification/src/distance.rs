use vstd::prelude::*;
use crate::ecc::{
    acceptable_repair, correction_of, data_of, differing_positions, is_codeword,
    lemma_encoded_is_codeword, nearest_codeword, rs_parity, syndrome, CorrectionOutcome,
};
use crate::gf256::{
    alpha_pow, gf_product, gf_sum, lemma_alpha_pow_add, lemma_product_associates,
    lemma_product_commutes, lemma_product_distributes, lemma_product_one, lemma_product_zero,
    lemma_tables, lemma_xor,
};
use crate::poly::{lemma_eval_sum, lemma_xor4, poly_eval, poly_sum};
use crate::sums::{ind, lemma_filter_count, lemma_sum_ext, sum_upto};

verus! {

/// The number of nonzero entries of a word.
pub open spec fn weight(d: Seq<u8>) -> nat
    decreases d.len(),
{
    if d.len() == 0 {
        0
    } else {
        weight(d.drop_last()) + (if d.last() != 0 {
            1nat
        } else {
            0nat
        })
    }
}

/// The word `d` with the entry at each place `p` multiplied by
/// `alpha^(offset + len - 1 - p) + x`: by the place's power of `alpha`, plus `x`.
pub open spec fn weighted(d: Seq<u8>, offset: nat, x: u8) -> Seq<u8> {
    Seq::new(
        d.len(),
        |p: int| gf_product(d[p], gf_sum(alpha_pow((offset + d.len() - 1 - p) as nat), x)),
    )
}

/// The value of a weighted word at `alpha^i` is made of the values of the word at
/// `alpha^(i + 1)` and at `alpha^i`.
pub proof fn lemma_weighted_value(d: Seq<u8>, offset: nat, x: u8, i: nat)
    ensures
        poly_eval(weighted(d, offset, x), alpha_pow(i)) == gf_sum(
            gf_product(alpha_pow(offset), poly_eval(d, alpha_pow(i + 1))),
            gf_product(x, poly_eval(d, alpha_pow(i))),
        ),
    decreases d.len(),
{
    let y = alpha_pow(i);
    let y1 = alpha_pow(i + 1);
    let w = weighted(d, offset, x);
    if d.len() == 0 {
        lemma_product_zero(alpha_pow(offset), 0);
        lemma_product_zero(x, 0);
        lemma_xor(0, 0, 0);
    } else {
        let d0 = d.drop_last();
        let a = d.last();
        let w0 = weighted(d0, offset + 1, x);
        assert(w.drop_last() =~= w0);
        lemma_weighted_value(d0, offset + 1, x, i);
        let e1 = poly_eval(d0, y1);
        let e0 = poly_eval(d0, y);
        let ao = alpha_pow(offset);
        let ao1 = alpha_pow(offset + 1);
        // left: (ao1 * e1 + x * e0) * y + a * (ao + x)
        // right: ao * (e1 * y1 + a) + x * (e0 * y + a)
        lemma_product_distributes(y, gf_product(ao1, e1), gf_product(x, e0));
        lemma_product_distributes(a, ao, x);
        lemma_product_distributes(ao, gf_product(e1, y1), a);
        lemma_product_distributes(x, gf_product(e0, y), a);
        // (ao1 * e1) * y == ao * (e1 * y1)
        lemma_product_associates(ao1, e1, y);
        lemma_product_commutes(e1, y);
        lemma_product_associates(ao1, y, e1);
        lemma_alpha_pow_add(offset + 1, i);
        lemma_alpha_pow_add(offset, i + 1);
        lemma_product_associates(ao, y1, e1);
        lemma_product_commutes(y1, e1);
        // (x * e0) * y == x * (e0 * y)
        lemma_product_associates(x, e0, y);
        lemma_product_commutes(a, ao);
        lemma_product_commutes(a, x);
        let p1 = gf_product(ao, gf_product(e1, y1));
        let p2 = gf_product(x, gf_product(e0, y));
        let p3 = gf_product(ao, a);
        let p4 = gf_product(x, a);
        assert(w.last() == gf_sum(p3, p4));
        assert(poly_eval(w, y) == gf_sum(gf_sum(p1, p2), gf_sum(p3, p4)));
        lemma_xor4(p1, p2, p3, p4);
    }
}

/// Different exponents below 255 give different powers of `alpha`.
pub proof fn lemma_powers_differ(i: nat, j: nat)
    requires
        i < 255,
        j < 255,
        i != j,
    ensures
        alpha_pow(i) != alpha_pow(j),
{
    lemma_tables(i as u8);
    lemma_tables(j as u8);
}

/// Words with nonzero entries at the same places have the same weight.
pub proof fn lemma_weight_same(a: Seq<u8>, b: Seq<u8>)
    requires
        a.len() == b.len(),
        forall|p: int| 0 <= p < a.len() ==> (a[p] != 0) == (b[p] != 0),
    ensures
        weight(a) == weight(b),
    decreases a.len(),
{
    if a.len() > 0 {
        lemma_weight_same(a.drop_last(), b.drop_last());
    }
}

/// A word that is nonzero where another is but for one place weighs one less.
pub proof fn lemma_weight_less(a: Seq<u8>, b: Seq<u8>, q: int)
    requires
        a.len() == b.len(),
        0 <= q < a.len(),
        a[q] != 0,
        forall|p: int| 0 <= p < a.len() ==> (b[p] != 0) == (a[p] != 0 && p != q),
    ensures
        weight(b) + 1 == weight(a),
    decreases a.len(),
{
    if q == a.len() - 1 {
        lemma_weight_same(a.drop_last(), b.drop_last());
    } else {
        lemma_weight_less(a.drop_last(), b.drop_last(), q);
    }
}

/// A word of positive weight has a nonzero entry, and a word of weight zero has none.
pub proof fn lemma_weight_positive(d: Seq<u8>) -> (q: int)
    requires
        weight(d) > 0,
    ensures
        0 <= q < d.len(),
        d[q] != 0,
    decreases d.len(),
{
    if d.last() != 0 {
        d.len() - 1
    } else {
        lemma_weight_positive(d.drop_last())
    }
}

/// A word of weight zero is zero everywhere.
pub proof fn lemma_weight_zero(d: Seq<u8>)
    requires
        weight(d) == 0,
    ensures
        forall|p: int| 0 <= p < d.len() ==> d[p] == 0,
    decreases d.len(),
{
    if d.len() > 0 {
        lemma_weight_zero(d.drop_last());
        assert forall|p: int| 0 <= p < d.len() implies d[p] == 0 by {
            if p < d.len() - 1 {
                assert(d.drop_last()[p] == d[p]);
            }
        }
    }
}

/// The value at 1 of a word with a single nonzero entry is that entry.
pub proof fn lemma_single_entry_value(d: Seq<u8>, q: int)
    requires
        0 <= q < d.len(),
        forall|p: int| 0 <= p < d.len() && p != q ==> d[p] == 0,
    ensures
        poly_eval(d, 1) == d[q],
    decreases d.len(),
{
    let d0 = d.drop_last();
    if q == d.len() - 1 {
        lemma_zero_word_value(d0, 1);
    } else {
        lemma_single_entry_value(d0, q);
    }
    lemma_product_one(poly_eval(d0, 1));
    lemma_xor(d[q], 0, 0);
}

/// The zero word has the value zero at every point.
pub proof fn lemma_zero_word_value(d: Seq<u8>, x: u8)
    requires
        forall|p: int| 0 <= p < d.len() ==> d[p] == 0,
    ensures
        poly_eval(d, x) == 0,
    decreases d.len(),
{
    if d.len() > 0 {
        lemma_zero_word_value(d.drop_last(), x);
        lemma_product_zero(x, 0);
        lemma_xor(0, 0, 0);
    }
}

/// A codeword with no more nonzero entries than parity codewords is zero: the
/// nonzero codewords of a code with `t` parity codewords weigh more than `t`.
pub proof fn lemma_light_codeword_is_zero(d: Seq<u8>, t: nat)
    requires
        d.len() <= 255,
        is_codeword(d, t),
        weight(d) <= t,
    ensures
        weight(d) == 0,
    decreases t,
{
    if weight(d) > 0 {
        let n = d.len();
        let q = lemma_weight_positive(d);
        let x = alpha_pow((n - 1 - q) as nat);
        let lighter = weighted(d, 0, x);
        assert forall|p: int| 0 <= p < n implies (lighter[p] != 0) == (d[p] != 0 && p != q) by {
            let factor = gf_sum(alpha_pow((n - 1 - p) as nat), x);
            lemma_product_zero(d[p], factor);
            lemma_xor(alpha_pow((n - 1 - p) as nat), x, 0);
            if p != q {
                lemma_powers_differ((n - 1 - p) as nat, (n - 1 - q) as nat);
            }
        }
        lemma_weight_less(d, lighter, q);
        assert forall|i: nat| i < t - 1 implies syndrome(lighter, i) == 0 by {
            lemma_weighted_value(d, 0, x, i);
            assert(syndrome(d, i) == 0);
            assert(syndrome(d, i + 1) == 0);
            lemma_product_zero(alpha_pow(0), 0);
            lemma_product_zero(x, 0);
            lemma_xor(0, 0, 0);
        }
        assert(is_codeword(lighter, (t - 1) as nat));
        lemma_light_codeword_is_zero(lighter, (t - 1) as nat);
        lemma_weight_zero(lighter);
        assert forall|p: int| 0 <= p < n && p != q implies d[p] == 0 by {
            assert(lighter[p] == 0);
        }
        lemma_single_entry_value(d, q);
        assert(syndrome(d, 0) == 0);
        lemma_tables(0);
        assert(false);
    }
}

/// The number of places at which two words of one length differ.
pub open spec fn distance(a: Seq<u8>, b: Seq<u8>) -> nat {
    differing_positions(a, b).len()
}

/// The distance of two words is the weight of their difference.
pub proof fn lemma_distance_is_weight(a: Seq<u8>, b: Seq<u8>)
    requires
        a.len() == b.len(),
    ensures
        distance(a, b) == weight(poly_sum(a, b)),
{
    let places = Seq::new(a.len(), |i: int| i);
    let differs = |i: int| a[i] != b[i];
    lemma_filter_count(places, differs);
    let counted = |i: int| ind(differs(places[i]));
    let d = poly_sum(a, b);
    let nonzero = |i: int| ind(d[i] != 0);
    assert forall|i: int| 0 <= i < a.len() implies #[trigger] counted(i) == nonzero(i) by {
        lemma_xor(a[i], b[i], 0);
    }
    lemma_sum_ext(counted, nonzero, a.len() as int);
    lemma_weight_is_sum(d, a.len() as int);
    assert(d.take(a.len() as int) =~= d);
}

/// The weight of a prefix of a word, as a sum of indicators.
pub proof fn lemma_weight_is_sum(d: Seq<u8>, upto: int)
    requires
        0 <= upto <= d.len(),
    ensures
        weight(d.take(upto)) == sum_upto(|i: int| ind(d[i] != 0), upto),
    decreases upto,
{
    if upto > 0 {
        lemma_weight_is_sum(d, upto - 1);
        assert(d.take(upto).drop_last() =~= d.take(upto - 1));
    }
}

/// The difference of two words is nonzero at most where one of them differs from
/// a third.
proof fn lemma_weight_triangle(r: Seq<u8>, a: Seq<u8>, b: Seq<u8>, upto: int)
    requires
        r.len() == a.len(),
        r.len() == b.len(),
        0 <= upto <= r.len(),
    ensures
        weight(poly_sum(a, b).take(upto)) <= weight(poly_sum(r, a).take(upto)) + weight(
            poly_sum(r, b).take(upto),
        ),
    decreases upto,
{
    if upto > 0 {
        lemma_weight_triangle(r, a, b, upto - 1);
        assert(poly_sum(a, b).take(upto).drop_last() =~= poly_sum(a, b).take(upto - 1));
        assert(poly_sum(r, a).take(upto).drop_last() =~= poly_sum(r, a).take(upto - 1));
        assert(poly_sum(r, b).take(upto).drop_last() =~= poly_sum(r, b).take(upto - 1));
        lemma_xor(a[upto - 1], b[upto - 1], 0);
        lemma_xor(r[upto - 1], a[upto - 1], 0);
        lemma_xor(r[upto - 1], b[upto - 1], 0);
    }
}

/// Minimum distance: two codewords that both lie within half the number of parity
/// codewords of one received word are the same codeword.
pub proof fn lemma_unique_codeword_in_reach(received: Seq<u8>, t: nat, a: Seq<u8>, b: Seq<u8>)
    requires
        received.len() <= 255,
        a.len() == received.len(),
        b.len() == received.len(),
        is_codeword(a, t),
        is_codeword(b, t),
        2 * distance(received, a) <= t,
        2 * distance(received, b) <= t,
    ensures
        a == b,
{
    let n = received.len() as int;
    let d = poly_sum(a, b);
    assert forall|i: nat| i < t implies syndrome(d, i) == 0 by {
        lemma_eval_sum(a, b, alpha_pow(i));
        assert(syndrome(a, i) == 0);
        assert(syndrome(b, i) == 0);
        lemma_xor(0, 0, 0);
    }
    lemma_weight_triangle(received, a, b, n);
    assert(d.take(n) =~= d);
    assert(poly_sum(received, a).take(n) =~= poly_sum(received, a));
    assert(poly_sum(received, b).take(n) =~= poly_sum(received, b));
    lemma_distance_is_weight(received, a);
    lemma_distance_is_weight(received, b);
    lemma_light_codeword_is_zero(d, t);
    lemma_weight_zero(d);
    assert forall|p: int| 0 <= p < n implies a[p] == b[p] by {
        assert(d[p] == 0);
        lemma_xor(a[p], b[p], 0);
    }
    assert(a =~= b);
}

/// A word differs from itself nowhere.
pub proof fn lemma_distance_to_itself(a: Seq<u8>)
    ensures
        distance(a, a) == 0,
{
    lemma_distance_is_weight(a, a);
    let d = poly_sum(a, a);
    assert forall|p: int| 0 <= p < d.len() implies (d[p] != 0) == (zeros_like(d)[p] != 0) by {
        lemma_xor(a[p], 0, 0);
    }
    lemma_weight_same(d, zeros_like(d));
    lemma_weight_of_zeros(d.len());
}

/// Correction within capacity: a codeword of which no more entries were changed
/// than half the number of its parity codewords is found again, and its data is
/// handed back. An unchanged codeword is found free of errors.
pub proof fn lemma_correction_within_capacity(codeword: Seq<u8>, received: Seq<u8>, t: nat)
    requires
        t < codeword.len() <= 255,
        is_codeword(codeword, t),
        received.len() == codeword.len(),
        2 * distance(received, codeword) <= t,
    ensures
        data_of(correction_of(received, t)) == Some(codeword.take(codeword.len() - t)),
        received == codeword ==> correction_of(received, t) == CorrectionOutcome::ErrorFree(
            codeword.take(codeword.len() - t),
        ),
{
    if is_codeword(received, t) {
        lemma_distance_to_itself(received);
        lemma_unique_codeword_in_reach(received, t, received, codeword);
    } else {
        assert(acceptable_repair(received, t, codeword));
        let chosen = nearest_codeword(received, t).unwrap();
        lemma_unique_codeword_in_reach(received, t, chosen, codeword);
    }
}

/// Beyond capacity nothing is discarded in silence: whatever correction hands back
/// is the data of a codeword that lies within half the number of parity codewords
/// of the received word, and where that codeword is not the received word itself,
/// the places at which the two differ are handed back with it.
pub proof fn lemma_correction_is_sound(received: Seq<u8>, t: nat)
    ensures
        match correction_of(received, t) {
            CorrectionOutcome::ErrorFree(data) => is_codeword(received, t) && data
                == received.take(received.len() - t),
            CorrectionOutcome::Corrected { data, error_positions, error_magnitudes } => exists|
                c: Seq<u8>,
            |
                acceptable_repair(received, t, c) && data == c.take(received.len() - t)
                    && error_positions == differing_positions(received, c),
            CorrectionOutcome::Uncorrectable => true,
        },
{
    match correction_of(received, t) {
        CorrectionOutcome::Corrected { data, error_positions, error_magnitudes } => {
            let c = nearest_codeword(received, t).unwrap();
            assert(acceptable_repair(received, t, c) && data == c.take(received.len() - t)
                && error_positions == differing_positions(received, c));
        },
        _ => {},
    }
}

/// A word of zeros as long as `d`.
pub open spec fn zeros_like(d: Seq<u8>) -> Seq<u8> {
    Seq::new(d.len(), |p: int| 0u8)
}

/// The zero word has weight zero.
pub proof fn lemma_weight_of_zeros(n: nat)
    ensures
        weight(Seq::new(n, |p: int| 0u8)) == 0,
    decreases n,
{
    if n > 0 {
        assert(Seq::new(n, |p: int| 0u8).drop_last() =~= Seq::new((n - 1) as nat, |p: int| 0u8));
        lemma_weight_of_zeros((n - 1) as nat);
    }
}

/// Encoding then correcting: the data followed by its parity is found free of errors,
/// and the data is handed back.
pub proof fn lemma_encoded_is_error_free(data: Seq<u8>, t: nat)
    requires
        data.len() >= 1,
    ensures
        correction_of(data + rs_parity(data, t), t) == CorrectionOutcome::ErrorFree(data),
{
    lemma_encoded_is_codeword(data, t);
    assert((data + rs_parity(data, t)).take(data.len() as int) =~= data);
}

} // verus!
