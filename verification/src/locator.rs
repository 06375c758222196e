use vstd::prelude::*;
use crate::ecc::prefix;
use crate::gf256::{
    alpha_pow, gf_add, gf_divide, gf_exp, gf_multiply, gf_product, gf_quotient, gf_sum,
    lemma_product_associates, lemma_product_commutes, lemma_product_distributes,
    lemma_product_one, lemma_product_zero, lemma_quotient, lemma_xor,
};
use crate::poly::{gf_power, lemma_xor4, poly_eval_low, poly_times_linear, times_linear};

verus! {

/// The sum of `c[j] * s[k - j]` over `j` below `terms`: the value that the
/// recurrence with coefficients `c` gives at place `k` of the sequence `s`.
pub open spec fn dot(c: Seq<u8>, s: Seq<u8>, k: int, terms: nat) -> u8
    decreases terms,
{
    if terms == 0 {
        0
    } else {
        gf_sum(dot(c, s, k, (terms - 1) as nat), gf_product(c[terms - 1], s[k - (terms - 1)]))
    }
}

/// Whether the recurrence with coefficients `c`, of which the first is 1, holds at
/// every place of `s` from the length of the recurrence (one less than the number
/// of its coefficients) up to `upto`, `upto` left out.
pub open spec fn generates_first(c: Seq<u8>, s: Seq<u8>, upto: int) -> bool {
    &&& c.len() >= 1
    &&& c[0] == 1
    &&& forall|k: int| c.len() - 1 <= k < upto ==> #[trigger] dot(c, s, k, c.len()) == 0
}

/// Whether the recurrence with coefficients `c`, of which the first is 1, holds at
/// every place of `s` from the length of the recurrence on.
pub open spec fn generates(c: Seq<u8>, s: Seq<u8>) -> bool {
    generates_first(c, s, s.len() as int)
}

/// The sum over `j` below `a` of `c[j]` times the value that the recurrence `o`, cut
/// at `b` terms, gives at place `k - j`.
pub open spec fn nested(c: Seq<u8>, o: Seq<u8>, s: Seq<u8>, k: int, a: nat, b: nat) -> u8
    decreases a,
{
    if a == 0 {
        0
    } else {
        gf_sum(
            nested(c, o, s, k, (a - 1) as nat, b),
            gf_product(c[a - 1], dot(o, s, k - (a - 1), b)),
        )
    }
}

/// The coefficients `c` with `coeff` times `b`, moved up by `m` places, added.
pub open spec fn updated(c: Seq<u8>, b: Seq<u8>, coeff: u8, m: int) -> Seq<u8> {
    Seq::new(
        c.len(),
        |q: int|
            if q >= m {
                gf_sum(c[q], gf_product(coeff, b[q - m]))
            } else {
                c[q]
            },
    )
}

/// The exponent of the inverse of `alpha^position`.
pub open spec fn inverse_exponent(position: int) -> nat {
    ((255 - position) % 255) as nat
}

/// The error locator of the given error positions, constant term first: the
/// product of `1 + alpha^p * x` over the positions `p`. It vanishes at the inverse
/// of the power of `alpha` of each position.
pub open spec fn locator_of(positions: Seq<int>) -> Seq<u8>
    decreases positions.len(),
{
    if positions.len() == 0 {
        seq![1u8]
    } else {
        poly_times_linear(
            locator_of(positions.drop_last()),
            alpha_pow(positions.last() as nat),
        )
    }
}

/// The error evaluator: the product of the syndromes and the locator, both constant
/// term first, cut off at as many terms as there are syndromes.
pub open spec fn evaluator_of(syndromes: Seq<u8>, locator: Seq<u8>) -> Seq<u8> {
    Seq::new(
        syndromes.len(),
        |i: int|
            dot(
                locator,
                syndromes,
                i,
                (if i < locator.len() {
                    i + 1
                } else {
                    locator.len() as int
                }) as nat,
            ),
    )
}

/// The value at `x` of the formal derivative of the polynomial `p`, constant term
/// first. Over this field only the terms of odd degree have a derivative.
pub open spec fn derivative_low(p: Seq<u8>, x: u8) -> u8
    decreases p.len(),
{
    if p.len() == 0 {
        0
    } else {
        gf_sum(
            derivative_low(p.drop_last(), x),
            if (p.len() - 1) % 2 == 1 {
                gf_product(p.last(), gf_power(x, (p.len() - 2) as nat))
            } else {
                0
            },
        )
    }
}

/// The magnitude of the error at the position of index `k`: the position's power of
/// `alpha` times the evaluator over the derivative of the locator, both taken at the
/// inverse of that power; 0 where the derivative vanishes. The factor in front
/// belongs to syndromes that start at the power zero of `alpha`: with it the
/// magnitude of a single error is the first syndrome.
pub open spec fn magnitude_at(syndromes: Seq<u8>, positions: Seq<int>, k: int) -> u8 {
    let x = alpha_pow(inverse_exponent(positions[k]));
    let locator = locator_of(positions);
    let below = derivative_low(locator, x);
    if below == 0 {
        0
    } else {
        gf_product(
            alpha_pow(positions[k] as nat),
            gf_quotient(poly_eval_low(evaluator_of(syndromes, locator), x), below),
        )
    }
}

/// The magnitudes of the errors at the given positions. A single error has the
/// first syndrome as its magnitude.
pub open spec fn magnitudes_of(syndromes: Seq<u8>, positions: Seq<int>) -> Seq<u8> {
    if positions.len() == 1 {
        seq![syndromes[0]]
    } else {
        Seq::new(positions.len(), |k: int| magnitude_at(syndromes, positions, k))
    }
}

/// The places below `length` at which the locator vanishes when taken at the
/// inverse of the place's power of `alpha`.
pub open spec fn roots_of(locator: Seq<u8>, length: nat) -> Seq<int> {
    Seq::new(length, |i: int| i).filter(
        |i: int| poly_eval_low(locator, alpha_pow(inverse_exponent(i))) == 0,
    )
}

/// The value of the recurrence reads only as many coefficients as it has terms.
proof fn lemma_dot_prefix(c: Seq<u8>, d: Seq<u8>, s: Seq<u8>, k: int, terms: nat)
    requires
        terms <= c.len(),
        terms <= d.len(),
        forall|j: int| 0 <= j < terms ==> c[j] == d[j],
    ensures
        dot(c, s, k, terms) == dot(d, s, k, terms),
    decreases terms,
{
    if terms > 0 {
        lemma_dot_prefix(c, d, s, k, (terms - 1) as nat);
    }
}

/// Terms with coefficient zero add nothing.
proof fn lemma_dot_zero_tail(c: Seq<u8>, s: Seq<u8>, k: int, from: nat, terms: nat)
    requires
        from <= terms <= c.len(),
        forall|j: int| from <= j < terms ==> c[j] == 0,
    ensures
        dot(c, s, k, terms) == dot(c, s, k, from),
    decreases terms,
{
    if terms > from {
        lemma_dot_zero_tail(c, s, k, from, (terms - 1) as nat);
        lemma_product_zero(s[k - (terms - 1)], 0);
        lemma_xor(dot(c, s, k, from), 0, 0);
    }
}

/// The value of the recurrence after an update is the value before it plus `coeff`
/// times the value of the added recurrence `m` places earlier.
proof fn lemma_dot_updated(c: Seq<u8>, b: Seq<u8>, s: Seq<u8>, coeff: u8, m: int, k: int, terms: nat)
    requires
        1 <= m,
        terms <= c.len(),
        c.len() == b.len(),
    ensures
        dot(updated(c, b, coeff, m), s, k, terms) == gf_sum(
            dot(c, s, k, terms),
            gf_product(
                coeff,
                dot(b, s, k - m, (if terms >= m {
                    terms - m
                } else {
                    0
                }) as nat),
            ),
        ),
    decreases terms,
{
    let u = updated(c, b, coeff, m);
    if terms == 0 {
        lemma_product_zero(coeff, 0);
        lemma_xor(0, 0, 0);
    } else {
        let j = terms - 1;
        lemma_dot_updated(c, b, s, coeff, m, k, j as nat);
        let before = dot(c, s, k, j as nat);
        let term = gf_product(c[j], s[k - j]);
        if j >= m {
            let added_before = dot(b, s, k - m, (j - m) as nat);
            let added_term = gf_product(b[j - m], s[k - j]);
            // u[j] * s = c[j] * s + (coeff * b[j - m]) * s
            lemma_product_distributes(s[k - j], c[j], gf_product(coeff, b[j - m]));
            lemma_product_associates(coeff, b[j - m], s[k - j]);
            // coeff * (added_before + added_term)
            lemma_product_distributes(coeff, added_before, added_term);
            lemma_xor4(before, gf_product(coeff, added_before), term, gf_product(coeff, added_term));
            assert(k - m - (j - m) == k - j);
        } else {
            lemma_product_zero(coeff, 0);
            lemma_xor(before, term, 0);
            lemma_xor(gf_sum(before, term), 0, 0);
            lemma_xor(before, 0, 0);
        }
    }
}

/// One more term of the inner recurrence adds its coefficient times the value of
/// the outer recurrence.
proof fn lemma_nested_step(c: Seq<u8>, o: Seq<u8>, s: Seq<u8>, k: int, a: nat, b: nat)
    requires
        b >= 1,
    ensures
        nested(c, o, s, k, a, b) == gf_sum(
            nested(c, o, s, k, a, (b - 1) as nat),
            gf_product(o[b - 1], dot(c, s, k - (b - 1), a)),
        ),
    decreases a,
{
    let short = (b - 1) as nat;
    if a == 0 {
        lemma_product_zero(o[b - 1], 0);
        lemma_xor(0, 0, 0);
    } else {
        let j = a - 1;
        lemma_nested_step(c, o, s, k, j as nat, b);
        let module = s[k - j - (b - 1)];
        let inner = nested(c, o, s, k, j as nat, short);
        let outer_term = gf_product(o[b - 1], dot(c, s, k - (b - 1), j as nat));
        let inner_term = gf_product(c[j], dot(o, s, k - j, short));
        let corner = gf_product(c[j], gf_product(o[b - 1], module));
        lemma_product_distributes(c[j], dot(o, s, k - j, short), gf_product(o[b - 1], module));
        lemma_product_distributes(
            o[b - 1],
            dot(c, s, k - (b - 1), j as nat),
            gf_product(c[j], module),
        );
        lemma_product_associates(c[j], o[b - 1], module);
        lemma_product_commutes(c[j], o[b - 1]);
        lemma_product_associates(o[b - 1], c[j], module);
        assert(k - (b - 1) - j == k - j - (b - 1));
        lemma_xor4(inner, outer_term, inner_term, corner);
    }
}

/// With no terms in the inner recurrence the nested sum is zero.
proof fn lemma_nested_empty(c: Seq<u8>, o: Seq<u8>, s: Seq<u8>, k: int, a: nat)
    ensures
        nested(c, o, s, k, a, 0) == 0,
    decreases a,
{
    if a > 0 {
        lemma_nested_empty(c, o, s, k, (a - 1) as nat);
        lemma_product_zero(c[a - 1], 0);
        lemma_xor(0, 0, 0);
    }
}

/// The nested sum of two recurrences is the same with the two exchanged.
proof fn lemma_nested_exchange(c: Seq<u8>, o: Seq<u8>, s: Seq<u8>, k: int, a: nat, b: nat)
    ensures
        nested(c, o, s, k, a, b) == nested(o, c, s, k, b, a),
    decreases b,
{
    if b == 0 {
        lemma_nested_empty(c, o, s, k, a);
    } else {
        lemma_nested_step(c, o, s, k, a, b);
        lemma_nested_exchange(c, o, s, k, a, (b - 1) as nat);
    }
}

/// Where the inner recurrence holds at every place that is reached, the nested sum
/// is zero.
proof fn lemma_nested_zero(c: Seq<u8>, o: Seq<u8>, s: Seq<u8>, k: int, a: nat, b: nat)
    requires
        forall|j: int| 0 <= j < a ==> #[trigger] dot(o, s, k - j, b) == 0,
    ensures
        nested(c, o, s, k, a, b) == 0,
    decreases a,
{
    if a > 0 {
        lemma_nested_zero(c, o, s, k, (a - 1) as nat, b);
        assert(dot(o, s, k - (a - 1), b) == 0);
        lemma_product_zero(c[a - 1], 0);
        lemma_xor(0, 0, 0);
    }
}

/// Where the inner recurrence holds at every place that is reached but the first,
/// the nested sum is the first coefficient times the value there.
proof fn lemma_nested_first(c: Seq<u8>, o: Seq<u8>, s: Seq<u8>, k: int, a: nat, b: nat)
    requires
        a >= 1,
        forall|j: int| 1 <= j < a ==> #[trigger] dot(o, s, k - j, b) == 0,
    ensures
        nested(c, o, s, k, a, b) == gf_product(c[0], dot(o, s, k, b)),
    decreases a,
{
    if a == 1 {
        assert(nested(c, o, s, k, 0, b) == 0);
        lemma_xor(gf_product(c[0], dot(o, s, k, b)), 0, 0);
    } else {
        lemma_nested_first(c, o, s, k, (a - 1) as nat, b);
        assert(dot(o, s, k - (a - 1), b) == 0);
        lemma_product_zero(c[a - 1], 0);
        lemma_xor(gf_product(c[0], dot(o, s, k, b)), 0, 0);
    }
}

/// A recurrence of length `l` that holds up to place `i` and fails there leaves no
/// recurrence of a length below `i + 1 - l` that holds up to and at place `i`.
pub proof fn lemma_length_change(c: Seq<u8>, l: int, o: Seq<u8>, s: Seq<u8>, i: int)
    requires
        0 <= l <= i,
        forall|k: int| l <= k < i ==> #[trigger] dot(c, s, k, (l + 1) as nat) == 0,
        dot(c, s, i, (l + 1) as nat) != 0,
        generates_first(o, s, i + 1),
    ensures
        o.len() - 1 >= i + 1 - l,
{
    let reach = o.len() - 1;
    if reach <= i - l {
        let a = (l + 1) as nat;
        let b = o.len();
        assert forall|j: int| 0 <= j < a implies #[trigger] dot(o, s, i - j, b) == 0 by {
            assert(o.len() - 1 <= i - j < i + 1);
        }
        lemma_nested_zero(c, o, s, i, a, b);
        assert forall|q: int| 1 <= q < b implies #[trigger] dot(c, s, i - q, a) == 0 by {
            assert(l <= i - q < i);
        }
        lemma_nested_first(o, c, s, i, b, a);
        lemma_nested_exchange(c, o, s, i, a, b);
        lemma_product_one(dot(c, s, i, a));
    }
}

/// The value of the recurrence with coefficients `c` at place `k` of the syndromes.
fn discrepancy(c: &Vec<u8>, syndromes: &[u8], k: usize, degree: usize) -> (d: u8)
    requires
        degree < c.len(),
        degree <= k < syndromes.len(),
    ensures
        d == dot(c@, syndromes@, k as int, (degree + 1) as nat),
{
    let mut d: u8 = 0;
    let mut j: usize = 0;
    while j <= degree
        invariant
            j <= degree + 1,
            degree < c.len(),
            degree <= k < syndromes.len(),
            d == dot(c@, syndromes@, k as int, j as nat),
        decreases degree + 1 - j,
    {
        d = gf_add(d, gf_multiply(c[j], syndromes[k - j]));
        j = j + 1;
    }
    d
}

/// The Berlekamp-Massey algorithm: a shortest recurrence that the syndromes obey.
/// The result holds the coefficients of the error locator, constant term 1 first;
/// its recurrence holds at every syndrome from its length on, and no recurrence
/// with fewer coefficients does so.
pub fn berlekamp_massey(syndromes: &[u8]) -> (locator: Vec<u8>)
    requires
        syndromes.len() < usize::MAX,
    ensures
        generates(locator@, syndromes@),
        locator.len() <= syndromes.len() + 1,
        forall|other: Seq<u8>| #[trigger]
            generates(other, syndromes@) ==> locator.len() <= other.len(),
{
    let n: usize = syndromes.len();
    let mut c: Vec<u8> = vec![0u8; n + 1];
    let mut b: Vec<u8> = vec![0u8; n + 1];
    c[0] = 1;
    b[0] = 1;
    let mut l: usize = 0;
    let mut m: usize = 1;
    let mut b_val: u8 = 1;
    let ghost mut lb: int = 0;
    let mut i: usize = 0;
    while i < n
        invariant
            i <= n,
            n == syndromes.len(),
            n < usize::MAX,
            c.len() == n + 1,
            b.len() == n + 1,
            c@[0] == 1,
            forall|j: int| l < j <= n ==> c@[j] == 0,
            forall|j: int| lb < j <= n ==> b@[j] == 0,
            l <= i,
            0 <= lb,
            1 <= m,
            l + lb + m == i + 1,
            b_val != 0,
            forall|k: int| l <= k < i ==> #[trigger] dot(c@, syndromes@, k, (l + 1) as nat) == 0,
            l >= 1 ==> dot(b@, syndromes@, i - m, (lb + 1) as nat) == b_val,
            l >= 1 ==> forall|k: int|
                lb <= k < i - m ==> #[trigger] dot(b@, syndromes@, k, (lb + 1) as nat) == 0,
            forall|other: Seq<u8>| #[trigger]
                generates_first(other, syndromes@, i as int) ==> l < other.len(),
        decreases n - i,
    {
        let d: u8 = discrepancy(&c, syndromes, i, l);
        let ghost shortest = l;
        proof {
            assert forall|other: Seq<u8>| #[trigger]
                generates_first(other, syndromes@, i + 1) implies shortest < other.len() && (d != 0
                ==> i + 1 - shortest < other.len()) by {
                assert(generates_first(other, syndromes@, i as int));
                if d != 0 {
                    lemma_length_change(c@, l as int, other, syndromes@, i as int);
                }
            }
        }
        if d == 0 {
            m = m + 1;
        } else {
            let t = c.clone();
            let coeff: u8 = gf_divide(d, b_val);
            let ghost before = c@;
            let mut j: usize = 0;
            while j + m <= n
                invariant
                    1 <= m,
                    m <= n + 1,
                    j + m <= n + 1,
                    n < usize::MAX,
                    c.len() == n + 1,
                    b.len() == n + 1,
                    before.len() == n + 1,
                    forall|q: int|
                        0 <= q <= n ==> c@[q] == (if m <= q < j + m {
                            gf_sum(before[q], gf_product(coeff, b@[q - m]))
                        } else {
                            before[q]
                        }),
                decreases n + 1 - j - m,
            {
                let value: u8 = gf_add(c[j + m], gf_multiply(coeff, b[j]));
                c[j + m] = value;
                j = j + 1;
            }
            assert(c@ =~= updated(before, b@, coeff, m as int));
            let ghost longer: int = if 2 * l <= i {
                i + 1 - l
            } else {
                l as int
            };
            proof {
                lemma_quotient(d, b_val);
                lemma_product_commutes(coeff, b_val);
                lemma_xor(d, 0, 0);
                assert forall|q: int| longer < q <= n implies c@[q] == 0 by {
                    assert(before[q] == 0);
                    if q >= m {
                        assert(b@[q - m] == 0);
                        lemma_product_zero(coeff, 0);
                        lemma_xor(0, 0, 0);
                    }
                }
                assert forall|k: int| longer <= k < i + 1 implies #[trigger] dot(
                    c@,
                    syndromes@,
                    k,
                    (longer + 1) as nat,
                ) == 0 by {
                    let terms = (longer + 1) as nat;
                    lemma_dot_updated(before, b@, syndromes@, coeff, m as int, k, terms);
                    lemma_dot_zero_tail(before, syndromes@, k, (l + 1) as nat, terms);
                    lemma_dot_zero_tail(
                        b@,
                        syndromes@,
                        k - m,
                        (lb + 1) as nat,
                        (terms - m) as nat,
                    );
                    if k < i {
                        assert(dot(before, syndromes@, k, (l + 1) as nat) == 0);
                        assert(dot(b@, syndromes@, k - m, (lb + 1) as nat) == 0);
                        lemma_product_zero(coeff, 0);
                        lemma_xor(0, 0, 0);
                    }
                }
            }
            if l <= i - l {
                proof {
                    assert(t@ == before);
                    lb = l as int;
                }
                l = i + 1 - l;
                b = t;
                b_val = d;
                m = 1;
            } else {
                m = m + 1;
            }
        }
        i = i + 1;
    }
    let locator = prefix(c.as_slice(), l + 1);
    proof {
        assert forall|k: int| locator.len() - 1 <= k < n implies #[trigger] dot(
            locator@,
            syndromes@,
            k,
            locator@.len(),
        ) == 0 by {
            lemma_dot_prefix(locator@, c@, syndromes@, k, (l + 1) as nat);
            assert(dot(c@, syndromes@, k, (l + 1) as nat) == 0);
        }
    }
    locator
}

/// The value at `x` of a polynomial given constant term first.
pub fn evaluate_low(coefficients: &[u8], x: u8) -> (value: u8)
    ensures
        value == poly_eval_low(coefficients@, x),
{
    let mut value: u8 = 0;
    let mut power: u8 = 1;
    let mut i: usize = 0;
    while i < coefficients.len()
        invariant
            i <= coefficients.len(),
            value == poly_eval_low(coefficients@.take(i as int), x),
            power == gf_power(x, i as nat),
        decreases coefficients.len() - i,
    {
        proof {
            assert(coefficients@.take(i + 1).drop_last() =~= coefficients@.take(i as int));
        }
        value = gf_add(value, gf_multiply(coefficients[i], power));
        power = gf_multiply(power, x);
        i = i + 1;
    }
    assert(coefficients@.take(i as int) =~= coefficients@);
    value
}

/// The value at `x` of the formal derivative of a polynomial given constant term first.
pub fn derivative_at(coefficients: &[u8], x: u8) -> (value: u8)
    ensures
        value == derivative_low(coefficients@, x),
{
    let mut value: u8 = 0;
    let mut power: u8 = 1;
    let mut i: usize = 0;
    while i < coefficients.len()
        invariant
            i <= coefficients.len(),
            value == derivative_low(coefficients@.take(i as int), x),
            i >= 1 ==> power == gf_power(x, (i - 1) as nat),
            i == 0 ==> power == 1,
        decreases coefficients.len() - i,
    {
        proof {
            assert(coefficients@.take(i + 1).drop_last() =~= coefficients@.take(i as int));
            lemma_xor(value, 0, 0);
        }
        if i % 2 == 1 {
            value = gf_add(value, gf_multiply(coefficients[i], power));
        }
        if i >= 1 {
            power = gf_multiply(power, x);
        }
        i = i + 1;
    }
    assert(coefficients@.take(i as int) =~= coefficients@);
    value
}

/// Chien search: the places below `message_length` at which the locator, given
/// constant term first, vanishes at the inverse of the place's power of `alpha`.
pub fn chien_search(error_locator: &[u8], message_length: usize) -> (error_positions: Vec<usize>)
    requires
        message_length <= 255,
    ensures
        error_positions@.map_values(|p: usize| p as int) == roots_of(
            error_locator@,
            message_length as nat,
        ),
{
    let mut error_positions: Vec<usize> = Vec::new();
    let ghost is_root = |i: int|
        poly_eval_low(error_locator@, alpha_pow(inverse_exponent(i))) == 0;
    let ghost as_int = |p: usize| p as int;
    let mut i: usize = 0;
    proof {
        reveal(Seq::filter);
        assert(Seq::new(0, |q: int| q).filter(is_root) =~= Seq::<int>::empty());
        assert(error_positions@.map_values(as_int) =~= Seq::<int>::empty());
    }
    while i < message_length
        invariant
            i <= message_length <= 255,
            is_root == |i: int|
                poly_eval_low(error_locator@, alpha_pow(inverse_exponent(i))) == 0,
            as_int == |p: usize| p as int,
            error_positions@.map_values(as_int) == Seq::new(i as nat, |q: int| q).filter(is_root),
        decreases message_length - i,
    {
        let alpha_inv: u8 = gf_exp((255 - i) % 255);
        let sum: u8 = evaluate_low(error_locator, alpha_inv);
        proof {
            let before = Seq::new(i as nat, |q: int| q);
            assert(Seq::new((i + 1) as nat, |q: int| q) =~= before.push(i as int));
            before.lemma_filter_push(i as int, is_root);
        }
        if sum == 0 {
            proof {
                error_positions@.lemma_push_map_commute(as_int, i);
            }
            error_positions.push(i);
        }
        i = i + 1;
    }
    error_positions
}

/// The error locator of the given error positions, constant term first.
pub fn build_locator(error_positions: &[usize]) -> (locator: Vec<u8>)
    requires
        error_positions.len() < usize::MAX,
        forall|k: int| 0 <= k < error_positions.len() ==> #[trigger] error_positions[k] <= 255,
    ensures
        locator@ == locator_of(error_positions@.map_values(|p: usize| p as int)),
        locator.len() == error_positions.len() + 1,
{
    let ghost as_int = |p: usize| p as int;
    let ghost places = error_positions@.map_values(as_int);
    let mut locator: Vec<u8> = vec![1u8];
    let mut k: usize = 0;
    assert(places.take(0) =~= Seq::<int>::empty());
    assert(locator@ =~= locator_of(places.take(0)));
    while k < error_positions.len()
        invariant
            k <= error_positions.len(),
            error_positions.len() < usize::MAX,
            forall|q: int| 0 <= q < error_positions.len() ==> #[trigger] error_positions[q] <= 255,
            as_int == |p: usize| p as int,
            places == error_positions@.map_values(as_int),
            locator@ == locator_of(places.take(k as int)),
            locator.len() == k + 1,
        decreases error_positions.len() - k,
    {
        let position: usize = error_positions[k];
        assert(error_positions[k as int] <= 255);
        let root: u8 = gf_exp(position);
        proof {
            assert(places.take(k + 1).drop_last() =~= places.take(k as int));
            assert(places.take(k + 1).last() == position as int);
        }
        locator = times_linear(&locator, root);
        k = k + 1;
    }
    assert(places.take(k as int) =~= places);
    locator
}

/// The error evaluator of syndromes and a locator.
pub fn build_evaluator(syndromes: &[u8], locator: &Vec<u8>) -> (evaluator: Vec<u8>)
    requires
        locator.len() >= 1,
    ensures
        evaluator@ == evaluator_of(syndromes@, locator@),
{
    let mut evaluator: Vec<u8> = Vec::new();
    let mut i: usize = 0;
    while i < syndromes.len()
        invariant
            i <= syndromes.len(),
            locator.len() >= 1,
            evaluator.len() == i,
            forall|q: int| 0 <= q < i ==> evaluator@[q] == evaluator_of(syndromes@, locator@)[q],
        decreases syndromes.len() - i,
    {
        let degree: usize = if i < locator.len() {
            i
        } else {
            locator.len() - 1
        };
        evaluator.push(discrepancy(locator, syndromes, i, degree));
        i = i + 1;
    }
    assert(evaluator@ =~= evaluator_of(syndromes@, locator@));
    evaluator
}

/// Forney's algorithm: the magnitudes of the errors at the given positions, from the
/// syndromes. The locator is built from the positions, the evaluator is the product
/// of syndromes and locator cut at the number of syndromes, and each magnitude is
/// read off the two at the inverse of the position's power of `alpha`.
pub fn forney_algorithm(syndromes: &[u8], error_positions: &[usize]) -> (magnitudes: Vec<u8>)
    requires
        error_positions.len() < usize::MAX,
        forall|k: int| 0 <= k < error_positions.len() ==> #[trigger] error_positions[k] <= 255,
        error_positions.len() == 1 ==> syndromes.len() >= 1,
    ensures
        magnitudes@ == magnitudes_of(
            syndromes@,
            error_positions@.map_values(|p: usize| p as int),
        ),
{
    let num_errors: usize = error_positions.len();
    let ghost as_int = |p: usize| p as int;
    let ghost places = error_positions@.map_values(as_int);
    if num_errors == 0 {
        let magnitudes: Vec<u8> = Vec::new();
        assert(magnitudes@ =~= magnitudes_of(syndromes@, places));
        return magnitudes;
    }
    if num_errors == 1 {
        let magnitudes: Vec<u8> = vec![syndromes[0]];
        assert(magnitudes@ =~= magnitudes_of(syndromes@, places));
        return magnitudes;
    }
    let error_locator = build_locator(error_positions);
    let error_evaluator = build_evaluator(syndromes, &error_locator);
    let mut magnitudes: Vec<u8> = Vec::new();
    let mut k: usize = 0;
    while k < num_errors
        invariant
            k <= num_errors,
            num_errors == error_positions.len(),
            num_errors >= 2,
            forall|q: int| 0 <= q < error_positions.len() ==> #[trigger] error_positions[q] <= 255,
            as_int == |p: usize| p as int,
            places == error_positions@.map_values(as_int),
            error_locator@ == locator_of(places),
            error_evaluator@ == evaluator_of(syndromes@, error_locator@),
            magnitudes.len() == k,
            forall|q: int| 0 <= q < k ==> magnitudes@[q] == magnitude_at(syndromes@, places, q),
        decreases num_errors - k,
    {
        let position: usize = error_positions[k];
        assert(error_positions[k as int] <= 255);
        assert(places[k as int] == position as int);
        let alpha_inv: u8 = gf_exp((255 - position) % 255);
        let omega_val: u8 = evaluate_low(error_evaluator.as_slice(), alpha_inv);
        let lambda_deriv: u8 = derivative_at(error_locator.as_slice(), alpha_inv);
        let magnitude: u8 = if lambda_deriv == 0 {
            0
        } else {
            gf_multiply(gf_exp(position), gf_divide(omega_val, lambda_deriv))
        };
        magnitudes.push(magnitude);
        k = k + 1;
    }
    assert(magnitudes@ =~= magnitudes_of(syndromes@, places));
    magnitudes
}

/// What the short cut for a single error finds: nothing without two syndromes or
/// with a first syndrome of 0; position 0 where the second syndrome is 0; else the
/// first place below `length` whose power of `alpha` is the second syndrome over
/// the first. The magnitude is the first syndrome.
pub open spec fn single_error(syndromes: Seq<u8>, length: nat, found: Option<(int, u8)>) -> bool {
    if syndromes.len() < 2 || syndromes[0] == 0 {
        found is None
    } else if syndromes[1] == 0 {
        found == Some((0int, syndromes[0]))
    } else {
        let ratio = gf_quotient(syndromes[1], syndromes[0]);
        match found {
            Some((position, magnitude)) => {
                &&& 0 <= position < length
                &&& alpha_pow(position as nat) == ratio
                &&& forall|q: nat| q < position ==> #[trigger] alpha_pow(q) != ratio
                &&& magnitude == syndromes[0]
            },
            None => forall|q: nat| q < length ==> #[trigger] alpha_pow(q) != ratio,
        }
    }
}

/// The short cut for a single error: its position and magnitude, read off the first
/// two syndromes.
pub fn try_single_error_correction(syndromes: &[u8], message_length: usize) -> (found: Option<
    (usize, u8),
>)
    ensures
        single_error(
            syndromes@,
            message_length as nat,
            match found {
                Some((position, magnitude)) => Some((position as int, magnitude)),
                None => None,
            },
        ),
{
    if syndromes.len() < 2 || syndromes[0] == 0 {
        return None;
    }
    let s0: u8 = syndromes[0];
    let s1: u8 = syndromes[1];
    if s1 == 0 {
        return Some((0, s0));
    }
    let alpha_i: u8 = gf_divide(s1, s0);
    let mut pos: usize = 0;
    while pos < message_length
        invariant
            pos <= message_length,
            syndromes.len() >= 2,
            s0 == syndromes[0],
            s0 != 0,
            syndromes[1] != 0,
            alpha_i == gf_quotient(syndromes[1], syndromes[0]),
            forall|q: nat| q < pos ==> #[trigger] alpha_pow(q) != alpha_i,
        decreases message_length - pos,
    {
        if gf_exp(pos) == alpha_i {
            return Some((pos, s0));
        }
        pos = pos + 1;
    }
    None
}

} // verus!
