use vstd::prelude::*;
use crate::block_decoder::decode_block;
use crate::distance::lemma_unique_codeword_in_reach;
use crate::gf256::{
    alpha_pow, gf_add, gf_exp, gf_multiply, gf_product, gf_sum, lemma_product_one,
    lemma_product_zero, lemma_xor,
};
use crate::poly::{
    gf_power, lemma_eval_concat, lemma_eval_scale, lemma_eval_sum, lemma_eval_times_linear,
    lemma_eval_zeros, poly_eval, poly_scale, poly_sum, poly_times_linear, times_linear, zeros,
};

verus! {

/// The generator polynomial of degree `t`, highest power first: the product of
/// `x + alpha^i` for `i` below `t`.
pub open spec fn generator_poly(t: nat) -> Seq<u8>
    decreases t,
{
    if t == 0 {
        seq![1u8]
    } else {
        poly_times_linear(generator_poly((t - 1) as nat), alpha_pow((t - 1) as nat))
    }
}

/// One step of long division: the multiple of `g` that clears coefficient `i` of `m`
/// is added to `m` from position `i` on.
pub open spec fn reduce_step(m: Seq<u8>, g: Seq<u8>, i: int) -> Seq<u8> {
    Seq::new(
        m.len(),
        |j: int|
            if i <= j < i + g.len() {
                gf_sum(m[j], gf_product(g[j - i], m[i]))
            } else {
                m[j]
            },
    )
}

/// `m` after the first `k` steps of long division by `g`.
pub open spec fn reduce(m: Seq<u8>, g: Seq<u8>, k: nat) -> Seq<u8>
    decreases k,
{
    if k == 0 {
        m
    } else {
        reduce_step(reduce(m, g, (k - 1) as nat), g, k - 1)
    }
}

/// The `t` parity codewords of `data`: the remainder of `data(x) * x^t` on division by
/// the generator polynomial of degree `t`.
pub open spec fn rs_parity(data: Seq<u8>, t: nat) -> Seq<u8> {
    reduce(data + zeros(t), generator_poly(t), data.len()).subrange(
        data.len() as int,
        (data.len() + t) as int,
    )
}

/// The syndrome of index `i`: the value of the received word at `alpha^i`.
pub open spec fn syndrome(word: Seq<u8>, i: nat) -> u8 {
    poly_eval(word, alpha_pow(i))
}

/// The `t` syndromes of a word.
pub open spec fn syndromes_of(word: Seq<u8>, t: nat) -> Seq<u8> {
    Seq::new(t, |i: int| syndrome(word, i as nat))
}

/// A word is a codeword of the code with `t` parity codewords when all `t` syndromes vanish.
pub open spec fn is_codeword(word: Seq<u8>, t: nat) -> bool {
    forall|i: nat| i < t ==> syndrome(word, i) == 0
}

/// The generator polynomial of degree `t` has `t + 1` coefficients, the leading
/// one being 1.
pub proof fn lemma_generator_shape(t: nat)
    ensures
        generator_poly(t).len() == t + 1,
        generator_poly(t)[0] == 1,
    decreases t,
{
    if t > 0 {
        lemma_generator_shape((t - 1) as nat);
        lemma_xor(1, 0, 0);
    }
}

/// Each `alpha^r` with `r` below `t` is a root of the generator polynomial of degree `t`.
pub proof fn lemma_generator_roots(t: nat, r: nat)
    requires
        r < t,
    ensures
        poly_eval(generator_poly(t), alpha_pow(r)) == 0,
    decreases t,
{
    let p = generator_poly((t - 1) as nat);
    let x = alpha_pow(r);
    lemma_eval_times_linear(p, alpha_pow((t - 1) as nat), x);
    if r == t - 1 {
        lemma_xor(x, 0, 0);
        lemma_product_zero(poly_eval(p, x), 0);
    } else {
        lemma_generator_roots((t - 1) as nat, r);
        lemma_product_zero(0, gf_sum(x, alpha_pow((t - 1) as nat)));
    }
}

/// A division step does not change the value at a root of the divisor.
proof fn lemma_reduce_step_value(m: Seq<u8>, g: Seq<u8>, i: int, x: u8)
    requires
        0 <= i,
        i + g.len() <= m.len(),
        poly_eval(g, x) == 0,
    ensures
        poly_eval(reduce_step(m, g, i), x) == poly_eval(m, x),
{
    let c = m[i];
    let rest = (m.len() - i - g.len()) as nat;
    let head = zeros(i as nat) + poly_scale(c, g);
    let delta = head + zeros(rest);
    assert(reduce_step(m, g, i) =~= poly_sum(m, delta)) by {
        assert forall|j: int| 0 <= j < m.len() implies reduce_step(m, g, i)[j] == poly_sum(
            m,
            delta,
        )[j] by {
            lemma_xor(m[j], 0, 0);
        }
    }
    lemma_eval_sum(m, delta, x);
    lemma_eval_concat(zeros(i as nat), poly_scale(c, g), x);
    lemma_eval_zeros(i as nat, x);
    lemma_eval_scale(c, g, x);
    lemma_product_zero(c, 0);
    lemma_product_zero(gf_power(x, g.len()), 0);
    lemma_xor(0, 0, 0);
    assert(poly_eval(head, x) == 0);
    lemma_eval_concat(head, zeros(rest), x);
    lemma_eval_zeros(rest, x);
    lemma_product_zero(gf_power(x, rest), 0);
    assert(poly_eval(delta, x) == 0);
    lemma_xor(poly_eval(m, x), 0, 0);
}

/// Long division keeps the length and the value at each root of the divisor, and
/// clears one leading coefficient per step when the divisor is monic.
proof fn lemma_reduce(m: Seq<u8>, g: Seq<u8>, k: nat, x: u8)
    requires
        g.len() >= 1,
        g[0] == 1,
        k + g.len() <= m.len() + 1,
        poly_eval(g, x) == 0,
    ensures
        reduce(m, g, k).len() == m.len(),
        poly_eval(reduce(m, g, k), x) == poly_eval(m, x),
        forall|j: int| 0 <= j < k ==> reduce(m, g, k)[j] == 0,
    decreases k,
{
    if k > 0 {
        let prev = reduce(m, g, (k - 1) as nat);
        lemma_reduce(m, g, (k - 1) as nat, x);
        lemma_reduce_step_value(prev, g, k - 1, x);
        lemma_product_one(prev[k - 1]);
        lemma_xor(prev[k - 1], 0, 0);
    }
}

/// The data followed by its parity is a codeword: every syndrome vanishes.
pub proof fn lemma_encoded_is_codeword(data: Seq<u8>, t: nat)
    ensures
        rs_parity(data, t).len() == t,
        is_codeword(data + rs_parity(data, t), t),
{
    let g = generator_poly(t);
    let k = data.len();
    let m0 = data + zeros(t);
    let mf = reduce(m0, g, k);
    let parity = rs_parity(data, t);
    lemma_generator_shape(t);
    assert forall|i: nat| i < t implies syndrome(data + parity, i) == 0 by {
        let x = alpha_pow(i);
        lemma_generator_roots(t, i);
        lemma_reduce(m0, g, k, x);
        assert(data + parity =~= poly_sum(m0, mf)) by {
            assert forall|j: int| 0 <= j < k + t implies (data + parity)[j] == poly_sum(
                m0,
                mf,
            )[j] by {
                lemma_xor(m0[j], 0, 0);
                lemma_xor(mf[j], 0, 0);
            }
        }
        lemma_eval_sum(m0, mf, x);
        lemma_xor(poly_eval(m0, x), 0, 0);
    }
    lemma_reduce_len(m0, g, k);
}

/// Reducing a word keeps its length.
proof fn lemma_reduce_len(m: Seq<u8>, g: Seq<u8>, k: nat)
    ensures
        reduce(m, g, k).len() == m.len(),
    decreases k,
{
    if k > 0 {
        lemma_reduce_len(m, g, (k - 1) as nat);
    }
}

/// The generator polynomial of the given degree, highest power first.
pub fn get_generator_polynomial(degree: usize) -> (poly: Vec<u8>)
    requires
        degree < usize::MAX,
    ensures
        poly@ == generator_poly(degree as nat),
        poly.len() == degree + 1,
{
    let mut poly: Vec<u8> = vec![1u8];
    assert(poly@ =~= generator_poly(0));
    let mut i: usize = 0;
    while i < degree
        invariant
            i <= degree < usize::MAX,
            poly@ == generator_poly(i as nat),
            poly.len() == i + 1,
        decreases degree - i,
    {
        let root: u8 = gf_exp(i);
        poly = times_linear(&poly, root);
        i = i + 1;
    }
    poly
}

/// The parity codewords for `data`, and only those.
pub fn generate_ecc(data: &[u8], num_ecc_codewords: usize) -> (ecc: Vec<u8>)
    requires
        data.len() + num_ecc_codewords < usize::MAX,
    ensures
        ecc@ == rs_parity(data@, num_ecc_codewords as nat),
        ecc.len() == num_ecc_codewords,
        is_codeword(data@ + ecc@, num_ecc_codewords as nat),
{
    let generator = get_generator_polynomial(num_ecc_codewords);
    let k: usize = data.len();
    let n: usize = k + num_ecc_codewords;
    let mut message: Vec<u8> = Vec::new();
    let mut p: usize = 0;
    while p < n
        invariant
            p <= n,
            n == k + num_ecc_codewords,
            k == data.len(),
            message.len() == p,
            forall|q: int| 0 <= q < p ==> message@[q] == (data@ + zeros(num_ecc_codewords as nat))[q],
        decreases n - p,
    {
        if p < k {
            message.push(data[p]);
        } else {
            message.push(0);
        }
        p = p + 1;
    }
    assert(message@ =~= data@ + zeros(num_ecc_codewords as nat));
    let ghost start = message@;
    let mut i: usize = 0;
    while i < k
        invariant
            i <= k,
            n == k + num_ecc_codewords,
            k == data.len(),
            n < usize::MAX,
            message.len() == n,
            generator@ == generator_poly(num_ecc_codewords as nat),
            generator.len() == num_ecc_codewords + 1,
            message@ == reduce(start, generator@, i as nat),
        decreases k - i,
    {
        let coeff: u8 = message[i];
        let ghost before = message@;
        if coeff != 0 {
            let mut j: usize = 0;
            while j < generator.len()
                invariant
                    j <= generator.len(),
                    i < k,
                    n == k + num_ecc_codewords,
                    generator.len() == num_ecc_codewords + 1,
                    message.len() == n,
                    before.len() == n,
                    coeff == before[i as int],
                    forall|q: int|
                        0 <= q < n ==> message@[q] == (if i <= q < i + j {
                            gf_sum(before[q], gf_product(generator@[q - i], coeff))
                        } else {
                            before[q]
                        }),
                decreases generator.len() - j,
            {
                let v: u8 = gf_add(message[i + j], gf_multiply(generator[j], coeff));
                message[i + j] = v;
                j = j + 1;
            }
            assert(message@ =~= reduce_step(before, generator@, i as int));
        } else {
            proof {
                assert forall|q: int| 0 <= q < n implies before[q] == reduce_step(
                    before,
                    generator@,
                    i as int,
                )[q] by {
                    if i <= q < i + generator@.len() {
                        lemma_product_zero(generator@[q - i], 0);
                        lemma_xor(before[q], 0, 0);
                    }
                }
                assert(message@ =~= reduce_step(before, generator@, i as int));
            }
        }
        i = i + 1;
    }
    let mut ecc: Vec<u8> = Vec::new();
    let mut q: usize = k;
    while q < n
        invariant
            k <= q <= n,
            message.len() == n,
            ecc.len() == q - k,
            forall|s: int| 0 <= s < q - k ==> ecc@[s] == message@[k + s],
        decreases n - q,
    {
        ecc.push(message[q]);
        q = q + 1;
    }
    proof {
        lemma_reduce_len(start, generator@, k as nat);
        assert(ecc@ =~= rs_parity(data@, num_ecc_codewords as nat));
        lemma_encoded_is_codeword(data@, num_ecc_codewords as nat);
    }
    ecc
}

/// The syndromes of a received word: its values at `alpha^0`, ..., `alpha^(t-1)`.
pub fn calculate_syndromes(received: &[u8], num_ecc_codewords: usize) -> (syndromes: Vec<u8>)
    ensures
        syndromes@ == syndromes_of(received@, num_ecc_codewords as nat),
{
    let mut syndromes: Vec<u8> = Vec::new();
    let mut i: usize = 0;
    while i < num_ecc_codewords
        invariant
            i <= num_ecc_codewords,
            syndromes.len() == i,
            forall|q: int| 0 <= q < i ==> syndromes@[q] == syndrome(received@, q as nat),
        decreases num_ecc_codewords - i,
    {
        let alpha: u8 = gf_exp(i);
        let value: u8 = evaluate(received, alpha);
        syndromes.push(value);
        i = i + 1;
    }
    assert(syndromes@ =~= syndromes_of(received@, num_ecc_codewords as nat));
    syndromes
}

/// The value of a polynomial, highest power first, at `x`, by Horner's rule.
pub fn evaluate(coefficients: &[u8], x: u8) -> (value: u8)
    ensures
        value == poly_eval(coefficients@, x),
{
    let mut value: u8 = 0;
    let mut i: usize = 0;
    while i < coefficients.len()
        invariant
            i <= coefficients.len(),
            value == poly_eval(coefficients@.take(i as int), x),
        decreases coefficients.len() - i,
    {
        proof {
            assert(coefficients@.take(i + 1).drop_last() =~= coefficients@.take(i as int));
        }
        value = gf_add(gf_multiply(value, x), coefficients[i]);
        i = i + 1;
    }
    assert(coefficients@.take(i as int) =~= coefficients@);
    value
}

/// The outcome of error correction on one received block.
#[derive(Debug, Clone)]
pub enum CorrectionResult {
    /// Every syndrome vanished; the data part of the block is handed back.
    ErrorFree(Vec<u8>),
    /// The block was repaired; `data` is the data part of the repaired block,
    /// `error_positions` are the indices of the codewords of the block that were
    /// changed, in rising order, and `error_magnitudes` is what was added to each.
    Corrected { data: Vec<u8>, error_positions: Vec<usize>, error_magnitudes: Vec<u8> },
    /// The block could not be repaired.
    Uncorrectable,
}

/// What a `CorrectionResult` holds, as mathematical sequences.
pub enum CorrectionOutcome {
    ErrorFree(Seq<u8>),
    Corrected { data: Seq<u8>, error_positions: Seq<int>, error_magnitudes: Seq<u8> },
    Uncorrectable,
}

impl View for CorrectionResult {
    type V = CorrectionOutcome;

    open spec fn view(&self) -> CorrectionOutcome {
        match self {
            CorrectionResult::ErrorFree(data) => CorrectionOutcome::ErrorFree(data@),
            CorrectionResult::Corrected { data, error_positions, error_magnitudes } => {
                CorrectionOutcome::Corrected {
                    data: data@,
                    error_positions: error_positions@.map_values(|p: usize| p as int),
                    error_magnitudes: error_magnitudes@,
                }
            },
            CorrectionResult::Uncorrectable => CorrectionOutcome::Uncorrectable,
        }
    }
}

/// The data codewords that a correction hands back, if it hands back any.
pub open spec fn data_of(outcome: CorrectionOutcome) -> Option<Seq<u8>> {
    match outcome {
        CorrectionOutcome::ErrorFree(data) => Some(data),
        CorrectionOutcome::Corrected { data, error_positions, error_magnitudes } => Some(data),
        CorrectionOutcome::Uncorrectable => None,
    }
}

/// The positions, in rising order, at which two words of one length differ.
pub open spec fn differing_positions(a: Seq<u8>, b: Seq<u8>) -> Seq<int> {
    Seq::new(a.len(), |i: int| i).filter(|i: int| a[i] != b[i])
}

/// The difference of the two words at each of the given positions.
pub open spec fn differences_at(a: Seq<u8>, b: Seq<u8>, positions: Seq<int>) -> Seq<u8> {
    positions.map_values(|i: int| gf_sum(a[i], b[i]))
}

/// A candidate repair of `received` is accepted when it has the same length, is a
/// codeword, and differs from `received` in at most `t / 2` positions.
pub open spec fn acceptable_repair(received: Seq<u8>, t: nat, candidate: Seq<u8>) -> bool {
    &&& t <= received.len()
    &&& candidate.len() == received.len()
    &&& is_codeword(candidate, t)
    &&& 2 * differing_positions(received, candidate).len() <= t
}

/// What is reported for a received word with a nonzero syndrome, given what the
/// decoder proposed.
pub open spec fn settled(received: Seq<u8>, t: nat, proposed: Option<Seq<u8>>) -> CorrectionOutcome {
    match proposed {
        Some(candidate) => if acceptable_repair(received, t, candidate) {
            CorrectionOutcome::Corrected {
                data: candidate.take(received.len() - t),
                error_positions: differing_positions(received, candidate),
                error_magnitudes: differences_at(
                    received,
                    candidate,
                    differing_positions(received, candidate),
                ),
            }
        } else {
            CorrectionOutcome::Uncorrectable
        },
        None => CorrectionOutcome::Uncorrectable,
    }
}

/// The block lengths that the decoder of the `reed-solomon` crate works on: a
/// nonempty parity part, a nonempty data part, at most 255 codewords in all, and
/// room for its intermediate products.
pub open spec fn decoder_admits(len: nat, t: nat) -> bool {
    0 < t < len <= 255 && t + t / 2 < 256
}

/// The codeword within half the number of parity codewords of a received word, if
/// there is one. By the minimum distance of the code there is at most one.
pub open spec fn nearest_codeword(received: Seq<u8>, t: nat) -> Option<Seq<u8>> {
    if exists|c: Seq<u8>| acceptable_repair(received, t, c) {
        Some(choose|c: Seq<u8>| acceptable_repair(received, t, c))
    } else {
        None
    }
}

/// What correcting a received block with `t` parity codewords gives: nothing for a
/// block that is no longer than its parity part or, with a syndrome that is not
/// zero, longer than 255; the data part of a block whose syndromes vanish; the data
/// part of the nearest codeword with the places and magnitudes of the errors, if a
/// codeword lies within half the number of parity codewords; and nothing
/// otherwise.
pub open spec fn correction_of(received: Seq<u8>, t: nat) -> CorrectionOutcome {
    if received.len() <= t {
        CorrectionOutcome::Uncorrectable
    } else if is_codeword(received, t) {
        CorrectionOutcome::ErrorFree(received.take(received.len() - t))
    } else if received.len() > 255 {
        CorrectionOutcome::Uncorrectable
    } else {
        settled(received, t, nearest_codeword(received, t))
    }
}

/// The error type of the `reed_solomon` crate's decoder, `reed_solomon::DecoderError`.
/// A value of it is carried through and never looked into.
#[verifier::external_type_specification]
#[verifier::external_body]
pub struct ExDecoderError(reed_solomon::DecoderError);

/// Calls `reed_solomon::Decoder::new(ecc_len).correct(received, None)` and hands
/// back what the crate proposes: the whole repaired word, data and parity, or the
/// crate's error. Nothing is claimed of what comes back; `settle_correction` decides
/// what is made of it. Lengths on which the crate asserts or runs out of its fixed
/// buffers are excluded.
#[verifier::external_body]
fn rs_correct(received: &[u8], ecc_len: usize) -> (r: Result<Vec<u8>, reed_solomon::DecoderError>)
    requires
        decoder_admits(received@.len(), ecc_len as nat),
{
    match reed_solomon::Decoder::new(ecc_len).correct(received, None) {
        Ok(buffer) => Ok(buffer.to_vec()),
        Err(e) => Err(e),
    }
}

/// Whether every entry of the slice is zero.
pub fn all_zero(values: &[u8]) -> (b: bool)
    ensures
        b <==> forall|i: int| 0 <= i < values.len() ==> values@[i] == 0,
{
    let mut i: usize = 0;
    while i < values.len()
        invariant
            i <= values.len(),
            forall|q: int| 0 <= q < i ==> values@[q] == 0,
        decreases values.len() - i,
    {
        if values[i] != 0 {
            return false;
        }
        i = i + 1;
    }
    true
}

/// Whether the word is a codeword of the code with `num_ecc_codewords` parity codewords.
pub fn has_zero_syndromes(word: &[u8], num_ecc_codewords: usize) -> (b: bool)
    ensures
        b == is_codeword(word@, num_ecc_codewords as nat),
{
    let syndromes = calculate_syndromes(word, num_ecc_codewords);
    let b = all_zero(syndromes.as_slice());
    proof {
        let t = num_ecc_codewords as nat;
        if b {
            assert forall|i: nat| i < t implies syndrome(word@, i) == 0 by {
                assert(syndromes@[i as int] == 0);
            }
        } else {
            let q = choose|q: int| 0 <= q < syndromes.len() && syndromes@[q] != 0;
            assert(syndrome(word@, q as nat) != 0);
        }
    }
    b
}

/// The first `count` entries of a slice, as a vector.
pub fn prefix(values: &[u8], count: usize) -> (out: Vec<u8>)
    requires
        count <= values.len(),
    ensures
        out@ == values@.take(count as int),
{
    let mut out: Vec<u8> = Vec::new();
    let mut i: usize = 0;
    while i < count
        invariant
            i <= count <= values.len(),
            out@ == values@.take(i as int),
        decreases count - i,
    {
        out.push(values[i]);
        proof {
            assert(values@.take(i + 1) =~= values@.take(i as int).push(values@[i as int]));
        }
        i = i + 1;
    }
    out
}

/// Decides what to report for a received word with a nonzero syndrome, once the
/// decoder has proposed a repaired word or given up. A proposal is taken only if it
/// is a codeword of the right length within reach of the received word; the error
/// positions and magnitudes are read off by comparing the two words.
pub fn settle_correction(
    received: &[u8],
    num_ecc_codewords: usize,
    proposed: Option<Vec<u8>>,
) -> (result: CorrectionResult)
    ensures
        result@ == settled(
            received@,
            num_ecc_codewords as nat,
            match proposed {
                Some(word) => Some(word@),
                None => None,
            },
        ),
{
    let candidate = match proposed {
        Some(word) => word,
        None => {
            return CorrectionResult::Uncorrectable;
        },
    };
    if num_ecc_codewords > received.len() || candidate.len() != received.len() {
        return CorrectionResult::Uncorrectable;
    }
    if !has_zero_syndromes(candidate.as_slice(), num_ecc_codewords) {
        return CorrectionResult::Uncorrectable;
    }
    let mut error_positions: Vec<usize> = Vec::new();
    let mut error_magnitudes: Vec<u8> = Vec::new();
    let ghost differs = |i: int| received@[i] != candidate@[i];
    let ghost magnitude = |i: int| gf_sum(received@[i], candidate@[i]);
    let ghost as_int = |p: usize| p as int;
    let mut i: usize = 0;
    while i < received.len()
        invariant
            i <= received.len(),
            candidate.len() == received.len(),
            differs == |i: int| received@[i] != candidate@[i],
            magnitude == |i: int| gf_sum(received@[i], candidate@[i]),
            as_int == |p: usize| p as int,
            error_positions@.map_values(as_int) == Seq::new(i as nat, |q: int| q).filter(differs),
            error_magnitudes@ == error_positions@.map_values(as_int).map_values(magnitude),
            error_positions.len() <= i,
        decreases received.len() - i,
    {
        proof {
            let before = Seq::new(i as nat, |q: int| q);
            assert(Seq::new((i + 1) as nat, |q: int| q) =~= before.push(i as int));
            before.lemma_filter_push(i as int, differs);
        }
        if received[i] != candidate[i] {
            proof {
                error_positions@.lemma_push_map_commute(as_int, i);
                error_positions@.map_values(as_int).lemma_push_map_commute(magnitude, i as int);
            }
            error_positions.push(i);
            error_magnitudes.push(gf_add(received[i], candidate[i]));
        }
        i = i + 1;
    }
    if error_positions.len() > num_ecc_codewords / 2 {
        return CorrectionResult::Uncorrectable;
    }
    let data = prefix(candidate.as_slice(), received.len() - num_ecc_codewords);
    CorrectionResult::Corrected { data, error_positions, error_magnitudes }
}

/// Corrects errors in a received block of data codewords followed by
/// `num_ecc_codewords` parity codewords. A block with a syndrome that is not zero is
/// first handed to the decoder of the `reed-solomon` crate; what that proposes is
/// taken if it is a codeword within reach of the block, and otherwise the block is
/// decoded by `decode_block`. Either way the nearest codeword is found whenever one
/// lies within half the number of parity codewords.
pub fn correct_errors(received: &[u8], num_ecc_codewords: usize) -> (result: CorrectionResult)
    ensures
        result@ == correction_of(received@, num_ecc_codewords as nat),
{
    if received.len() <= num_ecc_codewords {
        return CorrectionResult::Uncorrectable;
    }
    let data_len: usize = received.len() - num_ecc_codewords;
    if has_zero_syndromes(received, num_ecc_codewords) {
        return CorrectionResult::ErrorFree(prefix(received, data_len));
    }
    if received.len() > 255 {
        return CorrectionResult::Uncorrectable;
    }
    if num_ecc_codewords <= 170 {
        let proposed: Option<Vec<u8>> = match rs_correct(received, num_ecc_codewords) {
            Ok(word) => Some(word),
            Err(_) => None,
        };
        let ghost proposal: Option<Seq<u8>> = match &proposed {
            Some(word) => Some(word@),
            None => None,
        };
        match settle_correction(received, num_ecc_codewords, proposed) {
            CorrectionResult::Corrected { data, error_positions, error_magnitudes } => {
                proof {
                    let t = num_ecc_codewords as nat;
                    let candidate = proposal.unwrap();
                    assert(acceptable_repair(received@, t, candidate));
                    let chosen = nearest_codeword(received@, t).unwrap();
                    lemma_unique_codeword_in_reach(received@, t, candidate, chosen);
                }
                return CorrectionResult::Corrected { data, error_positions, error_magnitudes };
            },
            _ => {},
        }
    }
    decode_block(received, num_ecc_codewords)
}

} // verus!
