use vstd::prelude::*;
use crate::types::{ErrorCorrection, MaskPattern, Version};

verus! {

/// The fixed pattern that is laid over every format codeword.
pub const FORMAT_MASK: u16 = 0x5412;

/// The two bits that name an error-correction level in the format information.
pub open spec fn level_bits(ec: ErrorCorrection) -> u16 {
    match ec {
        ErrorCorrection::L => 1,
        ErrorCorrection::M => 0,
        ErrorCorrection::Q => 3,
        ErrorCorrection::H => 2,
    }
}

/// The level that two format bits name.
pub open spec fn level_of_bits(bits: u16) -> ErrorCorrection {
    if bits == 1 {
        ErrorCorrection::L
    } else if bits == 0 {
        ErrorCorrection::M
    } else if bits == 3 {
        ErrorCorrection::Q
    } else {
        ErrorCorrection::H
    }
}

/// The five-bit payload of the format information: the level, then the mask index.
pub open spec fn format_payload(ec: ErrorCorrection, mask: MaskPattern) -> u16 {
    (level_bits(ec) * 8 + mask.index()) as u16
}

/// One step of the division by `x^10 + x^8 + x^5 + x^4 + x^2 + x + 1`: if the bit of
/// index `bit` is set, the generator, moved up by `shift` places, is subtracted.
pub open spec fn format_step(word: u16, bit: u16, shift: u16) -> u16 {
    if word & (1u16 << bit) != 0 {
        word ^ (0x537u16 << shift)
    } else {
        word
    }
}

/// The remainder of a fifteen-bit word on division by the format generator.
pub open spec fn format_remainder(word: u16) -> u16 {
    format_step(
        format_step(format_step(format_step(format_step(word, 14, 4), 13, 3), 12, 2), 11, 1),
        10,
        0,
    )
}

/// The BCH(15,5) codeword of a five-bit payload: the payload, then ten parity bits.
pub open spec fn format_codeword(payload: u16) -> u16 {
    (payload << 10) | format_remainder(payload << 10)
}

/// The fifteen format bits as they stand in the symbol.
pub open spec fn format_bits(ec: ErrorCorrection, mask: MaskPattern) -> u16 {
    format_codeword(format_payload(ec, mask)) ^ FORMAT_MASK
}

/// The number of bit positions in which two fifteen-bit words differ.
pub open spec fn format_distance(a: u16, b: u16) -> nat {
    weight15(a ^ b)
}

/// The number of set bits of a fifteen-bit word.
pub open spec fn weight15(x: u16) -> nat {
    (((x >> 0) & 1) + ((x >> 1) & 1) + ((x >> 2) & 1) + ((x >> 3) & 1) + ((x >> 4) & 1) + ((x
        >> 5) & 1) + ((x >> 6) & 1) + ((x >> 7) & 1) + ((x >> 8) & 1) + ((x >> 9) & 1) + ((x
        >> 10) & 1) + ((x >> 11) & 1) + ((x >> 12) & 1) + ((x >> 13) & 1) + ((x >> 14)
        & 1)) as nat
}

/// The error pattern with the bits of index `i`, `j` and `k` set. An index of 15
/// stands for no bit.
pub open spec fn error_pattern(i: u16, j: u16, k: u16) -> u16 {
    (((1u16 << i) | (1u16 << j) | (1u16 << k)) & 0x7fff)
}

/// The index of the lowest set bit of a fifteen-bit word, and 15 for zero.
pub open spec fn lowest_bit(x: u16) -> u16 {
    if x & 0x0001 != 0 {
        0
    } else if x & 0x0002 != 0 {
        1
    } else if x & 0x0004 != 0 {
        2
    } else if x & 0x0008 != 0 {
        3
    } else if x & 0x0010 != 0 {
        4
    } else if x & 0x0020 != 0 {
        5
    } else if x & 0x0040 != 0 {
        6
    } else if x & 0x0080 != 0 {
        7
    } else if x & 0x0100 != 0 {
        8
    } else if x & 0x0200 != 0 {
        9
    } else if x & 0x0400 != 0 {
        10
    } else if x & 0x0800 != 0 {
        11
    } else if x & 0x1000 != 0 {
        12
    } else if x & 0x2000 != 0 {
        13
    } else if x & 0x4000 != 0 {
        14
    } else {
        15
    }
}

/// Whether `bits`, with the error pattern `e` taken off, is a format codeword under
/// the fixed mask.
pub open spec fn syndrome_free(bits: u16, e: u16) -> bool {
    format_remainder(bits ^ e ^ FORMAT_MASK) == 0
}

/// A word of at most three set bits is an error pattern of three rising indices,
/// some of which may be 15.
proof fn lemma_light_word_is_pattern(e: u16)
    by (bit_vector)
    requires
        e < 0x8000,
        weight15(e) <= 3,
    ensures
        ({
            let i = lowest_bit(e);
            let rest = e & ((e - 1) as u16);
            let j = lowest_bit(if e == 0 {
                0
            } else {
                rest
            });
            let last = if rest == 0 {
                0u16
            } else {
                rest & ((rest - 1) as u16)
            };
            let k = lowest_bit(last);
            &&& e == error_pattern(i, j, k)
            &&& i <= j <= k <= 15
            &&& (i < j || j == 15)
            &&& (j < k || k == 15)
        }),
{
}

/// An error pattern has at most three set bits.
proof fn lemma_pattern_is_light(i: u16, j: u16, k: u16)
    by (bit_vector)
    requires
        i <= 15,
        j <= 15,
        k <= 15,
    ensures
        weight15(error_pattern(i, j, k)) <= 3,
        error_pattern(i, j, k) < 0x8000,
{
}

/// A fifteen-bit word with remainder zero is the codeword of its five leading bits.
proof fn lemma_zero_remainder(word: u16)
    by (bit_vector)
    requires
        word < 0x8000,
        format_remainder(word) == 0,
    ensures
        word >> 10 < 32,
        word == format_codeword(word >> 10),
{
}

/// Every codeword has remainder zero and its payload in the five leading bits.
proof fn lemma_codeword(payload: u16)
    by (bit_vector)
    requires
        payload < 32,
    ensures
        format_codeword(payload) < 0x8000,
        format_remainder(format_codeword(payload)) == 0,
        format_codeword(payload) >> 10 == payload,
{
}

/// The codewords of two different payloads differ in at least seven positions.
proof fn lemma_minimum_distance(p: u16, q: u16)
    by (bit_vector)
    requires
        p < 32,
        q < 32,
        p != q,
    ensures
        weight15(format_codeword(p) ^ format_codeword(q)) >= 7,
{
}

/// The triangle inequality for the distance, with the mask laid over both codewords.
proof fn lemma_triangle(x: u16, a: u16, b: u16)
    by (bit_vector)
    requires
        x < 0x8000,
        a < 0x8000,
        b < 0x8000,
    ensures
        weight15((a ^ 0x5412u16) ^ (b ^ 0x5412u16)) <= weight15(x ^ (a ^ 0x5412u16)) + weight15(
            x ^ (b ^ 0x5412u16),
        ),
        (a ^ 0x5412u16) ^ (b ^ 0x5412u16) == a ^ b,
        (x ^ (x ^ (a ^ 0x5412u16))) ^ 0x5412u16 == a,
        x ^ (a ^ 0x5412u16) < 0x8000,
{
}

/// A word read as `bits ^ e` under the fixed mask differs from `bits` by `e`.
proof fn lemma_xor_back(bits: u16, e: u16, word: u16)
    by (bit_vector)
    requires
        bits < 0x8000,
        e < 0x8000,
        word == bits ^ e ^ 0x5412u16,
    ensures
        word < 0x8000,
        bits ^ (word ^ 0x5412u16) == e,
{
}

/// The two parts of a five-bit payload: the level in the upper two bits, the mask
/// in the lower three.
proof fn lemma_payload_parts(payload: u16)
    by (bit_vector)
    requires
        payload < 32,
    ensures
        (payload >> 3) & 3 == payload / 8,
        payload & 7 == payload % 8,
{
}

/// The payload names its level and mask, and these name the payload.
pub proof fn lemma_payload(ec: ErrorCorrection, mask: MaskPattern)
    ensures
        format_payload(ec, mask) < 32,
        level_of_bits(format_payload(ec, mask) / 8) == ec,
        MaskPattern::of_index((format_payload(ec, mask) % 8) as int) == mask,
{
}

/// At most one level and mask lie within three bit flips of a fifteen-bit word.
pub proof fn lemma_format_unique(
    bits: u16,
    ec1: ErrorCorrection,
    mask1: MaskPattern,
    ec2: ErrorCorrection,
    mask2: MaskPattern,
)
    requires
        bits < 0x8000,
        format_distance(bits, format_bits(ec1, mask1)) <= 3,
        format_distance(bits, format_bits(ec2, mask2)) <= 3,
    ensures
        ec1 == ec2,
        mask1 == mask2,
{
    let p1 = format_payload(ec1, mask1);
    let p2 = format_payload(ec2, mask2);
    lemma_payload(ec1, mask1);
    lemma_payload(ec2, mask2);
    lemma_codeword(p1);
    lemma_codeword(p2);
    let a = format_codeword(p1);
    let b = format_codeword(p2);
    lemma_triangle(bits, a, b);
    if p1 != p2 {
        lemma_minimum_distance(p1, p2);
    }
}

/// The fifteen format bits for a level and a mask.
pub fn get_format_info(error_correction: ErrorCorrection, mask_pattern: MaskPattern) -> (bits: u16)
    ensures
        bits == format_bits(error_correction, mask_pattern),
        bits < 0x8000,
{
    let ec_bits: u16 = match error_correction {
        ErrorCorrection::L => 1,
        ErrorCorrection::M => 0,
        ErrorCorrection::Q => 3,
        ErrorCorrection::H => 2,
    };
    let mask_bits: u16 = mask_pattern.to_u8() as u16;
    let payload: u16 = ec_bits * 8 + mask_bits;
    proof {
        lemma_codeword(payload);
        lemma_shift_payload(payload);
        lemma_masked_range(format_codeword(payload));
    }
    let shifted: u16 = payload << 10;
    let codeword: u16 = shifted | bch_syndrome(shifted);
    codeword ^ FORMAT_MASK
}

/// A payload shifted past the ten parity bits fits fifteen bits.
proof fn lemma_shift_payload(payload: u16)
    by (bit_vector)
    requires
        payload < 32,
    ensures
        payload << 10 < 0x8000,
{
}

/// The fixed mask keeps a word within fifteen bits.
proof fn lemma_masked_range(word: u16)
    by (bit_vector)
    requires
        word < 0x8000,
    ensures
        word ^ 0x5412u16 < 0x8000,
{
}

/// The remainder of a fifteen-bit word on division by the format generator. It is
/// zero exactly for the codewords.
pub fn bch_syndrome(codeword: u16) -> (syndrome: u16)
    ensures
        syndrome == format_remainder(codeword),
{
    let mut word: u16 = codeword;
    if word & (1u16 << 14) != 0 {
        word = word ^ (0x537u16 << 4);
    }
    if word & (1u16 << 13) != 0 {
        word = word ^ (0x537u16 << 3);
    }
    if word & (1u16 << 12) != 0 {
        word = word ^ (0x537u16 << 2);
    }
    if word & (1u16 << 11) != 0 {
        word = word ^ (0x537u16 << 1);
    }
    if word & (1u16 << 10) != 0 {
        word = word ^ (0x537u16 << 0);
    }
    word
}

/// The level and the mask index that the five leading bits of an unmasked format
/// word name.
pub fn decode_format_bits(bits: u16) -> (r: Option<(ErrorCorrection, u8)>)
    requires
        bits < 0x8000,
    ensures
        r == Some((level_of_bits((bits >> 10) / 8), ((bits >> 10) % 8) as u8)),
{
    let data: u16 = bits >> 10;
    proof {
        lemma_leading_bits(bits);
        lemma_payload_parts(data);
    }
    let ec_bits: u16 = (data >> 3) & 3;
    let mask_pattern: u8 = (data & 7) as u8;
    let error_correction = if ec_bits == 1 {
        ErrorCorrection::L
    } else if ec_bits == 0 {
        ErrorCorrection::M
    } else if ec_bits == 3 {
        ErrorCorrection::Q
    } else {
        ErrorCorrection::H
    };
    Some((error_correction, mask_pattern))
}

/// The upper five bits of a fifteen-bit word are a payload.
proof fn lemma_leading_bits(bits: u16)
    by (bit_vector)
    requires
        bits < 0x8000,
    ensures
        bits >> 10 < 32,
{
}

/// What is read off `bits` once the error pattern `e` is taken off: the level and
/// mask of the codeword, if a codeword is left.
fn try_pattern(
    format_bits_read: u16,
    e: u16,
    Ghost(i): Ghost<u16>,
    Ghost(j): Ghost<u16>,
    Ghost(k): Ghost<u16>,
) -> (r: Option<(ErrorCorrection, u8)>)
    requires
        format_bits_read < 0x8000,
        i <= 15,
        j <= 15,
        k <= 15,
        e == error_pattern(i, j, k),
    ensures
        r is Some <==> syndrome_free(format_bits_read, e),
        r is Some ==> r.unwrap().1 < 8 && format_distance(
            format_bits_read,
            format_bits(r.unwrap().0, MaskPattern::of_index(r.unwrap().1 as int)),
        ) <= 3,
{
    proof {
        lemma_pattern_is_light(i, j, k);
        lemma_xor_back(format_bits_read, e, format_bits_read ^ e ^ FORMAT_MASK);
    }
    let unmasked: u16 = format_bits_read ^ e ^ FORMAT_MASK;
    if bch_syndrome(unmasked) != 0 {
        return None;
    }
    let r = decode_format_bits(unmasked);
    proof {
        lemma_zero_remainder(unmasked);
        let payload = unmasked >> 10;
        let ec = level_of_bits(payload / 8);
        let mask = MaskPattern::of_index((payload % 8) as int);
        assert(format_payload(ec, mask) == payload);
        assert(format_bits(ec, mask) == unmasked ^ FORMAT_MASK);
    }
    r
}

/// Reads the level and mask off fifteen format bits that may hold up to three
/// wrong bits. The error patterns of no, one, two and three bits are tried in turn,
/// and the first that leaves a codeword decides. By the minimum distance of the
/// code no other level and mask lie that near.
pub fn correct_format_info(format_bits_read: u16) -> (r: Option<(ErrorCorrection, u8)>)
    requires
        format_bits_read < 0x8000,
    ensures
        match r {
            Some((ec, mask)) => mask < 8 && format_distance(
                format_bits_read,
                format_bits(ec, MaskPattern::of_index(mask as int)),
            ) <= 3,
            None => forall|ec: ErrorCorrection, mask: MaskPattern|
                format_distance(format_bits_read, #[trigger] format_bits(ec, mask)) > 3,
        },
{
    let bits: u16 = format_bits_read;
    proof {
        lemma_pattern_values();
    }
    match try_pattern(bits, 0, Ghost(15), Ghost(15), Ghost(15)) {
        Some(found) => {
            return Some(found);
        },
        None => {},
    }
    let mut i: u16 = 0;
    while i < 15
        invariant
            i <= 15,
            bits < 0x8000,
            bits == format_bits_read,
            forall|a: u16| a < i ==> !syndrome_free(bits, #[trigger] error_pattern(a, 15, 15)),
        decreases 15 - i,
    {
        proof {
            lemma_pattern_values();
        }
        match try_pattern(bits, 1u16 << i, Ghost(i), Ghost(15), Ghost(15)) {
            Some(found) => {
                return Some(found);
            },
            None => {},
        }
        i = i + 1;
    }
    let mut i: u16 = 0;
    while i < 15
        invariant
            i <= 15,
            bits < 0x8000,
            bits == format_bits_read,
            forall|a: u16, b: u16|
                a < i && a < b < 15 ==> !syndrome_free(bits, #[trigger] error_pattern(a, b, 15)),
        decreases 15 - i,
    {
        let mut j: u16 = i + 1;
        while j < 15
            invariant
                i < 15,
                i < j <= 15,
                bits < 0x8000,
                bits == format_bits_read,
            bits == format_bits_read,
                forall|a: u16, b: u16|
                    a < i && a < b < 15 ==> !syndrome_free(
                        bits,
                        #[trigger] error_pattern(a, b, 15),
                    ),
                forall|b: u16| i < b < j ==> !syndrome_free(bits, #[trigger] error_pattern(i, b, 15)),
            decreases 15 - j,
        {
            proof {
                lemma_pattern_values();
            }
            match try_pattern(bits, (1u16 << i) ^ (1u16 << j), Ghost(i), Ghost(j), Ghost(15)) {
                Some(found) => {
                    return Some(found);
                },
                None => {},
            }
            j = j + 1;
        }
        i = i + 1;
    }
    let mut i: u16 = 0;
    while i < 15
        invariant
            i <= 15,
            bits < 0x8000,
            bits == format_bits_read,
            forall|a: u16, b: u16, c: u16|
                a < i && a < b < c < 15 ==> !syndrome_free(bits, #[trigger] error_pattern(a, b, c)),
        decreases 15 - i,
    {
        let mut j: u16 = i + 1;
        while j < 15
            invariant
                i < 15,
                i < j <= 15,
                bits < 0x8000,
                bits == format_bits_read,
            bits == format_bits_read,
                forall|a: u16, b: u16, c: u16|
                    a < i && a < b < c < 15 ==> !syndrome_free(
                        bits,
                        #[trigger] error_pattern(a, b, c),
                    ),
                forall|b: u16, c: u16|
                    i < b < j && b < c < 15 ==> !syndrome_free(
                        bits,
                        #[trigger] error_pattern(i, b, c),
                    ),
            decreases 15 - j,
        {
            let mut k: u16 = j + 1;
            while k < 15
                invariant
                    i < j < 15,
                    j < k <= 15,
                    bits < 0x8000,
                    bits == format_bits_read,
                bits == format_bits_read,
            bits == format_bits_read,
                    forall|a: u16, b: u16, c: u16|
                        a < i && a < b < c < 15 ==> !syndrome_free(
                            bits,
                            #[trigger] error_pattern(a, b, c),
                        ),
                    forall|b: u16, c: u16|
                        i < b < j && b < c < 15 ==> !syndrome_free(
                            bits,
                            #[trigger] error_pattern(i, b, c),
                        ),
                    forall|c: u16| j < c < k ==> !syndrome_free(bits, #[trigger] error_pattern(i, j, c)),
                decreases 15 - k,
            {
                proof {
                    lemma_pattern_values();
                }
                match try_pattern(
                    bits,
                    (1u16 << i) ^ (1u16 << j) ^ (1u16 << k),
                    Ghost(i),
                    Ghost(j),
                    Ghost(k),
                ) {
                    Some(found) => {
                        return Some(found);
                    },
                    None => {},
                }
                k = k + 1;
            }
            j = j + 1;
        }
        i = i + 1;
    }
    proof {
        assert forall|ec: ErrorCorrection, mask: MaskPattern|
            format_distance(bits, #[trigger] format_bits(ec, mask)) > 3 by {
            if format_distance(bits, format_bits(ec, mask)) <= 3 {
                let payload = format_payload(ec, mask);
                lemma_payload(ec, mask);
                lemma_codeword(payload);
                let word = format_codeword(payload);
                lemma_triangle(bits, word, word);
                let e = bits ^ format_bits(ec, mask);
                lemma_light_word_is_pattern(e);
                let a = lowest_bit(e);
                let rest = e & ((e - 1) as u16);
                let b = lowest_bit(if e == 0 {
                    0
                } else {
                    rest
                });
                let last = if rest == 0 {
                    0u16
                } else {
                    rest & ((rest - 1) as u16)
                };
                let c = lowest_bit(last);
                assert(e == error_pattern(a, b, c));
                assert(syndrome_free(bits, e));
                assert(false);
            }
        }
    }
    None
}

/// The error patterns as the search builds them.
proof fn lemma_pattern_values()
    ensures
        error_pattern(15, 15, 15) == 0,
        forall|i: u16| i < 15 ==> 1u16 << i == #[trigger] error_pattern(i, 15, 15),
        forall|i: u16, j: u16|
            i < j < 15 ==> (1u16 << i) ^ (1u16 << j) == #[trigger] error_pattern(i, j, 15),
        forall|i: u16, j: u16, k: u16|
            i < j < k < 15 ==> (1u16 << i) ^ (1u16 << j) ^ (1u16 << k) == #[trigger] error_pattern(
                i,
                j,
                k,
            ),
{
    assert(error_pattern(15, 15, 15) == 0) by (bit_vector);
    assert forall|i: u16| i < 15 implies 1u16 << i == #[trigger] error_pattern(i, 15, 15) by {
        assert(i < 15 ==> 1u16 << i == error_pattern(i, 15, 15)) by (bit_vector);
    }
    assert forall|i: u16, j: u16| i < j < 15 implies (1u16 << i) ^ (1u16 << j)
        == #[trigger] error_pattern(i, j, 15) by {
        assert(i < j < 15 ==> (1u16 << i) ^ (1u16 << j) == error_pattern(i, j, 15))
            by (bit_vector);
    }
    assert forall|i: u16, j: u16, k: u16| i < j < k < 15 implies (1u16 << i) ^ (1u16 << j) ^ (1u16
        << k) == #[trigger] error_pattern(i, j, k) by {
        assert(i < j < k < 15 ==> (1u16 << i) ^ (1u16 << j) ^ (1u16 << k) == error_pattern(
            i,
            j,
            k,
        )) by (bit_vector);
    }
}

/// BCH format correction: a format word with up to three bits flipped is read as the
/// level and mask that it was made from.
pub proof fn lemma_format_correction(
    ec: ErrorCorrection,
    mask: MaskPattern,
    received: u16,
    decoded: Option<(ErrorCorrection, u8)>,
)
    requires
        received < 0x8000,
        format_distance(received, format_bits(ec, mask)) <= 3,
        match decoded {
            Some((found_ec, found_mask)) => found_mask < 8 && format_distance(
                received,
                format_bits(found_ec, MaskPattern::of_index(found_mask as int)),
            ) <= 3,
            None => forall|ec: ErrorCorrection, mask: MaskPattern|
                format_distance(received, #[trigger] format_bits(ec, mask)) > 3,
        },
    ensures
        decoded == Some((ec, mask.index() as u8)),
{
    match decoded {
        Some((found_ec, found_mask)) => {
            lemma_format_unique(
                received,
                ec,
                mask,
                found_ec,
                MaskPattern::of_index(found_mask as int),
            );
        },
        None => {
            assert(format_distance(received, format_bits(ec, mask)) > 3);
        },
    }
}


/// One step of the division by the version generator `0x1f25`, of degree twelve.
pub open spec fn version_step(word: u32, bit: u32, shift: u32) -> u32 {
    if word & (1u32 << bit) != 0 {
        word ^ (0x1f25u32 << shift)
    } else {
        word
    }
}

/// The remainder of an eighteen-bit word on division by the version generator.
pub open spec fn version_remainder(word: u32) -> u32 {
    version_step(
        version_step(
            version_step(
                version_step(version_step(version_step(word, 17, 5), 16, 4), 15, 3),
                14,
                2,
            ),
            13,
            1,
        ),
        12,
        0,
    )
}

/// The BCH(18,6) codeword of a six-bit number: the number, then twelve parity bits.
pub open spec fn version_codeword(number: u32) -> u32 {
    (number << 12) | version_remainder(number << 12)
}

/// The eighteen version bits of a version number.
pub open spec fn version_bits(v: int) -> u32 {
    version_codeword(v as u32)
}

/// The bit of index `i` of a word.
pub open spec fn bit_at(x: u32, i: u32) -> u32 {
    (x >> i) & 1
}

/// The number of set bits among the lowest `width` bits of a word.
pub open spec fn weight_below(x: u32, width: nat) -> nat
    decreases width,
{
    if width == 0 {
        0
    } else {
        weight_below(x, (width - 1) as nat) + bit_at(x, (width - 1) as u32) as nat
    }
}

/// The number of bit positions in which two eighteen-bit words differ.
pub open spec fn version_distance(a: u32, b: u32) -> nat {
    weight_below(a ^ b, 18)
}

/// The number of set bits of an eighteen-bit word, written out.
pub open spec fn weight18(x: u32) -> nat {
    (((x >> 0) & 1) + ((x >> 1) & 1) + ((x >> 2) & 1) + ((x >> 3) & 1) + ((x >> 4) & 1) + ((x
        >> 5) & 1) + ((x >> 6) & 1) + ((x >> 7) & 1) + ((x >> 8) & 1) + ((x >> 9) & 1) + ((x
        >> 10) & 1) + ((x >> 11) & 1) + ((x >> 12) & 1) + ((x >> 13) & 1) + ((x >> 14) & 1) + ((x
        >> 15) & 1) + ((x >> 16) & 1) + ((x >> 17) & 1)) as nat
}

/// Counting the ones among the lowest 18 bits one by one gives the weight.
proof fn lemma_weight18(x: u32)
    ensures
        weight_below(x, 18) == weight18(x),
{
    reveal_with_fuel(weight_below, 19);
}

/// The codeword of a six-bit number fits 18 bits and carries the number in its
/// upper six.
proof fn lemma_version_codeword(number: u32)
    by (bit_vector)
    requires
        number < 64,
    ensures
        version_codeword(number) < 0x40000,
        version_codeword(number) >> 12 == number,
{
}

/// The codewords of two different numbers differ in at least eight positions.
proof fn lemma_version_minimum_distance(p: u32, q: u32)
    by (bit_vector)
    requires
        p < 64,
        q < 64,
        p != q,
    ensures
        weight18(version_codeword(p) ^ version_codeword(q)) >= 8,
{
}

/// A bit of a sum of two words is at most the sum of their bits.
proof fn lemma_bit_of_sum(u: u32, v: u32, i: u32)
    by (bit_vector)
    requires
        i < 32,
    ensures
        ((u ^ v) >> i) & 1 <= ((u >> i) & 1) + ((v >> i) & 1),
        (u >> i) & 1 <= 1,
{
}

/// Two words differ from each other as their sums with a third do.
proof fn lemma_sum_back(x: u32, a: u32, b: u32)
    by (bit_vector)
    ensures
        (x ^ a) ^ (x ^ b) == a ^ b,
{
}

/// A sum has no more set bits than its two terms together.
proof fn lemma_weight_of_sum(u: u32, v: u32, width: nat)
    requires
        width <= 32,
    ensures
        weight_below(u ^ v, width) <= weight_below(u, width) + weight_below(v, width),
    decreases width,
{
    if width > 0 {
        lemma_weight_of_sum(u, v, (width - 1) as nat);
        lemma_bit_of_sum(u, v, (width - 1) as u32);
    }
}

/// At most one version number lies within three bit flips of an eighteen-bit word.
pub proof fn lemma_version_unique(bits: u32, v1: int, v2: int)
    requires
        bits < 0x40000,
        0 <= v1 < 64,
        0 <= v2 < 64,
        version_distance(bits, version_bits(v1)) <= 3,
        version_distance(bits, version_bits(v2)) <= 3,
    ensures
        v1 == v2,
{
    let a = version_bits(v1);
    let b = version_bits(v2);
    lemma_version_codeword(v1 as u32);
    lemma_version_codeword(v2 as u32);
    lemma_weight_of_sum(bits ^ a, bits ^ b, 18);
    lemma_sum_back(bits, a, b);
    lemma_weight18(a ^ b);
    if v1 != v2 {
        lemma_version_minimum_distance(v1 as u32, v2 as u32);
    }
}

/// The remainder of an eighteen-bit word on division by the version generator.
pub fn version_syndrome(word: u32) -> (syndrome: u32)
    ensures
        syndrome == version_remainder(word),
{
    let mut word: u32 = word;
    if word & (1u32 << 17) != 0 {
        word = word ^ (0x1f25u32 << 5);
    }
    if word & (1u32 << 16) != 0 {
        word = word ^ (0x1f25u32 << 4);
    }
    if word & (1u32 << 15) != 0 {
        word = word ^ (0x1f25u32 << 3);
    }
    if word & (1u32 << 14) != 0 {
        word = word ^ (0x1f25u32 << 2);
    }
    if word & (1u32 << 13) != 0 {
        word = word ^ (0x1f25u32 << 1);
    }
    if word & (1u32 << 12) != 0 {
        word = word ^ (0x1f25u32 << 0);
    }
    word
}

/// The eighteen version bits of a version number below 64.
pub fn version_word(number: u8) -> (bits: u32)
    requires
        number < 64,
    ensures
        bits == version_bits(number as int),
        bits < 0x40000,
{
    proof {
        lemma_version_codeword(number as u32);
    }
    let shifted: u32 = (number as u32) << 12;
    shifted | version_syndrome(shifted)
}

/// The eighteen version bits of a symbol. Versions below 7 carry none.
pub fn get_version_info(version: Version) -> (bits: Option<u32>)
    ensures
        bits == (if version.number() >= 7 {
            Some(version_bits(version.number()))
        } else {
            None
        }),
{
    let number: u8 = version.to_u8();
    if number >= 7 {
        Some(version_word(number))
    } else {
        None
    }
}

/// The number of set bits among the lowest `width` bits of a word.
pub fn count_ones(x: u32, width: u32) -> (n: u32)
    requires
        width <= 32,
    ensures
        n == weight_below(x, width as nat),
        n <= width,
{
    let mut n: u32 = 0;
    let mut i: u32 = 0;
    while i < width
        invariant
            i <= width <= 32,
            n <= i,
            n == weight_below(x, i as nat),
        decreases width - i,
    {
        let bit: u32 = (x >> i) & 1;
        assert(bit <= 1) by (bit_vector)
            requires
                bit == (x >> i) & 1,
        ;
        n = n + bit;
        i = i + 1;
    }
    n
}

/// Reads the version off eighteen version bits that may hold up to three wrong
/// bits: the version from 7 to 40 whose codeword lies within three bit flips. By
/// the minimum distance of the code there is at most one.
pub fn correct_version_info(version_bits_read: u32) -> (r: Option<Version>)
    requires
        version_bits_read < 0x40000,
    ensures
        match r {
            Some(version) => version.number() >= 7 && version_distance(
                version_bits_read,
                version_bits(version.number()),
            ) <= 3,
            None => forall|v: int|
                7 <= v <= 40 ==> version_distance(version_bits_read, #[trigger] version_bits(v))
                    > 3,
        },
{
    let mut number: u8 = 7;
    while number <= 40
        invariant
            7 <= number <= 41,
            forall|v: int|
                7 <= v < number ==> version_distance(version_bits_read, #[trigger] version_bits(v))
                    > 3,
        decreases 41 - number,
    {
        let word: u32 = version_word(number);
        if count_ones(version_bits_read ^ word, 18) <= 3 {
            proof {
                Version::lemma_of_number(number as int);
            }
            return Version::from_u8(number);
        }
        number = number + 1;
    }
    None
}

/// A format word has fifteen bits.
pub proof fn lemma_format_bits_range(ec: ErrorCorrection, mask: MaskPattern)
    ensures
        format_bits(ec, mask) < 0x8000,
{
    let payload = format_payload(ec, mask);
    lemma_payload(ec, mask);
    lemma_codeword(payload);
    lemma_masked_range(format_codeword(payload));
}

/// A version word has eighteen bits.
pub proof fn lemma_version_bits_range(v: int)
    requires
        0 <= v < 64,
    ensures
        version_bits(v) < 0x40000,
{
    lemma_version_codeword(v as u32);
}

/// Every bit of the zero word is zero.
proof fn lemma_zero_bit(i: u32)
    by (bit_vector)
    requires
        i < 32,
    ensures
        (0u32 >> i) & 1 == 0,
{
}

/// The word zero has no set bit.
pub proof fn lemma_weight_zero(width: nat)
    requires
        width <= 32,
    ensures
        weight_below(0, width) == 0,
    decreases width,
{
    if width > 0 {
        lemma_weight_zero((width - 1) as nat);
        lemma_zero_bit((width - 1) as u32);
    }
}

} // verus!
