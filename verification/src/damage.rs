use vstd::prelude::*;
use crate::bits::bytes_of_bits;
use crate::blocks::{
    block_len, blocks_of, data_index, data_len, is_layout, lemma_block_bounds, lemma_data_index,
    lemma_layout, lemma_parity_index, received_block,
};
use crate::counting::lemma_sweep_length;
use crate::decoder::{
    decoded, format_of, placed_codewords, version_confirmed, DecodeError, Decoded,
};
use crate::distance::{
    distance, lemma_distance_is_weight, lemma_weight_less, lemma_weight_positive, weight,
};
use crate::ecc_data::{block_layout, lemma_table_bounds, total_codewords, BlockLayout};
use crate::encoding::valid_for_mode;
use crate::generator::{encoded_symbol, smallest_version};
use crate::gf256::lemma_xor;
use crate::mask::toggled;
use crate::matrix::{is_symbol, lemma_put, put};
use crate::patterns::{
    format_bit_index, format_place_first, format_place_second, lemma_function_parts,
    version_bit_index,
};
use crate::pixel_mapping::{data_positions, is_function_module_at, lemma_sweep_coverage};
use crate::poly::poly_sum;
use crate::reader::{
    format_reading_first, format_reading_second, module_bit, raw_bits, unmasked_bits,
    version_place_first, version_place_second, version_reading_first, version_reading_second,
    word_of,
};
use crate::roundtrip::{lemma_damage_within_capacity, lemma_encoded_parts, within_capacity};
use crate::types::{DataMode, ErrorCorrection, MaskPattern, Version};

verus! {

/// Words that are put together from the same bits are the same.
pub proof fn lemma_word_agrees(f: spec_fn(int) -> u8, g: spec_fn(int) -> u8, width: nat)
    requires
        forall|i: int| 0 <= i < width ==> #[trigger] f(i) == g(i),
    ensures
        word_of(f, width) == word_of(g, width),
    decreases width,
{
    if width > 0 {
        lemma_word_agrees(f, g, (width - 1) as nat);
        assert(f(width - 1) == g(width - 1));
    }
}

/// A matrix that agrees with a symbol on the function modules carries the format
/// and version information of the symbol.
pub proof fn lemma_function_modules_intact(g: Seq<Seq<u8>>, h: Seq<Seq<u8>>, version: Version)
    requires
        is_symbol(g, version),
        is_symbol(h, version),
        forall|r: int, c: int|
            0 <= r < version.side() && 0 <= c < version.side() && is_function_module_at(
                version.number(),
                r,
                c,
            ) ==> h[r][c] == g[r][c],
    ensures
        format_of(h) == format_of(g),
        version_confirmed(h, version) == version_confirmed(g, version),
{
    let v = version.number();
    let n = version.side();
    version.lemma_number_range();
    let first_g = |i: int| module_bit(g[format_place_first(i).0][format_place_first(i).1]);
    let first_h = |i: int| module_bit(h[format_place_first(i).0][format_place_first(i).1]);
    assert forall|i: int| 0 <= i < 15 implies #[trigger] first_h(i) == first_g(i) by {
        let place = format_place_first(i);
        lemma_function_parts(v, place.0, place.1);
        assert(format_bit_index(n, place.0, place.1) >= 0);
    }
    lemma_word_agrees(first_h, first_g, 15);
    let second_g = |i: int|
        module_bit(
            g[format_place_second(g.len() as int, i).0][format_place_second(g.len() as int, i).1],
        );
    let second_h = |i: int|
        module_bit(
            h[format_place_second(h.len() as int, i).0][format_place_second(h.len() as int, i).1],
        );
    assert forall|i: int| 0 <= i < 15 implies #[trigger] second_h(i) == second_g(i) by {
        let place = format_place_second(n, i);
        lemma_function_parts(v, place.0, place.1);
        assert(format_bit_index(n, place.0, place.1) >= 0);
    }
    lemma_word_agrees(second_h, second_g, 15);
    assert(format_reading_first(h) == format_reading_first(g));
    assert(format_reading_second(h) == format_reading_second(g));
    if v >= 7 {
        let upper_g = |i: int|
            module_bit(
                g[version_place_first(g.len() as int, i).0][version_place_first(
                    g.len() as int,
                    i,
                ).1],
            );
        let upper_h = |i: int|
            module_bit(
                h[version_place_first(h.len() as int, i).0][version_place_first(
                    h.len() as int,
                    i,
                ).1],
            );
        assert forall|i: int| 0 <= i < 18 implies #[trigger] upper_h(i) == upper_g(i) by {
            let place = version_place_first(n, i);
            lemma_function_parts(v, place.0, place.1);
            assert(version_bit_index(v, place.0, place.1) >= 0);
        }
        lemma_word_agrees(upper_h, upper_g, 18);
        let lower_g = |i: int|
            module_bit(
                g[version_place_second(g.len() as int, i).0][version_place_second(
                    g.len() as int,
                    i,
                ).1],
            );
        let lower_h = |i: int|
            module_bit(
                h[version_place_second(h.len() as int, i).0][version_place_second(
                    h.len() as int,
                    i,
                ).1],
            );
        assert forall|i: int| 0 <= i < 18 implies #[trigger] lower_h(i) == lower_g(i) by {
            let place = version_place_second(n, i);
            lemma_function_parts(v, place.0, place.1);
            assert(version_bit_index(v, place.0, place.1) >= 0);
        }
        lemma_word_agrees(lower_h, lower_g, 18);
        assert(version_reading_first(h) == version_reading_first(g));
        assert(version_reading_second(h) == version_reading_second(g));
    }
}

/// Two words that differ at no two places are at a distance of at most one.
pub proof fn lemma_distance_at_most_one(a: Seq<u8>, b: Seq<u8>)
    requires
        a.len() == b.len(),
        forall|i: int, j: int|
            0 <= i < a.len() && 0 <= j < a.len() && a[i] != b[i] && a[j] != b[j] ==> i == j,
    ensures
        distance(a, b) <= 1,
{
    let d = poly_sum(a, b);
    lemma_distance_is_weight(a, b);
    if weight(d) >= 2 {
        let q = lemma_weight_positive(d);
        let thinner = d.update(q, 0u8);
        assert forall|p: int| 0 <= p < d.len() implies (thinner[p] != 0) == (d[p] != 0 && p != q) by {}
        lemma_weight_less(d, thinner, q);
        let other = lemma_weight_positive(thinner);
        lemma_xor(a[q], b[q], 0);
        lemma_xor(a[other], b[other], 0);
        assert(false);
    }
}

/// The codewords of a matrix that differs from another in one data module differ
/// from the codewords of the other in at most one place.
proof fn lemma_one_codeword(
    g: Seq<Seq<u8>>,
    h: Seq<Seq<u8>>,
    version: Version,
    mask: MaskPattern,
    k: int,
)
    requires
        is_symbol(g, version),
        is_symbol(h, version),
        0 <= k < data_positions(version.number()).len(),
        forall|i: int|
            0 <= i < data_positions(version.number()).len() && i != k ==> h[data_positions(
                version.number(),
            )[i].0][data_positions(version.number())[i].1] == g[data_positions(
                version.number(),
            )[i].0][data_positions(version.number())[i].1],
    ensures
        placed_codewords(version, mask, h).len() == placed_codewords(version, mask, g).len(),
        forall|j: int|
            0 <= j < placed_codewords(version, mask, g).len() && j != k / 8
                ==> #[trigger] placed_codewords(version, mask, h)[j] == placed_codewords(
                version,
                mask,
                g,
            )[j],
{
    let v = version.number();
    let total = total_codewords(v);
    version.lemma_number_range();
    lemma_sweep_length(version);
    lemma_table_bounds(v, ErrorCorrection::L);
    let bits_g = unmasked_bits(version, mask, raw_bits(version, g)).take(8 * total);
    let bits_h = unmasked_bits(version, mask, raw_bits(version, h)).take(8 * total);
    assert forall|i: int| 0 <= i < 8 * total && i != k implies bits_h[i] == bits_g[i] by {}
    assert forall|j: int| 0 <= j < bytes_of_bits(bits_g).len() && j != k / 8 implies bytes_of_bits(
        bits_h,
    )[j] == bytes_of_bits(bits_g)[j] by {
        assert(bits_h.subrange(8 * j, 8 * j + 8) =~= bits_g.subrange(8 * j, 8 * j + 8));
    }
}

/// The place in the stream of interleaved codewords of codeword `c` of block `b`.
pub open spec fn stream_index(l: BlockLayout, b: int, c: int) -> int {
    if c < block_len(l, b) {
        data_index(l, b, c)
    } else {
        data_len(l) + (c - block_len(l, b)) * blocks_of(l) + b
    }
}

/// Different codewords of a block stand at different places of the stream.
proof fn lemma_stream_index(l: BlockLayout, b: int, c: int, d: int)
    requires
        is_layout(l),
        0 <= b < blocks_of(l),
        0 <= c < block_len(l, b) + l.ecc_per_block,
        0 <= d < block_len(l, b) + l.ecc_per_block,
        stream_index(l, b, c) == stream_index(l, b, d),
    ensures
        c == d,
{
    lemma_block_bounds(l, b);
    if c < block_len(l, b) {
        lemma_data_index(l, b, c);
    } else {
        lemma_parity_index(l, b, c - block_len(l, b));
    }
    if d < block_len(l, b) {
        lemma_data_index(l, b, d);
    } else {
        lemma_parity_index(l, b, d - block_len(l, b));
    }
}

/// Streams that differ in one codeword give blocks that differ in at most one
/// codeword.
proof fn lemma_one_codeword_of_a_block(
    clean: Seq<u8>,
    dirty: Seq<u8>,
    l: BlockLayout,
    b: int,
    p: int,
)
    requires
        is_layout(l),
        0 <= b < blocks_of(l),
        clean.len() == data_len(l) + blocks_of(l) * l.ecc_per_block,
        dirty.len() == clean.len(),
        forall|j: int| 0 <= j < clean.len() && j != p ==> dirty[j] == clean[j],
    ensures
        distance(received_block(dirty, l, b), received_block(clean, l, b)) <= 1,
{
    let x = received_block(dirty, l, b);
    let y = received_block(clean, l, b);
    lemma_block_bounds(l, b);
    assert forall|i: int, j: int|
        0 <= i < x.len() && 0 <= j < x.len() && x[i] != y[i] && x[j] != y[j] implies i == j by {
        if i < block_len(l, b) {
            lemma_data_index(l, b, i);
        } else {
            lemma_parity_index(l, b, i - block_len(l, b));
        }
        if j < block_len(l, b) {
            lemma_data_index(l, b, j);
        } else {
            lemma_parity_index(l, b, j - block_len(l, b));
        }
        assert(stream_index(l, b, i) == p);
        assert(stream_index(l, b, j) == p);
        lemma_stream_index(l, b, i, j);
    }
    lemma_distance_at_most_one(x, y);
}

/// One damaged module: the symbol that a text is encoded into, with any one of its
/// data modules made dark where it was light or light where it was dark, decodes
/// to the level, the mask, the mode and the text. The module is named by its place
/// `k` in the sweep.
pub proof fn lemma_one_damaged_module(
    text: Seq<u8>,
    ec: ErrorCorrection,
    mode: DataMode,
    mask: MaskPattern,
    k: int,
)
    requires
        valid_for_mode(mode, text),
        smallest_version(ec, mode, text.len() as int) is Some,
        0 <= k < data_positions(
            smallest_version(ec, mode, text.len() as int).unwrap().number(),
        ).len(),
    ensures
        ({
            let version = smallest_version(ec, mode, text.len() as int).unwrap();
            let cell = data_positions(version.number())[k];
            let g = encoded_symbol(text, ec, mode, mask, false);
            decoded(put(g, cell.0, cell.1, toggled(g[cell.0][cell.1]))) == Ok::<
                Decoded,
                DecodeError,
            >(
                Decoded {
                    version: version,
                    error_correction: ec,
                    mask_pattern: mask,
                    data_mode: mode,
                    text: text,
                },
            )
        }),
{
    let version = smallest_version(ec, mode, text.len() as int).unwrap();
    let v = version.number();
    let n = version.side();
    let cells = data_positions(v);
    let cell = cells[k];
    let g = encoded_symbol(text, ec, mode, mask, false);
    let h = put(g, cell.0, cell.1, toggled(g[cell.0][cell.1]));
    let l = block_layout(v, ec);
    version.lemma_number_range();
    Version::lemma_of_number(v);
    lemma_encoded_parts(text, ec, mode, mask);
    lemma_sweep_coverage(version);
    lemma_table_bounds(v, ec);
    lemma_layout(v, ec);
    assert(is_symbol(g, version));
    lemma_put(g, n, cell.0, cell.1, toggled(g[cell.0][cell.1]));
    assert(is_symbol(h, version));
    lemma_function_modules_intact(g, h, version);
    assert forall|i: int| 0 <= i < cells.len() && i != k implies h[cells[i].0][cells[i].1]
        == g[cells[i].0][cells[i].1] by {
        assert(cells[i] != cells[k]);
    }
    lemma_one_codeword(g, h, version, mask, k);
    let clean = placed_codewords(version, mask, g);
    let dirty = placed_codewords(version, mask, h);
    assert forall|b: int| 0 <= b < blocks_of(l) implies 2 * distance(
        #[trigger] received_block(dirty, l, b),
        received_block(clean, l, b),
    ) <= l.ecc_per_block by {
        lemma_one_codeword_of_a_block(clean, dirty, l, b, k / 8);
    }
    assert(within_capacity(g, h, version, ec, mask));
    lemma_damage_within_capacity(text, ec, mode, mask, h);
}

} // verus!
