use vstd::prelude::*;
use crate::bits::{
    bits_of, bits_of_bytes, bytes_of_bits, is_bits, lemma_bits_of_bytes, lemma_bits_of_bytes_slice,
    lemma_bits_of_value_of, lemma_two_to_values, lemma_value_of_bits_of, two_to, value_of,
};
use crate::ecc_data::{
    data_codewords, lemma_table_bounds, length_bits, mode_indicator, payload_bits,
};
use crate::encoding::{
    alphanumeric_index, alphanumeric_payload, digit_group_bits, fits, last_group,
    lemma_message, lemma_payload, message, numeric_payload, padded, payload,
    symbol_group_bits, valid_for_mode,
};
use crate::parser::{
    alphanumeric_text, byte_text, decimal, digit_group_width, numeric_text, parsed,
    symbol_group_text,
};
use crate::bits::lemma_bytes_of_bits_of_bytes;
use crate::blocks::{
    block_start, blocks_of, codeword_stream, data_block, data_len, interleaved_data,
    interleaved_parity, is_layout, lemma_block_bounds, lemma_layout, lemma_received_block,
    parity_block, received_block,
};
use crate::counting::lemma_sweep_length;
use crate::distance::{distance, lemma_correction_within_capacity};
use crate::decoder::{
    decoded, format_in_reach, format_of, format_read, placed_codewords, repaired_data,
    version_confirmed, version_in_reach, version_read, DecodeError, Decoded,
};
use crate::ecc::{correction_of, lemma_encoded_is_codeword, CorrectionOutcome};
use crate::ecc_data::{block_layout, total_codewords, BlockLayout};
use crate::encoding::{data_bit_stream, lemma_padded};
use crate::format::{format_bits, lemma_format_unique, lemma_version_unique, version_bits, weight15};
use crate::generator::{
    data_bit_at, encoded_symbol, first_fit, lemma_capacity_fits, lemma_first_fit, lemma_index_of,
    placed_stream, smallest_version, symbol, symbol_module,
};
use crate::mask::lemma_toggled;
use crate::matrix::{is_symbol, is_symbol_matrix, version_of};
use crate::patterns::{
    format_place_first, function_value, lemma_function_parts, version_bit_index, word_bit,
};
use crate::pixel_mapping::{data_positions, lemma_sweep_coverage};
use crate::reader::{
    format_reading_first, module_bit, raw_bits, unmasked_bits, version_place_first,
    version_reading_first, word_of,
};
use crate::types::{DataMode, ErrorCorrection, MaskPattern, Version};

verus! {

/// The bits of bytes in a row are the bits of the first bytes, then those of the rest.
pub proof fn lemma_bits_of_bytes_concat(a: Seq<u8>, b: Seq<u8>)
    ensures
        bits_of_bytes(a + b) == bits_of_bytes(a) + bits_of_bytes(b),
    decreases b.len(),
{
    if b.len() == 0 {
        assert(a + b =~= a);
        assert(bits_of_bytes(a) + bits_of_bytes(b) =~= bits_of_bytes(a));
    } else {
        assert((a + b).drop_last() =~= a + b.drop_last());
        lemma_bits_of_bytes_concat(a, b.drop_last());
        assert(bits_of_bytes(a + b) =~= bits_of_bytes(a) + bits_of_bytes(b));
    }
}

/// Unpacking the bytes that whole groups of eight bits spell gives the bits back.
pub proof fn lemma_bits_of_bytes_of_bits(bits: Seq<u8>)
    requires
        is_bits(bits),
        bits.len() % 8 == 0,
    ensures
        bits_of_bytes(bytes_of_bits(bits)) == bits,
{
    let bytes = bytes_of_bits(bits);
    let back = bits_of_bytes(bytes);
    lemma_bits_of_bytes(bytes);
    assert forall|j: int| 0 <= j < bits.len() implies back[j] == bits[j] by {
        let i = j / 8;
        let chunk = bits.subrange(8 * i, 8 * i + 8);
        lemma_bits_of_bytes_slice(bytes, i);
        assert(is_bits(chunk)) by {
            assert forall|q: int| 0 <= q < chunk.len() implies (#[trigger] chunk[q]) <= 1 by {
                assert(chunk[q] == bits[8 * i + q]);
            }
        }
        lemma_bits_of_value_of(chunk);
        lemma_two_to_values();
        assert(bytes[i] as int == value_of(chunk));
        assert(back.subrange(8 * i, 8 * i + 8)[j - 8 * i] == back[j]);
        assert(chunk[j - 8 * i] == bits[j]);
    }
    assert(back =~= bits);
}

/// A digit is read back from its value.
proof fn lemma_decimal_group(group: Seq<u8>)
    requires
        1 <= group.len() <= 3,
        forall|i: int| 0 <= i < group.len() ==> 48 <= #[trigger] group[i] <= 57,
    ensures
        decimal(
            value_of(digit_group_bits(group)),
            group.len() as int,
        ) == group,
{
    lemma_two_to_values();
    assert(48 <= group[0] <= 57);
    if group.len() == 3 {
        assert(48 <= group[1] <= 57);
        assert(48 <= group[2] <= 57);
        let value = (group[0] - 48) * 100 + (group[1] - 48) * 10 + (group[2] - 48);
        lemma_value_of_bits_of(value, 10);
        assert(decimal(value, 3) =~= group);
    } else if group.len() == 2 {
        assert(48 <= group[1] <= 57);
        let value = (group[0] - 48) * 10 + (group[1] - 48);
        lemma_value_of_bits_of(value, 7);
        assert(decimal(value, 2) =~= group);
    } else {
        let value = group[0] - 48;
        lemma_value_of_bits_of(value, 4);
        assert(decimal(value, 1) =~= group);
    }
}

/// A numeric payload, whatever follows it, is read back as the digits it was made from.
pub proof fn lemma_numeric_round_trip(text: Seq<u8>, rest: Seq<u8>)
    requires
        valid_for_mode(DataMode::Numeric, text),
    ensures
        numeric_text(numeric_payload(text) + rest, text.len() as int) == text,
    decreases text.len(),
{
    let bits = numeric_payload(text) + rest;
    let count = text.len() as int;
    if count > 0 {
        let size = last_group(count, 3);
        let cut = count - size;
        let head = text.take(cut);
        let group = text.skip(cut);
        let group_bits = digit_group_bits(group);
        assert(valid_for_mode(DataMode::Numeric, head)) by {
            assert forall|i: int| 0 <= i < head.len() implies crate::encoding::is_valid_char(
                DataMode::Numeric,
                #[trigger] head[i],
            ) by {
                assert(head[i] == text[i]);
            }
        }
        assert forall|i: int| 0 <= i < group.len() implies 48 <= #[trigger] group[i] <= 57 by {
            assert(group[i] == text[cut + i]);
            assert(crate::encoding::is_valid_char(DataMode::Numeric, text[cut + i]));
        }
        lemma_payload(DataMode::Numeric, head);
        lemma_payload(DataMode::Numeric, text);
        assert(bits =~= numeric_payload(head) + (group_bits + rest));
        lemma_numeric_round_trip(head, group_bits + rest);
        let start = payload_bits(DataMode::Numeric, cut);
        assert(start == numeric_payload(head).len());
        assert(group_bits.len() == digit_group_width(size));
        assert(bits.subrange(start, start + digit_group_width(size)) =~= group_bits);
        lemma_decimal_group(group);
        assert(head + group =~= text);
    }
}

/// An alphanumeric character is read back from its value.
proof fn lemma_symbol_group(group: Seq<u8>)
    requires
        1 <= group.len() <= 2,
        forall|i: int| 0 <= i < group.len() ==> alphanumeric_index(#[trigger] group[i]) < 45,
    ensures
        symbol_group_text(value_of(symbol_group_bits(group)), group.len() as int) == group,
{
    lemma_two_to_values();
    assert(alphanumeric_index(group[0]) < 45);
    if group.len() == 2 {
        assert(alphanumeric_index(group[1]) < 45);
        let first = alphanumeric_index(group[0]);
        let second = alphanumeric_index(group[1]);
        let value = first * 45 + second;
        lemma_value_of_bits_of(value, 11);
        assert(value / 45 == first && value % 45 == second);
        assert(symbol_group_text(value, 2) =~= group);
    } else {
        let value = alphanumeric_index(group[0]);
        lemma_value_of_bits_of(value, 6);
        assert(symbol_group_text(value, 1) =~= group);
    }
}

/// An alphanumeric payload, whatever follows it, is read back as the characters it
/// was made from.
pub proof fn lemma_alphanumeric_round_trip(text: Seq<u8>, rest: Seq<u8>)
    requires
        valid_for_mode(DataMode::Alphanumeric, text),
    ensures
        alphanumeric_text(alphanumeric_payload(text) + rest, text.len() as int) == text,
    decreases text.len(),
{
    let bits = alphanumeric_payload(text) + rest;
    let count = text.len() as int;
    if count > 0 {
        let size = last_group(count, 2);
        let cut = count - size;
        let head = text.take(cut);
        let group = text.skip(cut);
        let group_bits = symbol_group_bits(group);
        assert(valid_for_mode(DataMode::Alphanumeric, head)) by {
            assert forall|i: int| 0 <= i < head.len() implies crate::encoding::is_valid_char(
                DataMode::Alphanumeric,
                #[trigger] head[i],
            ) by {
                assert(head[i] == text[i]);
            }
        }
        assert forall|i: int| 0 <= i < group.len() implies alphanumeric_index(
            #[trigger] group[i],
        ) < 45 by {
            assert(group[i] == text[cut + i]);
            assert(crate::encoding::is_valid_char(DataMode::Alphanumeric, text[cut + i]));
        }
        lemma_payload(DataMode::Alphanumeric, head);
        lemma_payload(DataMode::Alphanumeric, text);
        assert(bits =~= alphanumeric_payload(head) + (group_bits + rest));
        lemma_alphanumeric_round_trip(head, group_bits + rest);
        let start = payload_bits(DataMode::Alphanumeric, cut);
        let width = if size == 2 {
            11int
        } else {
            6int
        };
        assert(start == alphanumeric_payload(head).len());
        assert(group_bits.len() == width);
        assert(bits.subrange(start, start + width) =~= group_bits);
        lemma_symbol_group(group);
        assert(head + group =~= text);
    }
}

/// A byte payload, whatever follows it, is read back as the bytes it was made from.
pub proof fn lemma_byte_round_trip(text: Seq<u8>, rest: Seq<u8>)
    ensures
        byte_text(bits_of_bytes(text) + rest, text.len() as int) == text,
{
    let bits = bits_of_bytes(text) + rest;
    let back = byte_text(bits, text.len() as int);
    lemma_bits_of_bytes(text);
    assert forall|i: int| 0 <= i < text.len() implies back[i] == text[i] by {
        lemma_bits_of_bytes_slice(text, i);
        assert(bits.subrange(8 * i, 8 * i + 8) =~= bits_of_bytes(text).subrange(8 * i, 8 * i + 8));
        lemma_two_to_values();
        lemma_value_of_bits_of(text[i] as int, 8);
    }
    assert(back =~= text);
}

/// A text that fits a symbol has a count that fits the width of the count.
pub proof fn lemma_count_fits(v: int, ec: ErrorCorrection, mode: DataMode, len: int)
    requires
        1 <= v <= 40,
        0 <= len,
        fits(v, ec, mode, len),
    ensures
        len < two_to(length_bits(v, mode) as nat),
{
    lemma_table_bounds(v, ec);
    lemma_two_to_values();
}

/// Message round trip: the padded data bits of a text that fits are read back as the
/// mode and the text.
pub proof fn lemma_parse_round_trip(v: int, ec: ErrorCorrection, mode: DataMode, text: Seq<u8>)
    requires
        1 <= v <= 40,
        valid_for_mode(mode, text),
        fits(v, ec, mode, text.len() as int),
    ensures
        parsed(v, padded(message(v, mode, text), 8 * data_codewords(v, ec))) == Some((mode, text)),
{
    let capacity = 8 * data_codewords(v, ec);
    let m = message(v, mode, text);
    let bits = padded(m, capacity);
    let width = length_bits(v, mode);
    let len = text.len() as int;
    lemma_message(v, mode, text);
    lemma_payload(mode, text);
    crate::bits::lemma_bits_of(mode_indicator(mode), 4);
    crate::bits::lemma_bits_of(len, width as nat);
    lemma_count_fits(v, ec, mode, len);
    lemma_two_to_values();
    let head = bits_of(mode_indicator(mode), 4);
    let count_bits = bits_of(len, width as nat);
    assert(bits.take(4) =~= head);
    lemma_value_of_bits_of(mode_indicator(mode), 4);
    assert(bits.subrange(4, 4 + width) =~= count_bits);
    lemma_value_of_bits_of(len, width as nat);
    let rest = bits.skip(m.len() as int);
    assert(bits.skip(4 + width) =~= payload(mode, text) + rest);
    match mode {
        DataMode::Numeric => {
            lemma_numeric_round_trip(text, rest);
        },
        DataMode::Alphanumeric => {
            lemma_alphanumeric_round_trip(text, rest);
        },
        DataMode::Byte => {
            lemma_byte_round_trip(text, rest);
        },
    }
}

/// A block that was encoded and not damaged is found free of errors.
pub proof fn lemma_clean_block(codewords: Seq<u8>, l: BlockLayout, b: int)
    requires
        is_layout(l),
        codewords.len() == data_len(l),
        0 <= b < blocks_of(l),
    ensures
        correction_of(
            received_block(codeword_stream(codewords, l), l, b),
            l.ecc_per_block as nat,
        ) == CorrectionOutcome::ErrorFree(data_block(codewords, l, b)),
{
    let data = data_block(codewords, l, b);
    let parity = parity_block(codewords, l, b);
    lemma_received_block(codewords, l, b);
    lemma_block_bounds(l, b);
    lemma_encoded_is_codeword(data, l.ecc_per_block as nat);
    assert((data + parity).take(data.len() as int) =~= data);
}

/// The blocks of an undamaged stream are repaired to the data codewords.
pub proof fn lemma_repaired_clean(codewords: Seq<u8>, l: BlockLayout, count: nat)
    requires
        is_layout(l),
        codewords.len() == data_len(l),
        count <= blocks_of(l),
    ensures
        repaired_data(codeword_stream(codewords, l), l, count) == Some(
            codewords.take(block_start(l, count as int)),
        ),
    decreases count,
{
    if count == 0 {
        assert(codewords.take(0) =~= Seq::<u8>::empty());
    } else {
        lemma_repaired_clean(codewords, l, (count - 1) as nat);
        lemma_clean_block(codewords, l, count - 1);
        lemma_block_bounds(l, count - 1);
        assert(codewords.take(block_start(l, count - 1)) + data_block(codewords, l, count - 1)
            =~= codewords.take(block_start(l, count as int)));
    }
}

/// The bits that are placed spell the interleaved codewords.
pub proof fn lemma_placed_codewords(v: int, ec: ErrorCorrection, data_bits: Seq<u8>)
    requires
        1 <= v <= 40,
    ensures
        bytes_of_bits(placed_stream(v, ec, data_bits)) == codeword_stream(
            bytes_of_bits(data_bits),
            block_layout(v, ec),
        ),
        placed_stream(v, ec, data_bits).len() == 8 * total_codewords(v),
        is_bits(placed_stream(v, ec, data_bits)),
{
    let l = block_layout(v, ec);
    let codewords = bytes_of_bits(data_bits);
    let data = interleaved_data(codewords, l);
    let parity = interleaved_parity(codewords, l);
    lemma_layout(v, ec);
    lemma_bits_of_bytes_concat(data, parity);
    lemma_bytes_of_bits_of_bytes(data + parity);
    lemma_bits_of_bytes(data + parity);
    assert(blocks_of(l) * l.ecc_per_block >= 0) by (nonlinear_arith)
        requires
            blocks_of(l) >= 0,
            l.ecc_per_block >= 0,
    ;
    assert(data_len(l) >= 0) by {
        lemma_block_bounds(l, 0);
    }
}

/// A bit of a word is zero or one.
proof fn lemma_bit_is_small(w: u32, i: u32)
    by (bit_vector)
    requires
        i < 32,
    ensures
        (w >> i) & 1 <= 1,
{
}

/// The lowest `k + 1` bits of a word are its lowest `k` bits and the bit above them.
proof fn lemma_low_bits_step(w: u32, k: u32)
    by (bit_vector)
    requires
        k < 31,
    ensures
        (w & (((1u32 << k) - 1) as u32)) | (((w >> k) & 1) << k) == w & (((1u32 << ((k + 1) as u32))
            - 1) as u32),
        w & (((1u32 << 0u32) - 1) as u32) == 0,
{
}

/// A word within fifteen or eighteen bits is the same as its lowest fifteen or
/// eighteen bits.
proof fn lemma_low_bits(w: u32)
    by (bit_vector)
    ensures
        w < 0x8000 ==> w & (((1u32 << 15u32) - 1) as u32) == w,
        w < 0x40000 ==> w & (((1u32 << 18u32) - 1) as u32) == w,
        (w as u16) as u32 == w & 0xffff,
        w < 0x8000 ==> w & 0xffff == w,
{
}

/// A word is put together again from its bits.
proof fn lemma_word_of(bit: spec_fn(int) -> u8, w: u32, width: nat)
    requires
        width <= 31,
        forall|i: int| 0 <= i < width ==> (#[trigger] bit(i)) == word_bit(w, i),
    ensures
        word_of(bit, width) == w & (((1u32 << (width as u32)) - 1) as u32),
    decreases width,
{
    if width == 0 {
        lemma_low_bits_step(w, 0);
    } else {
        let k = (width - 1) as u32;
        lemma_word_of(bit, w, (width - 1) as nat);
        lemma_bit_is_small(w, k);
        lemma_low_bits_step(w, k);
        assert(bit(width - 1) == word_bit(w, width - 1));
        assert(bit(width - 1) as u32 == (w >> k) & 1);
    }
}

/// What the parts of a symbol are, for a stream of bits that fills its codewords.
pub open spec fn is_placed(version: Version, stream: Seq<u8>) -> bool {
    is_bits(stream) && stream.len() == 8 * total_codewords(version.number())
}

/// A symbol has the shape of its version.
pub proof fn lemma_symbol_shape(
    version: Version,
    ec: ErrorCorrection,
    mask: MaskPattern,
    skip_mask: bool,
    stream: Seq<u8>,
)
    ensures
        is_symbol_matrix(symbol(version, ec, mask, skip_mask, stream)),
        version_of(symbol(version, ec, mask, skip_mask, stream)) == version,
        is_symbol(symbol(version, ec, mask, skip_mask, stream), version),
{
    version.lemma_number_range();
    Version::lemma_of_number(version.number());
}

/// The format bits of a symbol are read as its level and mask.
pub proof fn lemma_symbol_format(
    version: Version,
    ec: ErrorCorrection,
    mask: MaskPattern,
    skip_mask: bool,
    stream: Seq<u8>,
)
    ensures
        format_of(symbol(version, ec, mask, skip_mask, stream)) == Some((ec, mask)),
{
    let g = symbol(version, ec, mask, skip_mask, stream);
    let v = version.number();
    let n = version.side();
    version.lemma_number_range();
    let w = format_bits(ec, mask) as u32;
    let first = |i: int| module_bit(g[format_place_first(i).0][format_place_first(i).1]);
    assert forall|i: int| 0 <= i < 15 implies (#[trigger] first(i)) == word_bit(w, i) by {
        let place = format_place_first(i);
        lemma_function_parts(v, place.0, place.1);
        assert(g[place.0][place.1] == function_value(v, ec, mask, place.0, place.1));
        lemma_bit_is_small(w, i as u32);
    }
    lemma_word_of(first, w, 15);
    lemma_format_range(ec, mask);
    lemma_low_bits(w);
    assert(format_reading_first(g) as u16 == format_bits(ec, mask));
    lemma_format_read(ec, mask);
}

/// The format word of a level and mask is a fifteen-bit word, and is read as them.
proof fn lemma_format_range(ec: ErrorCorrection, mask: MaskPattern)
    ensures
        format_bits(ec, mask) < 0x8000,
{
    crate::format::lemma_format_bits_range(ec, mask);
}

/// A format word is at distance zero from itself.
proof fn lemma_no_distance(w: u16)
    by (bit_vector)
    ensures
        weight15(w ^ w) == 0,
{
}

/// The format word of a level and a mask is read back as that level and mask.
proof fn lemma_format_read(ec: ErrorCorrection, mask: MaskPattern)
    ensures
        format_read(format_bits(ec, mask)) == Some((ec, mask)),
{
    let w = format_bits(ec, mask);
    lemma_format_range(ec, mask);
    lemma_no_distance(w);
    let pair = (ec, mask);
    assert(format_in_reach(w, pair.0, pair.1));
    let other = choose|found: (ErrorCorrection, MaskPattern)|
        #[trigger] format_in_reach(w, found.0, found.1);
    lemma_format_unique(w, ec, mask, other.0, other.1);
}

/// The version bits of a symbol confirm its version.
pub proof fn lemma_symbol_version(
    version: Version,
    ec: ErrorCorrection,
    mask: MaskPattern,
    skip_mask: bool,
    stream: Seq<u8>,
)
    ensures
        version_confirmed(symbol(version, ec, mask, skip_mask, stream), version),
{
    let g = symbol(version, ec, mask, skip_mask, stream);
    let v = version.number();
    let n = version.side();
    version.lemma_number_range();
    if v >= 7 {
        let w = version_bits(v);
        let first = |i: int|
            module_bit(
                g[version_place_first(g.len() as int, i).0][version_place_first(
                    g.len() as int,
                    i,
                ).1],
            );
        assert forall|i: int| 0 <= i < 18 implies (#[trigger] first(i)) == word_bit(w, i) by {
            let place = version_place_first(n, i);
            lemma_function_parts(v, place.0, place.1);
            assert(g[place.0][place.1] == function_value(v, ec, mask, place.0, place.1));
            assert(version_bit_index(v, place.0, place.1) == i);
            lemma_bit_is_small(w, i as u32);
        }
        lemma_word_of(first, w, 18);
        crate::format::lemma_version_bits_range(v);
        lemma_low_bits(w);
        assert(version_reading_first(g) == w);
        lemma_version_read(version);
    }
}

/// A word differs from itself nowhere.
proof fn lemma_no_version_distance(w: u32)
    by (bit_vector)
    ensures
        w ^ w == 0,
{
}

/// The version word of a version from 7 on is read back as that version.
proof fn lemma_version_read(version: Version)
    requires
        version.number() >= 7,
    ensures
        version_read(version_bits(version.number())) == Some(version),
{
    let v = version.number();
    let w = version_bits(v);
    version.lemma_number_range();
    crate::format::lemma_version_bits_range(v);
    lemma_no_version_distance(w);
    crate::format::lemma_weight_zero(18);
    assert(version_in_reach(w, v));
    let other = choose|x: int| #[trigger] version_in_reach(w, x);
    lemma_version_unique(w, v, other);
}

/// The data modules of a symbol, read in the order of the sweep and with the mask
/// taken off, give the stream that was placed.
pub proof fn lemma_symbol_stream(
    version: Version,
    ec: ErrorCorrection,
    mask: MaskPattern,
    stream: Seq<u8>,
)
    requires
        is_placed(version, stream),
    ensures
        unmasked_bits(
            version,
            mask,
            raw_bits(version, symbol(version, ec, mask, false, stream)),
        ).take(8 * total_codewords(version.number())) == stream,
{
    let g = symbol(version, ec, mask, false, stream);
    let v = version.number();
    let cells = data_positions(v);
    let read = unmasked_bits(version, mask, raw_bits(version, g));
    version.lemma_number_range();
    lemma_sweep_coverage(version);
    lemma_sweep_length(version);
    lemma_table_bounds(v, ec);
    assert forall|i: int| 0 <= i < stream.len() implies read[i] == stream[i] by {
        let cell = cells[i];
        lemma_index_of(cells, i);
        assert(stream[i] <= 1);
        lemma_toggled(stream[i]);
        assert(data_bit_at(v, stream, cell.0, cell.1) == stream[i]);
        assert(g[cell.0][cell.1] == symbol_module(version, ec, mask, false, stream, cell.0, cell.1));
    }
    assert(read.take(8 * total_codewords(v)) =~= stream);
}

/// The parts of the symbol that a text is encoded into: its shape, its format and
/// version information, the codewords that its data modules hold, and what the data
/// codewords spell.
pub proof fn lemma_encoded_parts(text: Seq<u8>, ec: ErrorCorrection, mode: DataMode, mask: MaskPattern)
    requires
        valid_for_mode(mode, text),
        smallest_version(ec, mode, text.len() as int) is Some,
    ensures
        ({
            let version = smallest_version(ec, mode, text.len() as int).unwrap();
            let v = version.number();
            let l = block_layout(v, ec);
            let g = encoded_symbol(text, ec, mode, mask, false);
            let codewords = bytes_of_bits(data_bit_stream(v, ec, mode, text));
            &&& 1 <= v <= 40
            &&& is_layout(l)
            &&& is_symbol_matrix(g)
            &&& version_of(g) == version
            &&& format_of(g) == Some((ec, mask))
            &&& version_confirmed(g, version)
            &&& codewords.len() == data_len(l)
            &&& placed_codewords(version, mask, g) == codeword_stream(codewords, l)
            &&& parsed(v, bits_of_bytes(codewords)) == Some((mode, text))
        }),
{
    let version = smallest_version(ec, mode, text.len() as int).unwrap();
    let v = version.number();
    version.lemma_number_range();
    lemma_first_fit(ec, mode, text.len() as int, 1);
    Version::lemma_of_number(first_fit(ec, mode, text.len() as int, 1));
    lemma_capacity_fits(v, ec, mode, text.len() as int);
    lemma_table_bounds(v, ec);
    let l = block_layout(v, ec);
    lemma_layout(v, ec);
    let data_bits = data_bit_stream(v, ec, mode, text);
    lemma_message(v, mode, text);
    lemma_padded(message(v, mode, text), 8 * data_codewords(v, ec));
    let stream = placed_stream(v, ec, data_bits);
    let g = symbol(version, ec, mask, false, stream);
    lemma_placed_codewords(v, ec, data_bits);
    lemma_symbol_shape(version, ec, mask, false, stream);
    lemma_symbol_format(version, ec, mask, false, stream);
    lemma_symbol_version(version, ec, mask, false, stream);
    lemma_symbol_stream(version, ec, mask, stream);
    let codewords = bytes_of_bits(data_bits);
    assert(codewords.len() == data_len(l));
    assert(placed_codewords(version, mask, g) == codeword_stream(codewords, l));
    lemma_bits_of_bytes_of_bits(data_bits);
    lemma_parse_round_trip(v, ec, mode, text);
}

/// Round trip: the symbol that a text is encoded into decodes to the level, the
/// mask, the mode and the text. The text has to be one that the mode can express
/// and that some version holds, and the symbol has to be masked.
pub proof fn lemma_round_trip(
    text: Seq<u8>,
    ec: ErrorCorrection,
    mode: DataMode,
    mask: MaskPattern,
)
    requires
        valid_for_mode(mode, text),
        smallest_version(ec, mode, text.len() as int) is Some,
    ensures
        decoded(encoded_symbol(text, ec, mode, mask, false)) == Ok::<Decoded, DecodeError>(
            Decoded {
                version: smallest_version(ec, mode, text.len() as int).unwrap(),
                error_correction: ec,
                mask_pattern: mask,
                data_mode: mode,
                text: text,
            },
        ),
{
    let version = smallest_version(ec, mode, text.len() as int).unwrap();
    let v = version.number();
    let l = block_layout(v, ec);
    let codewords = bytes_of_bits(data_bit_stream(v, ec, mode, text));
    lemma_encoded_parts(text, ec, mode, mask);
    lemma_repaired_clean(codewords, l, blocks_of(l) as nat);
    lemma_block_bounds(l, 0);
    assert(codewords.take(block_start(l, blocks_of(l))) =~= codewords);
}

/// Whether the codewords of each block of the matrix `h` differ from those of the
/// symbol `g`, both read as symbols of the given version and mask, in no more
/// places than half the number of parity codewords of a block at the given level.
pub open spec fn within_capacity(
    g: Seq<Seq<u8>>,
    h: Seq<Seq<u8>>,
    version: Version,
    ec: ErrorCorrection,
    mask: MaskPattern,
) -> bool {
    let l = block_layout(version.number(), ec);
    forall|b: int|
        0 <= b < blocks_of(l) ==> 2 * distance(
            #[trigger] received_block(placed_codewords(version, mask, h), l, b),
            received_block(placed_codewords(version, mask, g), l, b),
        ) <= l.ecc_per_block
}

/// The blocks of a stream that differs from the stream of given codewords, block by
/// block, in no more places than half the number of parity codewords, are repaired
/// to the data codewords.
pub proof fn lemma_repaired_damaged(codewords: Seq<u8>, l: BlockLayout, damaged: Seq<u8>, count: nat)
    requires
        is_layout(l),
        codewords.len() == data_len(l),
        count <= blocks_of(l),
        forall|b: int|
            0 <= b < blocks_of(l) ==> 2 * distance(
                #[trigger] received_block(damaged, l, b),
                received_block(codeword_stream(codewords, l), l, b),
            ) <= l.ecc_per_block,
    ensures
        repaired_data(damaged, l, count) == Some(codewords.take(block_start(l, count as int))),
    decreases count,
{
    if count == 0 {
        assert(codewords.take(0) =~= Seq::<u8>::empty());
    } else {
        let b = count - 1;
        let t = l.ecc_per_block as nat;
        lemma_repaired_damaged(codewords, l, damaged, (count - 1) as nat);
        let data = data_block(codewords, l, b);
        let clean = received_block(codeword_stream(codewords, l), l, b);
        let dirty = received_block(damaged, l, b);
        lemma_received_block(codewords, l, b);
        lemma_block_bounds(l, b);
        lemma_encoded_is_codeword(data, t);
        assert(clean.take(data.len() as int) =~= data);
        lemma_correction_within_capacity(clean, dirty, t);
        assert(codewords.take(block_start(l, b)) + data =~= codewords.take(
            block_start(l, count as int),
        ));
    }
}

/// Damage within capacity: a matrix of the shape of the symbol that a text is
/// encoded into, whose format and version information is read as that of the
/// symbol and whose blocks differ from those of the symbol in no more codewords
/// than half the number of their parity codewords, decodes to what the symbol
/// decodes to: the level, the mask, the mode and the text.
pub proof fn lemma_damage_within_capacity(
    text: Seq<u8>,
    ec: ErrorCorrection,
    mode: DataMode,
    mask: MaskPattern,
    h: Seq<Seq<u8>>,
)
    requires
        valid_for_mode(mode, text),
        smallest_version(ec, mode, text.len() as int) is Some,
        is_symbol(h, smallest_version(ec, mode, text.len() as int).unwrap()),
        format_of(h) == Some((ec, mask)),
        version_confirmed(h, smallest_version(ec, mode, text.len() as int).unwrap()),
        within_capacity(
            encoded_symbol(text, ec, mode, mask, false),
            h,
            smallest_version(ec, mode, text.len() as int).unwrap(),
            ec,
            mask,
        ),
    ensures
        decoded(h) == Ok::<Decoded, DecodeError>(
            Decoded {
                version: smallest_version(ec, mode, text.len() as int).unwrap(),
                error_correction: ec,
                mask_pattern: mask,
                data_mode: mode,
                text: text,
            },
        ),
{
    let version = smallest_version(ec, mode, text.len() as int).unwrap();
    let v = version.number();
    let l = block_layout(v, ec);
    let codewords = bytes_of_bits(data_bit_stream(v, ec, mode, text));
    lemma_encoded_parts(text, ec, mode, mask);
    version.lemma_number_range();
    Version::lemma_of_number(v);
    assert(is_symbol_matrix(h) && version_of(h) == version);
    lemma_repaired_damaged(codewords, l, placed_codewords(version, mask, h), blocks_of(l) as nat);
    lemma_block_bounds(l, 0);
    assert(codewords.take(block_start(l, blocks_of(l))) =~= codewords);
}

/// Visual stability: a symbol that a text was encoded into, decoded and encoded
/// again with the level, mode and mask that the decoding gave, is the same symbol.
pub proof fn lemma_visual_stability(
    text: Seq<u8>,
    ec: ErrorCorrection,
    mode: DataMode,
    mask: MaskPattern,
)
    requires
        valid_for_mode(mode, text),
        smallest_version(ec, mode, text.len() as int) is Some,
    ensures
        decoded(encoded_symbol(text, ec, mode, mask, false)) is Ok,
        ({
            let found = decoded(encoded_symbol(text, ec, mode, mask, false)).unwrap();
            encoded_symbol(
                found.text,
                found.error_correction,
                found.data_mode,
                found.mask_pattern,
                false,
            ) == encoded_symbol(text, ec, mode, mask, false)
        }),
{
    lemma_round_trip(text, ec, mode, mask);
}

} // verus!
