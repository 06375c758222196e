use vstd::prelude::*;
use crate::bits::{bits_of_bytes, bits_to_usize, is_bits, lemma_two_to_values, value_of};
use crate::ecc_data::{get_length_bits, length_bits, payload_bits};
use crate::encoding::last_group;
use crate::types::{DataMode, Version};

verus! {

/// The mode that a four-bit mode indicator names, if it names one.
pub open spec fn mode_of_indicator(indicator: int) -> Option<DataMode> {
    if indicator == 1 {
        Some(DataMode::Numeric)
    } else if indicator == 2 {
        Some(DataMode::Alphanumeric)
    } else if indicator == 4 {
        Some(DataMode::Byte)
    } else {
        None
    }
}

/// The decimal digit of `value` that counts for ten to the power `place`, as a character.
pub open spec fn digit_char(value: int, place: int) -> u8 {
    let divisor = if place == 0 {
        1int
    } else if place == 1 {
        10int
    } else if place == 2 {
        100int
    } else {
        1000int
    };
    (48 + (value / divisor) % 10) as u8
}

/// A number below 10000 in decimal, with zeros in front up to `width` digits.
pub open spec fn decimal(value: int, width: int) -> Seq<u8> {
    if value >= 1000 || width >= 4 {
        seq![
            digit_char(value, 3),
            digit_char(value, 2),
            digit_char(value, 1),
            digit_char(value, 0),
        ]
    } else if value >= 100 || width == 3 {
        seq![digit_char(value, 2), digit_char(value, 1), digit_char(value, 0)]
    } else if value >= 10 || width == 2 {
        seq![digit_char(value, 1), digit_char(value, 0)]
    } else {
        seq![digit_char(value, 0)]
    }
}

/// The character of the alphanumeric mode with the given value; a space for a
/// value that no character has.
pub open spec fn alphanumeric_char(value: int) -> u8 {
    if 0 <= value <= 9 {
        (48 + value) as u8
    } else if 10 <= value <= 35 {
        (65 + value - 10) as u8
    } else if value == 36 {
        32
    } else if value == 37 {
        36
    } else if value == 38 {
        37
    } else if value == 39 {
        42
    } else if value == 40 {
        43
    } else if value == 41 {
        45
    } else if value == 42 {
        46
    } else if value == 43 {
        47
    } else if value == 44 {
        58
    } else {
        32
    }
}

/// The number of bits that a group of `size` digits takes.
pub open spec fn digit_group_width(size: int) -> int {
    if size == 3 {
        10
    } else if size == 2 {
        7
    } else {
        4
    }
}

/// The text of a numeric payload of `count` digits.
pub open spec fn numeric_text(bits: Seq<u8>, count: int) -> Seq<u8>
    decreases count,
{
    if count <= 0 {
        Seq::empty()
    } else {
        let size = last_group(count, 3);
        let start = payload_bits(DataMode::Numeric, count - size);
        numeric_text(bits, count - size) + decimal(
            value_of(bits.subrange(start, start + digit_group_width(size))),
            size,
        )
    }
}

/// The characters of a group of an alphanumeric payload.
pub open spec fn symbol_group_text(value: int, size: int) -> Seq<u8> {
    if size == 2 {
        seq![alphanumeric_char(value / 45), alphanumeric_char(value % 45)]
    } else {
        seq![alphanumeric_char(value)]
    }
}

/// The text of an alphanumeric payload of `count` characters.
pub open spec fn alphanumeric_text(bits: Seq<u8>, count: int) -> Seq<u8>
    decreases count,
{
    if count <= 0 {
        Seq::empty()
    } else {
        let size = last_group(count, 2);
        let start = payload_bits(DataMode::Alphanumeric, count - size);
        alphanumeric_text(bits, count - size) + symbol_group_text(
            value_of(bits.subrange(start, start + (if size == 2 {
                11int
            } else {
                6int
            }))),
            size,
        )
    }
}

/// The text of a payload of `count` bytes.
pub open spec fn byte_text(bits: Seq<u8>, count: int) -> Seq<u8> {
    Seq::new(count as nat, |i: int| value_of(bits.subrange(8 * i, 8 * i + 8)) as u8)
}

/// The text of a payload of `count` characters in the given mode.
pub open spec fn text_of(mode: DataMode, bits: Seq<u8>, count: int) -> Seq<u8> {
    match mode {
        DataMode::Numeric => numeric_text(bits, count),
        DataMode::Alphanumeric => alphanumeric_text(bits, count),
        DataMode::Byte => byte_text(bits, count),
    }
}

/// The header of the data bits of a version-`v` symbol: the mode, the character
/// count, and the place where the payload ends. There is none where the mode
/// indicator names no mode or the count asks for more bits than there are.
pub open spec fn header(v: int, bits: Seq<u8>) -> Option<(DataMode, int, int)> {
    if bits.len() < 4 {
        None
    } else {
        match mode_of_indicator(value_of(bits.take(4))) {
            None => None,
            Some(mode) => {
                let width = length_bits(v, mode);
                if bits.len() < 4 + width {
                    None
                } else {
                    let count = value_of(bits.subrange(4, 4 + width));
                    if 4 + width + payload_bits(mode, count) > bits.len() {
                        None
                    } else {
                        Some((mode, count, 4 + width + payload_bits(mode, count)))
                    }
                }
            },
        }
    }
}

/// The mode and text that the data bits of a version-`v` symbol spell, if they have
/// a header.
pub open spec fn parsed(v: int, bits: Seq<u8>) -> Option<(DataMode, Seq<u8>)> {
    match header(v, bits) {
        None => None,
        Some((mode, count, end)) => Some(
            (mode, text_of(mode, bits.skip(4 + length_bits(v, mode)), count)),
        ),
    }
}

/// The number of zero bits in a row from `from` on, up to `limit`.
pub open spec fn zero_run(bits: Seq<u8>, from: int, limit: int) -> nat
    decreases limit - from,
{
    if from < limit && bits[from] == 0 {
        1 + zero_run(bits, from + 1, limit)
    } else {
        0
    }
}

/// The number that the bits from `from` up to `to` spell.
pub fn read_number(bits: &[u8], from: usize, to: usize) -> (value: usize)
    requires
        from <= to <= bits.len(),
        to - from <= 16,
        is_bits(bits@),
    ensures
        value == value_of(bits@.subrange(from as int, to as int)),
        value < crate::bits::two_to((to - from) as nat),
        value < 0x10000,
{
    let chunk = vstd::slice::slice_subrange(bits, from, to);
    proof {
        assert forall|q: int| 0 <= q < chunk@.len() implies (#[trigger] chunk@[q]) <= 1 by {
            assert(chunk@[q] == bits@[from + q]);
        }
        lemma_two_to_values();
        crate::bits::lemma_two_to_monotone(chunk@.len(), 16);
    }
    bits_to_usize(chunk)
}

/// Appends a number below 10000 in decimal, with zeros in front up to `width` digits.
pub fn push_decimal(text: &mut Vec<u8>, value: usize, width: usize)
    requires
        value < 10000,
    ensures
        final(text)@ == old(text)@ + decimal(value as int, width as int),
{
    let ghost before = text@;
    if value >= 1000 || width >= 4 {
        text.push((48 + (value / 1000) % 10) as u8);
    }
    if value >= 100 || width >= 3 {
        text.push((48 + (value / 100) % 10) as u8);
    }
    if value >= 10 || width >= 2 {
        text.push((48 + (value / 10) % 10) as u8);
    }
    text.push((48 + value % 10) as u8);
    assert(text@ =~= before + decimal(value as int, width as int));
}

/// The character of the alphanumeric mode with the given value.
pub fn alphanumeric_symbol(value: usize) -> (c: u8)
    ensures
        c == alphanumeric_char(value as int),
{
    if value <= 9 {
        (48 + value) as u8
    } else if value <= 35 {
        (65 + value - 10) as u8
    } else if value == 36 {
        32
    } else if value == 37 {
        36
    } else if value == 38 {
        37
    } else if value == 39 {
        42
    } else if value == 40 {
        43
    } else if value == 41 {
        45
    } else if value == 42 {
        46
    } else if value == 43 {
        47
    } else if value == 44 {
        58
    } else {
        32
    }
}

/// A numeric payload with one more group: where the group stands, and the text.
proof fn lemma_numeric_group(bits: Seq<u8>, done: int, size: int)
    requires
        0 <= done,
        done % 3 == 0,
        1 <= size <= 3,
    ensures
        payload_bits(DataMode::Numeric, done + size) == payload_bits(DataMode::Numeric, done)
            + digit_group_width(size),
        numeric_text(bits, done + size) == numeric_text(bits, done) + decimal(
            value_of(
                bits.subrange(
                    payload_bits(DataMode::Numeric, done),
                    payload_bits(DataMode::Numeric, done) + digit_group_width(size),
                ),
            ),
            size,
        ),
{
    assert(last_group(done + size, 3) == size);
}

/// An alphanumeric payload with one more group: where the group stands, and the
/// text.
proof fn lemma_alphanumeric_group(bits: Seq<u8>, done: int, size: int)
    requires
        0 <= done,
        done % 2 == 0,
        1 <= size <= 2,
    ensures
        payload_bits(DataMode::Alphanumeric, done + size) == payload_bits(
            DataMode::Alphanumeric,
            done,
        ) + (if size == 2 {
            11int
        } else {
            6int
        }),
        alphanumeric_text(bits, done + size) == alphanumeric_text(bits, done) + symbol_group_text(
            value_of(
                bits.subrange(
                    payload_bits(DataMode::Alphanumeric, done),
                    payload_bits(DataMode::Alphanumeric, done) + (if size == 2 {
                        11int
                    } else {
                        6int
                    }),
                ),
            ),
            size,
        ),
{
    assert(last_group(done + size, 2) == size);
}

/// The text of a numeric payload of `count` digits.
pub fn decode_numeric_bits(bits: &[u8], count: usize) -> (text: Vec<u8>)
    requires
        is_bits(bits@),
        count < 0x10000,
        payload_bits(DataMode::Numeric, count as int) <= bits.len(),
    ensures
        text@ == numeric_text(bits@, count as int),
{
    let mut text: Vec<u8> = Vec::new();
    let mut done: usize = 0;
    let mut at: usize = 0;
    while done < count
        invariant
            done <= count < 0x10000,
            done % 3 == 0 || done == count,
            is_bits(bits@),
            payload_bits(DataMode::Numeric, count as int) <= bits.len(),
            at == payload_bits(DataMode::Numeric, done as int),
            text@ == numeric_text(bits@, done as int),
        decreases count - done,
    {
        let left: usize = count - done;
        let size: usize = if left >= 3 {
            3
        } else {
            left
        };
        let width: usize = if size == 3 {
            10
        } else if size == 2 {
            7
        } else {
            4
        };
        proof {
            lemma_numeric_group(bits@, done as int, size as int);
        }
        let value: usize = read_number(bits, at, at + width);
        proof {
            lemma_two_to_values();
        }
        push_decimal(&mut text, value, size);
        done = done + size;
        at = at + width;
    }
    text
}

/// The text of an alphanumeric payload of `count` characters.
pub fn decode_alphanumeric_bits(bits: &[u8], count: usize) -> (text: Vec<u8>)
    requires
        is_bits(bits@),
        count < 0x10000,
        payload_bits(DataMode::Alphanumeric, count as int) <= bits.len(),
    ensures
        text@ == alphanumeric_text(bits@, count as int),
{
    let mut text: Vec<u8> = Vec::new();
    let mut done: usize = 0;
    let mut at: usize = 0;
    while done < count
        invariant
            done <= count < 0x10000,
            done % 2 == 0 || done == count,
            is_bits(bits@),
            payload_bits(DataMode::Alphanumeric, count as int) <= bits.len(),
            at == payload_bits(DataMode::Alphanumeric, done as int),
            text@ == alphanumeric_text(bits@, done as int),
        decreases count - done,
    {
        let left: usize = count - done;
        let size: usize = if left >= 2 {
            2
        } else {
            1
        };
        let width: usize = if size == 2 {
            11
        } else {
            6
        };
        proof {
            lemma_alphanumeric_group(bits@, done as int, size as int);
        }
        let value: usize = read_number(bits, at, at + width);
        let ghost before = text@;
        if size == 2 {
            text.push(alphanumeric_symbol(value / 45));
            text.push(alphanumeric_symbol(value % 45));
        } else {
            text.push(alphanumeric_symbol(value));
        }
        proof {
            assert(text@ =~= before + symbol_group_text(value as int, size as int));
        }
        done = done + size;
        at = at + width;
    }
    text
}

/// The text of a payload of `count` bytes.
pub fn decode_byte_bits(bits: &[u8], count: usize) -> (text: Vec<u8>)
    requires
        is_bits(bits@),
        8 * count <= bits.len(),
    ensures
        text@ == byte_text(bits@, count as int),
{
    let mut text: Vec<u8> = Vec::new();
    let mut i: usize = 0;
    while i < count
        invariant
            i <= count,
            is_bits(bits@),
            8 * count <= bits.len(),
            text.len() == i,
            forall|q: int| 0 <= q < i ==> text@[q] == byte_text(bits@, count as int)[q],
        decreases count - i,
    {
        let value: usize = read_number(bits, 8 * i, 8 * i + 8);
        proof {
            lemma_two_to_values();
        }
        text.push(value as u8);
        i = i + 1;
    }
    assert(text@ =~= byte_text(bits@, count as int));
    text
}

/// The header of the data bits of a symbol: the mode, the character count, and the
/// place where the payload ends.
pub fn read_header(bits: &[u8], version: Version) -> (result: Option<(DataMode, usize, usize)>)
    requires
        is_bits(bits@),
    ensures
        match result {
            Some((mode, count, end)) => header(version.number(), bits@) == Some(
                (mode, count as int, end as int),
            ) && count < 0x10000 && end <= bits.len(),
            None => header(version.number(), bits@) is None,
        },
{
    if bits.len() < 4 {
        return None;
    }
    let indicator: usize = read_number(bits, 0, 4);
    proof {
        assert(bits@.subrange(0, 4) =~= bits@.take(4));
    }
    let mode = if indicator == 1 {
        DataMode::Numeric
    } else if indicator == 2 {
        DataMode::Alphanumeric
    } else if indicator == 4 {
        DataMode::Byte
    } else {
        return None;
    };
    let width: usize = get_length_bits(version, mode);
    if bits.len() < 4 + width {
        return None;
    }
    let count: usize = read_number(bits, 4, 4 + width);
    let start: usize = 4 + width;
    let needed: usize = match mode {
        DataMode::Numeric => 10 * (count / 3) + (if count % 3 == 2 {
            7
        } else if count % 3 == 1 {
            4
        } else {
            0
        }),
        DataMode::Alphanumeric => 11 * (count / 2) + 6 * (count % 2),
        DataMode::Byte => 8 * count,
    };
    if needed > bits.len() - start {
        return None;
    }
    Some((mode, count, start + needed))
}

/// The mode and the text that the data bits of a symbol spell.
pub fn decode_data_bits(bits: &[u8], version: Version) -> (result: Option<(DataMode, Vec<u8>)>)
    requires
        is_bits(bits@),
    ensures
        match result {
            Some((mode, text)) => parsed(version.number(), bits@) == Some((mode, text@)),
            None => parsed(version.number(), bits@) is None,
        },
{
    let (mode, count, end) = match read_header(bits, version) {
        Some(found) => found,
        None => {
            return None;
        },
    };
    let start: usize = 4 + get_length_bits(version, mode);
    let rest = vstd::slice::slice_subrange(bits, start, bits.len());
    proof {
        assert(rest@ =~= bits@.skip(start as int));
        assert forall|q: int| 0 <= q < rest@.len() implies (#[trigger] rest@[q]) <= 1 by {
            assert(rest@[q] == bits@[start + q]);
        }
    }
    let text = match mode {
        DataMode::Numeric => decode_numeric_bits(rest, count),
        DataMode::Alphanumeric => decode_alphanumeric_bits(rest, count),
        DataMode::Byte => decode_byte_bits(rest, count),
    };
    Some((mode, text))
}

/// The mode and the text that the data codewords of a symbol spell.
pub fn decode_data_from_bytes(data_bytes: &[u8], version: Version) -> (result: Option<
    (DataMode, Vec<u8>),
>)
    requires
        8 * data_bytes.len() <= usize::MAX,
    ensures
        match result {
            Some((mode, text)) => parsed(version.number(), bits_of_bytes(data_bytes@)) == Some(
                (mode, text@),
            ),
            None => parsed(version.number(), bits_of_bytes(data_bytes@)) is None,
        },
{
    proof {
        crate::bits::lemma_bits_of_bytes(data_bytes@);
    }
    let bits = crate::bits::bytes_to_bits(data_bytes);
    decode_data_bits(bits.as_slice(), version)
}

/// The number of zero bits in a row from `from` on, up to `limit`.
pub fn count_zero_run(bits: &[u8], from: usize, limit: usize) -> (count: usize)
    requires
        from <= limit <= bits.len(),
    ensures
        count == zero_run(bits@, from as int, limit as int),
        count <= limit - from,
{
    let mut at: usize = from;
    while at < limit && bits[at] == 0
        invariant
            from <= at <= limit <= bits.len(),
            zero_run(bits@, from as int, limit as int) == (at - from) + zero_run(
                bits@,
                at as int,
                limit as int,
            ),
        decreases limit - at,
    {
        at = at + 1;
    }
    at - from
}

} // verus!
