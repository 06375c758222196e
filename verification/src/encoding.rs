use vstd::prelude::*;
use vstd::string::StringSliceAdditionalSpecFns;
use crate::bits::{
    append_bits, bits_of, bits_of_bytes, is_bits, lemma_bits_of, lemma_bits_of_bytes,
    lemma_is_bits_concat,
};
use crate::blocks::{ecc_stream_bits, generate_ecc_bits};
use crate::ecc_data::{
    data_codewords, get_data_capacity_in_bits, get_length_bits, length_bits, lemma_table_bounds,
    message_bits, mode_indicator, payload_bits,
};
use crate::types::{DataMode, ErrorCorrection, Version};

verus! {

/// The bits of a message before and after error correction is added.
pub struct EncodedData {
    /// The data codewords as bits: mode, count, payload, terminator and padding.
    pub data_bits: Vec<u8>,
    /// The parity codewords of all blocks as bits, interleaved block by block.
    pub ecc_bits: Vec<u8>,
}

/// Why a text cannot be encoded.
#[derive(Clone, Copy, Debug, PartialEq, Eq, Structural)]
pub enum EncodeError {
    /// The text holds a character that the chosen mode cannot express.
    InvalidCharacter,
    /// The text is longer than the symbol has room for.
    CapacityExceeded,
}

/// The value of a character of the alphanumeric mode, and 45 for any other byte.
pub open spec fn alphanumeric_index(b: u8) -> int {
    if 48 <= b <= 57 {
        b - 48
    } else if 65 <= b <= 90 {
        b - 65 + 10
    } else if b == 32 {
        36
    } else if b == 36 {
        37
    } else if b == 37 {
        38
    } else if b == 42 {
        39
    } else if b == 43 {
        40
    } else if b == 45 {
        41
    } else if b == 46 {
        42
    } else if b == 47 {
        43
    } else if b == 58 {
        44
    } else {
        45
    }
}

/// Whether the mode can express the byte.
pub open spec fn is_valid_char(mode: DataMode, b: u8) -> bool {
    match mode {
        DataMode::Numeric => 48 <= b <= 57,
        DataMode::Alphanumeric => alphanumeric_index(b) < 45,
        DataMode::Byte => true,
    }
}

/// Whether the mode can express every byte of the text.
pub open spec fn valid_for_mode(mode: DataMode, text: Seq<u8>) -> bool {
    forall|i: int| 0 <= i < text.len() ==> is_valid_char(mode, #[trigger] text[i])
}

/// The number of characters in the last group of a text that is cut into groups of
/// `size` from the front.
pub open spec fn last_group(len: int, size: int) -> int {
    if len % size == 0 {
        size
    } else {
        len % size
    }
}

/// The bits of one group of up to three digits: ten bits for three digits, seven
/// for two, four for one.
pub open spec fn digit_group_bits(group: Seq<u8>) -> Seq<u8> {
    if group.len() == 3 {
        bits_of((group[0] - 48) * 100 + (group[1] - 48) * 10 + (group[2] - 48), 10)
    } else if group.len() == 2 {
        bits_of((group[0] - 48) * 10 + (group[1] - 48), 7)
    } else {
        bits_of(group[0] - 48, 4)
    }
}

/// The payload of a numeric text: its digits in groups of three from the front.
pub open spec fn numeric_payload(text: Seq<u8>) -> Seq<u8>
    decreases text.len(),
{
    if text.len() == 0 {
        Seq::empty()
    } else {
        let cut = text.len() - last_group(text.len() as int, 3);
        numeric_payload(text.take(cut)) + digit_group_bits(text.skip(cut))
    }
}

/// The bits of one group of up to two alphanumeric characters: eleven bits for a
/// pair, six for a single character.
pub open spec fn symbol_group_bits(group: Seq<u8>) -> Seq<u8> {
    if group.len() == 2 {
        bits_of(alphanumeric_index(group[0]) * 45 + alphanumeric_index(group[1]), 11)
    } else {
        bits_of(alphanumeric_index(group[0]), 6)
    }
}

/// The payload of an alphanumeric text: its characters in pairs from the front.
pub open spec fn alphanumeric_payload(text: Seq<u8>) -> Seq<u8>
    decreases text.len(),
{
    if text.len() == 0 {
        Seq::empty()
    } else {
        let cut = text.len() - last_group(text.len() as int, 2);
        alphanumeric_payload(text.take(cut)) + symbol_group_bits(text.skip(cut))
    }
}

/// The payload of a text in the given mode.
pub open spec fn payload(mode: DataMode, text: Seq<u8>) -> Seq<u8> {
    match mode {
        DataMode::Numeric => numeric_payload(text),
        DataMode::Alphanumeric => alphanumeric_payload(text),
        DataMode::Byte => bits_of_bytes(text),
    }
}

/// The mode indicator, the character count and the payload of a text.
pub open spec fn message(v: int, mode: DataMode, text: Seq<u8>) -> Seq<u8> {
    bits_of(mode_indicator(mode), 4) + bits_of(text.len() as int, length_bits(v, mode) as nat)
        + payload(mode, text)
}

/// The length of a message once the terminator is added and the last byte is filled
/// up: up to four zero bits, as far as the capacity allows, then zero bits to the
/// next multiple of eight.
pub open spec fn aligned_len(len: int, capacity: int) -> int {
    let terminator = if capacity - len < 4 {
        capacity - len
    } else {
        4
    };
    let ended = len + terminator;
    ended + (8 - ended % 8) % 8
}

/// The bit of index `j` of the padding: the bytes `0xEC` and `0x11` in turn.
pub open spec fn pad_bit(j: int) -> u8 {
    let byte = if (j / 8) % 2 == 0 {
        0xECint
    } else {
        0x11int
    };
    bits_of(byte, 8)[j % 8]
}

/// A message filled up to the capacity: terminator, zero bits to the byte boundary,
/// then padding bytes.
pub open spec fn padded(bits: Seq<u8>, capacity: int) -> Seq<u8> {
    Seq::new(
        capacity as nat,
        |i: int|
            if i < bits.len() {
                bits[i]
            } else if i < aligned_len(bits.len() as int, capacity) {
                0
            } else {
                pad_bit(i - aligned_len(bits.len() as int, capacity))
            },
    )
}

/// The data codewords of a text as bits.
pub open spec fn data_bit_stream(v: int, ec: ErrorCorrection, mode: DataMode, text: Seq<u8>) -> Seq<
    u8,
> {
    padded(message(v, mode, text), 8 * data_codewords(v, ec))
}

/// Whether the text fits a symbol of the given version and level in the given mode.
pub open spec fn fits(v: int, ec: ErrorCorrection, mode: DataMode, len: int) -> bool {
    message_bits(v, mode, len) <= 8 * data_codewords(v, ec)
}

/// The payload of a valid text has the length that the mode prescribes, and holds
/// bits only.
pub proof fn lemma_payload(mode: DataMode, text: Seq<u8>)
    ensures
        payload(mode, text).len() == payload_bits(mode, text.len() as int),
        is_bits(payload(mode, text)),
    decreases text.len(),
{
    match mode {
        DataMode::Numeric => {
            if text.len() > 0 {
                let cut = text.len() - last_group(text.len() as int, 3);
                lemma_payload(mode, text.take(cut));
                let group = text.skip(cut);
                if group.len() == 3 {
                    lemma_bits_of(
                        (group[0] - 48) * 100 + (group[1] - 48) * 10 + (group[2] - 48),
                        10,
                    );
                } else if group.len() == 2 {
                    lemma_bits_of((group[0] - 48) * 10 + (group[1] - 48), 7);
                } else {
                    lemma_bits_of(group[0] - 48, 4);
                }
                lemma_is_bits_concat(numeric_payload(text.take(cut)), digit_group_bits(group));
            }
        },
        DataMode::Alphanumeric => {
            if text.len() > 0 {
                let cut = text.len() - last_group(text.len() as int, 2);
                lemma_payload(mode, text.take(cut));
                let group = text.skip(cut);
                if group.len() == 2 {
                    lemma_bits_of(
                        alphanumeric_index(group[0]) * 45 + alphanumeric_index(group[1]),
                        11,
                    );
                } else {
                    lemma_bits_of(alphanumeric_index(group[0]), 6);
                }
                lemma_is_bits_concat(
                    alphanumeric_payload(text.take(cut)),
                    symbol_group_bits(group),
                );
            }
        },
        DataMode::Byte => {
            lemma_bits_of_bytes(text);
        },
    }
}

/// A message holds bits only, and has the length that version and mode prescribe.
pub proof fn lemma_message(v: int, mode: DataMode, text: Seq<u8>)
    requires
        1 <= v <= 40,
    ensures
        message(v, mode, text).len() == message_bits(v, mode, text.len() as int),
        is_bits(message(v, mode, text)),
{
    lemma_payload(mode, text);
    lemma_bits_of(mode_indicator(mode), 4);
    lemma_bits_of(text.len() as int, length_bits(v, mode) as nat);
    lemma_is_bits_concat(
        bits_of(mode_indicator(mode), 4),
        bits_of(text.len() as int, length_bits(v, mode) as nat),
    );
    lemma_is_bits_concat(
        bits_of(mode_indicator(mode), 4) + bits_of(
            text.len() as int,
            length_bits(v, mode) as nat,
        ),
        payload(mode, text),
    );
}

/// A padded message fills the capacity with bits.
pub proof fn lemma_padded(bits: Seq<u8>, capacity: int)
    requires
        is_bits(bits),
        bits.len() <= capacity,
    ensures
        padded(bits, capacity).len() == capacity,
        is_bits(padded(bits, capacity)),
{
    let p = padded(bits, capacity);
    assert forall|i: int| 0 <= i < p.len() implies (#[trigger] p[i]) <= 1 by {
        lemma_bits_of(0xEC, 8);
        lemma_bits_of(0x11, 8);
        let j = i - aligned_len(bits.len() as int, capacity);
        if i >= bits.len() && j >= 0 {
            assert(0 <= j % 8 < 8);
            if (j / 8) % 2 == 0 {
                assert(bits_of(0xEC, 8)[j % 8] <= 1);
            } else {
                assert(bits_of(0x11, 8)[j % 8] <= 1);
            }
        } else if i < bits.len() {
            assert(bits[i] <= 1);
        }
    }
}

/// The value of an alphanumeric character; 45 for a byte outside the alphabet.
pub fn alphanumeric_value(c: u8) -> (value: u16)
    ensures
        value == alphanumeric_index(c),
        value <= 45,
{
    if c >= 48 && c <= 57 {
        (c - 48) as u16
    } else if c >= 65 && c <= 90 {
        (c - 65 + 10) as u16
    } else if c == 32 {
        36
    } else if c == 36 {
        37
    } else if c == 37 {
        38
    } else if c == 42 {
        39
    } else if c == 43 {
        40
    } else if c == 45 {
        41
    } else if c == 46 {
        42
    } else if c == 47 {
        43
    } else if c == 58 {
        44
    } else {
        45
    }
}

/// Whether the mode can express every byte of the text.
pub fn is_valid_text(text: &[u8], mode: DataMode) -> (b: bool)
    ensures
        b == valid_for_mode(mode, text@),
{
    let mut i: usize = 0;
    while i < text.len()
        invariant
            i <= text.len(),
            forall|q: int| 0 <= q < i ==> is_valid_char(mode, #[trigger] text@[q]),
        decreases text.len() - i,
    {
        let c: u8 = text[i];
        let ok: bool = match mode {
            DataMode::Numeric => c >= 48 && c <= 57,
            DataMode::Alphanumeric => alphanumeric_value(c) < 45,
            DataMode::Byte => true,
        };
        if !ok {
            return false;
        }
        i = i + 1;
    }
    true
}

/// The mode indicator, the count and the payload of a numeric text.
pub fn encode_numeric(data: &[u8], version: Version) -> (bits: Vec<u8>)
    requires
        valid_for_mode(DataMode::Numeric, data@),
        data.len() <= 0xffff,
    ensures
        bits@ == message(version.number(), DataMode::Numeric, data@),
{
    let mut bits: Vec<u8> = Vec::new();
    append_bits(&mut bits, 1, 4);
    let width: usize = get_length_bits(version, DataMode::Numeric);
    append_bits(&mut bits, data.len(), width);
    let ghost header = bits@;
    let count: usize = data.len();
    let mut i: usize = 0;
    assert(data@.take(0) =~= Seq::<u8>::empty());
    assert(header + numeric_payload(Seq::<u8>::empty()) =~= header);
    while i < count
        invariant
            i <= count,
            i % 3 == 0 || i == count,
            count == data.len(),
            count <= 0xffff,
            valid_for_mode(DataMode::Numeric, data@),
            bits@ == header + numeric_payload(data@.take(i as int)),
            bits.len() <= 20 + 10 * i,
        decreases count - i,
    {
        let left: usize = count - i;
        let size: usize = if left >= 3 {
            3
        } else {
            left
        };
        let ghost prefix = data@.take(i + size);
        proof {
            assert(prefix.take(i as int) =~= data@.take(i as int));
            assert(prefix.len() - last_group(prefix.len() as int, 3) == i);
            assert(numeric_payload(prefix) == numeric_payload(data@.take(i as int))
                + digit_group_bits(prefix.skip(i as int)));
            assert(forall|q: int| 0 <= q < size ==> prefix.skip(i as int)[q] == data@[i + q]);
            assert(is_valid_char(DataMode::Numeric, data@[i as int]));
            if size >= 2 {
                assert(is_valid_char(DataMode::Numeric, data@[i + 1]));
            }
            if size >= 3 {
                assert(is_valid_char(DataMode::Numeric, data@[i + 2]));
            }
            lemma_bits_of(0, 0);
        }
        let ghost before = bits@;
        if size == 3 {
            let value: usize = (data[i] - 48) as usize * 100 + (data[i + 1] - 48) as usize * 10 + (
            data[i + 2] - 48) as usize;
            append_bits(&mut bits, value, 10);
            proof {
                lemma_bits_of(value as int, 10);
            }
        } else if size == 2 {
            let value: usize = (data[i] - 48) as usize * 10 + (data[i + 1] - 48) as usize;
            append_bits(&mut bits, value, 7);
            proof {
                lemma_bits_of(value as int, 7);
            }
        } else {
            let value: usize = (data[i] - 48) as usize;
            append_bits(&mut bits, value, 4);
            proof {
                lemma_bits_of(value as int, 4);
            }
        }
        proof {
            assert(bits@ =~= header + numeric_payload(prefix));
        }
        i = i + size;
    }
    assert(data@.take(i as int) =~= data@);
    bits
}

/// The mode indicator, the count and the payload of an alphanumeric text.
pub fn encode_alphanumeric(data: &[u8], version: Version) -> (bits: Vec<u8>)
    requires
        valid_for_mode(DataMode::Alphanumeric, data@),
        data.len() <= 0xffff,
    ensures
        bits@ == message(version.number(), DataMode::Alphanumeric, data@),
{
    let mut bits: Vec<u8> = Vec::new();
    append_bits(&mut bits, 2, 4);
    let width: usize = get_length_bits(version, DataMode::Alphanumeric);
    append_bits(&mut bits, data.len(), width);
    let ghost header = bits@;
    let count: usize = data.len();
    let mut i: usize = 0;
    assert(data@.take(0) =~= Seq::<u8>::empty());
    assert(header + alphanumeric_payload(Seq::<u8>::empty()) =~= header);
    while i < count
        invariant
            i <= count,
            i % 2 == 0 || i == count,
            count == data.len(),
            count <= 0xffff,
            valid_for_mode(DataMode::Alphanumeric, data@),
            bits@ == header + alphanumeric_payload(data@.take(i as int)),
            bits.len() <= 20 + 11 * i,
        decreases count - i,
    {
        let left: usize = count - i;
        let size: usize = if left >= 2 {
            2
        } else {
            left
        };
        let ghost prefix = data@.take(i + size);
        proof {
            assert(prefix.take(i as int) =~= data@.take(i as int));
            assert(prefix.len() - last_group(prefix.len() as int, 2) == i);
            assert(alphanumeric_payload(prefix) == alphanumeric_payload(data@.take(i as int))
                + symbol_group_bits(prefix.skip(i as int)));
            assert(forall|q: int| 0 <= q < size ==> prefix.skip(i as int)[q] == data@[i + q]);
        }
        if size == 2 {
            let first: u16 = alphanumeric_value(data[i]);
            let second: u16 = alphanumeric_value(data[i + 1]);
            let combined: u16 = first * 45 + second;
            append_bits(&mut bits, combined as usize, 11);
            proof {
                lemma_bits_of(combined as int, 11);
            }
        } else {
            let value: u16 = alphanumeric_value(data[i]);
            append_bits(&mut bits, value as usize, 6);
            proof {
                lemma_bits_of(value as int, 6);
            }
        }
        proof {
            assert(bits@ =~= header + alphanumeric_payload(prefix));
        }
        i = i + size;
    }
    assert(data@.take(i as int) =~= data@);
    bits
}

/// The mode indicator, the count and the payload of a text in byte mode.
pub fn encode_byte(data: &[u8], version: Version) -> (bits: Vec<u8>)
    requires
        data.len() <= 0xffff,
    ensures
        bits@ == message(version.number(), DataMode::Byte, data@),
{
    let mut bits: Vec<u8> = Vec::new();
    append_bits(&mut bits, 4, 4);
    let width: usize = get_length_bits(version, DataMode::Byte);
    append_bits(&mut bits, data.len(), width);
    let ghost header = bits@;
    let mut i: usize = 0;
    assert(data@.take(0) =~= Seq::<u8>::empty());
    assert(header + bits_of_bytes(Seq::<u8>::empty()) =~= header);
    while i < data.len()
        invariant
            i <= data.len() <= 0xffff,
            bits@ == header + bits_of_bytes(data@.take(i as int)),
            bits.len() <= 20 + 8 * i,
        decreases data.len() - i,
    {
        proof {
            assert(data@.take(i + 1).drop_last() =~= data@.take(i as int));
            lemma_bits_of(data@[i as int] as int, 8);
        }
        append_bits(&mut bits, data[i] as usize, 8);
        proof {
            assert(bits@ =~= header + bits_of_bytes(data@.take(i + 1)));
        }
        i = i + 1;
    }
    assert(data@.take(i as int) =~= data@);
    bits
}

/// Fills a message up to the capacity of the symbol: terminator, zero bits up to
/// the byte boundary, then the padding bytes `0xEC` and `0x11` in turn.
pub fn add_padding(data_bits: &mut Vec<u8>, version: Version, error_correction: ErrorCorrection)
    requires
        old(data_bits).len() <= 8 * data_codewords(version.number(), error_correction),
    ensures
        final(data_bits)@ == padded(
            old(data_bits)@,
            8 * data_codewords(version.number(), error_correction),
        ),
{
    let capacity: usize = get_data_capacity_in_bits(version, error_correction);
    let ghost start = data_bits@;
    let ghost target = padded(start, capacity as int);
    let ghost aligned = aligned_len(start.len() as int, capacity as int);
    let message_len: usize = data_bits.len();
    let terminator: usize = if capacity - message_len < 4 {
        capacity - message_len
    } else {
        4
    };
    let ended: usize = message_len + terminator;
    let aligned_end: usize = ended + (8 - ended % 8) % 8;
    assert(aligned_end == aligned);
    assert(aligned_end <= capacity);
    while data_bits.len() < aligned_end
        invariant
            message_len <= data_bits.len() <= aligned_end <= capacity,
            aligned_end == aligned,
            aligned == aligned_len(start.len() as int, capacity as int),
            start.len() == message_len,
            target == padded(start, capacity as int),
            forall|q: int| 0 <= q < data_bits.len() ==> data_bits@[q] == target[q],
        decreases aligned_end - data_bits.len(),
    {
        data_bits.push(0);
    }
    let mut padding_byte: usize = 0xEC;
    while data_bits.len() < capacity
        invariant
            aligned_end <= data_bits.len() <= capacity,
            (data_bits.len() - aligned_end) % 8 == 0,
            (capacity - aligned_end) % 8 == 0,
            aligned_end == aligned,
            aligned == aligned_len(start.len() as int, capacity as int),
            start.len() <= aligned_end,
            target == padded(start, capacity as int),
            padding_byte == (if ((data_bits.len() - aligned_end) / 8) % 2 == 0 {
                0xECint
            } else {
                0x11int
            }),
            forall|q: int| 0 <= q < data_bits.len() ==> data_bits@[q] == target[q],
        decreases capacity - data_bits.len(),
    {
        let ghost before = data_bits@;
        append_bits(data_bits, padding_byte, 8);
        proof {
            lemma_bits_of(padding_byte as int, 8);
            assert forall|q: int| 0 <= q < data_bits.len() implies data_bits@[q] == target[q] by {
                if q >= before.len() {
                    let j = q - aligned;
                    assert(j / 8 == (before.len() - aligned) / 8);
                    assert(j % 8 == q - before.len());
                } else {
                    assert(data_bits@[q] == before[q]);
                }
            }
        }
        padding_byte = if padding_byte == 0xEC {
            0x11
        } else {
            0xEC
        };
    }
    assert(data_bits@ =~= target);
}

/// Encodes a text for a symbol of the given version and level: the data codewords
/// and the parity codewords, both as bits.
pub fn encode_data(
    data: &str,
    version: Version,
    error_correction: ErrorCorrection,
    mode: DataMode,
) -> (result: Result<EncodedData, EncodeError>)
    ensures
        match result {
            Ok(encoded) => {
                &&& valid_for_mode(mode, data.spec_bytes())
                &&& fits(
                    version.number(),
                    error_correction,
                    mode,
                    data.spec_bytes().len() as int,
                )
                &&& encoded.data_bits@ == data_bit_stream(
                    version.number(),
                    error_correction,
                    mode,
                    data.spec_bytes(),
                )
                &&& encoded.ecc_bits@ == ecc_stream_bits(
                    version.number(),
                    error_correction,
                    encoded.data_bits@,
                )
            },
            Err(EncodeError::InvalidCharacter) => !valid_for_mode(mode, data.spec_bytes()),
            Err(EncodeError::CapacityExceeded) => valid_for_mode(mode, data.spec_bytes()) && !fits(
                version.number(),
                error_correction,
                mode,
                data.spec_bytes().len() as int,
            ),
        },
{
    let text = data.as_bytes();
    if !is_valid_text(text, mode) {
        return Err(EncodeError::InvalidCharacter);
    }
    proof {
        version.lemma_number_range();
        lemma_table_bounds(version.number(), error_correction);
    }
    let capacity: usize = get_data_capacity_in_bits(version, error_correction);
    if text.len() > capacity {
        return Err(EncodeError::CapacityExceeded);
    }
    let width: usize = get_length_bits(version, mode);
    let count: usize = text.len();
    let needed: usize = 4 + width + match mode {
        DataMode::Numeric => 10 * (count / 3) + (if count % 3 == 2 {
            7
        } else if count % 3 == 1 {
            4
        } else {
            0
        }),
        DataMode::Alphanumeric => 11 * (count / 2) + 6 * (count % 2),
        DataMode::Byte => 8 * count,
    };
    if needed > capacity {
        return Err(EncodeError::CapacityExceeded);
    }
    let mut data_bits = match mode {
        DataMode::Numeric => encode_numeric(text, version),
        DataMode::Byte => encode_byte(text, version),
        DataMode::Alphanumeric => encode_alphanumeric(text, version),
    };
    proof {
        lemma_message(version.number(), mode, text@);
    }
    add_padding(&mut data_bits, version, error_correction);
    proof {
        lemma_padded(message(version.number(), mode, text@), capacity as int);
    }
    let ecc_bits = generate_ecc_bits(data_bits.as_slice(), version, error_correction);
    Ok(EncodedData { data_bits, ecc_bits })
}

} // verus!
