use vstd::prelude::*;
use crate::bits::{bits_of_bytes, bits_to_bytes, bytes_of_bits, bytes_to_bits, lemma_bits_of_bytes};
use crate::blocks::{
    blocks_of, data_len, deinterleave, get_layout, is_layout, lemma_block_bounds, lemma_layout,
    received_block, Layout,
};
use crate::counting::lemma_sweep_length;
use crate::ecc::{correct_errors, correction_of, data_of, CorrectionResult};
use crate::ecc_data::{block_layout, lemma_table_bounds, total_codewords, BlockLayout};
use crate::format::{
    correct_format_info, correct_version_info, format_bits, format_distance, lemma_format_unique,
    lemma_version_unique, version_bits, version_distance,
};
use crate::matrix::{check_shape, grid, is_symbol_matrix, version_of};
use crate::parser::{decode_data_bits, parsed};
use crate::reader::{
    apply_mask_to_bits, format_reading_first, format_reading_second, raw_bits, read_data_bits,
    read_format_info, read_version_info, unmasked_bits, version_reading_first,
    version_reading_second,
};
use crate::types::{DataMode, ErrorCorrection, MaskPattern, Version};

verus! {

/// Why a symbol cannot be decoded.
#[derive(Clone, Copy, Debug, PartialEq, Eq, Structural)]
pub enum DecodeError {
    /// The matrix is no square of 21, 25, ..., 177 modules per side.
    InvalidVersion,
    /// Neither copy of the format bits lies within three bit flips of a codeword.
    FormatInfoUndecodable,
    /// Neither copy of the version bits confirms the version that the size gives.
    VersionInfoMismatch,
    /// A block holds more errors than its parity can repair.
    UncorrectableBlock,
    /// The mode indicator names no mode, or the count asks for more than there is.
    MalformedHeader,
}

/// What a symbol says.
pub struct DecodedSymbol {
    pub version: Version,
    pub error_correction: ErrorCorrection,
    pub mask_pattern: MaskPattern,
    pub data_mode: DataMode,
    /// The bytes of the text.
    pub text: Vec<u8>,
}

/// What a symbol says, with the text as a mathematical sequence.
pub struct Decoded {
    pub version: Version,
    pub error_correction: ErrorCorrection,
    pub mask_pattern: MaskPattern,
    pub data_mode: DataMode,
    pub text: Seq<u8>,
}

impl View for DecodedSymbol {
    type V = Decoded;

    open spec fn view(&self) -> Decoded {
        Decoded {
            version: self.version,
            error_correction: self.error_correction,
            mask_pattern: self.mask_pattern,
            data_mode: self.data_mode,
            text: self.text@,
        }
    }
}

/// Whether the format word of a level and mask lies within three bit flips of `word`.
pub open spec fn format_in_reach(word: u16, ec: ErrorCorrection, mask: MaskPattern) -> bool {
    format_distance(word, format_bits(ec, mask)) <= 3
}

/// The level and mask that fifteen format bits stand for: those whose format word
/// lies within three bit flips, of which there is at most one pair.
pub open spec fn format_read(word: u16) -> Option<(ErrorCorrection, MaskPattern)> {
    if exists|found: (ErrorCorrection, MaskPattern)|
        #[trigger] format_in_reach(word, found.0, found.1) {
        Some(
            choose|found: (ErrorCorrection, MaskPattern)|
                #[trigger] format_in_reach(word, found.0, found.1),
        )
    } else {
        None
    }
}

/// Whether the version word of number `v` lies within three bit flips of `word`.
pub open spec fn version_in_reach(word: u32, v: int) -> bool {
    7 <= v <= 40 && version_distance(word, version_bits(v)) <= 3
}

/// The version that eighteen version bits stand for, if any.
pub open spec fn version_read(word: u32) -> Option<Version> {
    if exists|v: int| #[trigger] version_in_reach(word, v) {
        Version::of_number(choose|v: int| #[trigger] version_in_reach(word, v))
    } else {
        None
    }
}

/// The level and mask of a symbol: what the first copy of the format bits stands
/// for, and failing that the second.
pub open spec fn format_of(g: Seq<Seq<u8>>) -> Option<(ErrorCorrection, MaskPattern)> {
    match format_read(format_reading_first(g) as u16) {
        Some(found) => Some(found),
        None => format_read(format_reading_second(g) as u16),
    }
}

/// Whether the version bits confirm the version that the size gives: versions
/// below 7 carry none, and from 7 on one of the two copies has to stand for it.
pub open spec fn version_confirmed(g: Seq<Seq<u8>>, version: Version) -> bool {
    ||| version.number() < 7
    ||| version_read(version_reading_first(g)) == Some(version)
    ||| version_read(version_reading_second(g)) == Some(version)
}

/// The codewords of a symbol in the order of placement, with the mask taken off.
pub open spec fn placed_codewords(version: Version, mask: MaskPattern, g: Seq<Seq<u8>>) -> Seq<
    u8,
> {
    bytes_of_bits(
        unmasked_bits(version, mask, raw_bits(version, g)).take(
            8 * total_codewords(version.number()),
        ),
    )
}

/// The data codewords of the first `count` blocks after error correction, in block
/// order, or `None` if one of the blocks cannot be repaired.
pub open spec fn repaired_data(stream: Seq<u8>, l: BlockLayout, count: nat) -> Option<Seq<u8>>
    decreases count,
{
    if count == 0 {
        Some(Seq::empty())
    } else {
        match (
            repaired_data(stream, l, (count - 1) as nat),
            data_of(
                correction_of(received_block(stream, l, count - 1), l.ecc_per_block as nat),
            ),
        ) {
            (Some(before), Some(block)) => Some(before + block),
            _ => None,
        }
    }
}

/// What a matrix decodes to.
pub open spec fn decoded(g: Seq<Seq<u8>>) -> Result<Decoded, DecodeError> {
    if !is_symbol_matrix(g) {
        Err(DecodeError::InvalidVersion)
    } else {
        let version = version_of(g);
        match format_of(g) {
            None => Err(DecodeError::FormatInfoUndecodable),
            Some((ec, mask)) => if !version_confirmed(g, version) {
                Err(DecodeError::VersionInfoMismatch)
            } else {
                let l = block_layout(version.number(), ec);
                match repaired_data(
                    placed_codewords(version, mask, g),
                    l,
                    blocks_of(l) as nat,
                ) {
                    None => Err(DecodeError::UncorrectableBlock),
                    Some(data) => match parsed(version.number(), bits_of_bytes(data)) {
                        None => Err(DecodeError::MalformedHeader),
                        Some((mode, text)) => Ok(
                            Decoded {
                                version: version,
                                error_correction: ec,
                                mask_pattern: mask,
                                data_mode: mode,
                                text: text,
                            },
                        ),
                    },
                }
            },
        }
    }
}

/// The level and mask that fifteen format bits stand for.
pub fn decode_format_info(word: u16) -> (found: Option<(ErrorCorrection, MaskPattern)>)
    requires
        word < 0x8000,
    ensures
        found == format_read(word),
{
    match correct_format_info(word) {
        Some((ec, index)) => {
            let mask = match MaskPattern::from_u8(index) {
                Some(mask) => mask,
                None => {
                    return None;
                },
            };
            proof {
                let pair = (ec, mask);
                assert(format_in_reach(word, pair.0, pair.1));
                let other = choose|found: (ErrorCorrection, MaskPattern)|
                    #[trigger] format_in_reach(word, found.0, found.1);
                lemma_format_unique(word, ec, mask, other.0, other.1);
            }
            Some((ec, mask))
        },
        None => {
            proof {
                assert forall|found: (ErrorCorrection, MaskPattern)| !#[trigger] format_in_reach(
                    word,
                    found.0,
                    found.1,
                ) by {
                    assert(format_distance(word, format_bits(found.0, found.1)) > 3);
                }
            }
            None
        },
    }
}

/// The version that eighteen version bits stand for.
pub fn decode_version_word(word: u32) -> (found: Option<Version>)
    requires
        word < 0x40000,
    ensures
        found == version_read(word),
{
    match correct_version_info(word) {
        Some(version) => {
            proof {
                version.lemma_number_range();
                assert(version_in_reach(word, version.number()));
                let other = choose|v: int| #[trigger] version_in_reach(word, v);
                lemma_version_unique(word, version.number(), other);
            }
            Some(version)
        },
        None => {
            proof {
                assert forall|v: int| !#[trigger] version_in_reach(word, v) by {
                    if 7 <= v <= 40 {
                        assert(version_distance(word, version_bits(v)) > 3);
                    }
                }
            }
            None
        },
    }
}

/// The format bits of a symbol as they were read, and what they stand for.
pub struct FormatInfo {
    pub raw_bits_copy1: u16,
    pub raw_bits_copy2: u16,
    pub copies_match: bool,
    pub error_correction: Option<ErrorCorrection>,
    pub mask_pattern: Option<MaskPattern>,
}

/// The version bits of a symbol as they were read, and what each copy stands for.
pub struct VersionInfo {
    pub raw_bits_copy1: u32,
    pub raw_bits_copy2: u32,
    pub copies_match: bool,
    pub version_copy1: Option<Version>,
    pub version_copy2: Option<Version>,
}

/// Reads both copies of the format bits of a symbol. The level and mask are those
/// that the first copy stands for, and failing that the second.
pub fn analyze_format_info(matrix: &Vec<Vec<u8>>) -> (info: FormatInfo)
    requires
        is_symbol_matrix(grid(matrix)),
    ensures
        info.raw_bits_copy1 == format_reading_first(grid(matrix)),
        info.raw_bits_copy2 == format_reading_second(grid(matrix)),
        info.copies_match == (info.raw_bits_copy1 == info.raw_bits_copy2),
        match format_of(grid(matrix)) {
            Some((ec, mask)) => info.error_correction == Some(ec) && info.mask_pattern == Some(
                mask,
            ),
            None => info.error_correction is None && info.mask_pattern is None,
        },
{
    let words = read_format_info(matrix);
    let found = match decode_format_info(words.0) {
        Some(found) => Some(found),
        None => decode_format_info(words.1),
    };
    let (error_correction, mask_pattern) = match found {
        Some((ec, mask)) => (Some(ec), Some(mask)),
        None => (None, None),
    };
    FormatInfo {
        raw_bits_copy1: words.0,
        raw_bits_copy2: words.1,
        copies_match: words.0 == words.1,
        error_correction,
        mask_pattern,
    }
}

/// Reads both copies of the version bits of a symbol. Symbols below version 7
/// carry none.
pub fn analyze_version_info(matrix: &Vec<Vec<u8>>) -> (info: Option<VersionInfo>)
    requires
        is_symbol_matrix(grid(matrix)),
    ensures
        info is None <==> version_of(grid(matrix)).number() < 7,
        match info {
            Some(found) => {
                &&& found.raw_bits_copy1 == version_reading_first(grid(matrix))
                &&& found.raw_bits_copy2 == version_reading_second(grid(matrix))
                &&& found.copies_match == (found.raw_bits_copy1 == found.raw_bits_copy2)
                &&& found.version_copy1 == version_read(found.raw_bits_copy1)
                &&& found.version_copy2 == version_read(found.raw_bits_copy2)
            },
            None => true,
        },
{
    if matrix.len() < 45 {
        return None;
    }
    let words = read_version_info(matrix);
    Some(
        VersionInfo {
            raw_bits_copy1: words.0,
            raw_bits_copy2: words.1,
            copies_match: words.0 == words.1,
            version_copy1: decode_version_word(words.0),
            version_copy2: decode_version_word(words.1),
        },
    )
}

/// Whether the version bits confirm the version that the size gives.
pub fn confirms_version(info: &Option<VersionInfo>, version: Version) -> (confirmed: bool)
    ensures
        confirmed == match info {
            Some(found) => found.version_copy1 == Some(version) || found.version_copy2 == Some(
                version,
            ),
            None => true,
        },
{
    match info {
        Some(found) => {
            let first: bool = match found.version_copy1 {
                Some(read) => read == version,
                None => false,
            };
            let second: bool = match found.version_copy2 {
                Some(read) => read == version,
                None => false,
            };
            first || second
        },
        None => true,
    }
}

/// The data codewords of a symbol after error correction, block after block, with
/// what the correction reported for each block.
pub fn perform_ecc_correction(stream: &[u8], layout: &Layout) -> (result: (
    Option<Vec<u8>>,
    Vec<CorrectionResult>,
))
    requires
        is_layout(layout@),
        stream.len() == data_len(layout@) + blocks_of(layout@) * layout.ecc_per_block,
    ensures
        match result.0 {
            Some(data) => repaired_data(stream@, layout@, blocks_of(layout@) as nat) == Some(
                data@,
            ),
            None => repaired_data(stream@, layout@, blocks_of(layout@) as nat) is None,
        },
        result.1.len() == blocks_of(layout@),
        forall|b: int|
            0 <= b < result.1.len() ==> (#[trigger] result.1[b])@ == correction_of(
                received_block(stream@, layout@, b),
                layout.ecc_per_block as nat,
            ),
{
    let blocks = deinterleave(stream, layout);
    let mut data: Vec<u8> = Vec::new();
    let mut failed: bool = false;
    let mut reports: Vec<CorrectionResult> = Vec::new();
    let mut b: usize = 0;
    while b < blocks.len()
        invariant
            b <= blocks.len(),
            blocks.len() == blocks_of(layout@),
            is_layout(layout@),
            forall|q: int|
                0 <= q < blocks.len() ==> (#[trigger] blocks[q])@ == received_block(
                    stream@,
                    layout@,
                    q,
                ),
            failed ==> repaired_data(stream@, layout@, b as nat) is None,
            !failed ==> repaired_data(stream@, layout@, b as nat) == Some(data@),
            reports.len() == b,
            forall|q: int|
                0 <= q < b ==> (#[trigger] reports[q])@ == correction_of(
                    received_block(stream@, layout@, q),
                    layout.ecc_per_block as nat,
                ),
        decreases blocks.len() - b,
    {
        let outcome = correct_errors(blocks[b].as_slice(), layout.ecc_per_block);
        proof {
            assert(blocks[b as int]@ == received_block(stream@, layout@, b as int));
        }
        match &outcome {
            CorrectionResult::ErrorFree(block) => {
                if !failed {
                    let ghost before = data@;
                    let mut copy = crate::ecc::prefix(block.as_slice(), block.len());
                    proof {
                        assert(copy@ =~= block@);
                    }
                    data.append(&mut copy);
                }
            },
            CorrectionResult::Corrected { data: block, error_positions, error_magnitudes } => {
                if !failed {
                    let mut copy = crate::ecc::prefix(block.as_slice(), block.len());
                    proof {
                        assert(copy@ =~= block@);
                    }
                    data.append(&mut copy);
                }
            },
            CorrectionResult::Uncorrectable => {
                failed = true;
            },
        }
        reports.push(outcome);
        b = b + 1;
    }
    if failed {
        (None, reports)
    } else {
        (Some(data), reports)
    }
}

/// Decodes a symbol: its version, level, mask and mode, and the bytes of its text.
pub fn decode(matrix: &Vec<Vec<u8>>) -> (result: Result<DecodedSymbol, DecodeError>)
    ensures
        match result {
            Ok(symbol) => decoded(grid(matrix)) == Ok::<Decoded, DecodeError>(symbol@),
            Err(error) => decoded(grid(matrix)) == Err::<Decoded, DecodeError>(error),
        },
{
    let version = match check_shape(matrix) {
        Some(version) => version,
        None => {
            return Err(DecodeError::InvalidVersion);
        },
    };
    let format_info = analyze_format_info(matrix);
    let (error_correction, mask_pattern) = match (
        format_info.error_correction,
        format_info.mask_pattern,
    ) {
        (Some(ec), Some(mask)) => (ec, mask),
        _ => {
            return Err(DecodeError::FormatInfoUndecodable);
        },
    };
    let version_info = analyze_version_info(matrix);
    if !confirms_version(&version_info, version) {
        return Err(DecodeError::VersionInfoMismatch);
    }
    proof {
        version.lemma_number_range();
        lemma_sweep_length(version);
        lemma_table_bounds(version.number(), error_correction);
        lemma_layout(version.number(), error_correction);
    }
    let raw = read_data_bits(matrix, version);
    let unmasked = apply_mask_to_bits(raw.as_slice(), mask_pattern, version);
    let total: usize = crate::ecc_data::get_total_codewords(version);
    let placed = vstd::slice::slice_subrange(unmasked.as_slice(), 0, 8 * total);
    proof {
        assert(placed@ =~= unmasked@.take(8 * total));
        assert forall|q: int| 0 <= q < placed@.len() implies (#[trigger] placed@[q]) <= 1 by {
            assert(placed@[q] == unmasked@[q]);
        }
    }
    let stream = bits_to_bytes(placed);
    let layout = get_layout(version, error_correction);
    let corrected = perform_ecc_correction(stream.as_slice(), &layout);
    let data = match corrected.0 {
        Some(data) => data,
        None => {
            return Err(DecodeError::UncorrectableBlock);
        },
    };
    proof {
        lemma_repaired_len(stream@, layout@, blocks_of(layout@) as nat);
        lemma_block_bounds(layout@, 0);
        lemma_bits_of_bytes(data@);
    }
    let data_bits = bytes_to_bits(data.as_slice());
    match decode_data_bits(data_bits.as_slice(), version) {
        Some((data_mode, text)) => Ok(
            DecodedSymbol { version, error_correction, mask_pattern, data_mode, text },
        ),
        None => Err(DecodeError::MalformedHeader),
    }
}

/// Repaired data is no longer than the data codewords of the blocks it comes from.
pub proof fn lemma_repaired_len(stream: Seq<u8>, l: BlockLayout, count: nat)
    requires
        is_layout(l),
        count <= blocks_of(l),
    ensures
        repaired_data(stream, l, count) is Some ==> repaired_data(stream, l, count).unwrap().len()
            <= crate::blocks::block_start(l, count as int),
    decreases count,
{
    if count > 0 {
        lemma_repaired_len(stream, l, (count - 1) as nat);
        lemma_block_bounds(l, count - 1);
    }
}

} // verus!
