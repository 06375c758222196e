use vstd::prelude::*;
use crate::alignment::{alignment_centers, get_alignment_positions, pattern_at};
use crate::bits::{bits_of_bytes, bits_to_bytes, bytes_to_bits, lemma_bits_of_bytes};
use crate::blocks::{blocks_of, get_layout, lemma_block_bounds, lemma_layout, received_block};
use crate::counting::lemma_sweep_length;
use crate::decoder::{
    analyze_format_info, analyze_version_info, decode, decoded, format_of, lemma_repaired_len,
    perform_ecc_correction, placed_codewords, repaired_data, DecodeError, Decoded, DecodedSymbol,
    FormatInfo, VersionInfo,
};
use crate::ecc::{correction_of, CorrectionResult};
use crate::ecc_data::{
    block_layout, data_codewords, ecc_codewords, get_data_capacity_in_bits, get_ecc_codewords,
    lemma_table_bounds, total_codewords, BlockLayout,
};
use crate::matrix::{check_shape, grid, is_symbol, is_symbol_matrix, version_of};
use crate::parser::{count_zero_run, decode_data_bits, header, parsed, read_header, zero_run};
use crate::pixel_mapping::{size_to_version, symbol_version};
use crate::reader::{
    alignment_found, analyze_dark_module, analyze_finder_patterns, analyze_timing_patterns,
    apply_mask_to_bits, check_alignment_pattern, finder_found, raw_bits, read_data_bits,
    timing_found, unmasked_bits,
};
use crate::types::{DataMode, ErrorCorrection, MaskPattern, Version};

verus! {

/// An alignment pattern as it was looked for: the column and row of its centre, and
/// whether the pattern was found there.
pub struct AlignmentPattern {
    pub x: usize,
    pub y: usize,
    pub valid: bool,
}

/// How the codewords of a symbol are split into blocks.
pub struct BlockStructure {
    pub group1_blocks: usize,
    pub group1_data_codewords: usize,
    pub group2_blocks: usize,
    pub group2_data_codewords: usize,
    pub ecc_codewords_per_block: usize,
    pub total_blocks: usize,
}

/// What the data modules of a symbol hold, step by step.
pub struct DataAnalysis {
    /// The bits of the data modules in the order of the sweep.
    pub raw_bits: Vec<u8>,
    /// The same bits with the mask taken off.
    pub unmasked_bits: Vec<u8>,
    /// The block layout of the version and level.
    pub block_structure: BlockStructure,
    /// What error correction reported for each block.
    pub corrections: Vec<CorrectionResult>,
    /// The data codewords after error correction, if every block could be repaired.
    pub corrected_data: Option<Vec<u8>>,
    /// The mode, if the data codewords have a header.
    pub data_mode: Option<DataMode>,
    /// The character count that the header declares.
    pub data_length: Option<usize>,
    /// The bit at which the payload ends and terminator and padding begin.
    pub payload_end: Option<usize>,
    /// The number of zero bits, up to four, that follow the payload.
    pub terminator_bits: Option<usize>,
    /// The bytes of the text.
    pub text: Option<Vec<u8>>,
}

/// Everything that is found out about a matrix on the way to decoding it.
pub struct QrAnalysis {
    pub size: usize,
    pub version_from_size: Option<Version>,
    pub format_info: Option<FormatInfo>,
    pub version_info: Option<VersionInfo>,
    /// Whether the upper left, upper right and lower left finder patterns are found.
    pub finder_patterns: (bool, bool, bool),
    pub timing_valid: bool,
    pub dark_module_present: bool,
    pub alignment_patterns: Vec<AlignmentPattern>,
    pub data_analysis: Option<DataAnalysis>,
    /// What the matrix decodes to, or the stage at which decoding fails.
    pub outcome: Result<DecodedSymbol, DecodeError>,
}

/// The centres `(column, row)` of the alignment patterns in the row of centres of
/// index `i`, up to the column of index `j`.
pub open spec fn row_centres(v: int, i: int, j: nat) -> Seq<(int, int)>
    decreases j,
{
    if j == 0 {
        Seq::empty()
    } else if pattern_at(v, i, j - 1) {
        row_centres(v, i, (j - 1) as nat).push(
            (alignment_centers(v)[j - 1], alignment_centers(v)[i]),
        )
    } else {
        row_centres(v, i, (j - 1) as nat)
    }
}

/// The centres `(column, row)` of the alignment patterns in the first `i` rows of
/// centres, row by row.
pub open spec fn centres_upto(v: int, i: nat) -> Seq<(int, int)>
    decreases i,
{
    if i == 0 {
        Seq::empty()
    } else {
        centres_upto(v, (i - 1) as nat) + row_centres(v, i - 1, alignment_centers(v).len())
    }
}

/// The centres `(column, row)` of all alignment patterns of a version, row by row.
pub open spec fn pattern_centres(v: int) -> Seq<(int, int)> {
    centres_upto(v, alignment_centers(v).len())
}

/// Every centre of a pattern lies at least six modules from the edges.
pub proof fn lemma_pattern_centres(v: int, i: nat, q: int)
    requires
        1 <= v <= 40,
        i <= alignment_centers(v).len(),
        0 <= q < centres_upto(v, i).len(),
    ensures
        6 <= centres_upto(v, i)[q].0 <= 17 + 4 * v - 7,
        6 <= centres_upto(v, i)[q].1 <= 17 + 4 * v - 7,
    decreases i,
{
    crate::alignment::lemma_alignment_centers(v);
    if i > 0 {
        let before = centres_upto(v, (i - 1) as nat);
        if q < before.len() {
            lemma_pattern_centres(v, (i - 1) as nat, q);
        } else {
            lemma_row_centres(v, i - 1, alignment_centers(v).len(), q - before.len());
        }
    }
}

/// Every centre that a row of the table lists lies at least six modules from each
/// edge of the symbol.
proof fn lemma_row_centres(v: int, i: int, j: nat, q: int)
    requires
        1 <= v <= 40,
        0 <= i < alignment_centers(v).len(),
        j <= alignment_centers(v).len(),
        0 <= q < row_centres(v, i, j).len(),
    ensures
        6 <= row_centres(v, i, j)[q].0 <= 17 + 4 * v - 7,
        6 <= row_centres(v, i, j)[q].1 <= 17 + 4 * v - 7,
    decreases j,
{
    crate::alignment::lemma_alignment_centers(v);
    if j > 0 {
        let before = row_centres(v, i, (j - 1) as nat);
        if q < before.len() {
            lemma_row_centres(v, i, (j - 1) as nat, q);
        }
    }
}

/// The centres of the alignment patterns of a version as `(column, row)`.
pub fn get_alignment_pattern_positions(version: Version) -> (positions: Vec<(usize, usize)>)
    ensures
        positions@.map_values(|p: (usize, usize)| (p.0 as int, p.1 as int)) == pattern_centres(
            version.number(),
        ),
{
    let centers = get_alignment_positions(version);
    let count: usize = centers.len();
    let ghost v = version.number();
    let ghost table = alignment_centers(v);
    let ghost as_pair = |p: (usize, usize)| (p.0 as int, p.1 as int);
    proof {
        assert forall|q: int| 0 <= q < count implies table[q] == centers[q] as int by {
            assert(centers@.map_values(|p: usize| p as int)[q] == centers[q] as int);
        }
    }
    let mut positions: Vec<(usize, usize)> = Vec::new();
    let mut i: usize = 0;
    assert(positions@.map_values(as_pair) =~= centres_upto(v, 0));
    while i < count
        invariant
            i <= count,
            count == centers.len(),
            count == table.len(),
            table == alignment_centers(v),
            forall|q: int| 0 <= q < count ==> table[q] == centers[q] as int,
            as_pair == |p: (usize, usize)| (p.0 as int, p.1 as int),
            positions@.map_values(as_pair) == centres_upto(v, i as nat),
        decreases count - i,
    {
        let ghost done = centres_upto(v, i as nat);
        let mut j: usize = 0;
        assert(done + row_centres(v, i as int, 0) =~= done);
        while j < count
            invariant
                i < count,
                j <= count,
                count == centers.len(),
                count == table.len(),
                table == alignment_centers(v),
                forall|q: int| 0 <= q < count ==> table[q] == centers[q] as int,
                as_pair == |p: (usize, usize)| (p.0 as int, p.1 as int),
                done == centres_upto(v, i as nat),
                positions@.map_values(as_pair) == done + row_centres(v, i as int, j as nat),
            decreases count - j,
        {
            let on_finder: bool = (i == 0 && j == 0) || (i == 0 && j == count - 1) || (i == count
                - 1 && j == 0);
            if !on_finder {
                let x: usize = centers[j];
                let y: usize = centers[i];
                proof {
                    assert(pattern_at(v, i as int, j as int));
                    positions@.lemma_push_map_commute(as_pair, (x, y));
                    assert((done + row_centres(v, i as int, j as nat)).push((x as int, y as int))
                        =~= done + row_centres(v, i as int, j as nat).push(
                        (x as int, y as int),
                    ));
                }
                positions.push((x, y));
            }
            j = j + 1;
        }
        i = i + 1;
    }
    positions
}

/// What is found at the centres of the alignment patterns: for each centre in turn
/// its column, its row and whether the pattern is there.
pub open spec fn alignment_reports(v: int, g: Seq<Seq<u8>>) -> Seq<(int, int, bool)> {
    pattern_centres(v).map_values(|p: (int, int)| (p.0, p.1, alignment_found(g, p.0, p.1)))
}

/// Looks for every alignment pattern of the version.
pub fn analyze_alignment_patterns(matrix: &Vec<Vec<u8>>, version: Version) -> (patterns: Vec<
    AlignmentPattern,
>)
    requires
        is_symbol(grid(matrix), version),
    ensures
        patterns@.map_values(|p: AlignmentPattern| (p.x as int, p.y as int, p.valid))
            == alignment_reports(version.number(), grid(matrix)),
{
    let positions = get_alignment_pattern_positions(version);
    let ghost v = version.number();
    let ghost g = grid(matrix);
    let ghost centres = pattern_centres(v);
    let ghost as_pair = |p: (usize, usize)| (p.0 as int, p.1 as int);
    let ghost as_report = |p: AlignmentPattern| (p.x as int, p.y as int, p.valid);
    let ghost report = |p: (int, int)| (p.0, p.1, alignment_found(g, p.0, p.1));
    proof {
        version.lemma_number_range();
    }
    let mut patterns: Vec<AlignmentPattern> = Vec::new();
    let mut k: usize = 0;
    assert(patterns@.map_values(as_report) =~= centres.take(0).map_values(report));
    while k < positions.len()
        invariant
            k <= positions.len(),
            1 <= v <= 40,
            v == version.number(),
            g == grid(matrix),
            is_symbol(g, version),
            centres == pattern_centres(v),
            as_pair == |p: (usize, usize)| (p.0 as int, p.1 as int),
            as_report == |p: AlignmentPattern| (p.x as int, p.y as int, p.valid),
            report == |p: (int, int)| (p.0, p.1, alignment_found(g, p.0, p.1)),
            positions@.map_values(as_pair) == centres,
            patterns@.map_values(as_report) == centres.take(k as int).map_values(report),
        decreases positions.len() - k,
    {
        let (x, y) = positions[k];
        proof {
            assert(positions@.map_values(as_pair)[k as int] == (x as int, y as int));
            assert(centres[k as int] == (x as int, y as int));
            lemma_pattern_centres(v, alignment_centers(v).len(), k as int);
        }
        let valid: bool = check_alignment_pattern(matrix, x, y);
        let ghost before = patterns@;
        patterns.push(AlignmentPattern { x, y, valid });
        proof {
            assert(centres.take(k + 1) =~= centres.take(k as int).push(centres[k as int]));
            centres.take(k as int).lemma_push_map_commute(report, centres[k as int]);
            before.lemma_push_map_commute(as_report, AlignmentPattern { x, y, valid });
        }
        k = k + 1;
    }
    assert(centres.take(k as int) =~= centres);
    patterns
}

/// Whether a block structure holds the numbers of the layout `l`.
pub open spec fn is_block_structure(structure: BlockStructure, l: BlockLayout) -> bool {
    &&& structure.group1_blocks == l.g1_blocks
    &&& structure.group1_data_codewords == l.g1_dc
    &&& structure.group2_blocks == l.g2_blocks
    &&& structure.group2_data_codewords == l.g2_dc
    &&& structure.ecc_codewords_per_block == l.ecc_per_block
    &&& structure.total_blocks == blocks_of(l)
}

/// The block layout of a version and level.
pub fn analyze_block_structure(version: Version, error_correction: ErrorCorrection) -> (structure:
    BlockStructure)
    ensures
        is_block_structure(structure, block_layout(version.number(), error_correction)),
{
    let layout = get_layout(version, error_correction);
    BlockStructure {
        group1_blocks: layout.g1_blocks,
        group1_data_codewords: layout.g1_dc,
        group2_blocks: layout.g2_blocks,
        group2_data_codewords: layout.g2_dc,
        ecc_codewords_per_block: layout.ecc_per_block,
        total_blocks: layout.g1_blocks + layout.g2_blocks,
    }
}

/// The number of bits that the codewords of a symbol hold, data and parity
/// together.
pub fn get_total_capacity(version: Version, error_correction: ErrorCorrection) -> (bits: usize)
    ensures
        bits == 8 * total_codewords(version.number()),
        bits == 8 * data_codewords(version.number(), error_correction) + 8 * ecc_codewords(
            version.number(),
            error_correction,
        ),
{
    proof {
        version.lemma_number_range();
        lemma_table_bounds(version.number(), error_correction);
    }
    get_data_capacity_in_bits(version, error_correction) + 8 * get_ecc_codewords(
        version,
        error_correction,
    )
}

/// Whether a data analysis holds what the data modules of the symbol `g` give for
/// the level and mask.
pub open spec fn is_data_analysis(
    analysis: DataAnalysis,
    g: Seq<Seq<u8>>,
    version: Version,
    ec: ErrorCorrection,
    mask: MaskPattern,
) -> bool {
    let l = block_layout(version.number(), ec);
    let stream = placed_codewords(version, mask, g);
    &&& analysis.raw_bits@ == raw_bits(version, g)
    &&& analysis.unmasked_bits@ == unmasked_bits(version, mask, raw_bits(version, g))
    &&& is_block_structure(analysis.block_structure, l)
    &&& analysis.corrections.len() == blocks_of(l)
    &&& forall|b: int|
        0 <= b < analysis.corrections.len() ==> (#[trigger] analysis.corrections[b])@
            == correction_of(received_block(stream, l, b), l.ecc_per_block as nat)
    &&& match analysis.corrected_data {
        Some(data) => {
            &&& repaired_data(stream, l, blocks_of(l) as nat) == Some(data@)
            &&& match header(version.number(), bits_of_bytes(data@)) {
                Some((mode, count, end)) => {
                    &&& analysis.data_mode == Some(mode)
                    &&& analysis.data_length == Some(count as usize)
                    &&& analysis.payload_end == Some(end as usize)
                    &&& analysis.terminator_bits == Some(
                        zero_run(
                            bits_of_bytes(data@),
                            end,
                            if end + 4 <= 8 * data@.len() {
                                end + 4
                            } else {
                                8 * (data@.len() as int)
                            },
                        ) as usize,
                    )
                    &&& analysis.text is Some
                    &&& parsed(version.number(), bits_of_bytes(data@)) == Some(
                        (mode, analysis.text.unwrap()@),
                    )
                },
                None => {
                    &&& analysis.data_mode is None
                    &&& analysis.data_length is None
                    &&& analysis.payload_end is None
                    &&& analysis.terminator_bits is None
                    &&& analysis.text is None
                },
            }
        },
        None => {
            &&& repaired_data(stream, l, blocks_of(l) as nat) is None
            &&& analysis.data_mode is None
            &&& analysis.data_length is None
            &&& analysis.payload_end is None
            &&& analysis.terminator_bits is None
            &&& analysis.text is None
        },
    }
}

/// Reads the data modules of a symbol and follows them through unmasking, error
/// correction and parsing, keeping what each step gives.
pub fn decode_data_comprehensive(
    matrix: &Vec<Vec<u8>>,
    mask: MaskPattern,
    version: Version,
    ecc_level: ErrorCorrection,
) -> (analysis: DataAnalysis)
    requires
        is_symbol(grid(matrix), version),
    ensures
        is_data_analysis(analysis, grid(matrix), version, ecc_level, mask),
{
    proof {
        version.lemma_number_range();
        lemma_sweep_length(version);
        lemma_table_bounds(version.number(), ecc_level);
        lemma_layout(version.number(), ecc_level);
    }
    let raw = read_data_bits(matrix, version);
    let unmasked = apply_mask_to_bits(raw.as_slice(), mask, version);
    let total_bits: usize = get_total_capacity(version, ecc_level);
    let placed = vstd::slice::slice_subrange(unmasked.as_slice(), 0, total_bits);
    proof {
        assert(placed@ =~= unmasked@.take(total_bits as int));
        assert forall|q: int| 0 <= q < placed@.len() implies (#[trigger] placed@[q]) <= 1 by {
            assert(placed@[q] == unmasked@[q]);
        }
    }
    let stream = bits_to_bytes(placed);
    let layout = get_layout(version, ecc_level);
    let block_structure = analyze_block_structure(version, ecc_level);
    let corrected = perform_ecc_correction(stream.as_slice(), &layout);
    let corrected_data = corrected.0;
    let corrections = corrected.1;
    let mut data_mode: Option<DataMode> = None;
    let mut data_length: Option<usize> = None;
    let mut payload_end: Option<usize> = None;
    let mut terminator_bits: Option<usize> = None;
    let mut text: Option<Vec<u8>> = None;
    match &corrected_data {
        Some(data) => {
            proof {
                lemma_repaired_len(stream@, layout@, blocks_of(layout@) as nat);
                lemma_block_bounds(layout@, 0);
                lemma_bits_of_bytes(data@);
            }
            let data_bits = bytes_to_bits(data.as_slice());
            match read_header(data_bits.as_slice(), version) {
                Some((mode, count, end)) => {
                    let limit: usize = if end + 4 <= data_bits.len() {
                        end + 4
                    } else {
                        data_bits.len()
                    };
                    data_mode = Some(mode);
                    data_length = Some(count);
                    payload_end = Some(end);
                    terminator_bits = Some(count_zero_run(data_bits.as_slice(), end, limit));
                    match decode_data_bits(data_bits.as_slice(), version) {
                        Some((_, found_text)) => {
                            text = Some(found_text);
                        },
                        None => {},
                    }
                },
                None => {},
            }
        },
        None => {},
    }
    DataAnalysis {
        raw_bits: raw,
        unmasked_bits: unmasked,
        block_structure,
        corrections,
        corrected_data,
        data_mode,
        data_length,
        payload_end,
        terminator_bits,
        text,
    }
}

/// Whether an analysis holds what the matrix `g` gives.
pub open spec fn is_analysis(analysis: QrAnalysis, g: Seq<Seq<u8>>) -> bool {
    &&& analysis.size == g.len()
    &&& analysis.version_from_size == symbol_version(g.len() as int)
    &&& match analysis.outcome {
        Ok(symbol) => decoded(g) == Ok::<Decoded, DecodeError>(symbol@),
        Err(error) => decoded(g) == Err::<Decoded, DecodeError>(error),
    }
    &&& if is_symbol_matrix(g) {
        let version = version_of(g);
        &&& analysis.format_info is Some
        &&& analysis.format_info.unwrap().raw_bits_copy1 == crate::reader::format_reading_first(g)
        &&& analysis.format_info.unwrap().raw_bits_copy2 == crate::reader::format_reading_second(
            g,
        )
        &&& match format_of(g) {
            Some((ec, mask)) => {
                &&& analysis.format_info.unwrap().error_correction == Some(ec)
                &&& analysis.format_info.unwrap().mask_pattern == Some(mask)
                &&& analysis.data_analysis is Some
                &&& is_data_analysis(analysis.data_analysis.unwrap(), g, version, ec, mask)
            },
            None => {
                &&& analysis.format_info.unwrap().error_correction is None
                &&& analysis.format_info.unwrap().mask_pattern is None
                &&& analysis.data_analysis is None
            },
        }
        &&& analysis.version_info is None <==> version.number() < 7
        &&& match analysis.version_info {
            Some(found) => {
                &&& found.raw_bits_copy1 == crate::reader::version_reading_first(g)
                &&& found.raw_bits_copy2 == crate::reader::version_reading_second(g)
                &&& found.copies_match == (found.raw_bits_copy1 == found.raw_bits_copy2)
                &&& found.version_copy1 == crate::decoder::version_read(found.raw_bits_copy1)
                &&& found.version_copy2 == crate::decoder::version_read(found.raw_bits_copy2)
            },
            None => true,
        }
        &&& analysis.format_info.unwrap().copies_match == (
        analysis.format_info.unwrap().raw_bits_copy1
            == analysis.format_info.unwrap().raw_bits_copy2)
        &&& analysis.finder_patterns.0 == finder_found(g, 0, 0)
        &&& analysis.finder_patterns.1 == finder_found(g, g.len() - 7, 0)
        &&& analysis.finder_patterns.2 == finder_found(g, 0, g.len() - 7)
        &&& analysis.timing_valid == timing_found(g)
        &&& analysis.dark_module_present == (g[g.len() - 8][8] == 1)
        &&& analysis.alignment_patterns@.map_values(
            |p: AlignmentPattern| (p.x as int, p.y as int, p.valid),
        ) == alignment_reports(version.number(), g)
    } else {
        &&& analysis.format_info is None
        &&& analysis.version_info is None
        &&& analysis.finder_patterns == (false, false, false)
        &&& !analysis.timing_valid
        &&& !analysis.dark_module_present
        &&& analysis.data_analysis is None
        &&& analysis.alignment_patterns@.len() == 0
    }
}

/// Analyses a matrix: what its size, its function patterns, its format and version
/// bits and its data modules give, and what it decodes to. The analysis is made to
/// the end whatever stage the decoding fails at.
pub fn analyze_qr_code(matrix: &Vec<Vec<u8>>) -> (analysis: QrAnalysis)
    ensures
        is_analysis(analysis, grid(matrix)),
{
    let size: usize = matrix.len();
    let outcome = decode(matrix);
    let version = match check_shape(matrix) {
        Some(version) => version,
        None => {
            return QrAnalysis {
                size,
                version_from_size: size_to_version(size),
                format_info: None,
                version_info: None,
                finder_patterns: (false, false, false),
                timing_valid: false,
                dark_module_present: false,
                alignment_patterns: Vec::new(),
                data_analysis: None,
                outcome,
            };
        },
    };
    let format_info = analyze_format_info(matrix);
    let version_info = analyze_version_info(matrix);
    let finder_patterns = analyze_finder_patterns(matrix);
    let timing_valid = analyze_timing_patterns(matrix);
    let dark_module = analyze_dark_module(matrix);
    let alignment_patterns = analyze_alignment_patterns(matrix, version);
    let data_analysis = match (format_info.error_correction, format_info.mask_pattern) {
        (Some(ec), Some(mask)) => Some(decode_data_comprehensive(matrix, mask, version, ec)),
        _ => None,
    };
    QrAnalysis {
        size,
        version_from_size: Some(version),
        format_info: Some(format_info),
        version_info,
        finder_patterns,
        timing_valid,
        dark_module_present: dark_module.0,
        alignment_patterns,
        data_analysis,
        outcome,
    }
}

} // verus!
