use vstd::prelude::*;
use vstd::string::StringSliceAdditionalSpecFns;
use crate::alignment::{
    alignment_centers, alignment_module, covered_by, get_alignment_positions, in_alignment_pattern,
    pattern_at,
};
use crate::blocks::{data_stream_bits, ecc_stream_bits, interleave_data_bits};
use crate::ecc_data::{data_capacity, data_codewords, get_data_capacity, lemma_table_bounds};
use crate::encoding::{
    data_bit_stream, encode_data, fits, lemma_message, lemma_padded, message, valid_for_mode,
    EncodeError,
};
use crate::format::{format_bits, get_format_info, get_version_info, version_bits};
use crate::mask::{apply_mask, mask_bit, toggled};
use crate::matrix::{grid, is_square, is_symbol, lemma_put, new_matrix, set_module};
use crate::patterns::{
    alignment_value, finder_module, format_bit_index, function_value, lemma_alignment_value,
    lemma_centres_apart, lemma_function_parts, on_timing_line, timing_module, version_bit_index,
    word_bit,
};
use crate::pixel_mapping::{
    data_positions, get_data_ecc_positions, is_function_module_at, lemma_sweep_coverage, places,
};
use crate::types::{DataMode, ErrorCorrection, MaskPattern, QrConfig, Version};

verus! {

/// Two squares of one size with equal modules are equal.
pub proof fn lemma_grids_equal(a: Seq<Seq<u8>>, b: Seq<Seq<u8>>, n: int)
    requires
        is_square(a, n),
        is_square(b, n),
        forall|r: int, c: int| 0 <= r < n && 0 <= c < n ==> a[r][c] == b[r][c],
    ensures
        a == b,
{
    assert forall|r: int| 0 <= r < n implies a[r] == b[r] by {
        assert(a[r].len() == n && b[r].len() == n);
        assert(a[r] =~= b[r]);
    }
    assert(a =~= b);
}

/// Writes one module of a square matrix.
fn paint_module(matrix: &mut Vec<Vec<u8>>, row: usize, col: usize, value: u8)
    requires
        is_square(grid(old(matrix)), old(matrix).len() as int),
        row < old(matrix).len(),
        col < old(matrix).len(),
    ensures
        final(matrix).len() == old(matrix).len(),
        is_square(grid(final(matrix)), old(matrix).len() as int),
        forall|r: int, c: int|
            0 <= r < old(matrix).len() && 0 <= c < old(matrix).len() ==> #[trigger] grid(
                final(matrix),
            )[r][c] == (if r == row && c == col {
                value
            } else {
                grid(old(matrix))[r][c]
            }),
{
    let ghost before = grid(matrix);
    assert(before[row as int].len() == matrix.len());
    set_module(matrix, row, col, value);
    proof {
        lemma_put(before, before.len() as int, row as int, col as int, value);
    }
}

/// Fills a rectangle with one value.
fn fill_rect(
    matrix: &mut Vec<Vec<u8>>,
    top: usize,
    left: usize,
    height: usize,
    width: usize,
    value: u8,
)
    requires
        is_square(grid(old(matrix)), old(matrix).len() as int),
        top + height <= old(matrix).len(),
        left + width <= old(matrix).len(),
    ensures
        final(matrix).len() == old(matrix).len(),
        is_square(grid(final(matrix)), old(matrix).len() as int),
        forall|r: int, c: int|
            0 <= r < old(matrix).len() && 0 <= c < old(matrix).len() ==> #[trigger] grid(
                final(matrix),
            )[r][c] == (if top <= r < top + height && left <= c < left + width {
                value
            } else {
                grid(old(matrix))[r][c]
            }),
{
    let ghost start = grid(matrix);
    let n: usize = matrix.len();
    let mut dy: usize = 0;
    while dy < height
        invariant
            dy <= height,
            n == matrix.len(),
            start.len() == n,
            top + height <= n,
            left + width <= n,
            is_square(grid(matrix), n as int),
            forall|r: int, c: int|
                0 <= r < n && 0 <= c < n ==> #[trigger] grid(matrix)[r][c] == (if top <= r < top
                    + dy && left <= c < left + width {
                    value
                } else {
                    start[r][c]
                }),
        decreases height - dy,
    {
        let mut dx: usize = 0;
        while dx < width
            invariant
                dy < height,
                dx <= width,
                n == matrix.len(),
                start.len() == n,
                top + height <= n,
                left + width <= n,
                is_square(grid(matrix), n as int),
                forall|r: int, c: int|
                    0 <= r < n && 0 <= c < n ==> #[trigger] grid(matrix)[r][c] == (if (top <= r
                        < top + dy && left <= c < left + width) || (r == top + dy && left <= c
                        < left + dx) {
                        value
                    } else {
                        start[r][c]
                    }),
            decreases width - dx,
        {
            paint_module(matrix, top + dy, left + dx, value);
            dx = dx + 1;
        }
        dy = dy + 1;
    }
}

/// Draws a finder pattern whose upper left corner is at column `x` and row `y`,
/// with the light separator around it as far as it lies within the symbol.
pub fn add_position_pattern(matrix: &mut Vec<Vec<u8>>, x: usize, y: usize)
    requires
        is_square(grid(old(matrix)), old(matrix).len() as int),
        x + 7 <= old(matrix).len(),
        y + 7 <= old(matrix).len(),
    ensures
        final(matrix).len() == old(matrix).len(),
        is_square(grid(final(matrix)), old(matrix).len() as int),
        forall|r: int, c: int|
            0 <= r < old(matrix).len() && 0 <= c < old(matrix).len() ==> #[trigger] grid(
                final(matrix),
            )[r][c] == (if y - 1 <= r <= y + 7 && x - 1 <= c <= x + 7 {
                finder_module(r - y, c - x)
            } else {
                grid(old(matrix))[r][c]
            }),
{
    let size: usize = matrix.len();
    let top: usize = if y >= 1 {
        y - 1
    } else {
        0
    };
    let left: usize = if x >= 1 {
        x - 1
    } else {
        0
    };
    let bottom: usize = if y + 7 < size {
        y + 8
    } else {
        size
    };
    let right: usize = if x + 7 < size {
        x + 8
    } else {
        size
    };
    fill_rect(matrix, top, left, bottom - top, right - left, 0);
    fill_rect(matrix, y, x, 7, 7, 1);
    fill_rect(matrix, y + 1, x + 1, 5, 5, 0);
    fill_rect(matrix, y + 2, x + 2, 3, 3, 1);
}

/// Draws an alignment pattern whose upper left corner is at column `x` and row `y`.
pub fn add_alignment_pattern(matrix: &mut Vec<Vec<u8>>, x: usize, y: usize)
    requires
        is_square(grid(old(matrix)), old(matrix).len() as int),
        x + 5 <= old(matrix).len(),
        y + 5 <= old(matrix).len(),
    ensures
        final(matrix).len() == old(matrix).len(),
        is_square(grid(final(matrix)), old(matrix).len() as int),
        forall|r: int, c: int|
            0 <= r < old(matrix).len() && 0 <= c < old(matrix).len() ==> #[trigger] grid(
                final(matrix),
            )[r][c] == (if y <= r <= y + 4 && x <= c <= x + 4 {
                alignment_module(y + 2, x + 2, r, c)
            } else {
                grid(old(matrix))[r][c]
            }),
{
    fill_rect(matrix, y, x, 5, 5, 1);
    fill_rect(matrix, y + 1, x + 1, 3, 3, 0);
    fill_rect(matrix, y + 2, x + 2, 1, 1, 1);
}

/// Draws the two timing lines between the finder patterns.
pub fn add_timing_patterns(matrix: &mut Vec<Vec<u8>>, size: usize)
    requires
        is_square(grid(old(matrix)), size as int),
        size >= 21,
    ensures
        final(matrix).len() == size,
        is_square(grid(final(matrix)), size as int),
        forall|r: int, c: int|
            0 <= r < size && 0 <= c < size ==> #[trigger] grid(final(matrix))[r][c] == (
            if on_timing_line(size as int, r, c) {
                timing_module(r, c)
            } else {
                grid(old(matrix))[r][c]
            }),
{
    let ghost start = grid(matrix);
    let mut i: usize = 8;
    while i < size - 8
        invariant
            8 <= i <= size - 8,
            size >= 21,
            matrix.len() == size,
            is_square(grid(matrix), size as int),
            forall|r: int, c: int|
                0 <= r < size && 0 <= c < size ==> #[trigger] grid(matrix)[r][c] == (if (r == 6
                    && 8 <= c < i) || (c == 6 && 8 <= r < i) {
                    timing_module(r, c)
                } else {
                    start[r][c]
                }),
        decreases size - i,
    {
        let module: u8 = ((i + 1) % 2) as u8;
        paint_module(matrix, 6, i, module);
        paint_module(matrix, i, 6, module);
        i = i + 1;
    }
}

/// Draws the alignment patterns of a version: one at every pair of centres but the
/// three that a finder pattern covers.
pub fn add_alignment_patterns(matrix: &mut Vec<Vec<u8>>, version: Version)
    requires
        is_symbol(grid(old(matrix)), version),
    ensures
        is_symbol(grid(final(matrix)), version),
        forall|r: int, c: int|
            0 <= r < version.side() && 0 <= c < version.side() ==> #[trigger] grid(
                final(matrix),
            )[r][c] == (if in_alignment_pattern(version.number(), r, c) {
                alignment_value(version.number(), r, c)
            } else {
                grid(old(matrix))[r][c]
            }),
{
    let positions = get_alignment_positions(version);
    let count: usize = positions.len();
    let ghost v = version.number();
    let ghost n = version.side();
    let ghost centers = alignment_centers(v);
    let ghost start = grid(matrix);
    proof {
        version.lemma_number_range();
        assert forall|q: int| 0 <= q < count implies centers[q] == positions[q] as int by {
            assert(positions@.map_values(|p: usize| p as int)[q] == positions[q] as int);
        }
    }
    let mut i: usize = 0;
    while i < count
        invariant
            i <= count,
            count == positions.len(),
            count == centers.len(),
            v == version.number(),
            1 <= v <= 40,
            n == version.side(),
            centers == alignment_centers(v),
            forall|q: int| 0 <= q < count ==> centers[q] == positions[q] as int,
            forall|q: int| 0 <= q < count ==> 6 <= #[trigger] positions[q] <= n - 7,
            matrix.len() == n,
            is_square(grid(matrix), n),
            is_square(start, n),
            forall|a: int, b: int, r: int, c: int|
                0 <= a < i && 0 <= r < n && 0 <= c < n && #[trigger] covered_by(v, a, b, r, c)
                    ==> grid(matrix)[r][c] == alignment_module(centers[a], centers[b], r, c),
            forall|r: int, c: int|
                0 <= r < n && 0 <= c < n && !in_alignment_pattern(v, r, c) ==> #[trigger] grid(
                    matrix,
                )[r][c] == start[r][c],
        decreases count - i,
    {
        let mut j: usize = 0;
        while j < count
            invariant
                i < count,
                j <= count,
                count == positions.len(),
                count == centers.len(),
                v == version.number(),
                1 <= v <= 40,
                n == version.side(),
                centers == alignment_centers(v),
                forall|q: int| 0 <= q < count ==> centers[q] == positions[q] as int,
                forall|q: int| 0 <= q < count ==> 6 <= #[trigger] positions[q] <= n - 7,
                matrix.len() == n,
                is_square(grid(matrix), n),
                is_square(start, n),
                forall|a: int, b: int, r: int, c: int|
                    0 <= a < i && 0 <= r < n && 0 <= c < n && #[trigger] covered_by(
                        v,
                        a,
                        b,
                        r,
                        c,
                    ) ==> grid(matrix)[r][c] == alignment_module(centers[a], centers[b], r, c),
                forall|b: int, r: int, c: int|
                    0 <= b < j && 0 <= r < n && 0 <= c < n && #[trigger] covered_by(
                        v,
                        i as int,
                        b,
                        r,
                        c,
                    ) ==> grid(matrix)[r][c] == alignment_module(
                        centers[i as int],
                        centers[b],
                        r,
                        c,
                    ),
                forall|r: int, c: int|
                    0 <= r < n && 0 <= c < n && !in_alignment_pattern(v, r, c) ==> #[trigger] grid(
                        matrix,
                    )[r][c] == start[r][c],
            decreases count - j,
        {
            let on_finder: bool = (i == 0 && j == 0) || (i == 0 && j == count - 1) || (i == count
                - 1 && j == 0);
            if !on_finder {
                let y: usize = positions[i];
                let x: usize = positions[j];
                let ghost before = grid(matrix);
                add_alignment_pattern(matrix, x - 2, y - 2);
                proof {
                    assert(pattern_at(v, i as int, j as int));
                    assert forall|a: int, b: int, r: int, c: int|
                        0 <= a < i && 0 <= r < n && 0 <= c < n && #[trigger] covered_by(
                            v,
                            a,
                            b,
                            r,
                            c,
                        ) implies grid(matrix)[r][c] == alignment_module(
                        centers[a],
                        centers[b],
                        r,
                        c,
                    ) by {
                        lemma_centres_apart(v, a, i as int);
                        assert(grid(matrix)[r][c] == before[r][c]);
                    }
                    assert forall|b: int, r: int, c: int|
                        0 <= b < j + 1 && 0 <= r < n && 0 <= c < n && #[trigger] covered_by(
                            v,
                            i as int,
                            b,
                            r,
                            c,
                        ) implies grid(matrix)[r][c] == alignment_module(
                        centers[i as int],
                        centers[b],
                        r,
                        c,
                    ) by {
                        if b < j {
                            lemma_centres_apart(v, b, j as int);
                            assert(grid(matrix)[r][c] == before[r][c]);
                        }
                    }
                    assert forall|r: int, c: int|
                        0 <= r < n && 0 <= c < n && !in_alignment_pattern(
                            v,
                            r,
                            c,
                        ) implies #[trigger] grid(matrix)[r][c] == start[r][c] by {
                        if y - 2 <= r <= y + 2 && x - 2 <= c <= x + 2 {
                            assert(covered_by(v, i as int, j as int, r, c));
                        }
                        assert(grid(matrix)[r][c] == before[r][c]);
                    }
                }
            } else {
                proof {
                    assert forall|b: int, r: int, c: int|
                        0 <= b < j + 1 && 0 <= r < n && 0 <= c < n && #[trigger] covered_by(
                            v,
                            i as int,
                            b,
                            r,
                            c,
                        ) implies grid(matrix)[r][c] == alignment_module(
                        centers[i as int],
                        centers[b],
                        r,
                        c,
                    ) by {
                        assert(b != j);
                    }
                }
            }
            j = j + 1;
        }
        i = i + 1;
    }
    proof {
        assert forall|r: int, c: int| 0 <= r < n && 0 <= c < n implies #[trigger] grid(
            matrix,
        )[r][c] == (if in_alignment_pattern(v, r, c) {
            alignment_value(v, r, c)
        } else {
            start[r][c]
        }) by {
            if in_alignment_pattern(v, r, c) {
                let (a, b) = choose|a: int, b: int| #[trigger] covered_by(v, a, b, r, c);
                lemma_alignment_value(v, a, b, r, c);
            }
        }
    }
}

/// Sets the dark module beside the lower left finder pattern.
pub fn add_dark_module(matrix: &mut Vec<Vec<u8>>, version: Version)
    requires
        is_symbol(grid(old(matrix)), version),
    ensures
        is_symbol(grid(final(matrix)), version),
        forall|r: int, c: int|
            0 <= r < version.side() && 0 <= c < version.side() ==> #[trigger] grid(
                final(matrix),
            )[r][c] == (if r == version.side() - 8 && c == 8 {
                1
            } else {
                grid(old(matrix))[r][c]
            }),
{
    let number: usize = version.to_u8() as usize;
    paint_module(matrix, 4 * number + 9, 8, 1);
}

/// The bit of index `index` of a word, as a module.
pub fn bit_of_word(word: u32, index: usize) -> (bit: u8)
    requires
        index < 32,
    ensures
        bit == word_bit(word, index as int),
        bit <= 1,
{
    let bit: u32 = (word >> (index as u32)) & 1;
    assert(bit <= 1) by (bit_vector)
        requires
            bit == (word >> (index as u32)) & 1,
    ;
    bit as u8
}

/// Writes both copies of the fifteen format bits.
pub fn add_format_info(
    matrix: &mut Vec<Vec<u8>>,
    error_correction: ErrorCorrection,
    mask_pattern: MaskPattern,
)
    requires
        is_square(grid(old(matrix)), old(matrix).len() as int),
        old(matrix).len() >= 21,
    ensures
        final(matrix).len() == old(matrix).len(),
        is_square(grid(final(matrix)), old(matrix).len() as int),
        forall|r: int, c: int|
            0 <= r < old(matrix).len() && 0 <= c < old(matrix).len() ==> #[trigger] grid(
                final(matrix),
            )[r][c] == (if format_bit_index(old(matrix).len() as int, r, c) >= 0 {
                word_bit(
                    format_bits(error_correction, mask_pattern) as u32,
                    format_bit_index(old(matrix).len() as int, r, c),
                )
            } else {
                grid(old(matrix))[r][c]
            }),
{
    let format_info: u32 = get_format_info(error_correction, mask_pattern) as u32;
    let size: usize = matrix.len();
    let ghost start = grid(matrix);
    let mut i: usize = 0;
    while i < 15
        invariant
            i <= 15,
            size >= 21,
            matrix.len() == size,
            format_info == format_bits(error_correction, mask_pattern) as u32,
            is_square(grid(matrix), size as int),
            forall|r: int, c: int|
                0 <= r < size && 0 <= c < size ==> #[trigger] grid(matrix)[r][c] == (if 0
                    <= format_bit_index(size as int, r, c) < i {
                    word_bit(format_info, format_bit_index(size as int, r, c))
                } else {
                    start[r][c]
                }),
        decreases 15 - i,
    {
        let bit: u8 = bit_of_word(format_info, i);
        let first: (usize, usize) = if i <= 5 {
            (i, 8)
        } else if i == 6 {
            (7, 8)
        } else if i == 7 {
            (8, 8)
        } else if i == 8 {
            (8, 7)
        } else {
            (8, 14 - i)
        };
        let second: (usize, usize) = if i <= 7 {
            (8, size - 1 - i)
        } else {
            (size - 15 + i, 8)
        };
        paint_module(matrix, first.0, first.1, bit);
        paint_module(matrix, second.0, second.1, bit);
        i = i + 1;
    }
}

/// Writes both copies of the eighteen version bits. Versions below 7 carry none.
pub fn add_version_info(matrix: &mut Vec<Vec<u8>>, version: Version)
    requires
        is_symbol(grid(old(matrix)), version),
    ensures
        is_symbol(grid(final(matrix)), version),
        forall|r: int, c: int|
            0 <= r < version.side() && 0 <= c < version.side() ==> #[trigger] grid(
                final(matrix),
            )[r][c] == (if version_bit_index(version.number(), r, c) >= 0 {
                word_bit(version_bits(version.number()), version_bit_index(version.number(), r, c))
            } else {
                grid(old(matrix))[r][c]
            }),
{
    let version_info: u32 = match get_version_info(version) {
        Some(bits) => bits,
        None => {
            return ;
        },
    };
    let size: usize = matrix.len();
    let ghost start = grid(matrix);
    let ghost v = version.number();
    proof {
        version.lemma_number_range();
    }
    let mut i: usize = 0;
    while i < 18
        invariant
            i <= 18,
            7 <= v <= 40,
            v == version.number(),
            size == version.side(),
            matrix.len() == size,
            version_info == version_bits(v),
            is_square(grid(matrix), size as int),
            forall|r: int, c: int|
                0 <= r < size && 0 <= c < size ==> #[trigger] grid(matrix)[r][c] == (if 0
                    <= version_bit_index(v, r, c) < i {
                    word_bit(version_info, version_bit_index(v, r, c))
                } else {
                    start[r][c]
                }),
        decreases 18 - i,
    {
        let bit: u8 = bit_of_word(version_info, i);
        paint_module(matrix, i / 3, size - 11 + i % 3, bit);
        paint_module(matrix, size - 11 + i % 3, i / 3, bit);
        i = i + 1;
    }
}

/// The bit that the data module at row `r` and column `c` carries: the bit of the
/// stream at the module's place in the sweep, and 0 beyond the end of the stream.
pub open spec fn data_bit_at(v: int, stream: Seq<u8>, r: int, c: int) -> u8 {
    let i = data_positions(v).index_of((r, c));
    if i < stream.len() {
        stream[i]
    } else {
        0
    }
}

/// A place in a sequence without duplicates is the index of what stands there.
pub proof fn lemma_index_of<A>(s: Seq<A>, i: int)
    requires
        s.no_duplicates(),
        0 <= i < s.len(),
    ensures
        s.index_of(s[i]) == i,
{
    s.index_of_first_ensures(s[i]);
    assert(s.contains(s[i]));
    let j = s.index_of(s[i]);
    assert(0 <= j < s.len() && s[j] == s[i]);
}

/// Places the bits of the stream on the data modules in the order of the sweep.
/// Modules beyond the end of the stream are made light.
pub fn place_data_bits(matrix: &mut Vec<Vec<u8>>, stream: &[u8], version: Version)
    requires
        is_symbol(grid(old(matrix)), version),
    ensures
        is_symbol(grid(final(matrix)), version),
        forall|r: int, c: int|
            0 <= r < version.side() && 0 <= c < version.side() ==> #[trigger] grid(
                final(matrix),
            )[r][c] == (if is_function_module_at(version.number(), r, c) {
                grid(old(matrix))[r][c]
            } else {
                data_bit_at(version.number(), stream@, r, c)
            }),
{
    let positions = get_data_ecc_positions(version);
    let ghost v = version.number();
    let ghost n = version.side();
    let ghost cells = data_positions(v);
    let ghost start = grid(matrix);
    proof {
        version.lemma_number_range();
        lemma_sweep_coverage(version);
        assert(places(positions@).len() == positions.len());
    }
    let mut i: usize = 0;
    while i < positions.len()
        invariant
            i <= positions.len(),
            v == version.number(),
            n == version.side(),
            cells == data_positions(v),
            places(positions@) == cells,
            cells.no_duplicates(),
            forall|q: int|
                0 <= q < cells.len() ==> {
                    let cell = #[trigger] cells[q];
                    &&& 0 <= cell.0 < n
                    &&& 0 <= cell.1 < n
                    &&& !is_function_module_at(v, cell.0, cell.1)
                },
            matrix.len() == n,
            is_square(grid(matrix), n),
            forall|r: int, c: int|
                0 <= r < n && 0 <= c < n ==> #[trigger] grid(matrix)[r][c] == (if cells.contains(
                    (r, c),
                ) && cells.index_of((r, c)) < i {
                    data_bit_at(v, stream@, r, c)
                } else {
                    start[r][c]
                }),
        decreases positions.len() - i,
    {
        let cell: (usize, usize) = positions[i];
        let bit: u8 = if i < stream.len() {
            stream[i]
        } else {
            0
        };
        proof {
            assert(cells[i as int] == (cell.0 as int, cell.1 as int)) by {
                assert(places(positions@)[i as int] == (cell.0 as int, cell.1 as int));
            }
            lemma_index_of(cells, i as int);
            assert(cells.contains(cells[i as int]));
        }
        let ghost before = grid(matrix);
        paint_module(matrix, cell.0, cell.1, bit);
        proof {
            assert forall|r: int, c: int| 0 <= r < n && 0 <= c < n implies #[trigger] grid(
                matrix,
            )[r][c] == (if cells.contains((r, c)) && cells.index_of((r, c)) < i + 1 {
                data_bit_at(v, stream@, r, c)
            } else {
                start[r][c]
            }) by {
                if cells.contains((r, c)) {
                    cells.index_of_first_ensures((r, c));
                    let q = cells.index_of((r, c));
                    if q == i {
                        assert(cells[q] == cells[i as int]);
                    } else {
                        assert(cells[q] != cells[i as int]);
                    }
                }
            }
        }
        i = i + 1;
    }
    proof {
        assert forall|r: int, c: int| 0 <= r < n && 0 <= c < n implies #[trigger] grid(
            matrix,
        )[r][c] == (if is_function_module_at(v, r, c) {
            start[r][c]
        } else {
            data_bit_at(v, stream@, r, c)
        }) by {
            if cells.contains((r, c)) {
                cells.index_of_first_ensures((r, c));
            }
        }
    }
}

/// The module at row `r` and column `c` of the symbol that carries `stream`: a
/// function module has its fixed value, a data module the bit that the sweep
/// brings there, toggled where the mask says so unless masking is skipped.
pub open spec fn symbol_module(
    version: Version,
    ec: ErrorCorrection,
    mask: MaskPattern,
    skip_mask: bool,
    stream: Seq<u8>,
    r: int,
    c: int,
) -> u8 {
    let v = version.number();
    if is_function_module_at(v, r, c) {
        function_value(v, ec, mask, r, c)
    } else if !skip_mask && mask_bit(mask, r, c) {
        toggled(data_bit_at(v, stream, r, c))
    } else {
        data_bit_at(v, stream, r, c)
    }
}

/// The symbol of the given version, level and mask that carries `stream`.
pub open spec fn symbol(
    version: Version,
    ec: ErrorCorrection,
    mask: MaskPattern,
    skip_mask: bool,
    stream: Seq<u8>,
) -> Seq<Seq<u8>> {
    Seq::new(
        version.side() as nat,
        |r: int|
            Seq::new(
                version.side() as nat,
                |c: int| symbol_module(version, ec, mask, skip_mask, stream, r, c),
            ),
    )
}

/// The bits of a symbol in the order of placement: the interleaved data codewords,
/// then the interleaved parity codewords.
pub open spec fn placed_stream(v: int, ec: ErrorCorrection, data_bits: Seq<u8>) -> Seq<u8> {
    data_stream_bits(v, ec, data_bits) + ecc_stream_bits(v, ec, data_bits)
}

/// The number of the first version from `from` on that holds `len` characters, and
/// 41 if none does.
pub open spec fn first_fit(ec: ErrorCorrection, mode: DataMode, len: int, from: int) -> int
    decreases 41 - from,
{
    if from > 40 {
        41
    } else if len <= data_capacity(from, ec, mode) {
        from
    } else {
        first_fit(ec, mode, len, from + 1)
    }
}

/// The smallest version that holds `len` characters, if there is one.
pub open spec fn smallest_version(ec: ErrorCorrection, mode: DataMode, len: int) -> Option<
    Version,
> {
    Version::of_number(first_fit(ec, mode, len, 1))
}

/// The symbol that a text is encoded into, for a text that the mode can express and
/// that some version holds.
pub open spec fn encoded_symbol(
    text: Seq<u8>,
    ec: ErrorCorrection,
    mode: DataMode,
    mask: MaskPattern,
    skip_mask: bool,
) -> Seq<Seq<u8>> {
    let version = smallest_version(ec, mode, text.len() as int).unwrap();
    let v = version.number();
    symbol(
        version,
        ec,
        mask,
        skip_mask,
        placed_stream(v, ec, data_bit_stream(v, ec, mode, text)),
    )
}

/// The first fit is a version that holds the text, and no smaller one does.
pub proof fn lemma_first_fit(ec: ErrorCorrection, mode: DataMode, len: int, from: int)
    requires
        1 <= from <= 41,
    ensures
        from <= first_fit(ec, mode, len, from) <= 41,
        first_fit(ec, mode, len, from) <= 40 ==> len <= data_capacity(
            first_fit(ec, mode, len, from),
            ec,
            mode,
        ),
        forall|v: int|
            from <= v < first_fit(ec, mode, len, from) ==> len > #[trigger] data_capacity(
                v,
                ec,
                mode,
            ),
    decreases 41 - from,
{
    if from <= 40 && len > data_capacity(from, ec, mode) {
        lemma_first_fit(ec, mode, len, from + 1);
    }
}

/// A text fits a symbol exactly when it has no more characters than the capacity
/// for its mode.
pub proof fn lemma_capacity_fits(v: int, ec: ErrorCorrection, mode: DataMode, len: int)
    requires
        1 <= v <= 40,
        0 <= len,
    ensures
        len <= data_capacity(v, ec, mode) <==> fits(v, ec, mode, len),
{
    lemma_table_bounds(v, ec);
}

/// Draws the symbol of the given version, level and mask that carries `stream`:
/// the function patterns, the bits of the stream on the data modules, the mask over
/// them unless it is skipped, and the format and version information.
pub fn build_symbol(
    stream: &[u8],
    version: Version,
    error_correction: ErrorCorrection,
    mask_pattern: MaskPattern,
    skip_mask: bool,
) -> (matrix: Vec<Vec<u8>>)
    ensures
        grid(&matrix) == symbol(version, error_correction, mask_pattern, skip_mask, stream@),
{
    let ghost v = version.number();
    proof {
        version.lemma_number_range();
    }
    let size: usize = version.size();
    let mut matrix = new_matrix(size);
    add_position_pattern(&mut matrix, 0, 0);
    add_position_pattern(&mut matrix, size - 7, 0);
    add_position_pattern(&mut matrix, 0, size - 7);
    add_timing_patterns(&mut matrix, size);
    add_alignment_patterns(&mut matrix, version);
    add_dark_module(&mut matrix, version);
    place_data_bits(&mut matrix, stream, version);
    let ghost placed = grid(&matrix);
    if !skip_mask {
        apply_mask(&mut matrix, mask_pattern);
    }
    let ghost after_mask = grid(&matrix);
    proof {
        assert(is_square(after_mask, size as int));
        assert forall|r: int, c: int| 0 <= r < size && 0 <= c < size implies after_mask[r][c] == (
        if !is_function_module_at(v, r, c) && !skip_mask && mask_bit(mask_pattern, r, c) {
            toggled(placed[r][c])
        } else {
            placed[r][c]
        }) by {
            assert(placed[r].len() == size);
        }
    }
    add_format_info(&mut matrix, error_correction, mask_pattern);
    add_version_info(&mut matrix, version);
    proof {
        let target = symbol(version, error_correction, mask_pattern, skip_mask, stream@);
        assert forall|r: int, c: int| 0 <= r < size && 0 <= c < size implies grid(&matrix)[r][c]
            == target[r][c] by {
            lemma_function_parts(v, r, c);
        }
        lemma_grids_equal(grid(&matrix), target, size as int);
    }
    matrix
}

/// The smallest version that holds the text at the given level in the given mode,
/// or `None` if not even version 40 does.
pub fn calculate_version(
    data: &str,
    error_correction: ErrorCorrection,
    data_mode: DataMode,
) -> (version: Option<Version>)
    ensures
        version == smallest_version(error_correction, data_mode, data.spec_bytes().len() as int),
{
    let length: usize = data.as_bytes().len();
    let mut number: u8 = 1;
    while number <= 40
        invariant
            1 <= number <= 41,
            length == data.spec_bytes().len(),
            first_fit(error_correction, data_mode, length as int, 1) == first_fit(
                error_correction,
                data_mode,
                length as int,
                number as int,
            ),
        decreases 41 - number,
    {
        proof {
            Version::lemma_of_number(number as int);
        }
        let version = match Version::from_u8(number) {
            Some(version) => version,
            None => {
                return None;
            },
        };
        let capacity: usize = get_data_capacity(version, error_correction, data_mode);
        if length <= capacity {
            return Some(version);
        }
        number = number + 1;
    }
    proof {
        Version::lemma_of_number(41);
    }
    None
}

/// The smallest version that holds a text at the given level in the given mode, and
/// the bits that its symbol carries in the order of placement.
pub fn encode_stream(data: &str, error_correction: ErrorCorrection, mode: DataMode) -> (result:
    Result<(Version, Vec<u8>), EncodeError>)
    ensures
        match result {
            Ok((version, stream)) => {
                &&& valid_for_mode(mode, data.spec_bytes())
                &&& smallest_version(error_correction, mode, data.spec_bytes().len() as int)
                    == Some(version)
                &&& stream@ == placed_stream(
                    version.number(),
                    error_correction,
                    data_bit_stream(version.number(), error_correction, mode, data.spec_bytes()),
                )
            },
            Err(EncodeError::InvalidCharacter) => !valid_for_mode(mode, data.spec_bytes()),
            Err(EncodeError::CapacityExceeded) => valid_for_mode(mode, data.spec_bytes())
                && smallest_version(error_correction, mode, data.spec_bytes().len() as int) is None,
        },
{
    let ghost text = data.spec_bytes();
    if !crate::encoding::is_valid_text(data.as_bytes(), mode) {
        return Err(EncodeError::InvalidCharacter);
    }
    let version = match calculate_version(data, error_correction, mode) {
        Some(version) => version,
        None => {
            return Err(EncodeError::CapacityExceeded);
        },
    };
    let ghost v = version.number();
    proof {
        version.lemma_number_range();
        lemma_first_fit(error_correction, mode, text.len() as int, 1);
        Version::lemma_of_number(first_fit(error_correction, mode, text.len() as int, 1));
        lemma_capacity_fits(v, error_correction, mode, text.len() as int);
    }
    let encoded = match encode_data(data, version, error_correction, mode) {
        Ok(encoded) => encoded,
        Err(error) => {
            return Err(error);
        },
    };
    proof {
        lemma_table_bounds(v, error_correction);
        lemma_message(v, mode, text);
        lemma_padded(message(v, mode, text), 8 * data_codewords(v, error_correction));
    }
    let mut stream = interleave_data_bits(encoded.data_bits.as_slice(), version, error_correction);
    let mut ecc_bits = encoded.ecc_bits;
    stream.append(&mut ecc_bits);
    Ok((version, stream))
}

/// Encodes a text into a symbol of the smallest version that holds it, at the level,
/// in the mode and with the mask that the configuration names.
pub fn generate_qr_matrix(data: &str, config: &QrConfig) -> (result: Result<
    Vec<Vec<u8>>,
    EncodeError,
>)
    ensures
        match result {
            Ok(matrix) => {
                &&& valid_for_mode(config.data_mode, data.spec_bytes())
                &&& smallest_version(
                    config.error_correction,
                    config.data_mode,
                    data.spec_bytes().len() as int,
                ) is Some
                &&& grid(&matrix) == encoded_symbol(
                    data.spec_bytes(),
                    config.error_correction,
                    config.data_mode,
                    config.mask_pattern,
                    config.skip_mask,
                )
            },
            Err(EncodeError::InvalidCharacter) => !valid_for_mode(
                config.data_mode,
                data.spec_bytes(),
            ),
            Err(EncodeError::CapacityExceeded) => valid_for_mode(
                config.data_mode,
                data.spec_bytes(),
            ) && smallest_version(
                config.error_correction,
                config.data_mode,
                data.spec_bytes().len() as int,
            ) is None,
        },
{
    match encode_stream(data, config.error_correction, config.data_mode) {
        Ok((version, stream)) => Ok(
            build_symbol(
                stream.as_slice(),
                version,
                config.error_correction,
                config.mask_pattern,
                config.skip_mask,
            ),
        ),
        Err(error) => Err(error),
    }
}

} // verus!
