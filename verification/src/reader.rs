use vstd::prelude::*;
use crate::alignment::alignment_module;
use crate::bits::is_bits;
use crate::mask::{apply_mask_to_bit, mask_bit, toggled};
use crate::matrix::{get_module, grid, is_square, is_symbol};
use crate::patterns::{
    finder_module, format_place_first, format_place_second, timing_module,
};
use crate::pixel_mapping::{data_positions, get_data_ecc_positions, places};
use crate::types::{MaskPattern, Version};

verus! {

/// The bit that a module stands for: 0 for a light module, 1 for any other.
pub open spec fn module_bit(module: u8) -> u8 {
    if module == 0 {
        0
    } else {
        1
    }
}

/// The word whose bit of index `i`, for `i` below `width`, is `bit(i)`.
pub open spec fn word_of(bit: spec_fn(int) -> u8, width: nat) -> u32
    decreases width,
{
    if width == 0 {
        0
    } else {
        word_of(bit, (width - 1) as nat) | ((bit(width - 1) as u32) << ((width - 1) as u32))
    }
}

/// The place of version bit `i` in the upper right block.
pub open spec fn version_place_first(n: int, i: int) -> (int, int) {
    (i / 3, n - 11 + i % 3)
}

/// The place of version bit `i` in the lower left block.
pub open spec fn version_place_second(n: int, i: int) -> (int, int) {
    (n - 11 + i % 3, i / 3)
}

/// The format bits as they stand around the upper left finder pattern.
pub open spec fn format_reading_first(g: Seq<Seq<u8>>) -> u32 {
    word_of(
        |i: int| module_bit(g[format_place_first(i).0][format_place_first(i).1]),
        15,
    )
}

/// The format bits as they stand beside the other two finder patterns.
pub open spec fn format_reading_second(g: Seq<Seq<u8>>) -> u32 {
    word_of(
        |i: int|
            module_bit(
                g[format_place_second(g.len() as int, i).0][format_place_second(
                    g.len() as int,
                    i,
                ).1],
            ),
        15,
    )
}

/// The version bits as they stand in the upper right block.
pub open spec fn version_reading_first(g: Seq<Seq<u8>>) -> u32 {
    word_of(
        |i: int|
            module_bit(
                g[version_place_first(g.len() as int, i).0][version_place_first(
                    g.len() as int,
                    i,
                ).1],
            ),
        18,
    )
}

/// The version bits as they stand in the lower left block.
pub open spec fn version_reading_second(g: Seq<Seq<u8>>) -> u32 {
    word_of(
        |i: int|
            module_bit(
                g[version_place_second(g.len() as int, i).0][version_place_second(
                    g.len() as int,
                    i,
                ).1],
            ),
        18,
    )
}

/// The bits of the data modules in the order of the sweep.
pub open spec fn raw_bits(version: Version, g: Seq<Seq<u8>>) -> Seq<u8> {
    Seq::new(
        data_positions(version.number()).len(),
        |i: int|
            module_bit(
                g[data_positions(version.number())[i].0][data_positions(version.number())[i].1],
            ),
    )
}

/// Bits in the order of the sweep with the mask taken off.
pub open spec fn unmasked_bits(version: Version, mask: MaskPattern, bits: Seq<u8>) -> Seq<u8> {
    Seq::new(
        bits.len(),
        |i: int|
            if mask_bit(
                mask,
                data_positions(version.number())[i].0,
                data_positions(version.number())[i].1,
            ) {
                toggled(bits[i])
            } else {
                bits[i]
            },
    )
}

/// Whether the seven by seven modules from row `y` and column `x` on form a finder
/// pattern.
pub open spec fn finder_found(g: Seq<Seq<u8>>, x: int, y: int) -> bool {
    forall|dr: int, dc: int|
        0 <= dr < 7 && 0 <= dc < 7 ==> g[y + dr][x + dc] == #[trigger] finder_module(dr, dc)
}

/// Whether the modules of the two timing lines at place `i` are as they should be.
pub open spec fn timing_at(g: Seq<Seq<u8>>, i: int) -> bool {
    g[6][i] == timing_module(6, i) && g[i][6] == timing_module(i, 6)
}

/// Whether both timing lines alternate as they should.
pub open spec fn timing_found(g: Seq<Seq<u8>>) -> bool {
    forall|i: int| 8 <= i < g.len() - 8 ==> #[trigger] timing_at(g, i)
}

/// Whether the five by five modules around row `cy` and column `cx` form an
/// alignment pattern.
pub open spec fn alignment_found(g: Seq<Seq<u8>>, cx: int, cy: int) -> bool {
    forall|r: int, c: int|
        cy - 2 <= r <= cy + 2 && cx - 2 <= c <= cx + 2 ==> g[r][c] == #[trigger] alignment_module(
            cy,
            cx,
            r,
            c,
        )
}

/// The bit that a module stands for.
pub fn read_bit(matrix: &Vec<Vec<u8>>, row: usize, col: usize) -> (bit: u8)
    requires
        row < matrix.len(),
        col < matrix[row as int].len(),
    ensures
        bit == module_bit(grid(matrix)[row as int][col as int]),
        bit <= 1,
{
    if get_module(matrix, row, col) == 0 {
        0
    } else {
        1
    }
}

/// Both copies of the fifteen format bits, as they stand in the symbol.
pub fn read_format_info(matrix: &Vec<Vec<u8>>) -> (words: (u16, u16))
    requires
        is_square(grid(matrix), matrix.len() as int),
        matrix.len() >= 21,
    ensures
        words.0 == format_reading_first(grid(matrix)),
        words.1 == format_reading_second(grid(matrix)),
        words.0 < 0x8000,
        words.1 < 0x8000,
{
    let size: usize = matrix.len();
    let ghost g = grid(matrix);
    let ghost first_bit = |i: int| module_bit(g[format_place_first(i).0][format_place_first(i).1]);
    let ghost second_bit = |i: int|
        module_bit(
            g[format_place_second(g.len() as int, i).0][format_place_second(g.len() as int, i).1],
        );
    let mut first: u32 = 0;
    let mut second: u32 = 0;
    let mut i: usize = 0;
    proof {
        lemma_empty_word();
    }
    while i < 15
        invariant
            i <= 15,
            size == matrix.len(),
            size >= 21,
            g == grid(matrix),
            is_square(g, size as int),
            first_bit == |i: int| module_bit(g[format_place_first(i).0][format_place_first(i).1]),
            second_bit == |i: int|
                module_bit(
                    g[format_place_second(g.len() as int, i).0][format_place_second(
                        g.len() as int,
                        i,
                    ).1],
                ),
            first == word_of(first_bit, i as nat),
            second == word_of(second_bit, i as nat),
            first < (1u32 << (i as u32)),
            second < (1u32 << (i as u32)),
        decreases 15 - i,
    {
        let place_a: (usize, usize) = if i <= 5 {
            (i, 8)
        } else if i == 6 {
            (7, 8)
        } else if i == 7 {
            (8, 8)
        } else if i == 8 {
            (8, 7)
        } else {
            (8, 14 - i)
        };
        let place_b: (usize, usize) = if i <= 7 {
            (8, size - 1 - i)
        } else {
            (size - 15 + i, 8)
        };
        assert(g[place_a.0 as int].len() == size && g[place_b.0 as int].len() == size);
        let bit_a: u32 = read_bit(matrix, place_a.0, place_a.1) as u32;
        let bit_b: u32 = read_bit(matrix, place_b.0, place_b.1) as u32;
        let shift: u32 = i as u32;
        proof {
            lemma_append_bit(first, bit_a, shift);
            lemma_append_bit(second, bit_b, shift);
        }
        first = first | (bit_a << shift);
        second = second | (bit_b << shift);
        i = i + 1;
    }
    proof {
        lemma_fifteen_bits(first);
        lemma_fifteen_bits(second);
    }
    (first as u16, second as u16)
}

/// Setting the next bit of a word keeps it within one more bit.
proof fn lemma_append_bit(word: u32, bit: u32, shift: u32)
    by (bit_vector)
    requires
        shift < 31,
        bit <= 1,
        word < (1u32 << shift),
    ensures
        word | (bit << shift) < (1u32 << ((shift + 1) as u32)),
{
}

/// The empty word fits no bits.
proof fn lemma_empty_word()
    by (bit_vector)
    ensures
        0u32 < (1u32 << 0u32),
{
}

/// A word within fifteen bits is below 0x8000.
proof fn lemma_fifteen_bits(word: u32)
    by (bit_vector)
    requires
        word < (1u32 << 15u32),
    ensures
        word < 0x8000,
{
}

/// A word within eighteen bits is below 0x40000.
proof fn lemma_eighteen_bits(word: u32)
    by (bit_vector)
    requires
        word < (1u32 << 18u32),
    ensures
        word < 0x40000,
{
}

/// Both copies of the eighteen version bits, as they stand in the symbol.
pub fn read_version_info(matrix: &Vec<Vec<u8>>) -> (words: (u32, u32))
    requires
        is_square(grid(matrix), matrix.len() as int),
        matrix.len() >= 21,
    ensures
        words.0 == version_reading_first(grid(matrix)),
        words.1 == version_reading_second(grid(matrix)),
        words.0 < 0x40000,
        words.1 < 0x40000,
{
    let size: usize = matrix.len();
    let ghost g = grid(matrix);
    let ghost first_bit = |i: int|
        module_bit(
            g[version_place_first(g.len() as int, i).0][version_place_first(g.len() as int, i).1],
        );
    let ghost second_bit = |i: int|
        module_bit(
            g[version_place_second(g.len() as int, i).0][version_place_second(
                g.len() as int,
                i,
            ).1],
        );
    let mut first: u32 = 0;
    let mut second: u32 = 0;
    let mut i: usize = 0;
    proof {
        lemma_empty_word();
    }
    while i < 18
        invariant
            i <= 18,
            size == matrix.len(),
            size >= 21,
            g == grid(matrix),
            is_square(g, size as int),
            first_bit == |i: int|
                module_bit(
                    g[version_place_first(g.len() as int, i).0][version_place_first(
                        g.len() as int,
                        i,
                    ).1],
                ),
            second_bit == |i: int|
                module_bit(
                    g[version_place_second(g.len() as int, i).0][version_place_second(
                        g.len() as int,
                        i,
                    ).1],
                ),
            first == word_of(first_bit, i as nat),
            second == word_of(second_bit, i as nat),
            first < (1u32 << (i as u32)),
            second < (1u32 << (i as u32)),
        decreases 18 - i,
    {
        let row: usize = i / 3;
        let col: usize = size - 11 + i % 3;
        assert(g[row as int].len() == size && g[col as int].len() == size);
        let bit_a: u32 = read_bit(matrix, row, col) as u32;
        let bit_b: u32 = read_bit(matrix, col, row) as u32;
        let shift: u32 = i as u32;
        proof {
            lemma_append_bit(first, bit_a, shift);
            lemma_append_bit(second, bit_b, shift);
        }
        first = first | (bit_a << shift);
        second = second | (bit_b << shift);
        i = i + 1;
    }
    proof {
        lemma_eighteen_bits(first);
        lemma_eighteen_bits(second);
    }
    (first, second)
}

/// The bits of the data modules in the order of the serpentine sweep.
pub fn read_data_bits(matrix: &Vec<Vec<u8>>, version: Version) -> (bits: Vec<u8>)
    requires
        is_symbol(grid(matrix), version),
    ensures
        bits@ == raw_bits(version, grid(matrix)),
        is_bits(bits@),
{
    let positions = get_data_ecc_positions(version);
    let ghost cells = data_positions(version.number());
    let ghost g = grid(matrix);
    proof {
        crate::pixel_mapping::lemma_sweep_coverage(version);
        assert(places(positions@).len() == positions.len());
    }
    let mut bits: Vec<u8> = Vec::new();
    let mut i: usize = 0;
    while i < positions.len()
        invariant
            i <= positions.len(),
            cells == data_positions(version.number()),
            places(positions@) == cells,
            g == grid(matrix),
            is_symbol(g, version),
            forall|q: int|
                0 <= q < cells.len() ==> {
                    let cell = #[trigger] cells[q];
                    &&& 0 <= cell.0 < version.side()
                    &&& 0 <= cell.1 < version.side()
                },
            bits.len() == i,
            forall|q: int| 0 <= q < i ==> bits@[q] == raw_bits(version, g)[q],
            forall|q: int| 0 <= q < i ==> (#[trigger] bits@[q]) <= 1,
        decreases positions.len() - i,
    {
        let cell: (usize, usize) = positions[i];
        proof {
            assert(places(positions@)[i as int] == (cell.0 as int, cell.1 as int));
            assert(cells[i as int] == (cell.0 as int, cell.1 as int));
            assert(g[cell.0 as int].len() == version.side());
        }
        bits.push(read_bit(matrix, cell.0, cell.1));
        i = i + 1;
    }
    assert(bits@ =~= raw_bits(version, g));
    bits
}

/// Takes the mask off bits that were read in the order of the sweep.
pub fn apply_mask_to_bits(bits: &[u8], mask: MaskPattern, version: Version) -> (out: Vec<u8>)
    requires
        bits.len() <= data_positions(version.number()).len(),
        is_bits(bits@),
    ensures
        out@ == unmasked_bits(version, mask, bits@),
        is_bits(out@),
{
    let positions = get_data_ecc_positions(version);
    let ghost cells = data_positions(version.number());
    proof {
        crate::pixel_mapping::lemma_sweep_coverage(version);
        assert(places(positions@).len() == positions.len());
    }
    let mut out: Vec<u8> = Vec::new();
    let mut i: usize = 0;
    while i < bits.len()
        invariant
            i <= bits.len() <= positions.len(),
            cells == data_positions(version.number()),
            places(positions@) == cells,
            is_bits(bits@),
            forall|q: int|
                0 <= q < cells.len() ==> {
                    let cell = #[trigger] cells[q];
                    &&& 0 <= cell.0 < version.side()
                    &&& 0 <= cell.1 < version.side()
                },
            out.len() == i,
            forall|q: int| 0 <= q < i ==> out@[q] == unmasked_bits(version, mask, bits@)[q],
            forall|q: int| 0 <= q < i ==> (#[trigger] out@[q]) <= 1,
        decreases bits.len() - i,
    {
        let cell: (usize, usize) = positions[i];
        proof {
            assert(places(positions@)[i as int] == (cell.0 as int, cell.1 as int));
            assert(cells[i as int] == (cell.0 as int, cell.1 as int));
            assert(bits@[i as int] <= 1);
            crate::mask::lemma_toggled(bits@[i as int]);
        }
        out.push(apply_mask_to_bit(bits[i], cell.0, cell.1, mask));
        i = i + 1;
    }
    assert(out@ =~= unmasked_bits(version, mask, bits@));
    out
}

/// Whether the seven by seven modules from column `start_x` and row `start_y` on
/// form a finder pattern.
pub fn check_finder_pattern(matrix: &Vec<Vec<u8>>, start_x: usize, start_y: usize) -> (found: bool)
    requires
        is_square(grid(matrix), matrix.len() as int),
        start_x + 7 <= matrix.len(),
        start_y + 7 <= matrix.len(),
    ensures
        found == finder_found(grid(matrix), start_x as int, start_y as int),
{
    let ghost g = grid(matrix);
    let mut y: usize = 0;
    while y < 7
        invariant
            y <= 7,
            g == grid(matrix),
            is_square(g, matrix.len() as int),
            start_x + 7 <= matrix.len(),
            start_y + 7 <= matrix.len(),
            forall|dr: int, dc: int|
                0 <= dr < y && 0 <= dc < 7 ==> g[start_y + dr][start_x + dc]
                    == #[trigger] finder_module(dr, dc),
        decreases 7 - y,
    {
        let mut x: usize = 0;
        while x < 7
            invariant
                y < 7,
                x <= 7,
                g == grid(matrix),
                is_square(g, matrix.len() as int),
                start_x + 7 <= matrix.len(),
                start_y + 7 <= matrix.len(),
                forall|dr: int, dc: int|
                    0 <= dr < y && 0 <= dc < 7 ==> g[start_y + dr][start_x + dc]
                        == #[trigger] finder_module(dr, dc),
                forall|dc: int|
                    0 <= dc < x ==> g[start_y + y][start_x + dc] == #[trigger] finder_module(
                        y as int,
                        dc,
                    ),
            decreases 7 - x,
        {
            let expected: u8 = if y == 0 || y == 6 || x == 0 || x == 6 || (2 <= y && y <= 4 && 2
                <= x && x <= 4) {
                1
            } else {
                0
            };
            assert(g[start_y + y].len() == matrix.len());
            if get_module(matrix, start_y + y, start_x + x) != expected {
                assert(g[start_y + y][start_x + x] != finder_module(y as int, x as int));
                return false;
            }
            x = x + 1;
        }
        y = y + 1;
    }
    true
}

/// Whether the three finder patterns are found: upper left, upper right, lower left.
pub fn analyze_finder_patterns(matrix: &Vec<Vec<u8>>) -> (found: (bool, bool, bool))
    requires
        is_square(grid(matrix), matrix.len() as int),
        matrix.len() >= 21,
    ensures
        found.0 == finder_found(grid(matrix), 0, 0),
        found.1 == finder_found(grid(matrix), matrix.len() - 7, 0),
        found.2 == finder_found(grid(matrix), 0, matrix.len() - 7),
{
    let size: usize = matrix.len();
    (
        check_finder_pattern(matrix, 0, 0),
        check_finder_pattern(matrix, size - 7, 0),
        check_finder_pattern(matrix, 0, size - 7),
    )
}

/// Whether both timing lines alternate as they should.
pub fn analyze_timing_patterns(matrix: &Vec<Vec<u8>>) -> (valid: bool)
    requires
        is_square(grid(matrix), matrix.len() as int),
        matrix.len() >= 21,
    ensures
        valid == timing_found(grid(matrix)),
{
    let size: usize = matrix.len();
    let ghost g = grid(matrix);
    let mut i: usize = 8;
    while i < size - 8
        invariant
            8 <= i <= size - 8,
            size == matrix.len(),
            g == grid(matrix),
            is_square(g, size as int),
            forall|q: int| 8 <= q < i ==> #[trigger] timing_at(g, q),
        decreases size - i,
    {
        let expected: u8 = ((i + 1) % 2) as u8;
        assert(g[6].len() == size && g[i as int].len() == size);
        if get_module(matrix, 6, i) != expected || get_module(matrix, i, 6) != expected {
            assert(!timing_at(g, i as int));
            return false;
        }
        i = i + 1;
    }
    true
}

/// Whether the dark module beside the lower left finder pattern is dark; with it
/// the place of that module as `(row, column)`.
pub fn analyze_dark_module(matrix: &Vec<Vec<u8>>) -> (found: (bool, (usize, usize)))
    requires
        is_square(grid(matrix), matrix.len() as int),
        matrix.len() >= 21,
    ensures
        found.0 == (grid(matrix)[matrix.len() - 8][8] == 1),
        found.1 == (((matrix.len() - 8) as usize, 8usize)),
{
    let size: usize = matrix.len();
    let row: usize = size - 8;
    assert(grid(matrix)[row as int].len() == size);
    (get_module(matrix, row, 8) == 1, (row, 8))
}

/// Whether the five by five modules around column `center_x` and row `center_y`
/// form an alignment pattern.
pub fn check_alignment_pattern(matrix: &Vec<Vec<u8>>, center_x: usize, center_y: usize) -> (found:
    bool)
    requires
        is_square(grid(matrix), matrix.len() as int),
        2 <= center_x,
        center_x + 3 <= matrix.len(),
        2 <= center_y,
        center_y + 3 <= matrix.len(),
    ensures
        found == alignment_found(grid(matrix), center_x as int, center_y as int),
{
    let ghost g = grid(matrix);
    let mut y: usize = 0;
    while y < 5
        invariant
            y <= 5,
            g == grid(matrix),
            is_square(g, matrix.len() as int),
            2 <= center_x,
            center_x + 3 <= matrix.len(),
            2 <= center_y,
            center_y + 3 <= matrix.len(),
            forall|r: int, c: int|
                center_y - 2 <= r < center_y - 2 + y && center_x - 2 <= c <= center_x + 2
                    ==> g[r][c] == #[trigger] alignment_module(
                    center_y as int,
                    center_x as int,
                    r,
                    c,
                ),
        decreases 5 - y,
    {
        let mut x: usize = 0;
        while x < 5
            invariant
                y < 5,
                x <= 5,
                g == grid(matrix),
                is_square(g, matrix.len() as int),
                2 <= center_x,
                center_x + 3 <= matrix.len(),
                2 <= center_y,
                center_y + 3 <= matrix.len(),
                forall|r: int, c: int|
                    center_y - 2 <= r < center_y - 2 + y && center_x - 2 <= c <= center_x + 2
                        ==> g[r][c] == #[trigger] alignment_module(
                        center_y as int,
                        center_x as int,
                        r,
                        c,
                    ),
                forall|c: int|
                    center_x - 2 <= c < center_x - 2 + x ==> g[center_y - 2 + y][c]
                        == #[trigger] alignment_module(
                        center_y as int,
                        center_x as int,
                        center_y - 2 + y,
                        c,
                    ),
            decreases 5 - x,
        {
            let expected: u8 = if y == 0 || y == 4 || x == 0 || x == 4 || (y == 2 && x == 2) {
                1
            } else {
                0
            };
            let row: usize = center_y - 2 + y;
            let col: usize = center_x - 2 + x;
            assert(g[row as int].len() == matrix.len());
            if get_module(matrix, row, col) != expected {
                assert(g[row as int][col as int] != alignment_module(
                    center_y as int,
                    center_x as int,
                    row as int,
                    col as int,
                ));
                return false;
            }
            x = x + 1;
        }
        y = y + 1;
    }
    true
}

} // verus!
