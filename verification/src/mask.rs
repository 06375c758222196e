use vstd::prelude::*;
use crate::matrix::{
    get_module, grid, is_square, is_symbol_matrix, lemma_put, set_module, version_of,
};
use crate::pixel_mapping::{is_function_module_at, is_function_module_of, size_to_version};
use crate::types::{MaskPattern, Version};

verus! {

/// Whether the pattern toggles the module at row `r` and column `c`.
pub open spec fn mask_bit(pattern: MaskPattern, r: int, c: int) -> bool {
    match pattern {
        MaskPattern::Pattern0 => (r + c) % 2 == 0,
        MaskPattern::Pattern1 => r % 2 == 0,
        MaskPattern::Pattern2 => c % 3 == 0,
        MaskPattern::Pattern3 => (r + c) % 3 == 0,
        MaskPattern::Pattern4 => (r / 2 + c / 3) % 2 == 0,
        MaskPattern::Pattern5 => (r * c) % 2 + (r * c) % 3 == 0,
        MaskPattern::Pattern6 => ((r * c) % 2 + (r * c) % 3) % 2 == 0,
        MaskPattern::Pattern7 => ((r + c) % 2 + (r * c) % 3) % 2 == 0,
    }
}

/// A module with its colour exchanged.
pub open spec fn toggled(module: u8) -> u8 {
    module ^ 1
}

/// The module at row `r` and column `c` after masking: a data module that the
/// pattern selects is toggled, every other module is kept.
pub open spec fn masked_module(version: Version, pattern: MaskPattern, g: Seq<Seq<u8>>, r: int, c: int) -> u8 {
    if !is_function_module_at(version.number(), r, c) && mask_bit(pattern, r, c) {
        toggled(g[r][c])
    } else {
        g[r][c]
    }
}

/// The symbol `g` after masking with `pattern`.
pub open spec fn masked(version: Version, pattern: MaskPattern, g: Seq<Seq<u8>>) -> Seq<Seq<u8>> {
    Seq::new(
        g.len(),
        |r: int| Seq::new(g[r].len(), |c: int| masked_module(version, pattern, g, r, c)),
    )
}

/// Toggling a module twice gives it back, and toggling keeps a bit a bit.
pub proof fn lemma_toggled(module: u8)
    by (bit_vector)
    ensures
        (module ^ 1) ^ 1 == module,
        module <= 1 ==> (module ^ 1) <= 1,
        module == 0 ==> (module ^ 1) == 1,
        module == 1 ==> (module ^ 1) == 0,
{
}

/// Mask involution: masking twice with one pattern gives the symbol back.
pub proof fn lemma_mask_involution(version: Version, pattern: MaskPattern, g: Seq<Seq<u8>>)
    ensures
        masked(version, pattern, masked(version, pattern, g)) == g,
{
    let once = masked(version, pattern, g);
    let twice = masked(version, pattern, once);
    assert forall|r: int| 0 <= r < g.len() implies twice[r] == g[r] by {
        assert forall|c: int| 0 <= c < g[r].len() implies twice[r][c] == g[r][c] by {
            lemma_toggled(g[r][c]);
        }
        assert(twice[r] =~= g[r]);
    }
    assert(twice =~= g);
}

/// Function-module invariance: masking changes no function module, whatever the pattern.
pub proof fn lemma_mask_keeps_function_modules(
    version: Version,
    pattern: MaskPattern,
    g: Seq<Seq<u8>>,
    r: int,
    c: int,
)
    requires
        0 <= r < g.len(),
        0 <= c < g[r].len(),
        is_function_module_at(version.number(), r, c),
    ensures
        masked(version, pattern, g)[r][c] == g[r][c],
{
}

/// Whether the pattern toggles the module at the given row and column.
pub fn get_mask_bit(mask: MaskPattern, row: usize, col: usize) -> (b: bool)
    requires
        row <= 0xffff,
        col <= 0xffff,
    ensures
        b == mask_bit(mask, row as int, col as int),
{
    assert(row * col <= 0xffff * 0xffff) by (nonlinear_arith)
        requires
            row <= 0xffff,
            col <= 0xffff,
    ;
    match mask {
        MaskPattern::Pattern0 => (row + col) % 2 == 0,
        MaskPattern::Pattern1 => row % 2 == 0,
        MaskPattern::Pattern2 => col % 3 == 0,
        MaskPattern::Pattern3 => (row + col) % 3 == 0,
        MaskPattern::Pattern4 => (row / 2 + col / 3) % 2 == 0,
        MaskPattern::Pattern5 => (row * col) % 2 + (row * col) % 3 == 0,
        MaskPattern::Pattern6 => ((row * col) % 2 + (row * col) % 3) % 2 == 0,
        MaskPattern::Pattern7 => ((row + col) % 2 + (row * col) % 3) % 2 == 0,
    }
}

/// The bit of a data module after masking.
pub fn apply_mask_to_bit(bit: u8, row: usize, col: usize, mask: MaskPattern) -> (masked_bit: u8)
    requires
        row <= 0xffff,
        col <= 0xffff,
    ensures
        masked_bit == (if mask_bit(mask, row as int, col as int) {
            toggled(bit)
        } else {
            bit
        }),
{
    if get_mask_bit(mask, row, col) {
        bit ^ 1
    } else {
        bit
    }
}

/// Applies the pattern to the data modules of the symbol, and to those only.
pub fn apply_mask(matrix: &mut Vec<Vec<u8>>, pattern: MaskPattern)
    requires
        is_symbol_matrix(grid(old(matrix))),
    ensures
        grid(final(matrix)) == masked(version_of(grid(old(matrix))), pattern, grid(old(matrix))),
{
    let size: usize = matrix.len();
    let version = match size_to_version(size) {
        Some(version) => version,
        None => {
            return ;
        },
    };
    let ghost start = grid(matrix);
    let mut row: usize = 0;
    while row < size
        invariant
            row <= size,
            size == version.side(),
            version == version_of(start),
            is_square(start, size as int),
            is_square(grid(matrix), size as int),
            forall|r: int, c: int|
                0 <= r < row && 0 <= c < size ==> grid(matrix)[r][c] == masked_module(
                    version,
                    pattern,
                    start,
                    r,
                    c,
                ),
            forall|r: int| row <= r < size ==> grid(matrix)[r] == start[r],
        decreases size - row,
    {
        let mut col: usize = 0;
        while col < size
            invariant
                row < size,
                col <= size,
                size == version.side(),
                version == version_of(start),
                is_square(start, size as int),
                is_square(grid(matrix), size as int),
                forall|r: int, c: int|
                    0 <= r < row && 0 <= c < size ==> grid(matrix)[r][c] == masked_module(
                        version,
                        pattern,
                        start,
                        r,
                        c,
                    ),
                forall|c: int|
                    0 <= c < col ==> grid(matrix)[row as int][c] == masked_module(
                        version,
                        pattern,
                        start,
                        row as int,
                        c,
                    ),
                forall|c: int| col <= c < size ==> grid(matrix)[row as int][c] == start[row as int][c],
                forall|r: int| row < r < size ==> grid(matrix)[r] == start[r],
            decreases size - col,
        {
            if !is_function_module_of(version, row, col) && get_mask_bit(pattern, row, col) {
                let ghost before = grid(matrix);
                assert(before.len() == size && before[row as int].len() == size);
                let module: u8 = get_module(matrix, row, col) ^ 1;
                set_module(matrix, row, col, module);
                proof {
                    lemma_put(before, size as int, row as int, col as int, module);
                    assert forall|r: int| 0 <= r < size && r != row implies grid(matrix)[r]
                        == before[r] by {}
                }
            }
            col = col + 1;
        }
        row = row + 1;
    }
    proof {
        let target = masked(version, pattern, start);
        assert forall|r: int| 0 <= r < size implies grid(matrix)[r] == target[r] by {
            assert(grid(matrix)[r].len() == size);
            assert(target[r].len() == size);
            assert(grid(matrix)[r] =~= target[r]);
        }
        assert(grid(matrix) =~= target);
    }
}

} // verus!
