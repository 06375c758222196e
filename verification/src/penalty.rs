use vstd::prelude::*;
use crate::matrix::{grid, is_square, is_symbol_matrix};

verus! {

/// Whether a module is dark: every module but a light one (0) counts as dark.
pub open spec fn is_dark(module: u8) -> bool {
    module != 0
}

/// The length of the run of modules of one colour that ends at index `i` of a line.
pub open spec fn run_ending(line: Seq<u8>, i: int) -> int
    decreases i,
{
    if i <= 0 || is_dark(line[i]) != is_dark(line[i - 1]) {
        1
    } else {
        run_ending(line, i - 1) + 1
    }
}

/// What the module that brings a run to the given length adds to the score: three
/// for the fifth module of a run and one for each module after it, so that a run of
/// five costs three and every longer run one more for each further module.
pub open spec fn run_cost(run: int) -> int {
    if run == 5 {
        3
    } else if run > 5 {
        1
    } else {
        0
    }
}

/// The cost of the runs among the first `k` modules of a line.
pub open spec fn run_costs(line: Seq<u8>, k: int) -> int
    decreases k,
{
    if k <= 0 {
        0
    } else {
        run_costs(line, k - 1) + run_cost(run_ending(line, k - 1))
    }
}

/// Whether seven modules from index `i` on are dark and light in the widths
/// 1 : 1 : 3 : 1 : 1 of a line through the middle of a finder pattern.
pub open spec fn finder_core(line: Seq<u8>, i: int) -> bool {
    &&& is_dark(line[i])
    &&& !is_dark(line[i + 1])
    &&& is_dark(line[i + 2])
    &&& is_dark(line[i + 3])
    &&& is_dark(line[i + 4])
    &&& !is_dark(line[i + 5])
    &&& is_dark(line[i + 6])
}

/// Whether the four modules from index `i` on are light.
pub open spec fn four_light(line: Seq<u8>, i: int) -> bool {
    &&& !is_dark(line[i])
    &&& !is_dark(line[i + 1])
    &&& !is_dark(line[i + 2])
    &&& !is_dark(line[i + 3])
}

/// Whether the eleven modules from index `i` on look like a finder pattern with
/// four light modules behind it or before it.
pub open spec fn finder_like_at(line: Seq<u8>, i: int) -> bool {
    &&& 0 <= i
    &&& i + 11 <= line.len()
    &&& ((finder_core(line, i) && four_light(line, i + 7)) || (four_light(line, i) && finder_core(
        line,
        i + 4,
    )))
}

/// The number of indices below `k` at which a line looks like a finder pattern.
pub open spec fn finder_likes(line: Seq<u8>, k: int) -> int
    decreases k,
{
    if k <= 0 {
        0
    } else {
        finder_likes(line, k - 1) + if finder_like_at(line, k - 1) {
            1int
        } else {
            0int
        }
    }
}

/// The cost of one row or column: that of its runs, and forty for each place where
/// it looks like a finder pattern.
pub open spec fn line_cost(line: Seq<u8>) -> int {
    run_costs(line, line.len() as int) + 40 * finder_likes(line, line.len() as int)
}

/// The column `c` of a grid, from the top down.
pub open spec fn column(g: Seq<Seq<u8>>, c: int) -> Seq<u8> {
    Seq::new(g.len(), |r: int| g[r][c])
}

/// The cost of the first `k` rows of a grid.
pub open spec fn row_costs(g: Seq<Seq<u8>>, k: int) -> int
    decreases k,
{
    if k <= 0 {
        0
    } else {
        row_costs(g, k - 1) + line_cost(g[k - 1])
    }
}

/// The cost of the first `k` columns of a grid.
pub open spec fn column_costs(g: Seq<Seq<u8>>, k: int) -> int
    decreases k,
{
    if k <= 0 {
        0
    } else {
        column_costs(g, k - 1) + line_cost(column(g, k - 1))
    }
}

/// Whether the four modules of the two-by-two block whose top left corner is at row
/// `r` and column `c` have one colour.
pub open spec fn block_at(g: Seq<Seq<u8>>, r: int, c: int) -> bool {
    &&& is_dark(g[r][c]) == is_dark(g[r][c + 1])
    &&& is_dark(g[r][c]) == is_dark(g[r + 1][c])
    &&& is_dark(g[r][c]) == is_dark(g[r + 1][c + 1])
}

/// The number of blocks of one colour with the top left corner in row `r` and in a
/// column below `k`.
pub open spec fn blocks_in_row(g: Seq<Seq<u8>>, r: int, k: int) -> int
    decreases k,
{
    if k <= 0 {
        0
    } else {
        blocks_in_row(g, r, k - 1) + if block_at(g, r, k - 1) {
            1int
        } else {
            0int
        }
    }
}

/// The number of blocks of one colour with the top left corner in a row below `k`.
pub open spec fn blocks(g: Seq<Seq<u8>>, k: int) -> int
    decreases k,
{
    if k <= 0 {
        0
    } else {
        blocks(g, k - 1) + blocks_in_row(g, k - 1, g.len() - 1)
    }
}

/// The number of dark modules among the first `k` of a line.
pub open spec fn darks_in_line(line: Seq<u8>, k: int) -> int
    decreases k,
{
    if k <= 0 {
        0
    } else {
        darks_in_line(line, k - 1) + if is_dark(line[k - 1]) {
            1int
        } else {
            0int
        }
    }
}

/// The number of dark modules in the first `k` rows of a grid.
pub open spec fn darks(g: Seq<Seq<u8>>, k: int) -> int
    decreases k,
{
    if k <= 0 {
        0
    } else {
        darks(g, k - 1) + darks_in_line(g[k - 1], g[k - 1].len() as int)
    }
}

/// The cost of an uneven share of dark modules: ten for every full five percent of
/// all modules by which the dark ones miss one half.
pub open spec fn balance_cost(dark: int, total: int) -> int {
    let excess = if 20 * dark >= 10 * total {
        20 * dark - 10 * total
    } else {
        10 * total - 20 * dark
    };
    10 * (excess / total)
}

/// The penalty score of a square grid: the cost of its rows and columns, three for
/// each two-by-two block of one colour, and the cost of its balance.
pub open spec fn penalty(g: Seq<Seq<u8>>) -> int {
    let n = g.len() as int;
    row_costs(g, n) + column_costs(g, n) + 3 * blocks(g, n - 1) + balance_cost(darks(g, n), n * n)
}

/// Whether the eleven modules from `i` on look like a finder pattern.
fn finder_like(line: &[u8], i: usize) -> (found: bool)
    requires
        i + 11 <= line@.len(),
    ensures
        found == finder_like_at(line@, i as int),
{
    let a: bool = line[i] != 0;
    let b: bool = line[i + 1] != 0;
    let c: bool = line[i + 2] != 0;
    let d: bool = line[i + 3] != 0;
    let e: bool = line[i + 4] != 0;
    let f: bool = line[i + 5] != 0;
    let g: bool = line[i + 6] != 0;
    let h: bool = line[i + 7] != 0;
    let k: bool = line[i + 8] != 0;
    let l: bool = line[i + 9] != 0;
    let m: bool = line[i + 10] != 0;
    (a && !b && c && d && e && !f && g && !h && !k && !l && !m) || (!a && !b && !c && !d && e && !f
        && g && h && k && !l && m)
}

/// The cost of one row or column.
fn line_penalty(line: &[u8]) -> (score: u32)
    requires
        line@.len() <= 177,
    ensures
        score == line_cost(line@),
        score <= 43 * line@.len(),
{
    let n: usize = line.len();
    let mut score: u32 = 0;
    let mut run: usize = 0;
    let mut i: usize = 0;
    while i < n
        invariant
            i <= n,
            n == line@.len(),
            n <= 177,
            score == run_costs(line@, i as int),
            score <= 3 * i,
            run <= i,
            i > 0 ==> run == run_ending(line@, i - 1),
        decreases n - i,
    {
        if i > 0 && (line[i] != 0) == (line[i - 1] != 0) {
            run = run + 1;
        } else {
            run = 1;
        }
        if run == 5 {
            score = score + 3;
        } else if run > 5 {
            score = score + 1;
        }
        i = i + 1;
    }
    let mut found: u32 = 0;
    let mut j: usize = 0;
    while j < n
        invariant
            j <= n,
            n == line@.len(),
            n <= 177,
            found == finder_likes(line@, j as int),
            found <= j,
        decreases n - j,
    {
        if n - j >= 11 && finder_like(line, j) {
            found = found + 1;
        }
        j = j + 1;
    }
    score + 40 * found
}

/// The column `c` of a square matrix.
fn column_of(matrix: &Vec<Vec<u8>>, c: usize) -> (line: Vec<u8>)
    requires
        is_square(grid(matrix), matrix@.len() as int),
        c < matrix@.len(),
    ensures
        line@ == column(grid(matrix), c as int),
{
    let n: usize = matrix.len();
    let mut line: Vec<u8> = Vec::new();
    let mut r: usize = 0;
    while r < n
        invariant
            r <= n,
            n == matrix@.len(),
            c < n,
            is_square(grid(matrix), n as int),
            line@ == column(grid(matrix), c as int).take(r as int),
        decreases n - r,
    {
        assert(grid(matrix)[r as int].len() == n);
        line.push(matrix[r][c]);
        assert(line@ =~= column(grid(matrix), c as int).take(r + 1));
        r = r + 1;
    }
    assert(line@ =~= column(grid(matrix), c as int));
    line
}

/// The number of two-by-two blocks of one colour in a square matrix.
fn count_blocks(matrix: &Vec<Vec<u8>>) -> (count: u32)
    requires
        is_square(grid(matrix), matrix@.len() as int),
        0 < matrix@.len() <= 177,
    ensures
        count == blocks(grid(matrix), matrix@.len() - 1),
        count <= 31329,
{
    let n: usize = matrix.len();
    let ghost g = grid(matrix);
    let mut count: u32 = 0;
    let mut r: usize = 0;
    while r + 1 < n
        invariant
            r + 1 <= n,
            n == matrix@.len(),
            0 < n <= 177,
            g == grid(matrix),
            is_square(g, n as int),
            count == blocks(g, r as int),
            count <= 177 * r,
        decreases n - r,
    {
        let mut c: usize = 0;
        let ghost before = count;
        while c + 1 < n
            invariant
                c + 1 <= n,
                r + 1 < n,
                n == matrix@.len(),
                0 < n <= 177,
                g == grid(matrix),
                is_square(g, n as int),
                count == before + blocks_in_row(g, r as int, c as int),
                before <= 177 * r,
                count <= before + c,
            decreases n - c,
        {
            assert(g[r as int].len() == n && g[r + 1].len() == n);
            let corner: bool = matrix[r][c] != 0;
            if (matrix[r][c + 1] != 0) == corner && (matrix[r + 1][c] != 0) == corner && (matrix[r
                + 1][c + 1] != 0) == corner {
                count = count + 1;
            }
            c = c + 1;
        }
        r = r + 1;
    }
    count
}

/// The number of dark modules of a square matrix.
fn count_dark(matrix: &Vec<Vec<u8>>) -> (count: u32)
    requires
        is_square(grid(matrix), matrix@.len() as int),
        matrix@.len() <= 177,
    ensures
        count == darks(grid(matrix), matrix@.len() as int),
        count <= 177 * matrix@.len(),
{
    let n: usize = matrix.len();
    let ghost g = grid(matrix);
    let mut count: u32 = 0;
    let mut r: usize = 0;
    while r < n
        invariant
            r <= n,
            n == matrix@.len(),
            n <= 177,
            g == grid(matrix),
            is_square(g, n as int),
            count == darks(g, r as int),
            count <= 177 * r,
        decreases n - r,
    {
        let mut c: usize = 0;
        let ghost before = count;
        assert(g[r as int].len() == n);
        while c < n
            invariant
                c <= n,
                r < n,
                n == matrix@.len(),
                n <= 177,
                g == grid(matrix),
                g[r as int].len() == n,
                count == before + darks_in_line(g[r as int], c as int),
                before <= 177 * r,
                count <= before + c,
            decreases n - c,
        {
            if matrix[r][c] != 0 {
                count = count + 1;
            }
            c = c + 1;
        }
        r = r + 1;
    }
    count
}

/// The cost of the balance of `dark` dark modules among `total`.
fn balance_penalty(dark: u32, total: u32) -> (score: u32)
    requires
        0 < total <= 31329,
        dark <= 31329,
    ensures
        score == balance_cost(dark as int, total as int),
        score <= 6265800,
{
    let excess: u32 = if 20 * dark >= 10 * total {
        20 * dark - 10 * total
    } else {
        10 * total - 20 * dark
    };
    let steps: u32 = excess / total;
    assert(steps <= excess) by (nonlinear_arith)
        requires
            steps == excess / total,
            0 < total,
    ;
    10 * steps
}

/// The penalty score of a symbol: the lower, the easier the symbol is for a reader
/// to tell from its surroundings.
pub fn penalty_score(matrix: &Vec<Vec<u8>>) -> (score: u32)
    requires
        is_symbol_matrix(grid(matrix)),
    ensures
        score == penalty(grid(matrix)),
{
    let n: usize = matrix.len();
    let ghost g = grid(matrix);
    let mut lines: u32 = 0;
    let mut r: usize = 0;
    while r < n
        invariant
            r <= n,
            n == matrix@.len(),
            21 <= n <= 177,
            g == grid(matrix),
            is_square(g, n as int),
            lines == row_costs(g, r as int),
            lines <= 7611 * r,
        decreases n - r,
    {
        assert(g[r as int].len() == n);
        let cost: u32 = line_penalty(matrix[r].as_slice());
        lines = lines + cost;
        r = r + 1;
    }
    let mut c: usize = 0;
    while c < n
        invariant
            c <= n,
            n == matrix@.len(),
            21 <= n <= 177,
            g == grid(matrix),
            is_square(g, n as int),
            lines == row_costs(g, n as int) + column_costs(g, c as int),
            lines <= 7611 * n + 7611 * c,
        decreases n - c,
    {
        let line = column_of(matrix, c);
        let cost: u32 = line_penalty(line.as_slice());
        lines = lines + cost;
        c = c + 1;
    }
    let squares: u32 = count_blocks(matrix);
    let dark: u32 = count_dark(matrix);
    assert(0 < n * n <= 31329) by (nonlinear_arith)
        requires
            21 <= n <= 177,
    ;
    let total: u32 = (n * n) as u32;
    lines + 3 * squares + balance_penalty(dark, total)
}

} // verus!
