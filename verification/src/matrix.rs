use vstd::prelude::*;
use crate::pixel_mapping::symbol_version;
use crate::types::Version;

verus! {

/// The modules of a matrix as a sequence of rows.
pub open spec fn grid(matrix: &Vec<Vec<u8>>) -> Seq<Seq<u8>> {
    Seq::new(matrix@.len(), |r: int| matrix@[r]@)
}

/// Whether `g` is a square of `n` rows of `n` modules.
pub open spec fn is_square(g: Seq<Seq<u8>>, n: int) -> bool {
    &&& g.len() == n
    &&& forall|r: int| 0 <= r < n ==> (#[trigger] g[r]).len() == n
}

/// Whether `g` has the shape of a symbol of the given version.
pub open spec fn is_symbol(g: Seq<Seq<u8>>, version: Version) -> bool {
    is_square(g, version.side())
}

/// Whether the matrix is a square whose side is the side of a symbol.
pub open spec fn is_symbol_matrix(g: Seq<Seq<u8>>) -> bool {
    &&& symbol_version(g.len() as int) is Some
    &&& is_square(g, g.len() as int)
}

/// The version of a symbol matrix, read off its side.
pub open spec fn version_of(g: Seq<Seq<u8>>) -> Version {
    symbol_version(g.len() as int).unwrap()
}

/// Whether every module of `g` is 0 (light) or 1 (dark).
pub open spec fn is_binary(g: Seq<Seq<u8>>) -> bool {
    forall|r: int, c: int| 0 <= r < g.len() && 0 <= c < g[r].len() ==> (#[trigger] g[r][c]) <= 1
}

/// The grid `g` with the module at row `r` and column `c` replaced.
pub open spec fn put(g: Seq<Seq<u8>>, r: int, c: int, value: u8) -> Seq<Seq<u8>> {
    g.update(r, g[r].update(c, value))
}

/// A square of `n` by `n` light modules.
pub open spec fn blank(n: int) -> Seq<Seq<u8>> {
    Seq::new(n as nat, |r: int| Seq::new(n as nat, |c: int| 0u8))
}

/// Replacing a module keeps the shape and every other module.
pub proof fn lemma_put(g: Seq<Seq<u8>>, n: int, r: int, c: int, value: u8)
    requires
        is_square(g, n),
        0 <= r < n,
        0 <= c < n,
    ensures
        is_square(put(g, r, c, value), n),
        put(g, r, c, value)[r][c] == value,
        forall|i: int, j: int|
            0 <= i < n && 0 <= j < n && !(i == r && j == c) ==> #[trigger] put(g, r, c, value)[i][j]
                == g[i][j],
        is_binary(g) && value <= 1 ==> is_binary(put(g, r, c, value)),
{
    let h = put(g, r, c, value);
    assert forall|i: int| 0 <= i < n implies (#[trigger] h[i]).len() == n by {
        assert(g[i].len() == n);
    }
    if is_binary(g) && value <= 1 {
        assert forall|i: int, j: int| 0 <= i < h.len() && 0 <= j < h[i].len() implies (
        #[trigger] h[i][j]) <= 1 by {
            assert(g[i].len() == n);
            if !(i == r && j == c) {
                assert(g[i][j] <= 1);
            }
        }
    }
}

/// A matrix of `size` by `size` light modules.
pub fn new_matrix(size: usize) -> (matrix: Vec<Vec<u8>>)
    ensures
        grid(&matrix) == blank(size as int),
        is_square(grid(&matrix), size as int),
        is_binary(grid(&matrix)),
{
    let matrix = vec![vec![0u8; size]; size];
    proof {
        assert forall|r: int| 0 <= r < size implies grid(&matrix)[r] == blank(size as int)[r] by {
            assert(grid(&matrix)[r] =~= blank(size as int)[r]);
        }
        assert(grid(&matrix) =~= blank(size as int));
    }
    matrix
}

/// Writes one module.
pub fn set_module(matrix: &mut Vec<Vec<u8>>, row: usize, col: usize, value: u8)
    requires
        row < old(matrix).len(),
        col < old(matrix)[row as int].len(),
    ensures
        grid(final(matrix)) == put(grid(old(matrix)), row as int, col as int, value),
{
    matrix[row][col] = value;
    proof {
        let target = put(grid(old(matrix)), row as int, col as int, value);
        assert forall|r: int| 0 <= r < target.len() implies grid(matrix)[r] == target[r] by {
            assert(grid(matrix)[r] =~= target[r]);
        }
        assert(grid(matrix) =~= target);
    }
}

/// Reads one module.
pub fn get_module(matrix: &Vec<Vec<u8>>, row: usize, col: usize) -> (value: u8)
    requires
        row < matrix.len(),
        col < matrix[row as int].len(),
    ensures
        value == grid(matrix)[row as int][col as int],
{
    matrix[row][col]
}

/// Whether the matrix is a square of symbol size, and if so of which version.
pub fn check_shape(matrix: &Vec<Vec<u8>>) -> (version: Option<Version>)
    ensures
        version is Some <==> is_symbol_matrix(grid(matrix)),
        version is Some ==> version.unwrap() == version_of(grid(matrix)) && is_symbol(
            grid(matrix),
            version.unwrap(),
        ),
{
    let size: usize = matrix.len();
    let version = match crate::pixel_mapping::size_to_version(size) {
        Some(version) => version,
        None => {
            return None;
        },
    };
    let mut row: usize = 0;
    while row < size
        invariant
            row <= size,
            size == matrix.len(),
            forall|r: int| 0 <= r < row ==> (#[trigger] grid(matrix)[r]).len() == size,
        decreases size - row,
    {
        if matrix[row].len() != size {
            assert(grid(matrix)[row as int].len() != size);
            return None;
        }
        row = row + 1;
    }
    Some(version)
}

} // verus!
