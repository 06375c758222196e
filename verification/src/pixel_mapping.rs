use vstd::prelude::*;
use crate::alignment::{in_alignment_pattern, is_alignment_pattern};
use crate::types::Version;

verus! {

/// The version whose symbols have `size` modules per side, if there is one.
pub open spec fn symbol_version(size: int) -> Option<Version> {
    if 21 <= size <= 177 && (size - 17) % 4 == 0 {
        Version::of_number((size - 17) / 4)
    } else {
        None
    }
}

/// Whether the module at row `r` and column `c` of a version-`v` symbol is a function
/// module: part of a finder pattern, its separator or the format areas beside it, of
/// a timing line, of a version block, or of an alignment pattern. The dark module
/// lies in the lower left area.
pub open spec fn is_function_module_at(v: int, r: int, c: int) -> bool {
    let n = 17 + 4 * v;
    ||| (r < 9 && c < 9)
    ||| (r < 9 && c >= n - 8)
    ||| (r >= n - 8 && c < 9)
    ||| r == 6
    ||| c == 6
    ||| (v >= 7 && r < 6 && n - 11 <= c < n - 8)
    ||| (v >= 7 && c < 6 && n - 11 <= r < n - 8)
    ||| in_alignment_pattern(v, r, c)
}

/// The predicate that picks the data modules of a version-`v` symbol.
pub open spec fn is_data_cell(v: int) -> spec_fn((int, int)) -> bool {
    |p: (int, int)| !is_function_module_at(v, p.0, p.1)
}

/// The right-hand column of the strip of index `p`, counted from the right edge. The
/// strips are two columns wide and leave out column 6.
pub open spec fn strip_right(n: int, p: int) -> int {
    if 2 * p < n - 7 {
        n - 1 - 2 * p
    } else {
        n - 2 - 2 * p
    }
}

/// The module visited at place `w` of strip `p`: strips of even index are walked
/// upwards, the others downwards, and in each row the right module comes first.
pub open spec fn strip_cell(n: int, p: int, w: int) -> (int, int) {
    let step = w / 2;
    let row = if p % 2 == 0 {
        n - 1 - step
    } else {
        step
    };
    (row, strip_right(n, p) - w % 2)
}

/// The modules of strip `p` in the order of the sweep.
pub open spec fn strip_cells(n: int, p: int) -> Seq<(int, int)> {
    Seq::new((2 * n) as nat, |w: int| strip_cell(n, p, w))
}

/// The modules of the first `p` strips in the order of the sweep.
pub open spec fn sweep_upto(n: int, p: nat) -> Seq<(int, int)>
    decreases p,
{
    if p == 0 {
        Seq::empty()
    } else {
        sweep_upto(n, (p - 1) as nat) + strip_cells(n, p - 1)
    }
}

/// Every module off column 6, in the order of the serpentine sweep.
pub open spec fn sweep_cells(n: int) -> Seq<(int, int)> {
    sweep_upto(n, ((n - 1) / 2) as nat)
}

/// The data modules of a version-`v` symbol in the order in which the sweep meets them.
pub open spec fn data_positions(v: int) -> Seq<(int, int)> {
    sweep_cells(17 + 4 * v).filter(is_data_cell(v))
}

/// The strip that holds column `c`.
pub open spec fn strip_of(n: int, c: int) -> int {
    if c > 6 {
        (n - 1 - c) / 2
    } else {
        (n - 2 - c) / 2
    }
}

/// The place within its strip of the module at row `r` and column `c`.
pub open spec fn place_of(n: int, r: int, c: int) -> int {
    let p = strip_of(n, c);
    let step = if p % 2 == 0 {
        n - 1 - r
    } else {
        r
    };
    2 * step + (strip_right(n, p) - c)
}

/// Every module off the timing column lies in one strip, at one place of it.
proof fn lemma_strip_cell_inverse(n: int, r: int, c: int)
    requires
        n % 2 == 1,
        n >= 9,
        0 <= r < n,
        0 <= c < n,
        c != 6,
    ensures
        0 <= strip_of(n, c) < (n - 1) / 2,
        0 <= place_of(n, r, c) < 2 * n,
        strip_cell(n, strip_of(n, c), place_of(n, r, c)) == (r, c),
{
}

/// Every place of a strip is a module of the symbol off the timing column.
proof fn lemma_strip_cell_range(n: int, p: int, w: int)
    requires
        n % 2 == 1,
        n >= 9,
        0 <= p < (n - 1) / 2,
        0 <= w < 2 * n,
    ensures
        ({
            let cell = strip_cell(n, p, w);
            &&& 0 <= cell.0 < n
            &&& 0 <= cell.1 < n
            &&& cell.1 != 6
            &&& strip_of(n, cell.1) == p
            &&& place_of(n, cell.0, cell.1) == w
        }),
{
}

/// The first `p` strips hold each of their modules once, and hold exactly the
/// modules whose column lies in one of them.
proof fn lemma_sweep_upto(n: int, p: nat)
    requires
        n % 2 == 1,
        n >= 9,
        p <= (n - 1) / 2,
    ensures
        sweep_upto(n, p).len() == 2 * n * p,
        sweep_upto(n, p).no_duplicates(),
        forall|i: int|
            0 <= i < sweep_upto(n, p).len() ==> {
                let cell = #[trigger] sweep_upto(n, p)[i];
                &&& 0 <= cell.0 < n
                &&& 0 <= cell.1 < n
                &&& cell.1 != 6
                &&& strip_of(n, cell.1) < p
            },
        forall|r: int, c: int|
            0 <= r < n && 0 <= c < n && c != 6 && strip_of(n, c) < p ==> sweep_upto(n, p).contains(
                (r, c),
            ),
    decreases p,
{
    if p > 0 {
        let q = (p - 1) as nat;
        let before = sweep_upto(n, q);
        let strip = strip_cells(n, q as int);
        lemma_sweep_upto(n, q);
        assert(2 * n * p == 2 * n * q + 2 * n) by (nonlinear_arith)
            requires
                p == q + 1,
        ;
        let whole = before + strip;
        assert forall|i: int| 0 <= i < whole.len() implies {
            let cell = #[trigger] whole[i];
            &&& 0 <= cell.0 < n
            &&& 0 <= cell.1 < n
            &&& cell.1 != 6
            &&& strip_of(n, cell.1) < p
        } by {
            if i < before.len() {
                assert(whole[i] == before[i]);
            } else {
                lemma_strip_cell_range(n, q as int, i - before.len());
            }
        }
        assert forall|i: int, j: int| 0 <= i < whole.len() && 0 <= j < whole.len() && i
            != j implies whole[i] != whole[j] by {
            if i >= before.len() {
                lemma_strip_cell_range(n, q as int, i - before.len());
            } else {
                assert(whole[i] == before[i]);
            }
            if j >= before.len() {
                lemma_strip_cell_range(n, q as int, j - before.len());
            } else {
                assert(whole[j] == before[j]);
            }
        }
        assert forall|r: int, c: int|
            0 <= r < n && 0 <= c < n && c != 6 && strip_of(n, c) < p implies whole.contains(
            (r, c),
        ) by {
            lemma_strip_cell_inverse(n, r, c);
            if strip_of(n, c) < q {
                assert(before.contains((r, c)));
                let i = choose|i: int| 0 <= i < before.len() && before[i] == (r, c);
                assert(whole[i] == (r, c));
            } else {
                let w = place_of(n, r, c);
                assert(strip[w] == (r, c));
                assert(whole[before.len() + w] == (r, c));
            }
        }
    }
}

/// Filtering keeps a sequence free of duplicates.
proof fn lemma_filter_no_duplicates<A>(s: Seq<A>, pred: spec_fn(A) -> bool)
    requires
        s.no_duplicates(),
    ensures
        s.filter(pred).no_duplicates(),
    decreases s.len(),
{
    reveal(Seq::filter);
    if s.len() > 0 {
        let head = s.drop_last();
        lemma_filter_no_duplicates(head, pred);
        if pred(s.last()) {
            let kept = head.filter(pred);
            assert forall|i: int| 0 <= i < kept.len() implies kept[i] != s.last() by {
                head.lemma_filter_contains_rev(pred, kept[i]);
                let q = choose|q: int| 0 <= q < head.len() && head[q] == kept[i];
                assert(s[q] == kept[i]);
            }
        }
    }
}

/// Serpentine coverage: the sweep meets every data module of the symbol exactly
/// once, and meets nothing else.
pub proof fn lemma_sweep_coverage(version: Version)
    ensures
        data_positions(version.number()).no_duplicates(),
        forall|r: int, c: int|
            0 <= r < version.side() && 0 <= c < version.side() ==> (data_positions(
                version.number(),
            ).contains((r, c)) <==> !is_function_module_at(version.number(), r, c)),
        forall|i: int|
            0 <= i < data_positions(version.number()).len() ==> {
                let cell = #[trigger] data_positions(version.number())[i];
                &&& 0 <= cell.0 < version.side()
                &&& 0 <= cell.1 < version.side()
                &&& !is_function_module_at(version.number(), cell.0, cell.1)
            },
{
    let v = version.number();
    let n = 17 + 4 * v;
    let all = sweep_cells(n);
    let pred = is_data_cell(v);
    lemma_sweep_upto(n, ((n - 1) / 2) as nat);
    lemma_filter_no_duplicates(all, pred);
    assert forall|r: int, c: int| 0 <= r < n && 0 <= c < n implies (all.filter(pred).contains(
        (r, c),
    ) <==> !is_function_module_at(v, r, c)) by {
        if all.filter(pred).contains((r, c)) {
            let i = choose|i: int| 0 <= i < all.filter(pred).len() && all.filter(pred)[i] == (r, c);
            assert(pred(all.filter(pred)[i]));
        }
        if !is_function_module_at(v, r, c) {
            lemma_strip_cell_inverse(n, r, c);
            assert(all.contains((r, c)));
            let i = choose|i: int| 0 <= i < all.len() && all[i] == (r, c);
            assert(pred(all[i]));
        }
    }
    assert forall|i: int| 0 <= i < all.filter(pred).len() implies {
        let cell = #[trigger] all.filter(pred)[i];
        &&& 0 <= cell.0 < n
        &&& 0 <= cell.1 < n
        &&& !is_function_module_at(v, cell.0, cell.1)
    } by {
        let cell = all.filter(pred)[i];
        assert(pred(cell));
        all.lemma_filter_contains_rev(pred, cell);
        let q = choose|q: int| 0 <= q < all.len() && all[q] == cell;
    }
}

/// The number of modules per side of a symbol of the given version.
pub fn version_to_size(version: Version) -> (size: usize)
    ensures
        size == version.side(),
        symbol_version(size as int) == Some(version),
{
    proof {
        version.lemma_number_range();
    }
    version.size()
}

/// The version of a symbol with `size` modules per side, if there is one.
pub fn size_to_version(size: usize) -> (version: Option<Version>)
    ensures
        version == symbol_version(size as int),
        version is Some ==> version.unwrap().side() == size,
{
    if size < 21 || size > 177 || (size - 17) % 4 != 0 {
        return None;
    }
    let number: u8 = ((size - 17) / 4) as u8;
    proof {
        Version::lemma_of_number(number as int);
    }
    Version::from_u8(number)
}

/// Whether the module at the given place of a symbol of the given version is a
/// function module.
pub fn is_function_module_of(version: Version, row: usize, col: usize) -> (b: bool)
    requires
        row < version.side(),
        col < version.side(),
    ensures
        b == is_function_module_at(version.number(), row as int, col as int),
{
    let v: u8 = version.to_u8();
    let size: usize = version.size();
    if (row < 9 && col < 9) || (row < 9 && col >= size - 8) || (row >= size - 8 && col < 9) {
        return true;
    }
    if row == 6 || col == 6 {
        return true;
    }
    if v >= 7 {
        if (row < 6 && col >= size - 11 && col < size - 8) || (col < 6 && row >= size - 11 && row
            < size - 8) {
            return true;
        }
    }
    is_alignment_pattern(col, row, version)
}

/// Whether the module at row `row` and column `col` of a symbol with `size` modules
/// per side is a function module. No module is one where `size` is not the size of
/// a symbol or the place lies outside it.
pub fn is_function_module(row: usize, col: usize, size: usize) -> (b: bool)
    ensures
        b == match symbol_version(size as int) {
            Some(version) => row < size && col < size && is_function_module_at(
                version.number(),
                row as int,
                col as int,
            ),
            None => false,
        },
{
    match size_to_version(size) {
        Some(version) => {
            if row < size && col < size {
                is_function_module_of(version, row, col)
            } else {
                false
            }
        },
        None => false,
    }
}

/// The places of a sequence of modules, as mathematical pairs of row and column.
pub open spec fn places(cells: Seq<(usize, usize)>) -> Seq<(int, int)> {
    cells.map_values(|p: (usize, usize)| (p.0 as int, p.1 as int))
}

/// The data and parity modules of a symbol, as `(row, column)`, in the order in which
/// the serpentine sweep fills them.
pub fn get_data_ecc_positions(version: Version) -> (positions: Vec<(usize, usize)>)
    ensures
        places(positions@) == data_positions(version.number()),
{
    let size: usize = version_to_size(version);
    let strips: usize = (size - 1) / 2;
    let ghost v = version.number();
    let ghost n = size as int;
    let ghost pred = is_data_cell(v);
    let ghost to_place = |p: (usize, usize)| (p.0 as int, p.1 as int);
    proof {
        version.lemma_number_range();
    }
    let mut positions: Vec<(usize, usize)> = Vec::new();
    let mut p: usize = 0;
    assert(positions@.map_values(to_place) =~= sweep_upto(n, 0).filter(pred)) by {
        reveal(Seq::filter);
    }
    while p < strips
        invariant
            p <= strips,
            strips == (size - 1) / 2,
            size == version.side(),
            n == size,
            v == version.number(),
            1 <= v <= 40,
            pred == is_data_cell(v),
            to_place == |p: (usize, usize)| (p.0 as int, p.1 as int),
            positions@.map_values(to_place) == sweep_upto(n, p as nat).filter(pred),
        decreases strips - p,
    {
        let right: usize = if 2 * p < size - 7 {
            size - 1 - 2 * p
        } else {
            size - 2 - 2 * p
        };
        let upwards: bool = p % 2 == 0;
        let ghost done = sweep_upto(n, p as nat);
        let ghost strip = strip_cells(n, p as int);
        let mut w: usize = 0;
        assert(strip.take(0).filter(pred) =~= Seq::<(int, int)>::empty()) by {
            reveal(Seq::filter);
        }
        assert(done.filter(pred) + Seq::<(int, int)>::empty() =~= done.filter(pred));
        while w < 2 * size
            invariant
                w <= 2 * size,
                p < strips,
                strips == (size - 1) / 2,
                size == version.side(),
                n == size,
                v == version.number(),
                1 <= v <= 40,
                right == strip_right(n, p as int),
                upwards == (p % 2 == 0),
                pred == is_data_cell(v),
                to_place == |p: (usize, usize)| (p.0 as int, p.1 as int),
                done == sweep_upto(n, p as nat),
                strip == strip_cells(n, p as int),
                positions@.map_values(to_place) == done.filter(pred) + strip.take(w as int).filter(
                    pred,
                ),
            decreases 2 * size - w,
        {
            let step: usize = w / 2;
            let row: usize = if upwards {
                size - 1 - step
            } else {
                step
            };
            let col: usize = right - w % 2;
            proof {
                lemma_strip_cell_range(n, p as int, w as int);
                assert(strip[w as int] == (row as int, col as int));
                assert(strip.take(w + 1) =~= strip.take(w as int).push(strip[w as int]));
                strip.take(w as int).lemma_filter_push(strip[w as int], pred);
            }
            if !is_function_module_of(version, row, col) {
                proof {
                    positions@.lemma_push_map_commute(to_place, (row, col));
                    assert((done.filter(pred) + strip.take(w as int).filter(pred)).push(
                        (row as int, col as int),
                    ) =~= done.filter(pred) + strip.take(w as int).filter(pred).push(
                        (row as int, col as int),
                    ));
                }
                positions.push((row, col));
            }
            w = w + 1;
        }
        proof {
            assert(strip.take(2 * size as int) =~= strip);
            Seq::filter_distributes_over_add(done, strip, pred);
        }
        p = p + 1;
    }
    positions
}

} // verus!
