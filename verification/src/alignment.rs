use vstd::prelude::*;
use crate::ecc_data::alignment_axis_count;
use crate::types::Version;

verus! {

/// The coordinates, along either axis, of the centres of the alignment patterns.
pub open spec fn alignment_centers(v: int) -> Seq<int> {
    alignment_centers_entry(v as u8)
}

/// The table of alignment-pattern centres by version number.
#[verifier::opaque]
pub open spec fn alignment_centers_entry(v: u8) -> Seq<int> {
    match v {
        2 => seq![6int, 18],
        3 => seq![6int, 22],
        4 => seq![6int, 26],
        5 => seq![6int, 30],
        6 => seq![6int, 34],
        7 => seq![6int, 22, 38],
        8 => seq![6int, 24, 42],
        9 => seq![6int, 26, 46],
        10 => seq![6int, 28, 50],
        11 => seq![6int, 30, 54],
        12 => seq![6int, 32, 58],
        13 => seq![6int, 34, 62],
        14 => seq![6int, 26, 46, 66],
        15 => seq![6int, 26, 48, 70],
        16 => seq![6int, 26, 50, 74],
        17 => seq![6int, 30, 54, 78],
        18 => seq![6int, 30, 56, 82],
        19 => seq![6int, 30, 58, 86],
        20 => seq![6int, 34, 62, 90],
        21 => seq![6int, 28, 50, 72, 94],
        22 => seq![6int, 26, 50, 74, 98],
        23 => seq![6int, 30, 54, 78, 102],
        24 => seq![6int, 28, 54, 80, 106],
        25 => seq![6int, 32, 58, 84, 110],
        26 => seq![6int, 30, 58, 86, 114],
        27 => seq![6int, 34, 62, 90, 118],
        28 => seq![6int, 26, 50, 74, 98, 122],
        29 => seq![6int, 30, 54, 78, 102, 126],
        30 => seq![6int, 26, 52, 78, 104, 130],
        31 => seq![6int, 30, 56, 82, 108, 134],
        32 => seq![6int, 34, 60, 86, 112, 138],
        33 => seq![6int, 30, 58, 86, 114, 142],
        34 => seq![6int, 34, 62, 90, 118, 146],
        35 => seq![6int, 30, 54, 78, 102, 126, 150],
        36 => seq![6int, 24, 50, 76, 102, 128, 154],
        37 => seq![6int, 28, 54, 80, 106, 132, 158],
        38 => seq![6int, 32, 58, 84, 110, 136, 162],
        39 => seq![6int, 26, 54, 82, 110, 138, 166],
        40 => seq![6int, 30, 58, 86, 114, 142, 170],
        _ => Seq::<int>::empty(),
    }
}

/// Whether an alignment pattern is centred at row `alignment_centers(v)[i]` and column
/// `alignment_centers(v)[j]`: every pair of centres carries one, but for the three
/// that would fall on a finder pattern.
pub open spec fn pattern_at(v: int, i: int, j: int) -> bool {
    let k = alignment_centers(v).len();
    &&& 0 <= i < k
    &&& 0 <= j < k
    &&& !(i == 0 && j == 0)
    &&& !(i == 0 && j == k - 1)
    &&& !(i == k - 1 && j == 0)
}

/// Whether the module lies in the five-by-five square of the pattern of indices `(i, j)`.
pub open spec fn covered_by(v: int, i: int, j: int, r: int, c: int) -> bool {
    &&& pattern_at(v, i, j)
    &&& alignment_centers(v)[i] - 2 <= r <= alignment_centers(v)[i] + 2
    &&& alignment_centers(v)[j] - 2 <= c <= alignment_centers(v)[j] + 2
}

/// Whether the module at row `r` and column `c` belongs to an alignment pattern.
pub open spec fn in_alignment_pattern(v: int, r: int, c: int) -> bool {
    exists|i: int, j: int| #[trigger] covered_by(v, i, j, r, c)
}

/// The value of a module of the alignment pattern centred at `(cy, cx)`: dark on the
/// outer ring and at the centre, light between.
pub open spec fn alignment_module(cy: int, cx: int, r: int, c: int) -> u8 {
    if r == cy - 2 || r == cy + 2 || c == cx - 2 || c == cx + 2 || (r == cy && c == cx) {
        1
    } else {
        0
    }
}

/// What the table of centres holds: as many centres as the version calls for, the first
/// on the timing line, the last seven modules from the far edge, and at least twelve
/// modules between neighbours.
pub proof fn lemma_alignment_centers(v: int)
    requires
        1 <= v <= 40,
    ensures
        alignment_centers(v).len() == alignment_axis_count(v),
        alignment_centers(v).len() <= 7,
        v >= 2 ==> alignment_centers(v)[0] == 6,
        v >= 2 ==> alignment_centers(v).last() == 17 + 4 * v - 7,
        forall|i: int|
            0 <= i < alignment_centers(v).len() - 1 ==> alignment_centers(v)[i] + 12
                <= #[trigger] alignment_centers(v)[i + 1],
        forall|i: int|
            0 <= i < alignment_centers(v).len() ==> 6 <= #[trigger] alignment_centers(v)[i] <= 17
                + 4 * v - 7,
{
    reveal(alignment_centers_entry);
    if v == 1 {
        assert(alignment_centers(v) =~= Seq::<int>::empty());
    }
    if v == 2 {
        assert(alignment_centers(v) =~= seq![6int, 18]);
    } else if v == 3 {
        assert(alignment_centers(v) =~= seq![6int, 22]);
    } else if v == 4 {
        assert(alignment_centers(v) =~= seq![6int, 26]);
    } else if v == 5 {
        assert(alignment_centers(v) =~= seq![6int, 30]);
    } else if v == 6 {
        assert(alignment_centers(v) =~= seq![6int, 34]);
    } else if v == 7 {
        assert(alignment_centers(v) =~= seq![6int, 22, 38]);
    } else if v == 8 {
        assert(alignment_centers(v) =~= seq![6int, 24, 42]);
    } else if v == 9 {
        assert(alignment_centers(v) =~= seq![6int, 26, 46]);
    } else if v == 10 {
        assert(alignment_centers(v) =~= seq![6int, 28, 50]);
    } else if v == 11 {
        assert(alignment_centers(v) =~= seq![6int, 30, 54]);
    } else if v == 12 {
        assert(alignment_centers(v) =~= seq![6int, 32, 58]);
    } else if v == 13 {
        assert(alignment_centers(v) =~= seq![6int, 34, 62]);
    } else if v == 14 {
        assert(alignment_centers(v) =~= seq![6int, 26, 46, 66]);
    } else if v == 15 {
        assert(alignment_centers(v) =~= seq![6int, 26, 48, 70]);
    } else if v == 16 {
        assert(alignment_centers(v) =~= seq![6int, 26, 50, 74]);
    } else if v == 17 {
        assert(alignment_centers(v) =~= seq![6int, 30, 54, 78]);
    } else if v == 18 {
        assert(alignment_centers(v) =~= seq![6int, 30, 56, 82]);
    } else if v == 19 {
        assert(alignment_centers(v) =~= seq![6int, 30, 58, 86]);
    } else if v == 20 {
        assert(alignment_centers(v) =~= seq![6int, 34, 62, 90]);
    } else if v == 21 {
        assert(alignment_centers(v) =~= seq![6int, 28, 50, 72, 94]);
    } else if v == 22 {
        assert(alignment_centers(v) =~= seq![6int, 26, 50, 74, 98]);
    } else if v == 23 {
        assert(alignment_centers(v) =~= seq![6int, 30, 54, 78, 102]);
    } else if v == 24 {
        assert(alignment_centers(v) =~= seq![6int, 28, 54, 80, 106]);
    } else if v == 25 {
        assert(alignment_centers(v) =~= seq![6int, 32, 58, 84, 110]);
    } else if v == 26 {
        assert(alignment_centers(v) =~= seq![6int, 30, 58, 86, 114]);
    } else if v == 27 {
        assert(alignment_centers(v) =~= seq![6int, 34, 62, 90, 118]);
    } else if v == 28 {
        assert(alignment_centers(v) =~= seq![6int, 26, 50, 74, 98, 122]);
    } else if v == 29 {
        assert(alignment_centers(v) =~= seq![6int, 30, 54, 78, 102, 126]);
    } else if v == 30 {
        assert(alignment_centers(v) =~= seq![6int, 26, 52, 78, 104, 130]);
    } else if v == 31 {
        assert(alignment_centers(v) =~= seq![6int, 30, 56, 82, 108, 134]);
    } else if v == 32 {
        assert(alignment_centers(v) =~= seq![6int, 34, 60, 86, 112, 138]);
    } else if v == 33 {
        assert(alignment_centers(v) =~= seq![6int, 30, 58, 86, 114, 142]);
    } else if v == 34 {
        assert(alignment_centers(v) =~= seq![6int, 34, 62, 90, 118, 146]);
    } else if v == 35 {
        assert(alignment_centers(v) =~= seq![6int, 30, 54, 78, 102, 126, 150]);
    } else if v == 36 {
        assert(alignment_centers(v) =~= seq![6int, 24, 50, 76, 102, 128, 154]);
    } else if v == 37 {
        assert(alignment_centers(v) =~= seq![6int, 28, 54, 80, 106, 132, 158]);
    } else if v == 38 {
        assert(alignment_centers(v) =~= seq![6int, 32, 58, 84, 110, 136, 162]);
    } else if v == 39 {
        assert(alignment_centers(v) =~= seq![6int, 26, 54, 82, 110, 138, 166]);
    } else if v == 40 {
        assert(alignment_centers(v) =~= seq![6int, 30, 58, 86, 114, 142, 170]);
    }
}

/// The centres of the alignment patterns along either axis.
pub fn get_alignment_positions(version: Version) -> (positions: Vec<usize>)
    ensures
        positions@.map_values(|p: usize| p as int) == alignment_centers(version.number()),
        positions.len() <= 7,
        forall|i: int| 0 <= i < positions.len() ==> 6 <= #[trigger] positions[i] <= version.side() - 7,
{
    let positions: Vec<usize> = match version {
        Version::V1 => Vec::new(),
        Version::V2 => vec![6, 18],
        Version::V3 => vec![6, 22],
        Version::V4 => vec![6, 26],
        Version::V5 => vec![6, 30],
        Version::V6 => vec![6, 34],
        Version::V7 => vec![6, 22, 38],
        Version::V8 => vec![6, 24, 42],
        Version::V9 => vec![6, 26, 46],
        Version::V10 => vec![6, 28, 50],
        Version::V11 => vec![6, 30, 54],
        Version::V12 => vec![6, 32, 58],
        Version::V13 => vec![6, 34, 62],
        Version::V14 => vec![6, 26, 46, 66],
        Version::V15 => vec![6, 26, 48, 70],
        Version::V16 => vec![6, 26, 50, 74],
        Version::V17 => vec![6, 30, 54, 78],
        Version::V18 => vec![6, 30, 56, 82],
        Version::V19 => vec![6, 30, 58, 86],
        Version::V20 => vec![6, 34, 62, 90],
        Version::V21 => vec![6, 28, 50, 72, 94],
        Version::V22 => vec![6, 26, 50, 74, 98],
        Version::V23 => vec![6, 30, 54, 78, 102],
        Version::V24 => vec![6, 28, 54, 80, 106],
        Version::V25 => vec![6, 32, 58, 84, 110],
        Version::V26 => vec![6, 30, 58, 86, 114],
        Version::V27 => vec![6, 34, 62, 90, 118],
        Version::V28 => vec![6, 26, 50, 74, 98, 122],
        Version::V29 => vec![6, 30, 54, 78, 102, 126],
        Version::V30 => vec![6, 26, 52, 78, 104, 130],
        Version::V31 => vec![6, 30, 56, 82, 108, 134],
        Version::V32 => vec![6, 34, 60, 86, 112, 138],
        Version::V33 => vec![6, 30, 58, 86, 114, 142],
        Version::V34 => vec![6, 34, 62, 90, 118, 146],
        Version::V35 => vec![6, 30, 54, 78, 102, 126, 150],
        Version::V36 => vec![6, 24, 50, 76, 102, 128, 154],
        Version::V37 => vec![6, 28, 54, 80, 106, 132, 158],
        Version::V38 => vec![6, 32, 58, 84, 110, 136, 162],
        Version::V39 => vec![6, 26, 54, 82, 110, 138, 166],
        Version::V40 => vec![6, 30, 58, 86, 114, 142, 170],
    };
    proof {
        reveal(alignment_centers_entry);
        assert(positions@.map_values(|p: usize| p as int) =~= alignment_centers(
            version.number(),
        ));
    }
    positions
}

/// Whether the module at column `x` and row `y` belongs to an alignment pattern.
pub fn is_alignment_pattern(x: usize, y: usize, version: Version) -> (b: bool)
    ensures
        b == in_alignment_pattern(version.number(), y as int, x as int),
{
    let positions = get_alignment_positions(version);
    let count: usize = positions.len();
    let ghost v = version.number();
    let ghost centers = alignment_centers(v);
    assert(forall|q: int| 0 <= q < count ==> centers[q] == positions[q] as int) by {
        assert forall|q: int| 0 <= q < count implies centers[q] == positions[q] as int by {
            assert(positions@.map_values(|p: usize| p as int)[q] == positions[q] as int);
        }
    }
    let mut i: usize = 0;
    while i < count
        invariant
            i <= count,
            count == positions.len(),
            count == centers.len(),
            v == version.number(),
            centers == alignment_centers(v),
            forall|q: int| 0 <= q < count ==> centers[q] == positions[q] as int,
            forall|q: int| 0 <= q < count ==> 6 <= #[trigger] positions[q] <= 170,
            forall|a: int, b: int| 0 <= a < i && 0 <= b < count ==> !covered_by(v, a, b, y as int, x as int),
        decreases count - i,
    {
        let mut j: usize = 0;
        while j < count
            invariant
                i < count,
                j <= count,
                count == positions.len(),
                count == centers.len(),
                v == version.number(),
                centers == alignment_centers(v),
                forall|q: int| 0 <= q < count ==> centers[q] == positions[q] as int,
                forall|q: int| 0 <= q < count ==> 6 <= #[trigger] positions[q] <= 170,
                forall|a: int, b: int|
                    0 <= a < i && 0 <= b < count ==> !covered_by(v, a, b, y as int, x as int),
                forall|b: int| 0 <= b < j ==> !covered_by(v, i as int, b, y as int, x as int),
            decreases count - j,
        {
            let on_finder: bool = (i == 0 && j == 0) || (i == 0 && j == count - 1) || (i == count
                - 1 && j == 0);
            if !on_finder {
                let center_y: usize = positions[i];
                let center_x: usize = positions[j];
                if y >= center_y - 2 && y <= center_y + 2 && x >= center_x - 2 && x <= center_x + 2 {
                    assert(covered_by(v, i as int, j as int, y as int, x as int));
                    return true;
                }
            }
            j = j + 1;
        }
        i = i + 1;
    }
    false
}

} // verus!
