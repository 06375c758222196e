use vstd::prelude::*;
use crate::alignment::{
    alignment_centers, alignment_module, covered_by, in_alignment_pattern, lemma_alignment_centers,
};
use crate::format::{format_bits, version_bits};
use crate::pixel_mapping::is_function_module_at;
use crate::types::{ErrorCorrection, MaskPattern};

verus! {

/// The module at offset `(dr, dc)` from the upper left corner of a finder pattern:
/// a dark ring, a light ring and a dark square of three by three. Outside the
/// seven by seven pattern lies its light separator.
pub open spec fn finder_module(dr: int, dc: int) -> u8 {
    if 0 <= dr <= 6 && 0 <= dc <= 6 && (dr == 0 || dr == 6 || dc == 0 || dc == 6 || (2 <= dr <= 4
        && 2 <= dc <= 4)) {
        1
    } else {
        0
    }
}

/// Whether the module belongs to one of the three finder patterns or its separator.
pub open spec fn in_finder_area(n: int, r: int, c: int) -> bool {
    ||| (0 <= r <= 7 && 0 <= c <= 7)
    ||| (0 <= r <= 7 && n - 8 <= c < n)
    ||| (n - 8 <= r < n && 0 <= c <= 7)
}

/// The value of a module of a finder pattern or separator.
pub open spec fn finder_area_module(n: int, r: int, c: int) -> u8 {
    if r <= 7 && c <= 7 {
        finder_module(r, c)
    } else if r <= 7 {
        finder_module(r, c - (n - 7))
    } else {
        finder_module(r - (n - 7), c)
    }
}

/// Whether the module belongs to one of the two timing lines between the finders.
pub open spec fn on_timing_line(n: int, r: int, c: int) -> bool {
    (r == 6 && 8 <= c <= n - 9) || (c == 6 && 8 <= r <= n - 9)
}

/// The value of a timing module: dark at even places.
pub open spec fn timing_module(r: int, c: int) -> u8 {
    if (r + c) % 2 == 0 {
        1
    } else {
        0
    }
}

/// The index of the format bit that the module carries, or -1 if it carries none.
/// The first copy runs up column 8 and along row 8 around the upper left finder;
/// the second runs along row 8 from the right edge and down column 8 to the
/// lower edge.
pub open spec fn format_bit_index(n: int, r: int, c: int) -> int {
    if c == 8 && 0 <= r <= 5 {
        r
    } else if c == 8 && r == 7 {
        6
    } else if c == 8 && r == 8 {
        7
    } else if r == 8 && c == 7 {
        8
    } else if r == 8 && 0 <= c <= 5 {
        14 - c
    } else if r == 8 && n - 8 <= c < n {
        n - 1 - c
    } else if c == 8 && n - 7 <= r < n {
        r - (n - 15)
    } else {
        -1
    }
}

/// The place of format bit `i` in the first copy.
pub open spec fn format_place_first(i: int) -> (int, int) {
    if i <= 5 {
        (i, 8)
    } else if i == 6 {
        (7, 8)
    } else if i == 7 {
        (8, 8)
    } else if i == 8 {
        (8, 7)
    } else {
        (8, 14 - i)
    }
}

/// The place of format bit `i` in the second copy.
pub open spec fn format_place_second(n: int, i: int) -> (int, int) {
    if i <= 7 {
        (8, n - 1 - i)
    } else {
        (n - 15 + i, 8)
    }
}

/// The index of the version bit that the module carries, or -1 if it carries none.
/// Bit `i` stands in row `i / 3` of the upper right block and in column `i / 3` of
/// the lower left block.
pub open spec fn version_bit_index(v: int, r: int, c: int) -> int {
    let n = 17 + 4 * v;
    if v >= 7 && 0 <= r <= 5 && n - 11 <= c <= n - 9 {
        3 * r + (c - (n - 11))
    } else if v >= 7 && 0 <= c <= 5 && n - 11 <= r <= n - 9 {
        3 * c + (r - (n - 11))
    } else {
        -1
    }
}

/// The bit of index `i` of a word, as a module.
pub open spec fn word_bit(word: u32, i: int) -> u8 {
    ((word >> (i as u32)) & 1) as u8
}

/// Whether the coordinate `x` lies within two modules of the centre of index `i`.
pub open spec fn near_centre(v: int, i: int, x: int) -> bool {
    0 <= i < alignment_centers(v).len() && alignment_centers(v)[i] - 2 <= x <= alignment_centers(
        v,
    )[i] + 2
}

/// The index of the alignment centre within two modules of the coordinate `x`.
pub open spec fn covering_centre(v: int, x: int) -> int {
    choose|i: int| #[trigger] near_centre(v, i, x)
}

/// The value of a module of an alignment pattern.
pub open spec fn alignment_value(v: int, r: int, c: int) -> u8 {
    alignment_module(
        alignment_centers(v)[covering_centre(v, r)],
        alignment_centers(v)[covering_centre(v, c)],
        r,
        c,
    )
}

/// The value of a function module of a symbol. Where the descriptions overlap the
/// later one holds: version bits, format bits, the dark module, alignment
/// patterns, timing lines, finder patterns with their separators.
pub open spec fn function_value(
    v: int,
    ec: ErrorCorrection,
    mask: MaskPattern,
    r: int,
    c: int,
) -> u8 {
    let n = 17 + 4 * v;
    if version_bit_index(v, r, c) >= 0 {
        word_bit(version_bits(v), version_bit_index(v, r, c))
    } else if format_bit_index(n, r, c) >= 0 {
        word_bit(format_bits(ec, mask) as u32, format_bit_index(n, r, c))
    } else if r == n - 8 && c == 8 {
        1
    } else if in_alignment_pattern(v, r, c) {
        alignment_value(v, r, c)
    } else if on_timing_line(n, r, c) {
        timing_module(r, c)
    } else {
        finder_area_module(n, r, c)
    }
}

/// Centres further apart in the table lie further apart in the symbol.
pub proof fn lemma_centres_apart(v: int, i: int, j: int)
    requires
        1 <= v <= 40,
        0 <= i < j < alignment_centers(v).len(),
    ensures
        alignment_centers(v)[i] + 12 <= alignment_centers(v)[j],
    decreases j - i,
{
    lemma_alignment_centers(v);
    if i + 1 < j {
        lemma_centres_apart(v, i + 1, j);
    }
}

/// A coordinate lies within two modules of at most one centre.
pub proof fn lemma_covering_centre(v: int, i: int, x: int)
    requires
        1 <= v <= 40,
        0 <= i < alignment_centers(v).len(),
        alignment_centers(v)[i] - 2 <= x <= alignment_centers(v)[i] + 2,
    ensures
        covering_centre(v, x) == i,
{
    assert(near_centre(v, i, x));
    let j = covering_centre(v, x);
    if j < i {
        lemma_centres_apart(v, j, i);
    } else if i < j {
        lemma_centres_apart(v, i, j);
    }
}

/// A module lies in at most one alignment pattern, whose value it then has.
pub proof fn lemma_alignment_value(v: int, i: int, j: int, r: int, c: int)
    requires
        1 <= v <= 40,
        covered_by(v, i, j, r, c),
    ensures
        alignment_value(v, r, c) == alignment_module(
            alignment_centers(v)[i],
            alignment_centers(v)[j],
            r,
            c,
        ),
        forall|a: int, b: int| #[trigger] covered_by(v, a, b, r, c) ==> a == i && b == j,
{
    lemma_covering_centre(v, i, r);
    lemma_covering_centre(v, j, c);
    assert forall|a: int, b: int| #[trigger] covered_by(v, a, b, r, c) implies a == i && b
        == j by {
        lemma_covering_centre(v, a, r);
        lemma_covering_centre(v, b, c);
    }
}

/// Every function module is described by exactly the parts of `function_value`, and
/// the parts that describe a module cover function modules only.
pub proof fn lemma_function_parts(v: int, r: int, c: int)
    requires
        1 <= v <= 40,
        0 <= r < 17 + 4 * v,
        0 <= c < 17 + 4 * v,
    ensures
        is_function_module_at(v, r, c) <==> (version_bit_index(v, r, c) >= 0 || format_bit_index(
            17 + 4 * v,
            r,
            c,
        ) >= 0 || (r == 17 + 4 * v - 8 && c == 8) || in_alignment_pattern(v, r, c)
            || on_timing_line(17 + 4 * v, r, c) || in_finder_area(17 + 4 * v, r, c)),
        version_bit_index(v, r, c) < 18,
        format_bit_index(17 + 4 * v, r, c) < 15,
{
}

} // verus!
