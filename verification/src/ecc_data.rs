use vstd::prelude::*;
use crate::types::{DataMode, ErrorCorrection, Version};

verus! {

/// The number of alignment-pattern centres along one axis of a version-`v` symbol.
pub open spec fn alignment_axis_count(v: int) -> int {
    if v == 1 {
        0
    } else {
        v / 7 + 2
    }
}

/// The number of function modules of a version-`v` symbol: the three finder
/// patterns with their separators and format areas, the two timing lines between
/// them, the alignment patterns (those on a timing line share five modules with
/// it), and from version 7 on the two version blocks.
pub open spec fn function_module_count(v: int) -> int {
    let a = alignment_axis_count(v);
    let finders = 81 + 72 + 72;
    let timing = 2 * (4 * v);
    let alignment = if v >= 2 {
        25 * (a * a - 3) - 10 * (a - 2)
    } else {
        0
    };
    let version_blocks = if v >= 7 {
        36int
    } else {
        0int
    };
    finders + timing + alignment + version_blocks
}

/// The number of modules that carry data or parity bits.
pub open spec fn data_module_count(v: int) -> int {
    (17 + 4 * v) * (17 + 4 * v) - function_module_count(v)
}

/// The number of codewords, data and parity together, that a version-`v` symbol holds.
pub open spec fn total_codewords(v: int) -> int {
    data_module_count(v) / 8
}

/// The number of modules left over after the last codeword.
pub open spec fn remainder_bits(v: int) -> int {
    data_module_count(v) % 8
}

/// The number of parity codewords in each block.
pub open spec fn ecc_per_block(v: int, ec: ErrorCorrection) -> int {
    ecc_per_block_entry(v as u8, ec)
}

/// The number of blocks that the codewords are split into.
pub open spec fn block_count(v: int, ec: ErrorCorrection) -> int {
    block_count_entry(v as u8, ec)
}

/// The table of parity codewords per block, by version number and level.
#[verifier::opaque]
pub open spec fn ecc_per_block_entry(v: u8, ec: ErrorCorrection) -> int {
    match ec {
        ErrorCorrection::L => match v {
            1 => 7, 2 => 10, 3 => 15, 4 => 20, 5 => 26, 6 => 18, 7 => 20, 8 => 24,
            9 => 30, 10 => 18, 11 => 20, 12 => 24, 13 => 26, 14 => 30, 15 => 22, 16 => 24,
            17 => 28, 18 => 30, 19 => 28, 20 => 28, 21 => 28, 22 => 28, 23 => 30, 24 => 30,
            25 => 26, 26 => 28, 27 => 30, 28 => 30, 29 => 30, 30 => 30, 31 => 30, 32 => 30,
            33 => 30, 34 => 30, 35 => 30, 36 => 30, 37 => 30, 38 => 30, 39 => 30, 40 => 30,
            _ => 0,
        },
        ErrorCorrection::M => match v {
            1 => 10, 2 => 16, 3 => 26, 4 => 18, 5 => 24, 6 => 16, 7 => 18, 8 => 22,
            9 => 22, 10 => 26, 11 => 30, 12 => 22, 13 => 22, 14 => 24, 15 => 24, 16 => 28,
            17 => 28, 18 => 26, 19 => 26, 20 => 26, 21 => 26, 22 => 28, 23 => 28, 24 => 28,
            25 => 28, 26 => 28, 27 => 28, 28 => 28, 29 => 28, 30 => 28, 31 => 28, 32 => 28,
            33 => 28, 34 => 28, 35 => 28, 36 => 28, 37 => 28, 38 => 28, 39 => 28, 40 => 28,
            _ => 0,
        },
        ErrorCorrection::Q => match v {
            1 => 13, 2 => 22, 3 => 18, 4 => 26, 5 => 18, 6 => 24, 7 => 18, 8 => 22,
            9 => 20, 10 => 24, 11 => 28, 12 => 26, 13 => 24, 14 => 20, 15 => 30, 16 => 24,
            17 => 28, 18 => 28, 19 => 26, 20 => 30, 21 => 28, 22 => 30, 23 => 30, 24 => 30,
            25 => 30, 26 => 28, 27 => 30, 28 => 30, 29 => 30, 30 => 30, 31 => 30, 32 => 30,
            33 => 30, 34 => 30, 35 => 30, 36 => 30, 37 => 30, 38 => 30, 39 => 30, 40 => 30,
            _ => 0,
        },
        ErrorCorrection::H => match v {
            1 => 17, 2 => 28, 3 => 22, 4 => 16, 5 => 22, 6 => 28, 7 => 26, 8 => 26,
            9 => 24, 10 => 28, 11 => 24, 12 => 28, 13 => 22, 14 => 24, 15 => 24, 16 => 30,
            17 => 28, 18 => 28, 19 => 26, 20 => 28, 21 => 30, 22 => 24, 23 => 30, 24 => 30,
            25 => 30, 26 => 30, 27 => 30, 28 => 30, 29 => 30, 30 => 30, 31 => 30, 32 => 30,
            33 => 30, 34 => 30, 35 => 30, 36 => 30, 37 => 30, 38 => 30, 39 => 30, 40 => 30,
            _ => 0,
        },
    }
}

/// The table of block counts, by version number and level.
#[verifier::opaque]
pub open spec fn block_count_entry(v: u8, ec: ErrorCorrection) -> int {
    match ec {
        ErrorCorrection::L => match v {
            1 => 1, 2 => 1, 3 => 1, 4 => 1, 5 => 1, 6 => 2, 7 => 2, 8 => 2,
            9 => 2, 10 => 4, 11 => 4, 12 => 4, 13 => 4, 14 => 4, 15 => 6, 16 => 6,
            17 => 6, 18 => 6, 19 => 7, 20 => 8, 21 => 8, 22 => 9, 23 => 9, 24 => 10,
            25 => 12, 26 => 12, 27 => 12, 28 => 13, 29 => 14, 30 => 15, 31 => 16, 32 => 17,
            33 => 18, 34 => 19, 35 => 19, 36 => 20, 37 => 21, 38 => 22, 39 => 24, 40 => 25,
            _ => 0,
        },
        ErrorCorrection::M => match v {
            1 => 1, 2 => 1, 3 => 1, 4 => 2, 5 => 2, 6 => 4, 7 => 4, 8 => 4,
            9 => 5, 10 => 5, 11 => 5, 12 => 8, 13 => 9, 14 => 9, 15 => 10, 16 => 10,
            17 => 11, 18 => 13, 19 => 14, 20 => 16, 21 => 17, 22 => 17, 23 => 18, 24 => 20,
            25 => 21, 26 => 23, 27 => 25, 28 => 26, 29 => 28, 30 => 29, 31 => 31, 32 => 33,
            33 => 35, 34 => 37, 35 => 38, 36 => 40, 37 => 43, 38 => 45, 39 => 47, 40 => 49,
            _ => 0,
        },
        ErrorCorrection::Q => match v {
            1 => 1, 2 => 1, 3 => 2, 4 => 2, 5 => 4, 6 => 4, 7 => 6, 8 => 6,
            9 => 8, 10 => 8, 11 => 8, 12 => 10, 13 => 12, 14 => 16, 15 => 12, 16 => 17,
            17 => 16, 18 => 18, 19 => 21, 20 => 20, 21 => 23, 22 => 23, 23 => 25, 24 => 27,
            25 => 29, 26 => 34, 27 => 34, 28 => 35, 29 => 38, 30 => 40, 31 => 43, 32 => 45,
            33 => 48, 34 => 51, 35 => 53, 36 => 56, 37 => 59, 38 => 62, 39 => 65, 40 => 68,
            _ => 0,
        },
        ErrorCorrection::H => match v {
            1 => 1, 2 => 1, 3 => 2, 4 => 4, 5 => 4, 6 => 4, 7 => 5, 8 => 6,
            9 => 8, 10 => 8, 11 => 11, 12 => 11, 13 => 16, 14 => 16, 15 => 18, 16 => 16,
            17 => 19, 18 => 21, 19 => 25, 20 => 25, 21 => 25, 22 => 34, 23 => 30, 24 => 32,
            25 => 35, 26 => 37, 27 => 40, 28 => 42, 29 => 45, 30 => 48, 31 => 51, 32 => 54,
            33 => 57, 34 => 60, 35 => 63, 36 => 66, 37 => 70, 38 => 74, 39 => 77, 40 => 81,
            _ => 0,
        },
    }
}

/// The number of parity codewords over all blocks.
pub open spec fn ecc_codewords(v: int, ec: ErrorCorrection) -> int {
    block_count(v, ec) * ecc_per_block(v, ec)
}

/// The number of data codewords.
pub open spec fn data_codewords(v: int, ec: ErrorCorrection) -> int {
    total_codewords(v) - ecc_codewords(v, ec)
}

/// How the data codewords are split into blocks.
pub struct BlockLayout {
    pub g1_blocks: int,
    pub g1_dc: int,
    pub g2_blocks: int,
    pub g2_dc: int,
    pub ecc_per_block: int,
}

/// The block layout of a version and level: the blocks of the second group are one
/// data codeword longer than those of the first, and there are as many of them as
/// the data codewords leave over when shared out evenly.
pub open spec fn block_layout(v: int, ec: ErrorCorrection) -> BlockLayout {
    let blocks = block_count(v, ec);
    let data = data_codewords(v, ec);
    let long_blocks = data % blocks;
    BlockLayout {
        g1_blocks: blocks - long_blocks,
        g1_dc: data / blocks,
        g2_blocks: long_blocks,
        g2_dc: if long_blocks > 0 {
            data / blocks + 1
        } else {
            0
        },
        ecc_per_block: ecc_per_block(v, ec),
    }
}

/// The width in bits of the character count that follows the mode indicator.
pub open spec fn length_bits(v: int, mode: DataMode) -> int {
    match mode {
        DataMode::Numeric => if v <= 9 {
            10
        } else if v <= 26 {
            12
        } else {
            14
        },
        DataMode::Alphanumeric => if v <= 9 {
            9
        } else if v <= 26 {
            11
        } else {
            13
        },
        DataMode::Byte => if v <= 9 {
            8
        } else {
            16
        },
    }
}

/// The four-bit mode indicator.
pub open spec fn mode_indicator(mode: DataMode) -> int {
    match mode {
        DataMode::Numeric => 1,
        DataMode::Alphanumeric => 2,
        DataMode::Byte => 4,
    }
}

/// The number of payload bits that `count` characters take in the given mode.
pub open spec fn payload_bits(mode: DataMode, count: int) -> int {
    match mode {
        DataMode::Numeric => 10 * (count / 3) + (if count % 3 == 2 {
            7int
        } else if count % 3 == 1 {
            4int
        } else {
            0int
        }),
        DataMode::Alphanumeric => 11 * (count / 2) + 6 * (count % 2),
        DataMode::Byte => 8 * count,
    }
}

/// The number of bits that a message of `count` characters takes up to and
/// including its payload.
pub open spec fn message_bits(v: int, mode: DataMode, count: int) -> int {
    4 + length_bits(v, mode) + payload_bits(mode, count)
}

/// The largest number of characters that fit: the most whose mode indicator, count
/// and payload take no more bits than the data codewords offer.
pub open spec fn data_capacity(v: int, ec: ErrorCorrection, mode: DataMode) -> int {
    let available = 8 * data_codewords(v, ec) - 4 - length_bits(v, mode);
    match mode {
        DataMode::Numeric => 3 * (available / 10) + (if available % 10 >= 7 {
            2int
        } else if available % 10 >= 4 {
            1int
        } else {
            0int
        }),
        DataMode::Alphanumeric => 2 * (available / 11) + (if available % 11 >= 6 {
            1int
        } else {
            0int
        }),
        DataMode::Byte => available / 8,
    }
}

/// The number of data modules of one version, from the side of the symbol, its
/// square, the number of alignment centres along an axis and its square.
proof fn lemma_area(v: int, side: int, area: int, axis: int, axis_squared: int)
    requires
        side == 17 + 4 * v,
        area == side * side,
        axis == alignment_axis_count(v),
        axis_squared == axis * axis,
    ensures
        data_module_count(v) == area - 225 - 8 * v - (if v >= 2 {
            25 * (axis_squared - 3) - 10 * (axis - 2)
        } else {
            0
        }) - (if v >= 7 {
            36int
        } else {
            0int
        }),
{
}

/// The number of data modules of each version, worked out from the area.
pub proof fn lemma_data_module_values(v: int)
    requires
        1 <= v <= 40,
    ensures
        208 <= data_module_count(v) <= 29648,
        v == 1 ==> data_module_count(v) == 208,
        v == 2 ==> data_module_count(v) == 359,
        v == 3 ==> data_module_count(v) == 567,
        v == 4 ==> data_module_count(v) == 807,
        v == 5 ==> data_module_count(v) == 1079,
        v == 6 ==> data_module_count(v) == 1383,
        v == 7 ==> data_module_count(v) == 1568,
        v == 8 ==> data_module_count(v) == 1936,
        v == 9 ==> data_module_count(v) == 2336,
        v == 10 ==> data_module_count(v) == 2768,
        v == 11 ==> data_module_count(v) == 3232,
        v == 12 ==> data_module_count(v) == 3728,
        v == 13 ==> data_module_count(v) == 4256,
        v == 14 ==> data_module_count(v) == 4651,
        v == 15 ==> data_module_count(v) == 5243,
        v == 16 ==> data_module_count(v) == 5867,
        v == 17 ==> data_module_count(v) == 6523,
        v == 18 ==> data_module_count(v) == 7211,
        v == 19 ==> data_module_count(v) == 7931,
        v == 20 ==> data_module_count(v) == 8683,
        v == 21 ==> data_module_count(v) == 9252,
        v == 22 ==> data_module_count(v) == 10068,
        v == 23 ==> data_module_count(v) == 10916,
        v == 24 ==> data_module_count(v) == 11796,
        v == 25 ==> data_module_count(v) == 12708,
        v == 26 ==> data_module_count(v) == 13652,
        v == 27 ==> data_module_count(v) == 14628,
        v == 28 ==> data_module_count(v) == 15371,
        v == 29 ==> data_module_count(v) == 16411,
        v == 30 ==> data_module_count(v) == 17483,
        v == 31 ==> data_module_count(v) == 18587,
        v == 32 ==> data_module_count(v) == 19723,
        v == 33 ==> data_module_count(v) == 20891,
        v == 34 ==> data_module_count(v) == 22091,
        v == 35 ==> data_module_count(v) == 23008,
        v == 36 ==> data_module_count(v) == 24272,
        v == 37 ==> data_module_count(v) == 25568,
        v == 38 ==> data_module_count(v) == 26896,
        v == 39 ==> data_module_count(v) == 28256,
        v == 40 ==> data_module_count(v) == 29648,
{
    if v == 1 {
        lemma_area(1, 21, 441, 0, 0);
    } else if v == 2 {
        lemma_area(2, 25, 625, 2, 4);
    } else if v == 3 {
        lemma_area(3, 29, 841, 2, 4);
    } else if v == 4 {
        lemma_area(4, 33, 1089, 2, 4);
    } else if v == 5 {
        lemma_area(5, 37, 1369, 2, 4);
    } else if v == 6 {
        lemma_area(6, 41, 1681, 2, 4);
    } else if v == 7 {
        lemma_area(7, 45, 2025, 3, 9);
    } else if v == 8 {
        lemma_area(8, 49, 2401, 3, 9);
    } else if v == 9 {
        lemma_area(9, 53, 2809, 3, 9);
    } else if v == 10 {
        lemma_area(10, 57, 3249, 3, 9);
    } else if v == 11 {
        lemma_area(11, 61, 3721, 3, 9);
    } else if v == 12 {
        lemma_area(12, 65, 4225, 3, 9);
    } else if v == 13 {
        lemma_area(13, 69, 4761, 3, 9);
    } else if v == 14 {
        lemma_area(14, 73, 5329, 4, 16);
    } else if v == 15 {
        lemma_area(15, 77, 5929, 4, 16);
    } else if v == 16 {
        lemma_area(16, 81, 6561, 4, 16);
    } else if v == 17 {
        lemma_area(17, 85, 7225, 4, 16);
    } else if v == 18 {
        lemma_area(18, 89, 7921, 4, 16);
    } else if v == 19 {
        lemma_area(19, 93, 8649, 4, 16);
    } else if v == 20 {
        lemma_area(20, 97, 9409, 4, 16);
    } else if v == 21 {
        lemma_area(21, 101, 10201, 5, 25);
    } else if v == 22 {
        lemma_area(22, 105, 11025, 5, 25);
    } else if v == 23 {
        lemma_area(23, 109, 11881, 5, 25);
    } else if v == 24 {
        lemma_area(24, 113, 12769, 5, 25);
    } else if v == 25 {
        lemma_area(25, 117, 13689, 5, 25);
    } else if v == 26 {
        lemma_area(26, 121, 14641, 5, 25);
    } else if v == 27 {
        lemma_area(27, 125, 15625, 5, 25);
    } else if v == 28 {
        lemma_area(28, 129, 16641, 6, 36);
    } else if v == 29 {
        lemma_area(29, 133, 17689, 6, 36);
    } else if v == 30 {
        lemma_area(30, 137, 18769, 6, 36);
    } else if v == 31 {
        lemma_area(31, 141, 19881, 6, 36);
    } else if v == 32 {
        lemma_area(32, 145, 21025, 6, 36);
    } else if v == 33 {
        lemma_area(33, 149, 22201, 6, 36);
    } else if v == 34 {
        lemma_area(34, 153, 23409, 6, 36);
    } else if v == 35 {
        lemma_area(35, 157, 24649, 7, 49);
    } else if v == 36 {
        lemma_area(36, 161, 25921, 7, 49);
    } else if v == 37 {
        lemma_area(37, 165, 27225, 7, 49);
    } else if v == 38 {
        lemma_area(38, 169, 28561, 7, 49);
    } else if v == 39 {
        lemma_area(39, 173, 29929, 7, 49);
    } else if v == 40 {
        lemma_area(40, 177, 31329, 7, 49);
    }
}

/// What holds of the layout of one version and level.
pub open spec fn layout_facts(v: int, ec: ErrorCorrection) -> bool {
    let b = block_layout(v, ec);
    &&& 1 <= block_count(v, ec) <= 81
    &&& 7 <= ecc_per_block(v, ec) <= 30
    &&& 9 <= data_codewords(v, ec) <= 2956
    &&& v <= 9 ==> data_codewords(v, ec) <= 232
    &&& v <= 26 ==> data_codewords(v, ec) <= 1370
    &&& block_count(v, ec) <= data_codewords(v, ec)
    &&& data_codewords(v, ec) / block_count(v, ec) + 1 + ecc_per_block(v, ec) <= 153
    &&& b.g1_blocks >= 1
    &&& b.g2_blocks >= 0
    &&& b.g1_blocks + b.g2_blocks == block_count(v, ec)
    &&& b.g1_dc >= 1
    &&& b.g2_blocks > 0 ==> b.g2_dc == b.g1_dc + 1
    &&& b.g2_blocks == 0 ==> b.g2_dc == 0
    &&& b.g1_blocks * b.g1_dc + b.g2_blocks * b.g2_dc == data_codewords(v, ec)
    &&& b.g1_blocks * (b.g1_dc + b.ecc_per_block) + b.g2_blocks * (b.g2_dc + b.ecc_per_block)
        == total_codewords(v)
}

/// The layout of one version and level, from its number of blocks, the parity
/// codewords of each block and the codewords of the version.
proof fn lemma_layout(v: int, ec: ErrorCorrection, blocks: int, per_block: int, total: int)
    requires
        block_count(v, ec) == blocks,
        ecc_per_block(v, ec) == per_block,
        total_codewords(v) == total,
        1 <= blocks <= 81,
        7 <= per_block <= 30,
        9 <= total - blocks * per_block <= 2956,
        v <= 9 ==> total - blocks * per_block <= 232,
        v <= 26 ==> total - blocks * per_block <= 1370,
        blocks <= total - blocks * per_block,
        (total - blocks * per_block) / blocks + 1 + per_block <= 153,
    ensures
        layout_facts(v, ec),
{
    let data = total - blocks * per_block;
    let q = data / blocks;
    let r = data % blocks;
    assert(ecc_codewords(v, ec) == blocks * per_block);
    assert(data_codewords(v, ec) == data);
    let b = block_layout(v, ec);
    assert(b.g1_blocks == blocks - r && b.g1_dc == q && b.g2_blocks == r);
    assert(data == blocks * q + r && q >= 1 && 0 <= r < blocks) by (nonlinear_arith)
        requires
            blocks > 0,
            data >= blocks,
            q == data / blocks,
            r == data % blocks,
    ;
    let g1 = b.g1_blocks;
    let dc1 = b.g1_dc;
    let g2 = b.g2_blocks;
    let dc2 = b.g2_dc;
    let e = b.ecc_per_block;
    if r == 0 {
        assert(g1 * dc1 + g2 * dc2 == data && g1 * (dc1 + e) + g2 * (dc2 + e) == total)
            by (nonlinear_arith)
            requires
                g1 == blocks,
                dc1 == q,
                g2 == 0,
                e == per_block,
                data == blocks * q,
                total == data + blocks * per_block,
        ;
    } else {
        assert(g1 * dc1 + g2 * dc2 == data && g1 * (dc1 + e) + g2 * (dc2 + e) == total)
            by (nonlinear_arith)
            requires
                g1 == blocks - r,
                dc1 == q,
                g2 == r,
                dc2 == q + 1,
                e == per_block,
                data == blocks * q + r,
                total == data + blocks * per_block,
        ;
    }
}

/// What the two tables hold, in bounds: every version has between 1 and 81 blocks of
/// 7 to 30 parity codewords, at least one data codeword per block, and no block
/// longer than 153 codewords. The two groups of blocks account for all codewords.
pub proof fn lemma_table_bounds(v: int, ec: ErrorCorrection)
    requires
        1 <= v <= 40,
    ensures
        26 <= total_codewords(v) <= 3706,
        0 <= remainder_bits(v) <= 7,
        ecc_codewords(v, ec) + data_codewords(v, ec) == total_codewords(v),
        layout_facts(v, ec),
{
    lemma_data_module_values(v);
    match ec {
        ErrorCorrection::L => {
            lemma_layout_low(v);
        },
        ErrorCorrection::M => {
            lemma_layout_medium(v);
        },
        ErrorCorrection::Q => {
            lemma_layout_quartile(v);
        },
        ErrorCorrection::H => {
            lemma_layout_high(v);
        },
    }
}

/// The block layouts of level L, version by version.
proof fn lemma_layout_low(v: int)
    requires
        1 <= v <= 40,
    ensures
        layout_facts(v, ErrorCorrection::L),
{
    reveal(ecc_per_block_entry);
    reveal(block_count_entry);
    lemma_data_module_values(v);
    let ec = ErrorCorrection::L;
    {
        if v == 1 {
            lemma_layout(v, ec, 1, 7, 26);
        } else if v == 2 {
            lemma_layout(v, ec, 1, 10, 44);
        } else if v == 3 {
            lemma_layout(v, ec, 1, 15, 70);
        } else if v == 4 {
            lemma_layout(v, ec, 1, 20, 100);
        } else if v == 5 {
            lemma_layout(v, ec, 1, 26, 134);
        } else if v == 6 {
            lemma_layout(v, ec, 2, 18, 172);
        } else if v == 7 {
            lemma_layout(v, ec, 2, 20, 196);
        } else if v == 8 {
            lemma_layout(v, ec, 2, 24, 242);
        } else if v == 9 {
            lemma_layout(v, ec, 2, 30, 292);
        } else if v == 10 {
            lemma_layout(v, ec, 4, 18, 346);
        } else if v == 11 {
            lemma_layout(v, ec, 4, 20, 404);
        } else if v == 12 {
            lemma_layout(v, ec, 4, 24, 466);
        } else if v == 13 {
            lemma_layout(v, ec, 4, 26, 532);
        } else if v == 14 {
            lemma_layout(v, ec, 4, 30, 581);
        } else if v == 15 {
            lemma_layout(v, ec, 6, 22, 655);
        } else if v == 16 {
            lemma_layout(v, ec, 6, 24, 733);
        } else if v == 17 {
            lemma_layout(v, ec, 6, 28, 815);
        } else if v == 18 {
            lemma_layout(v, ec, 6, 30, 901);
        } else if v == 19 {
            lemma_layout(v, ec, 7, 28, 991);
        } else if v == 20 {
            lemma_layout(v, ec, 8, 28, 1085);
        } else if v == 21 {
            lemma_layout(v, ec, 8, 28, 1156);
        } else if v == 22 {
            lemma_layout(v, ec, 9, 28, 1258);
        } else if v == 23 {
            lemma_layout(v, ec, 9, 30, 1364);
        } else if v == 24 {
            lemma_layout(v, ec, 10, 30, 1474);
        } else if v == 25 {
            lemma_layout(v, ec, 12, 26, 1588);
        } else if v == 26 {
            lemma_layout(v, ec, 12, 28, 1706);
        } else if v == 27 {
            lemma_layout(v, ec, 12, 30, 1828);
        } else if v == 28 {
            lemma_layout(v, ec, 13, 30, 1921);
        } else if v == 29 {
            lemma_layout(v, ec, 14, 30, 2051);
        } else if v == 30 {
            lemma_layout(v, ec, 15, 30, 2185);
        } else if v == 31 {
            lemma_layout(v, ec, 16, 30, 2323);
        } else if v == 32 {
            lemma_layout(v, ec, 17, 30, 2465);
        } else if v == 33 {
            lemma_layout(v, ec, 18, 30, 2611);
        } else if v == 34 {
            lemma_layout(v, ec, 19, 30, 2761);
        } else if v == 35 {
            lemma_layout(v, ec, 19, 30, 2876);
        } else if v == 36 {
            lemma_layout(v, ec, 20, 30, 3034);
        } else if v == 37 {
            lemma_layout(v, ec, 21, 30, 3196);
        } else if v == 38 {
            lemma_layout(v, ec, 22, 30, 3362);
        } else if v == 39 {
            lemma_layout(v, ec, 24, 30, 3532);
        } else if v == 40 {
            lemma_layout(v, ec, 25, 30, 3706);
        }
    }
}

/// The block layouts of level M, version by version.
proof fn lemma_layout_medium(v: int)
    requires
        1 <= v <= 40,
    ensures
        layout_facts(v, ErrorCorrection::M),
{
    reveal(ecc_per_block_entry);
    reveal(block_count_entry);
    lemma_data_module_values(v);
    let ec = ErrorCorrection::M;
    {
        if v == 1 {
            lemma_layout(v, ec, 1, 10, 26);
        } else if v == 2 {
            lemma_layout(v, ec, 1, 16, 44);
        } else if v == 3 {
            lemma_layout(v, ec, 1, 26, 70);
        } else if v == 4 {
            lemma_layout(v, ec, 2, 18, 100);
        } else if v == 5 {
            lemma_layout(v, ec, 2, 24, 134);
        } else if v == 6 {
            lemma_layout(v, ec, 4, 16, 172);
        } else if v == 7 {
            lemma_layout(v, ec, 4, 18, 196);
        } else if v == 8 {
            lemma_layout(v, ec, 4, 22, 242);
        } else if v == 9 {
            lemma_layout(v, ec, 5, 22, 292);
        } else if v == 10 {
            lemma_layout(v, ec, 5, 26, 346);
        } else if v == 11 {
            lemma_layout(v, ec, 5, 30, 404);
        } else if v == 12 {
            lemma_layout(v, ec, 8, 22, 466);
        } else if v == 13 {
            lemma_layout(v, ec, 9, 22, 532);
        } else if v == 14 {
            lemma_layout(v, ec, 9, 24, 581);
        } else if v == 15 {
            lemma_layout(v, ec, 10, 24, 655);
        } else if v == 16 {
            lemma_layout(v, ec, 10, 28, 733);
        } else if v == 17 {
            lemma_layout(v, ec, 11, 28, 815);
        } else if v == 18 {
            lemma_layout(v, ec, 13, 26, 901);
        } else if v == 19 {
            lemma_layout(v, ec, 14, 26, 991);
        } else if v == 20 {
            lemma_layout(v, ec, 16, 26, 1085);
        } else if v == 21 {
            lemma_layout(v, ec, 17, 26, 1156);
        } else if v == 22 {
            lemma_layout(v, ec, 17, 28, 1258);
        } else if v == 23 {
            lemma_layout(v, ec, 18, 28, 1364);
        } else if v == 24 {
            lemma_layout(v, ec, 20, 28, 1474);
        } else if v == 25 {
            lemma_layout(v, ec, 21, 28, 1588);
        } else if v == 26 {
            lemma_layout(v, ec, 23, 28, 1706);
        } else if v == 27 {
            lemma_layout(v, ec, 25, 28, 1828);
        } else if v == 28 {
            lemma_layout(v, ec, 26, 28, 1921);
        } else if v == 29 {
            lemma_layout(v, ec, 28, 28, 2051);
        } else if v == 30 {
            lemma_layout(v, ec, 29, 28, 2185);
        } else if v == 31 {
            lemma_layout(v, ec, 31, 28, 2323);
        } else if v == 32 {
            lemma_layout(v, ec, 33, 28, 2465);
        } else if v == 33 {
            lemma_layout(v, ec, 35, 28, 2611);
        } else if v == 34 {
            lemma_layout(v, ec, 37, 28, 2761);
        } else if v == 35 {
            lemma_layout(v, ec, 38, 28, 2876);
        } else if v == 36 {
            lemma_layout(v, ec, 40, 28, 3034);
        } else if v == 37 {
            lemma_layout(v, ec, 43, 28, 3196);
        } else if v == 38 {
            lemma_layout(v, ec, 45, 28, 3362);
        } else if v == 39 {
            lemma_layout(v, ec, 47, 28, 3532);
        } else if v == 40 {
            lemma_layout(v, ec, 49, 28, 3706);
        }
    }
}

/// The block layouts of level Q, version by version.
proof fn lemma_layout_quartile(v: int)
    requires
        1 <= v <= 40,
    ensures
        layout_facts(v, ErrorCorrection::Q),
{
    reveal(ecc_per_block_entry);
    reveal(block_count_entry);
    lemma_data_module_values(v);
    let ec = ErrorCorrection::Q;
    {
        if v == 1 {
            lemma_layout(v, ec, 1, 13, 26);
        } else if v == 2 {
            lemma_layout(v, ec, 1, 22, 44);
        } else if v == 3 {
            lemma_layout(v, ec, 2, 18, 70);
        } else if v == 4 {
            lemma_layout(v, ec, 2, 26, 100);
        } else if v == 5 {
            lemma_layout(v, ec, 4, 18, 134);
        } else if v == 6 {
            lemma_layout(v, ec, 4, 24, 172);
        } else if v == 7 {
            lemma_layout(v, ec, 6, 18, 196);
        } else if v == 8 {
            lemma_layout(v, ec, 6, 22, 242);
        } else if v == 9 {
            lemma_layout(v, ec, 8, 20, 292);
        } else if v == 10 {
            lemma_layout(v, ec, 8, 24, 346);
        } else if v == 11 {
            lemma_layout(v, ec, 8, 28, 404);
        } else if v == 12 {
            lemma_layout(v, ec, 10, 26, 466);
        } else if v == 13 {
            lemma_layout(v, ec, 12, 24, 532);
        } else if v == 14 {
            lemma_layout(v, ec, 16, 20, 581);
        } else if v == 15 {
            lemma_layout(v, ec, 12, 30, 655);
        } else if v == 16 {
            lemma_layout(v, ec, 17, 24, 733);
        } else if v == 17 {
            lemma_layout(v, ec, 16, 28, 815);
        } else if v == 18 {
            lemma_layout(v, ec, 18, 28, 901);
        } else if v == 19 {
            lemma_layout(v, ec, 21, 26, 991);
        } else if v == 20 {
            lemma_layout(v, ec, 20, 30, 1085);
        } else if v == 21 {
            lemma_layout(v, ec, 23, 28, 1156);
        } else if v == 22 {
            lemma_layout(v, ec, 23, 30, 1258);
        } else if v == 23 {
            lemma_layout(v, ec, 25, 30, 1364);
        } else if v == 24 {
            lemma_layout(v, ec, 27, 30, 1474);
        } else if v == 25 {
            lemma_layout(v, ec, 29, 30, 1588);
        } else if v == 26 {
            lemma_layout(v, ec, 34, 28, 1706);
        } else if v == 27 {
            lemma_layout(v, ec, 34, 30, 1828);
        } else if v == 28 {
            lemma_layout(v, ec, 35, 30, 1921);
        } else if v == 29 {
            lemma_layout(v, ec, 38, 30, 2051);
        } else if v == 30 {
            lemma_layout(v, ec, 40, 30, 2185);
        } else if v == 31 {
            lemma_layout(v, ec, 43, 30, 2323);
        } else if v == 32 {
            lemma_layout(v, ec, 45, 30, 2465);
        } else if v == 33 {
            lemma_layout(v, ec, 48, 30, 2611);
        } else if v == 34 {
            lemma_layout(v, ec, 51, 30, 2761);
        } else if v == 35 {
            lemma_layout(v, ec, 53, 30, 2876);
        } else if v == 36 {
            lemma_layout(v, ec, 56, 30, 3034);
        } else if v == 37 {
            lemma_layout(v, ec, 59, 30, 3196);
        } else if v == 38 {
            lemma_layout(v, ec, 62, 30, 3362);
        } else if v == 39 {
            lemma_layout(v, ec, 65, 30, 3532);
        } else if v == 40 {
            lemma_layout(v, ec, 68, 30, 3706);
        }
    }
}

/// The block layouts of level H, version by version.
proof fn lemma_layout_high(v: int)
    requires
        1 <= v <= 40,
    ensures
        layout_facts(v, ErrorCorrection::H),
{
    reveal(ecc_per_block_entry);
    reveal(block_count_entry);
    lemma_data_module_values(v);
    let ec = ErrorCorrection::H;
    {
        if v == 1 {
            lemma_layout(v, ec, 1, 17, 26);
        } else if v == 2 {
            lemma_layout(v, ec, 1, 28, 44);
        } else if v == 3 {
            lemma_layout(v, ec, 2, 22, 70);
        } else if v == 4 {
            lemma_layout(v, ec, 4, 16, 100);
        } else if v == 5 {
            lemma_layout(v, ec, 4, 22, 134);
        } else if v == 6 {
            lemma_layout(v, ec, 4, 28, 172);
        } else if v == 7 {
            lemma_layout(v, ec, 5, 26, 196);
        } else if v == 8 {
            lemma_layout(v, ec, 6, 26, 242);
        } else if v == 9 {
            lemma_layout(v, ec, 8, 24, 292);
        } else if v == 10 {
            lemma_layout(v, ec, 8, 28, 346);
        } else if v == 11 {
            lemma_layout(v, ec, 11, 24, 404);
        } else if v == 12 {
            lemma_layout(v, ec, 11, 28, 466);
        } else if v == 13 {
            lemma_layout(v, ec, 16, 22, 532);
        } else if v == 14 {
            lemma_layout(v, ec, 16, 24, 581);
        } else if v == 15 {
            lemma_layout(v, ec, 18, 24, 655);
        } else if v == 16 {
            lemma_layout(v, ec, 16, 30, 733);
        } else if v == 17 {
            lemma_layout(v, ec, 19, 28, 815);
        } else if v == 18 {
            lemma_layout(v, ec, 21, 28, 901);
        } else if v == 19 {
            lemma_layout(v, ec, 25, 26, 991);
        } else if v == 20 {
            lemma_layout(v, ec, 25, 28, 1085);
        } else if v == 21 {
            lemma_layout(v, ec, 25, 30, 1156);
        } else if v == 22 {
            lemma_layout(v, ec, 34, 24, 1258);
        } else if v == 23 {
            lemma_layout(v, ec, 30, 30, 1364);
        } else if v == 24 {
            lemma_layout(v, ec, 32, 30, 1474);
        } else if v == 25 {
            lemma_layout(v, ec, 35, 30, 1588);
        } else if v == 26 {
            lemma_layout(v, ec, 37, 30, 1706);
        } else if v == 27 {
            lemma_layout(v, ec, 40, 30, 1828);
        } else if v == 28 {
            lemma_layout(v, ec, 42, 30, 1921);
        } else if v == 29 {
            lemma_layout(v, ec, 45, 30, 2051);
        } else if v == 30 {
            lemma_layout(v, ec, 48, 30, 2185);
        } else if v == 31 {
            lemma_layout(v, ec, 51, 30, 2323);
        } else if v == 32 {
            lemma_layout(v, ec, 54, 30, 2465);
        } else if v == 33 {
            lemma_layout(v, ec, 57, 30, 2611);
        } else if v == 34 {
            lemma_layout(v, ec, 60, 30, 2761);
        } else if v == 35 {
            lemma_layout(v, ec, 63, 30, 2876);
        } else if v == 36 {
            lemma_layout(v, ec, 66, 30, 3034);
        } else if v == 37 {
            lemma_layout(v, ec, 70, 30, 3196);
        } else if v == 38 {
            lemma_layout(v, ec, 74, 30, 3362);
        } else if v == 39 {
            lemma_layout(v, ec, 77, 30, 3532);
        } else if v == 40 {
            lemma_layout(v, ec, 81, 30, 3706);
        }
    }
}

/// Capacity consistency: the two groups of blocks hold exactly the data codewords,
/// and with their parity exactly the codewords that the data modules of the symbol
/// have room for.
pub proof fn lemma_capacity_consistency(version: Version, ec: ErrorCorrection)
    ensures
        ({
            let v = version.number();
            let b = block_layout(v, ec);
            &&& b.g1_blocks * b.g1_dc + b.g2_blocks * b.g2_dc == data_codewords(v, ec)
            &&& b.g1_blocks * (b.g1_dc + b.ecc_per_block) + b.g2_blocks * (b.g2_dc
                + b.ecc_per_block) == total_codewords(v)
            &&& total_codewords(v) == (version.side() * version.side() - function_module_count(v))
                / 8
        }),
{
    lemma_table_bounds(version.number(), ec);
}

/// The number of parity codewords in each block, from the table.
fn ecc_per_block_lookup(v: u8, ec: ErrorCorrection) -> (n: usize)
    ensures
        n == ecc_per_block(v as int, ec),
{
    reveal(ecc_per_block_entry);
    match ec {
        ErrorCorrection::L => match v {
            1 => 7, 2 => 10, 3 => 15, 4 => 20, 5 => 26, 6 => 18, 7 => 20, 8 => 24,
            9 => 30, 10 => 18, 11 => 20, 12 => 24, 13 => 26, 14 => 30, 15 => 22, 16 => 24,
            17 => 28, 18 => 30, 19 => 28, 20 => 28, 21 => 28, 22 => 28, 23 => 30, 24 => 30,
            25 => 26, 26 => 28, 27 => 30, 28 => 30, 29 => 30, 30 => 30, 31 => 30, 32 => 30,
            33 => 30, 34 => 30, 35 => 30, 36 => 30, 37 => 30, 38 => 30, 39 => 30, 40 => 30,
            _ => 0,
        },
        ErrorCorrection::M => match v {
            1 => 10, 2 => 16, 3 => 26, 4 => 18, 5 => 24, 6 => 16, 7 => 18, 8 => 22,
            9 => 22, 10 => 26, 11 => 30, 12 => 22, 13 => 22, 14 => 24, 15 => 24, 16 => 28,
            17 => 28, 18 => 26, 19 => 26, 20 => 26, 21 => 26, 22 => 28, 23 => 28, 24 => 28,
            25 => 28, 26 => 28, 27 => 28, 28 => 28, 29 => 28, 30 => 28, 31 => 28, 32 => 28,
            33 => 28, 34 => 28, 35 => 28, 36 => 28, 37 => 28, 38 => 28, 39 => 28, 40 => 28,
            _ => 0,
        },
        ErrorCorrection::Q => match v {
            1 => 13, 2 => 22, 3 => 18, 4 => 26, 5 => 18, 6 => 24, 7 => 18, 8 => 22,
            9 => 20, 10 => 24, 11 => 28, 12 => 26, 13 => 24, 14 => 20, 15 => 30, 16 => 24,
            17 => 28, 18 => 28, 19 => 26, 20 => 30, 21 => 28, 22 => 30, 23 => 30, 24 => 30,
            25 => 30, 26 => 28, 27 => 30, 28 => 30, 29 => 30, 30 => 30, 31 => 30, 32 => 30,
            33 => 30, 34 => 30, 35 => 30, 36 => 30, 37 => 30, 38 => 30, 39 => 30, 40 => 30,
            _ => 0,
        },
        ErrorCorrection::H => match v {
            1 => 17, 2 => 28, 3 => 22, 4 => 16, 5 => 22, 6 => 28, 7 => 26, 8 => 26,
            9 => 24, 10 => 28, 11 => 24, 12 => 28, 13 => 22, 14 => 24, 15 => 24, 16 => 30,
            17 => 28, 18 => 28, 19 => 26, 20 => 28, 21 => 30, 22 => 24, 23 => 30, 24 => 30,
            25 => 30, 26 => 30, 27 => 30, 28 => 30, 29 => 30, 30 => 30, 31 => 30, 32 => 30,
            33 => 30, 34 => 30, 35 => 30, 36 => 30, 37 => 30, 38 => 30, 39 => 30, 40 => 30,
            _ => 0,
        },
    }
}

/// The number of blocks, from the table.
fn block_count_lookup(v: u8, ec: ErrorCorrection) -> (n: usize)
    ensures
        n == block_count(v as int, ec),
{
    reveal(block_count_entry);
    match ec {
        ErrorCorrection::L => match v {
            1 => 1, 2 => 1, 3 => 1, 4 => 1, 5 => 1, 6 => 2, 7 => 2, 8 => 2,
            9 => 2, 10 => 4, 11 => 4, 12 => 4, 13 => 4, 14 => 4, 15 => 6, 16 => 6,
            17 => 6, 18 => 6, 19 => 7, 20 => 8, 21 => 8, 22 => 9, 23 => 9, 24 => 10,
            25 => 12, 26 => 12, 27 => 12, 28 => 13, 29 => 14, 30 => 15, 31 => 16, 32 => 17,
            33 => 18, 34 => 19, 35 => 19, 36 => 20, 37 => 21, 38 => 22, 39 => 24, 40 => 25,
            _ => 0,
        },
        ErrorCorrection::M => match v {
            1 => 1, 2 => 1, 3 => 1, 4 => 2, 5 => 2, 6 => 4, 7 => 4, 8 => 4,
            9 => 5, 10 => 5, 11 => 5, 12 => 8, 13 => 9, 14 => 9, 15 => 10, 16 => 10,
            17 => 11, 18 => 13, 19 => 14, 20 => 16, 21 => 17, 22 => 17, 23 => 18, 24 => 20,
            25 => 21, 26 => 23, 27 => 25, 28 => 26, 29 => 28, 30 => 29, 31 => 31, 32 => 33,
            33 => 35, 34 => 37, 35 => 38, 36 => 40, 37 => 43, 38 => 45, 39 => 47, 40 => 49,
            _ => 0,
        },
        ErrorCorrection::Q => match v {
            1 => 1, 2 => 1, 3 => 2, 4 => 2, 5 => 4, 6 => 4, 7 => 6, 8 => 6,
            9 => 8, 10 => 8, 11 => 8, 12 => 10, 13 => 12, 14 => 16, 15 => 12, 16 => 17,
            17 => 16, 18 => 18, 19 => 21, 20 => 20, 21 => 23, 22 => 23, 23 => 25, 24 => 27,
            25 => 29, 26 => 34, 27 => 34, 28 => 35, 29 => 38, 30 => 40, 31 => 43, 32 => 45,
            33 => 48, 34 => 51, 35 => 53, 36 => 56, 37 => 59, 38 => 62, 39 => 65, 40 => 68,
            _ => 0,
        },
        ErrorCorrection::H => match v {
            1 => 1, 2 => 1, 3 => 2, 4 => 4, 5 => 4, 6 => 4, 7 => 5, 8 => 6,
            9 => 8, 10 => 8, 11 => 11, 12 => 11, 13 => 16, 14 => 16, 15 => 18, 16 => 16,
            17 => 19, 18 => 21, 19 => 25, 20 => 25, 21 => 25, 22 => 34, 23 => 30, 24 => 32,
            25 => 35, 26 => 37, 27 => 40, 28 => 42, 29 => 45, 30 => 48, 31 => 51, 32 => 54,
            33 => 57, 34 => 60, 35 => 63, 36 => 66, 37 => 70, 38 => 74, 39 => 77, 40 => 81,
            _ => 0,
        },
    }
}

/// The number of modules that carry data or parity bits.
pub fn get_data_module_count(version: Version) -> (n: usize)
    ensures
        n == data_module_count(version.number()),
        208 <= n <= 29648,
{
    proof {
        lemma_data_module_values(version.number());
    }
    match version {
        Version::V1 => 208, Version::V2 => 359, Version::V3 => 567, Version::V4 => 807,
        Version::V5 => 1079, Version::V6 => 1383, Version::V7 => 1568, Version::V8 => 1936,
        Version::V9 => 2336, Version::V10 => 2768, Version::V11 => 3232, Version::V12 => 3728,
        Version::V13 => 4256, Version::V14 => 4651, Version::V15 => 5243, Version::V16 => 5867,
        Version::V17 => 6523, Version::V18 => 7211, Version::V19 => 7931, Version::V20 => 8683,
        Version::V21 => 9252, Version::V22 => 10068, Version::V23 => 10916, Version::V24 => 11796,
        Version::V25 => 12708, Version::V26 => 13652, Version::V27 => 14628, Version::V28 => 15371,
        Version::V29 => 16411, Version::V30 => 17483, Version::V31 => 18587, Version::V32 => 19723,
        Version::V33 => 20891, Version::V34 => 22091, Version::V35 => 23008, Version::V36 => 24272,
        Version::V37 => 25568, Version::V38 => 26896, Version::V39 => 28256, Version::V40 => 29648,
    }
}

/// The number of codewords of a symbol, data and parity together.
pub fn get_total_codewords(version: Version) -> (n: usize)
    ensures
        n == total_codewords(version.number()),
{
    get_data_module_count(version) / 8
}

/// The number of modules that are left over after the last codeword.
pub fn get_remainder_bits(version: Version) -> (n: usize)
    ensures
        n == remainder_bits(version.number()),
{
    get_data_module_count(version) % 8
}

/// The number of parity codewords over all blocks.
pub fn get_ecc_codewords(version: Version, error_correction: ErrorCorrection) -> (n: usize)
    ensures
        n == ecc_codewords(version.number(), error_correction),
{
    let v: u8 = version.to_u8();
    proof {
        lemma_table_bounds(v as int, error_correction);
    }
    let blocks: usize = block_count_lookup(v, error_correction);
    let per_block: usize = ecc_per_block_lookup(v, error_correction);
    assert(blocks * per_block <= 81 * 30) by (nonlinear_arith)
        requires
            blocks <= 81,
            per_block <= 30,
    ;
    blocks * per_block
}

/// The number of data codewords.
pub fn get_data_codewords(version: Version, error_correction: ErrorCorrection) -> (n: usize)
    ensures
        n == data_codewords(version.number(), error_correction),
        9 <= n <= 2956,
{
    proof {
        lemma_table_bounds(version.number(), error_correction);
    }
    get_total_codewords(version) - get_ecc_codewords(version, error_correction)
}

/// The number of bits that the data codewords offer.
pub fn get_data_capacity_in_bits(version: Version, error_correction: ErrorCorrection) -> (n: usize)
    ensures
        n == 8 * data_codewords(version.number(), error_correction),
        72 <= n <= 23648,
{
    8 * get_data_codewords(version, error_correction)
}

/// The block layout as `(g1_blocks, g1_dc, g2_blocks, g2_dc, ecc_per_block)`.
pub fn get_block_info(version: Version, error_correction: ErrorCorrection) -> (info: (
    usize,
    usize,
    usize,
    usize,
    usize,
))
    ensures
        ({
            let b = block_layout(version.number(), error_correction);
            &&& info.0 == b.g1_blocks
            &&& info.1 == b.g1_dc
            &&& info.2 == b.g2_blocks
            &&& info.3 == b.g2_dc
            &&& info.4 == b.ecc_per_block
        }),
{
    let v: u8 = version.to_u8();
    proof {
        lemma_table_bounds(v as int, error_correction);
    }
    let blocks: usize = block_count_lookup(v, error_correction);
    let per_block: usize = ecc_per_block_lookup(v, error_correction);
    let data: usize = get_data_codewords(version, error_correction);
    let long_blocks: usize = data % blocks;
    let short_len: usize = data / blocks;
    let long_len: usize = if long_blocks > 0 {
        short_len + 1
    } else {
        0
    };
    (blocks - long_blocks, short_len, long_blocks, long_len, per_block)
}

/// The width in bits of the character count.
pub fn get_length_bits(version: Version, mode: DataMode) -> (n: usize)
    ensures
        n == length_bits(version.number(), mode),
        8 <= n <= 16,
{
    let v: u8 = version.to_u8();
    match mode {
        DataMode::Numeric => if v <= 9 {
            10
        } else if v <= 26 {
            12
        } else {
            14
        },
        DataMode::Alphanumeric => if v <= 9 {
            9
        } else if v <= 26 {
            11
        } else {
            13
        },
        DataMode::Byte => if v <= 9 {
            8
        } else {
            16
        },
    }
}

/// The largest number of characters that a symbol of the given version and level
/// holds in the given mode.
pub fn get_data_capacity(
    version: Version,
    error_correction: ErrorCorrection,
    data_mode: DataMode,
) -> (n: usize)
    ensures
        n == data_capacity(version.number(), error_correction, data_mode),
        n <= 7092,
{
    let bits: usize = get_data_capacity_in_bits(version, error_correction);
    let available: usize = bits - 4 - get_length_bits(version, data_mode);
    match data_mode {
        DataMode::Numeric => {
            let rest: usize = available % 10;
            3 * (available / 10) + (if rest >= 7 {
                2
            } else if rest >= 4 {
                1
            } else {
                0
            })
        },
        DataMode::Alphanumeric => {
            let rest: usize = available % 11;
            2 * (available / 11) + (if rest >= 6 {
                1
            } else {
                0
            })
        },
        DataMode::Byte => available / 8,
    }
}

} // verus!
