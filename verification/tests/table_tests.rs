use qr_tools::alignment::{get_alignment_positions, is_alignment_pattern};
use qr_tools::analyzer::get_total_capacity;
use qr_tools::bits::{bits_to_u16, bits_to_u8};
use qr_tools::ecc_data::{
    get_block_info, get_data_capacity, get_data_capacity_in_bits, get_data_codewords,
    get_data_module_count, get_ecc_codewords, get_length_bits, get_remainder_bits,
    get_total_codewords,
};
use qr_tools::format::{get_format_info, get_version_info};
use qr_tools::gf256::{gf_add, gf_divide, gf_exp, gf_log, gf_multiply};
use qr_tools::pixel_mapping::{
    get_data_ecc_positions, is_function_module, size_to_version, version_to_size,
};
use qr_tools::types::{DataMode, ErrorCorrection, MaskPattern, OutputFormat, QrConfig, Version};

fn all_versions() -> Vec<Version> {
    (1..=40u8).map(|n| Version::from_u8(n).unwrap()).collect()
}

const LEVELS: [ErrorCorrection; 4] =
    [ErrorCorrection::L, ErrorCorrection::M, ErrorCorrection::Q, ErrorCorrection::H];

const MASKS: [MaskPattern; 8] = [
    MaskPattern::Pattern0,
    MaskPattern::Pattern1,
    MaskPattern::Pattern2,
    MaskPattern::Pattern3,
    MaskPattern::Pattern4,
    MaskPattern::Pattern5,
    MaskPattern::Pattern6,
    MaskPattern::Pattern7,
];

#[test]
fn versions_and_sizes_agree() {
    assert_eq!(Version::V1.size(), 21);
    assert_eq!(Version::V7.size(), 45);
    assert_eq!(Version::V40.size(), 177);
    assert_eq!(Version::from_u8(0), None);
    assert_eq!(Version::from_u8(41), None);
    assert_eq!(Version::from_u8(13), Some(Version::V13));
    for version in all_versions() {
        let size = version_to_size(version);
        assert_eq!(size, 17 + 4 * version.to_u8() as usize);
        assert_eq!(size, version.size());
        assert_eq!(size_to_version(size), Some(version));
    }
    for size in [0usize, 17, 20, 22, 23, 24, 178, 181] {
        assert_eq!(size_to_version(size), None);
    }
}

#[test]
fn total_codewords_are_those_of_the_standard() {
    let expected = [
        26, 44, 70, 100, 134, 172, 196, 242, 292, 346, 404, 466, 532, 581, 655, 733, 815, 901,
        991, 1085, 1156, 1258, 1364, 1474, 1588, 1706, 1828, 1921, 2051, 2185, 2323, 2465, 2611,
        2761, 2876, 3034, 3196, 3362, 3532, 3706,
    ];
    for (version, &total) in all_versions().into_iter().zip(expected.iter()) {
        assert_eq!(get_total_codewords(version), total);
    }
    let remainders = [
        0, 7, 7, 7, 7, 7, 0, 0, 0, 0, 0, 0, 0, 3, 3, 3, 3, 3, 3, 3, 4, 4, 4, 4, 4, 4, 4, 3, 3, 3,
        3, 3, 3, 3, 0, 0, 0, 0, 0, 0,
    ];
    for (version, &remainder) in all_versions().into_iter().zip(remainders.iter()) {
        assert_eq!(get_remainder_bits(version), remainder);
        assert_eq!(
            get_data_module_count(version),
            8 * get_total_codewords(version) + remainder
        );
    }
}

#[test]
fn ecc_codewords_are_those_of_the_standard() {
    let low = [7, 10, 15, 20, 26, 36, 40, 48, 60, 72];
    let medium = [10, 16, 26, 36, 48, 64, 72, 88, 110, 130];
    let quartile = [13, 22, 36, 52, 72, 96, 108, 132, 160, 192];
    let high = [17, 28, 44, 64, 88, 112, 130, 156, 192, 224];
    for i in 0..10 {
        let version = Version::from_u8(i as u8 + 1).unwrap();
        assert_eq!(get_ecc_codewords(version, ErrorCorrection::L), low[i]);
        assert_eq!(get_ecc_codewords(version, ErrorCorrection::M), medium[i]);
        assert_eq!(get_ecc_codewords(version, ErrorCorrection::Q), quartile[i]);
        assert_eq!(get_ecc_codewords(version, ErrorCorrection::H), high[i]);
    }
    assert_eq!(get_ecc_codewords(Version::V40, ErrorCorrection::L), 750);
    assert_eq!(get_ecc_codewords(Version::V40, ErrorCorrection::M), 1372);
    assert_eq!(get_ecc_codewords(Version::V40, ErrorCorrection::Q), 2040);
    assert_eq!(get_ecc_codewords(Version::V40, ErrorCorrection::H), 2430);
}

#[test]
fn character_capacities_are_those_of_the_standard() {
    let numeric_low = [41, 77, 127, 187, 255, 322, 370, 461, 552, 652];
    let numeric_high = [17, 34, 58, 82, 106, 139, 154, 202, 235, 288];
    let alphanumeric_medium = [20, 38, 61, 90, 122, 154, 178, 221, 262, 311];
    let alphanumeric_quartile = [16, 29, 47, 67, 87, 108, 125, 157, 189, 221];
    let byte_low = [17, 32, 53, 78, 106, 134, 154, 192, 230, 271];
    let byte_high = [7, 14, 24, 34, 44, 58, 64, 84, 98, 119];
    for i in 0..10 {
        let version = Version::from_u8(i as u8 + 1).unwrap();
        assert_eq!(get_data_capacity(version, ErrorCorrection::L, DataMode::Numeric), numeric_low[i]);
        assert_eq!(get_data_capacity(version, ErrorCorrection::H, DataMode::Numeric), numeric_high[i]);
        assert_eq!(
            get_data_capacity(version, ErrorCorrection::M, DataMode::Alphanumeric),
            alphanumeric_medium[i]
        );
        assert_eq!(
            get_data_capacity(version, ErrorCorrection::Q, DataMode::Alphanumeric),
            alphanumeric_quartile[i]
        );
        assert_eq!(get_data_capacity(version, ErrorCorrection::L, DataMode::Byte), byte_low[i]);
        assert_eq!(get_data_capacity(version, ErrorCorrection::H, DataMode::Byte), byte_high[i]);
    }
    assert_eq!(get_data_capacity(Version::V40, ErrorCorrection::L, DataMode::Numeric), 7089);
    assert_eq!(get_data_capacity(Version::V40, ErrorCorrection::L, DataMode::Alphanumeric), 4296);
    assert_eq!(get_data_capacity(Version::V40, ErrorCorrection::L, DataMode::Byte), 2953);
    assert_eq!(get_data_capacity(Version::V40, ErrorCorrection::H, DataMode::Byte), 1273);
    assert_eq!(get_data_capacity(Version::V27, ErrorCorrection::M, DataMode::Numeric), 2701);
    assert_eq!(get_data_capacity_in_bits(Version::V1, ErrorCorrection::L), 152);
    assert_eq!(get_data_capacity_in_bits(Version::V40, ErrorCorrection::H), 10208);
}

#[test]
fn length_bits_follow_the_version_buckets() {
    let cases = [
        (Version::V1, 10, 9, 8),
        (Version::V9, 10, 9, 8),
        (Version::V10, 12, 11, 16),
        (Version::V26, 12, 11, 16),
        (Version::V27, 14, 13, 16),
        (Version::V40, 14, 13, 16),
    ];
    for (version, numeric, alphanumeric, byte) in cases {
        assert_eq!(get_length_bits(version, DataMode::Numeric), numeric);
        assert_eq!(get_length_bits(version, DataMode::Alphanumeric), alphanumeric);
        assert_eq!(get_length_bits(version, DataMode::Byte), byte);
    }
}

#[test]
fn block_layouts_account_for_every_codeword() {
    assert_eq!(get_block_info(Version::V1, ErrorCorrection::L), (1, 19, 0, 0, 7));
    assert_eq!(get_block_info(Version::V1, ErrorCorrection::H), (1, 9, 0, 0, 17));
    assert_eq!(get_block_info(Version::V3, ErrorCorrection::Q), (2, 17, 0, 0, 18));
    assert_eq!(get_block_info(Version::V4, ErrorCorrection::H), (4, 9, 0, 0, 16));
    assert_eq!(get_block_info(Version::V5, ErrorCorrection::Q), (2, 15, 2, 16, 18));
    assert_eq!(get_block_info(Version::V5, ErrorCorrection::H), (2, 11, 2, 12, 22));
    assert_eq!(get_block_info(Version::V40, ErrorCorrection::L), (19, 118, 6, 119, 30));
    assert_eq!(get_block_info(Version::V40, ErrorCorrection::H), (20, 15, 61, 16, 30));
    for version in all_versions() {
        for level in LEVELS {
            let (g1, g1_dc, g2, g2_dc, ecc) = get_block_info(version, level);
            assert_eq!(g1 * g1_dc + g2 * g2_dc, get_data_codewords(version, level));
            assert_eq!(
                g1 * (g1_dc + ecc) + g2 * (g2_dc + ecc),
                get_total_codewords(version)
            );
            assert_eq!((g1 + g2) * ecc, get_ecc_codewords(version, level));
            assert_eq!(get_total_codewords(version), get_data_module_count(version) / 8);
            if g2 > 0 {
                assert_eq!(g2_dc, g1_dc + 1);
            }
        }
    }
}

#[test]
fn alignment_centres_are_those_of_the_standard() {
    assert_eq!(get_alignment_positions(Version::V1), Vec::<usize>::new());
    assert_eq!(get_alignment_positions(Version::V2), vec![6, 18]);
    assert_eq!(get_alignment_positions(Version::V7), vec![6, 22, 38]);
    assert_eq!(get_alignment_positions(Version::V13), vec![6, 34, 62]);
    assert_eq!(get_alignment_positions(Version::V14), vec![6, 26, 46, 66]);
    assert_eq!(get_alignment_positions(Version::V32), vec![6, 34, 60, 86, 112, 138]);
    assert_eq!(get_alignment_positions(Version::V40), vec![6, 30, 58, 86, 114, 142, 170]);
    for version in all_versions() {
        let centres = get_alignment_positions(version);
        let number = version.to_u8() as usize;
        assert_eq!(centres.len(), if number == 1 { 0 } else { number / 7 + 2 });
        if number > 1 {
            assert_eq!(centres[0], 6);
            assert_eq!(*centres.last().unwrap(), version.size() - 7);
        }
    }
}

#[test]
fn alignment_patterns_leave_out_the_finder_corners() {
    // Version 2 has the one pattern centred at (18, 18).
    for d in 0..5 {
        assert!(is_alignment_pattern(16 + d, 16, Version::V2));
        assert!(is_alignment_pattern(20, 16 + d, Version::V2));
    }
    assert!(!is_alignment_pattern(15, 18, Version::V2));
    assert!(!is_alignment_pattern(21, 18, Version::V2));
    assert!(!is_alignment_pattern(6, 6, Version::V2));
    assert!(!is_alignment_pattern(18, 6, Version::V2));
    assert!(!is_alignment_pattern(6, 18, Version::V2));
    // Version 7 has patterns on the timing lines, but none in the corners.
    assert!(is_alignment_pattern(22, 6, Version::V7));
    assert!(is_alignment_pattern(6, 22, Version::V7));
    assert!(is_alignment_pattern(38, 38, Version::V7));
    assert!(!is_alignment_pattern(38, 6, Version::V7));
    assert!(!is_alignment_pattern(6, 38, Version::V7));
    assert!(!is_alignment_pattern(10, 10, Version::V1));
}

#[test]
fn function_modules_of_version_one() {
    let size = 21;
    let mut count = 0;
    for row in 0..size {
        for col in 0..size {
            let expected = (row < 9 && col < 9)
                || (row < 9 && col >= 13)
                || (row >= 13 && col < 9)
                || row == 6
                || col == 6;
            assert_eq!(is_function_module(row, col, size), expected, "({}, {})", row, col);
            if expected {
                count += 1;
            }
        }
    }
    assert_eq!(size * size - count, 208);
    assert!(!is_function_module(0, 0, 22));
    assert!(!is_function_module(21, 0, 21));
    assert!(!is_function_module(0, 21, 21));
    // Version blocks exist from version 7 on.
    assert!(is_function_module(0, 34, 45));
    assert!(is_function_module(36, 5, 45));
    assert!(!is_function_module(0, 30, 41));
}

#[test]
fn the_sweep_visits_every_data_module_once() {
    for version in all_versions() {
        let size = version.size();
        let positions = get_data_ecc_positions(version);
        assert_eq!(
            positions.len(),
            8 * get_total_codewords(version) + get_remainder_bits(version)
        );
        let mut seen = vec![vec![false; size]; size];
        for &(row, col) in &positions {
            assert!(row < size && col < size);
            assert!(!is_function_module(row, col, size));
            assert!(!seen[row][col]);
            seen[row][col] = true;
        }
        for row in 0..size {
            for col in 0..size {
                assert_eq!(seen[row][col], !is_function_module(row, col, size));
            }
        }
    }
}

#[test]
fn the_sweep_starts_in_the_lower_right_corner_and_goes_up() {
    let positions = get_data_ecc_positions(Version::V1);
    assert_eq!(&positions[..6], &[(20, 20), (20, 19), (19, 20), (19, 19), (18, 20), (18, 19)]);
    // The second strip comes down again from below the upper right finder pattern.
    assert_eq!(positions[24], (9, 18));
    assert_eq!(positions[25], (9, 17));
    assert_eq!(positions[26], (10, 18));
    // The last strip comes down beside the timing column and ends above the lower left finder.
    assert_eq!(*positions.last().unwrap(), (12, 0));
}

#[test]
fn format_words_are_those_of_the_standard() {
    let expected: [[u16; 8]; 4] = [
        [
            0b111011111000100, 0b111001011110011, 0b111110110101010, 0b111100010011101,
            0b110011000101111, 0b110001100011000, 0b110110001000001, 0b110100101110110,
        ],
        [
            0b101010000010010, 0b101000100100101, 0b101111001111100, 0b101101101001011,
            0b100010111111001, 0b100000011001110, 0b100111110010111, 0b100101010100000,
        ],
        [
            0b011010101011111, 0b011000001101000, 0b011111100110001, 0b011101000000110,
            0b010010010110100, 0b010000110000011, 0b010111011011010, 0b010101111101101,
        ],
        [
            0b001011010001001, 0b001001110111110, 0b001110011100111, 0b001100111010000,
            0b000011101100010, 0b000001001010101, 0b000110100001100, 0b000100000111011,
        ],
    ];
    for (l, &level) in LEVELS.iter().enumerate() {
        for (m, &mask) in MASKS.iter().enumerate() {
            assert_eq!(get_format_info(level, mask), expected[l][m]);
        }
    }
}

#[test]
fn version_words_are_those_of_the_standard() {
    let expected = [
        0x07C94, 0x085BC, 0x09A99, 0x0A4D3, 0x0BBF6, 0x0C762, 0x0D847, 0x0E60D, 0x0F928,
        0x10B78, 0x1145D, 0x12A17, 0x13532, 0x149A6,
    ];
    for (i, &word) in expected.iter().enumerate() {
        let version = Version::from_u8(7 + i as u8).unwrap();
        assert_eq!(get_version_info(version), Some(word));
    }
    assert_eq!(get_version_info(Version::V40), Some(0x28C69));
    assert_eq!(get_version_info(Version::V6), None);
    assert_eq!(get_version_info(Version::V1), None);
}

#[test]
fn field_arithmetic_follows_the_tables() {
    assert_eq!(gf_add(0x53, 0xCA), 0x99);
    assert_eq!(gf_exp(0), 1);
    assert_eq!(gf_exp(1), 2);
    assert_eq!(gf_exp(8), 0x1D);
    assert_eq!(gf_exp(254), 0x8E);
    assert_eq!(gf_exp(255), 1);
    assert_eq!(gf_exp(256), 2);
    assert_eq!(gf_log(1), 0);
    assert_eq!(gf_log(2), 1);
    assert_eq!(gf_log(0x1D), 8);
    assert_eq!(gf_multiply(0, 7), 0);
    assert_eq!(gf_multiply(7, 0), 0);
    assert_eq!(gf_multiply(1, 0xAB), 0xAB);
    assert_eq!(gf_multiply(2, 0x80), 0x1D);
    assert_eq!(gf_multiply(3, 7), 9);
    assert_eq!(gf_multiply(0x10, 0x10), 0x1D);
    assert_eq!(gf_divide(0, 5), 0);
    assert_eq!(gf_divide(0x1D, 0x80), 2);
    for a in 1..=255u8 {
        assert_eq!(gf_exp(gf_log(a)), a);
        assert_eq!(gf_multiply(a, gf_divide(1, a)), 1);
        for b in [1u8, 2, 3, 0x1D, 0x80, 0xFF] {
            assert_eq!(gf_divide(gf_multiply(a, b), b), a);
            assert_eq!(gf_multiply(a, b), gf_multiply(b, a));
            assert_eq!(
                gf_multiply(a, gf_add(b, 0x35)),
                gf_add(gf_multiply(a, b), gf_multiply(a, 0x35))
            );
        }
    }
}

#[test]
fn default_configuration() {
    let config = QrConfig::default();
    assert_eq!(config.error_correction, ErrorCorrection::M);
    assert_eq!(config.data_mode, DataMode::Byte);
    assert_eq!(config.mask_pattern, MaskPattern::Pattern0);
    assert!(!config.skip_mask);
    assert_eq!(config.output_filename, "qr-code.png");
    assert_eq!(config.output_format, OutputFormat::Png);
    assert_eq!(config.data, "https://www.example.com/");
    assert!(!config.verbose);
    assert_eq!(MaskPattern::default(), MaskPattern::Pattern0);
    assert_eq!(MaskPattern::from_u8(5), Some(MaskPattern::Pattern5));
    assert_eq!(MaskPattern::from_u8(8), None);
    assert_eq!(MaskPattern::Pattern7.to_u8(), 7);
}

#[test]
fn total_capacity_counts_data_and_parity_bits() {
    assert_eq!(get_total_capacity(Version::V1, ErrorCorrection::L), 19 * 8 + 7 * 8);
    assert_eq!(get_total_capacity(Version::V1, ErrorCorrection::H), 208);
    assert_eq!(get_total_capacity(Version::V7, ErrorCorrection::Q), 196 * 8);
    assert_eq!(get_total_capacity(Version::V40, ErrorCorrection::H), 3706 * 8);
}

#[test]
fn short_words_are_read_most_significant_bit_first() {
    assert_eq!(bits_to_u8(&[]), 0);
    assert_eq!(bits_to_u8(&[1, 0, 1]), 5);
    assert_eq!(bits_to_u8(&[1, 1, 1, 1, 1, 1, 1, 1]), 255);
    assert_eq!(bits_to_u8(&[0, 1, 0, 0, 0, 0, 0, 0]), 64);
    assert_eq!(bits_to_u16(&[1, 0, 0, 0, 0, 0, 0, 0, 0]), 256);
    assert_eq!(bits_to_u16(&[1; 16]), 65535);
    assert_eq!(bits_to_u16(&[0, 0, 0, 0, 0, 0, 1, 0, 1, 1]), 11);
}
