use qr_tools::analyzer::{analyze_qr_code, get_alignment_pattern_positions};
use qr_tools::bits::{append_bits, bits_to_bytes, bits_to_usize, bytes_to_bits};
use qr_tools::blocks::{
    deinterleave, generate_ecc_bits, get_layout, interleave_data, interleave_data_bits,
    interleave_parity, split_blocks,
};
use qr_tools::decoder::{decode, decode_format_info, DecodeError};
use qr_tools::ecc::{
    calculate_syndromes, correct_errors, generate_ecc, settle_correction, CorrectionResult,
};
use qr_tools::encoding::{alphanumeric_value, encode_data, EncodeError};
use qr_tools::format::{
    bch_syndrome, correct_format_info, correct_version_info, decode_format_bits, get_format_info,
    get_version_info,
};
use qr_tools::generator::{
    add_alignment_patterns, add_dark_module, add_format_info, add_position_pattern,
    add_timing_patterns, add_version_info, generate_qr_matrix, place_data_bits,
};
use qr_tools::locator::{
    berlekamp_massey, chien_search, forney_algorithm, try_single_error_correction,
};
use qr_tools::mask::{apply_mask, apply_mask_to_bit, get_mask_bit};
use qr_tools::matrix::new_matrix;
use qr_tools::parser::{decode_data_bits, decode_data_from_bytes};
use qr_tools::pixel_mapping::{get_data_ecc_positions, is_function_module};
use qr_tools::reader::{
    analyze_dark_module, analyze_finder_patterns, analyze_timing_patterns,
    check_alignment_pattern, read_data_bits, read_format_info, read_version_info,
};
use qr_tools::types::{DataMode, ErrorCorrection, MaskPattern, QrConfig, Version};

const LEVELS: [ErrorCorrection; 4] =
    [ErrorCorrection::L, ErrorCorrection::M, ErrorCorrection::Q, ErrorCorrection::H];

const MASKS: [MaskPattern; 8] = [
    MaskPattern::Pattern0,
    MaskPattern::Pattern1,
    MaskPattern::Pattern2,
    MaskPattern::Pattern3,
    MaskPattern::Pattern4,
    MaskPattern::Pattern5,
    MaskPattern::Pattern6,
    MaskPattern::Pattern7,
];

fn config(ec: ErrorCorrection, mode: DataMode, mask: MaskPattern) -> QrConfig {
    let mut c = QrConfig::default();
    c.error_correction = ec;
    c.data_mode = mode;
    c.mask_pattern = mask;
    c
}

fn bits_of_str(s: &str) -> Vec<u8> {
    s.chars().filter(|c| *c == '0' || *c == '1').map(|c| if c == '1' { 1 } else { 0 }).collect()
}

#[test]
fn masking_twice_gives_the_symbol_back() {
    let c = config(ErrorCorrection::M, DataMode::Byte, MaskPattern::Pattern0);
    for text in ["mask me", "a rather longer text that needs a symbol of version four or so....."] {
        let original = generate_qr_matrix(text, &c).unwrap();
        for &mask in &MASKS {
            let mut matrix = original.clone();
            apply_mask(&mut matrix, mask);
            assert_ne!(matrix, original);
            apply_mask(&mut matrix, mask);
            assert_eq!(matrix, original);
        }
    }
}

#[test]
fn masking_leaves_function_modules_alone() {
    let c = config(ErrorCorrection::L, DataMode::Byte, MaskPattern::Pattern0);
    let text: String = std::iter::repeat('v').take(150).collect();
    let original = generate_qr_matrix(&text, &c).unwrap();
    let size = original.len();
    assert_eq!(size, 45);
    for &mask in &MASKS {
        let mut matrix = original.clone();
        apply_mask(&mut matrix, mask);
        for row in 0..size {
            for col in 0..size {
                if is_function_module(row, col, size) {
                    assert_eq!(matrix[row][col], original[row][col]);
                } else {
                    let toggled = get_mask_bit(mask, row, col);
                    assert_eq!(matrix[row][col] != original[row][col], toggled);
                }
            }
        }
    }
}

#[test]
fn mask_patterns_follow_their_conditions() {
    let expected_row_zero = [
        "101010", "111111", "100100", "100100", "111000", "111111", "111111", "101010",
    ];
    let expected_row_one = [
        "010101", "000000", "100100", "001001", "111000", "100000", "111000", "000111",
    ];
    for (m, &mask) in MASKS.iter().enumerate() {
        let row_zero: String =
            (0..6).map(|c| if get_mask_bit(mask, 0, c) { '1' } else { '0' }).collect();
        let row_one: String =
            (0..6).map(|c| if get_mask_bit(mask, 1, c) { '1' } else { '0' }).collect();
        assert_eq!(row_zero, expected_row_zero[m], "mask {} row 0", m);
        assert_eq!(row_one, expected_row_one[m], "mask {} row 1", m);
    }
    // Pattern 5 asks for both remainders to vanish, not for an even sum.
    assert!(!get_mask_bit(MaskPattern::Pattern5, 5, 5));
    assert!(get_mask_bit(MaskPattern::Pattern5, 3, 2));
    assert!(get_mask_bit(MaskPattern::Pattern6, 5, 5));
    assert_eq!(apply_mask_to_bit(1, 0, 0, MaskPattern::Pattern0), 0);
    assert_eq!(apply_mask_to_bit(0, 0, 0, MaskPattern::Pattern0), 1);
    assert_eq!(apply_mask_to_bit(1, 0, 1, MaskPattern::Pattern0), 1);
}

#[test]
fn format_bits_survive_up_to_three_flips() {
    for &level in &LEVELS {
        for &mask in &MASKS {
            let word = get_format_info(level, mask);
            assert_eq!(bch_syndrome(word ^ 0x5412), 0);
            assert_eq!(correct_format_info(word), Some((level, mask.to_u8())));
            assert_eq!(decode_format_info(word), Some((level, mask)));
            for i in 0..15 {
                assert_eq!(correct_format_info(word ^ (1 << i)), Some((level, mask.to_u8())));
                for j in (i + 1)..15 {
                    let two = word ^ (1 << i) ^ (1 << j);
                    assert_eq!(correct_format_info(two), Some((level, mask.to_u8())));
                    for k in (j + 1)..15 {
                        let three = two ^ (1 << k);
                        assert_eq!(correct_format_info(three), Some((level, mask.to_u8())));
                    }
                }
            }
        }
    }
}

#[test]
fn format_bits_with_four_flips_are_never_read_as_the_original() {
    let word = get_format_info(ErrorCorrection::Q, MaskPattern::Pattern6);
    let mut unreadable = 0;
    for i in 0..12 {
        let damaged = word ^ (0b1111 << i);
        match correct_format_info(damaged) {
            Some(found) => assert_ne!(found, (ErrorCorrection::Q, 6)),
            None => unreadable += 1,
        }
    }
    assert!(unreadable > 0);
    assert_eq!(correct_format_info(0), None);
}

#[test]
fn format_payload_is_level_then_mask() {
    assert_eq!(decode_format_bits(0b01011 << 10), Some((ErrorCorrection::L, 3)));
    assert_eq!(decode_format_bits(0b00000 << 10), Some((ErrorCorrection::M, 0)));
    assert_eq!(decode_format_bits(0b11111 << 10), Some((ErrorCorrection::Q, 7)));
    assert_eq!(decode_format_bits((0b10100 << 10) | 0x3FF), Some((ErrorCorrection::H, 4)));
    assert_eq!(bch_syndrome(0), 0);
    assert_eq!(bch_syndrome(0x537), 0);
    assert_eq!(bch_syndrome(1 << 10), 0x137);
    assert_eq!(bch_syndrome(1), 1);
}

#[test]
fn version_bits_survive_up_to_three_flips() {
    for number in 7..=40u8 {
        let version = Version::from_u8(number).unwrap();
        let word = get_version_info(version).unwrap();
        assert_eq!(correct_version_info(word), Some(version));
        for i in 0..18 {
            for j in (i + 1)..18 {
                let k = (i + 2 * j + 5) % 18;
                let damaged = word ^ (1 << i) ^ (1 << j) ^ (1 << k);
                assert_eq!(correct_version_info(damaged), Some(version));
            }
        }
    }
    assert_eq!(correct_version_info(0), None);
    assert_eq!(correct_version_info(0x07C94 ^ 0b1111), None);
}

#[test]
fn reed_solomon_repairs_up_to_half_the_parity() {
    let data: Vec<u8> = (0..40u8).map(|i| i.wrapping_mul(37).wrapping_add(11)).collect();
    for &t in &[7usize, 10, 13, 17, 22, 30] {
        let ecc = generate_ecc(&data, t);
        assert_eq!(ecc.len(), t);
        let mut codeword = data.clone();
        codeword.extend_from_slice(&ecc);
        assert!(calculate_syndromes(&codeword, t).iter().all(|&s| s == 0));
        match correct_errors(&codeword, t) {
            CorrectionResult::ErrorFree(found) => assert_eq!(found, data),
            other => panic!("expected no errors, got {:?}", other),
        }
        for errors in 1..=(t / 2) {
            let mut damaged = codeword.clone();
            let mut places = Vec::new();
            for e in 0..errors {
                let place = (e * 5 + errors) % codeword.len();
                if !places.contains(&place) {
                    damaged[place] ^= (e as u8).wrapping_mul(29).wrapping_add(1);
                    places.push(place);
                }
            }
            places.sort();
            assert!(calculate_syndromes(&damaged, t).iter().any(|&s| s != 0));
            match correct_errors(&damaged, t) {
                CorrectionResult::Corrected { data: found, error_positions, error_magnitudes } => {
                    assert_eq!(found, data, "t = {}, errors = {}", t, errors);
                    assert_eq!(error_positions, places);
                    for (k, &place) in places.iter().enumerate() {
                        assert_eq!(error_magnitudes[k], damaged[place] ^ codeword[place]);
                    }
                }
                other => panic!("expected a correction, got {:?}", other),
            }
        }
    }
}

#[test]
fn reed_solomon_never_hands_back_the_damaged_word() {
    let data: Vec<u8> = (0..20u8).collect();
    let t = 10;
    let ecc = generate_ecc(&data, t);
    let mut codeword = data.clone();
    codeword.extend_from_slice(&ecc);
    for errors in (t / 2 + 1)..=(t + 2) {
        let mut damaged = codeword.clone();
        for e in 0..errors {
            damaged[2 * e] ^= 0x55;
        }
        match correct_errors(&damaged, t) {
            CorrectionResult::ErrorFree(_) => panic!("a damaged word passed for a clean one"),
            CorrectionResult::Corrected { data: found, error_positions, .. } => {
                // A miscorrection: another codeword within reach, never the damaged word.
                assert_ne!(found, damaged[..data.len()].to_vec());
                assert!(error_positions.len() <= t / 2);
                let mut repaired = found.clone();
                repaired.extend_from_slice(&generate_ecc(&found, t));
                assert!(calculate_syndromes(&repaired, t).iter().all(|&s| s == 0));
            }
            CorrectionResult::Uncorrectable => {}
        }
    }
}

#[test]
fn correction_is_refused_outside_the_length_of_the_code() {
    assert!(matches!(correct_errors(&[1, 2, 3], 3), CorrectionResult::Uncorrectable));
    assert!(matches!(correct_errors(&[1, 2, 3], 5), CorrectionResult::Uncorrectable));
    assert!(matches!(correct_errors(&[], 0), CorrectionResult::Uncorrectable));
    match correct_errors(&[9, 8, 7], 0) {
        CorrectionResult::ErrorFree(found) => assert_eq!(found, vec![9, 8, 7]),
        other => panic!("expected no errors, got {:?}", other),
    }
    let long: Vec<u8> = (0..300).map(|i| (i % 251) as u8 + 1).collect();
    assert!(matches!(correct_errors(&long, 10), CorrectionResult::Uncorrectable));
}

#[test]
fn a_proposed_repair_is_taken_only_if_it_is_a_codeword_within_reach() {
    let data = vec![10u8, 20, 30, 40, 50, 60];
    let t = 4;
    let mut codeword = data.clone();
    codeword.extend_from_slice(&generate_ecc(&data, t));
    let mut received = codeword.clone();
    received[1] ^= 7;
    received[8] ^= 9;
    match settle_correction(&received, t, Some(codeword.clone())) {
        CorrectionResult::Corrected { data: found, error_positions, error_magnitudes } => {
            assert_eq!(found, data);
            assert_eq!(error_positions, vec![1, 8]);
            assert_eq!(error_magnitudes, vec![7, 9]);
        }
        other => panic!("expected a correction, got {:?}", other),
    }
    // Not a codeword.
    assert!(matches!(
        settle_correction(&received, t, Some(received.clone())),
        CorrectionResult::Uncorrectable
    ));
    // Of another length.
    assert!(matches!(
        settle_correction(&received, t, Some(codeword[1..].to_vec())),
        CorrectionResult::Uncorrectable
    ));
    // Too far away.
    let mut far = received.clone();
    far[3] ^= 1;
    assert!(matches!(
        settle_correction(&far, t, Some(codeword.clone())),
        CorrectionResult::Uncorrectable
    ));
    assert!(matches!(settle_correction(&received, t, None), CorrectionResult::Uncorrectable));
}

#[test]
fn the_locator_of_berlekamp_massey_finds_the_errors() {
    let data: Vec<u8> = (1..=20u8).collect();
    let t = 8;
    let mut codeword = data.clone();
    codeword.extend_from_slice(&generate_ecc(&data, t));
    let n = codeword.len();
    let mut damaged = codeword.clone();
    let places = [3usize, 11, 26];
    let magnitudes = [0x21u8, 0x05, 0xF0];
    for (k, &place) in places.iter().enumerate() {
        damaged[place] ^= magnitudes[k];
    }
    let syndromes = calculate_syndromes(&damaged, t);
    let locator = berlekamp_massey(&syndromes);
    assert_eq!(locator.len(), places.len() + 1);
    assert_eq!(locator[0], 1);
    // The recurrence of the locator holds from its degree on.
    for k in (locator.len() - 1)..syndromes.len() {
        let mut sum = 0u8;
        for j in 0..locator.len() {
            sum ^= qr_tools::gf256::gf_multiply(locator[j], syndromes[k - j]);
        }
        assert_eq!(sum, 0);
    }
    // The word is read with the highest power first, so place p counts for the power n - 1 - p.
    let mut found: Vec<(usize, u8)> =
        places.iter().zip(magnitudes.iter()).map(|(&p, &m)| (n - 1 - p, m)).collect();
    found.sort();
    let powers: Vec<usize> = found.iter().map(|&(p, _)| p).collect();
    let values: Vec<u8> = found.iter().map(|&(_, m)| m).collect();
    assert_eq!(chien_search(&locator, n), powers);
    // Forney's algorithm gives back the magnitudes that were added.
    assert_eq!(forney_algorithm(&syndromes, &powers), values);
    assert_eq!(qr_tools::locator::build_locator(&powers), locator);
    assert_eq!(berlekamp_massey(&calculate_syndromes(&codeword, t)), vec![1]);
    assert_eq!(chien_search(&[1], n), Vec::<usize>::new());
}

#[test]
fn a_single_error_is_read_off_two_syndromes() {
    let data: Vec<u8> = (1..=12u8).collect();
    let t = 4;
    let mut codeword = data.clone();
    codeword.extend_from_slice(&generate_ecc(&data, t));
    let n = codeword.len();
    let mut damaged = codeword.clone();
    damaged[5] ^= 0x3C;
    let syndromes = calculate_syndromes(&damaged, t);
    assert_eq!(try_single_error_correction(&syndromes, n), Some((n - 1 - 5, 0x3C)));
    assert_eq!(forney_algorithm(&syndromes, &[n - 1 - 5]), vec![0x3C]);
    assert_eq!(forney_algorithm(&syndromes, &[]), Vec::<u8>::new());
    assert_eq!(try_single_error_correction(&syndromes, 3), None);
    assert_eq!(try_single_error_correction(&[0, 5], n), None);
    assert_eq!(try_single_error_correction(&[5], n), None);
    assert_eq!(try_single_error_correction(&[5, 0], n), Some((0, 5)));
}

#[test]
fn hello_world_has_the_codewords_of_the_textbook() {
    let encoded =
        encode_data("HELLO WORLD", Version::V1, ErrorCorrection::Q, DataMode::Alphanumeric)
            .ok()
            .unwrap();
    assert_eq!(encoded.data_bits.len(), 13 * 8);
    assert_eq!(&encoded.data_bits[..13], &bits_of_str("0010 000001011")[..]);
    assert_eq!(
        bits_to_bytes(&encoded.data_bits),
        vec![32, 91, 11, 120, 209, 114, 220, 77, 67, 64, 236, 17, 236]
    );
    assert_eq!(encoded.ecc_bits.len(), 13 * 8);
    let medium =
        encode_data("HELLO WORLD", Version::V1, ErrorCorrection::M, DataMode::Alphanumeric)
            .ok()
            .unwrap();
    assert_eq!(
        bits_to_bytes(&medium.data_bits),
        vec![32, 91, 11, 120, 209, 114, 220, 77, 67, 64, 236, 17, 236, 17, 236, 17]
    );
    assert_eq!(
        bits_to_bytes(&medium.ecc_bits),
        vec![196, 35, 39, 119, 235, 215, 231, 226, 93, 23]
    );
}

#[test]
fn numeric_and_byte_messages_are_packed_as_described() {
    let numeric =
        encode_data("01234567", Version::V1, ErrorCorrection::M, DataMode::Numeric).ok().unwrap();
    let expected = bits_of_str("0001 0000001000 0000001100 0101011001 1000011 0000");
    assert_eq!(&numeric.data_bits[..expected.len()], &expected[..]);
    assert_eq!(numeric.data_bits.len(), 128);
    let single =
        encode_data("7", Version::V1, ErrorCorrection::L, DataMode::Numeric).ok().unwrap();
    let expected = bits_of_str("0001 0000000001 0111 0000 00 11101100 00010001 11101100");
    assert_eq!(&single.data_bits[..expected.len()], &expected[..]);
    let byte = encode_data("Az", Version::V1, ErrorCorrection::H, DataMode::Byte).ok().unwrap();
    let expected = bits_of_str("0100 00000010 01000001 01111010 0000 11101100 00010001");
    assert_eq!(&byte.data_bits[..expected.len()], &expected[..]);
    assert_eq!(byte.data_bits.len(), 72);
    let odd = encode_data("AB1", Version::V1, ErrorCorrection::H, DataMode::Alphanumeric)
        .ok()
        .unwrap();
    let expected = bits_of_str("0010 000000011 00111001101 000001 0000");
    assert_eq!(&odd.data_bits[..expected.len()], &expected[..]);
    // A wider count from version 10 on.
    let wide =
        encode_data("123", Version::V10, ErrorCorrection::L, DataMode::Numeric).ok().unwrap();
    let expected = bits_of_str("0001 000000000011 0001111011");
    assert_eq!(&wide.data_bits[..expected.len()], &expected[..]);
}

#[test]
fn the_terminator_is_cut_short_where_the_symbol_is_full() {
    // Seven bytes fill version 1 at the highest level up to four bits before the end.
    let full = encode_data("1234567", Version::V1, ErrorCorrection::H, DataMode::Byte).ok().unwrap();
    assert_eq!(full.data_bits.len(), 72);
    assert_eq!(&full.data_bits[68..], &[0, 0, 0, 0]);
    // Seventeen digits leave one bit, which the terminator fills.
    let digits =
        encode_data("12345678901234567", Version::V1, ErrorCorrection::H, DataMode::Numeric)
            .ok()
            .unwrap();
    assert_eq!(digits.data_bits.len(), 72);
    assert_eq!(&digits.data_bits[64..], &[1, 0, 0, 0, 0, 1, 1, 0]);
    assert!(matches!(
        encode_data("12345678", Version::V1, ErrorCorrection::H, DataMode::Byte),
        Err(EncodeError::CapacityExceeded)
    ));
    assert!(matches!(
        encode_data("123456789012345678", Version::V1, ErrorCorrection::H, DataMode::Numeric),
        Err(EncodeError::CapacityExceeded)
    ));
    assert!(matches!(
        encode_data("12x", Version::V1, ErrorCorrection::H, DataMode::Numeric),
        Err(EncodeError::InvalidCharacter)
    ));
    assert!(matches!(
        encode_data("a", Version::V1, ErrorCorrection::H, DataMode::Alphanumeric),
        Err(EncodeError::InvalidCharacter)
    ));
}

#[test]
fn alphanumeric_values() {
    assert_eq!(alphanumeric_value(b'0'), 0);
    assert_eq!(alphanumeric_value(b'9'), 9);
    assert_eq!(alphanumeric_value(b'A'), 10);
    assert_eq!(alphanumeric_value(b'Z'), 35);
    let symbols = b" $%*+-./:";
    for (i, &symbol) in symbols.iter().enumerate() {
        assert_eq!(alphanumeric_value(symbol), 36 + i as u16);
    }
    assert_eq!(alphanumeric_value(b'a'), 45);
    assert_eq!(alphanumeric_value(b'#'), 45);
}

#[test]
fn bits_and_bytes() {
    let mut bits = vec![1u8];
    append_bits(&mut bits, 0b1011, 4);
    append_bits(&mut bits, 5, 6);
    append_bits(&mut bits, 0x1FF, 3);
    append_bits(&mut bits, 9, 0);
    assert_eq!(bits, vec![1, 1, 0, 1, 1, 0, 0, 0, 1, 0, 1, 1, 1, 1]);
    assert_eq!(bits_to_usize(&[1, 0, 1, 1]), 11);
    assert_eq!(bits_to_usize(&[]), 0);
    assert_eq!(bits_to_bytes(&[1, 1, 1, 0, 1, 1, 0, 0, 0, 0, 0, 1, 0, 0, 0, 1, 1, 1]), vec![0xEC, 0x11]);
    assert_eq!(bytes_to_bits(&[0xEC]), vec![1, 1, 1, 0, 1, 1, 0, 0]);
    let bytes: Vec<u8> = (0..=255u8).collect();
    assert_eq!(bits_to_bytes(&bytes_to_bits(&bytes)), bytes);
}

#[test]
fn data_bits_are_parsed_back() {
    let bits = bits_of_str("0001 0000001000 0000001100 0101011001 1000011 0000");
    assert_eq!(
        decode_data_bits(&bits, Version::V1),
        Some((DataMode::Numeric, b"01234567".to_vec()))
    );
    let bits = bits_of_str("0010 000000011 00111001101 000001 0000");
    assert_eq!(
        decode_data_bits(&bits, Version::V1),
        Some((DataMode::Alphanumeric, b"AB1".to_vec()))
    );
    assert_eq!(
        decode_data_from_bytes(&[0x40, 0x24, 0x17, 0xA0], Version::V1),
        Some((DataMode::Byte, b"Az".to_vec()))
    );
    // No mode, a mode that is not supported, a count that asks for too much.
    assert_eq!(decode_data_bits(&bits_of_str("000"), Version::V1), None);
    assert_eq!(decode_data_bits(&bits_of_str("0000 0000 0000"), Version::V1), None);
    assert_eq!(decode_data_bits(&bits_of_str("1000 00000001 0000000000000"), Version::V1), None);
    assert_eq!(decode_data_bits(&bits_of_str("0100 00000010 01000001"), Version::V1), None);
    assert_eq!(decode_data_bits(&bits_of_str("0100 0000001"), Version::V1), None);
    // A group of ten bits that spells more than three digits is written out in full.
    assert_eq!(
        decode_data_bits(&bits_of_str("0001 0000000011 1111111111"), Version::V1),
        Some((DataMode::Numeric, b"1023".to_vec()))
    );
}

#[test]
fn blocks_are_interleaved_column_by_column() {
    let layout = get_layout(Version::V5, ErrorCorrection::Q);
    assert_eq!(
        (layout.g1_blocks, layout.g1_dc, layout.g2_blocks, layout.g2_dc, layout.ecc_per_block),
        (2, 15, 2, 16, 18)
    );
    let codewords: Vec<u8> = (1..=62u8).collect();
    let blocks = split_blocks(&codewords, &layout);
    assert_eq!(blocks.len(), 4);
    assert_eq!(blocks[0], (1..=15u8).collect::<Vec<u8>>());
    assert_eq!(blocks[1], (16..=30u8).collect::<Vec<u8>>());
    assert_eq!(blocks[2], (31..=46u8).collect::<Vec<u8>>());
    assert_eq!(blocks[3], (47..=62u8).collect::<Vec<u8>>());
    let data = interleave_data(&codewords, &layout);
    assert_eq!(&data[..8], &[1, 16, 31, 47, 2, 17, 32, 48]);
    assert_eq!(&data[56..], &[15, 30, 45, 61, 46, 62]);
    let parity = interleave_parity(&codewords, &layout);
    assert_eq!(parity.len(), 72);
    for b in 0..4 {
        let expected = generate_ecc(&blocks[b], 18);
        for c in 0..18 {
            assert_eq!(parity[4 * c + b], expected[c]);
        }
    }
    let mut stream = data.clone();
    stream.extend_from_slice(&parity);
    let read = deinterleave(&stream, &layout);
    for b in 0..4 {
        let mut expected = blocks[b].clone();
        expected.extend_from_slice(&generate_ecc(&blocks[b], 18));
        assert_eq!(read[b], expected);
    }
    let data_bits = bytes_to_bits(&codewords);
    assert_eq!(
        interleave_data_bits(&data_bits, Version::V5, ErrorCorrection::Q),
        bytes_to_bits(&data)
    );
    assert_eq!(
        generate_ecc_bits(&data_bits, Version::V5, ErrorCorrection::Q),
        bytes_to_bits(&parity)
    );
}

#[test]
fn function_patterns_are_drawn_where_they_belong() {
    let c = config(ErrorCorrection::H, DataMode::Byte, MaskPattern::Pattern1);
    let text: String = std::iter::repeat('p').take(30).collect();
    let matrix = generate_qr_matrix(&text, &c).unwrap();
    let size = matrix.len();
    assert_eq!(size, 33);
    let finder = [
        [1, 1, 1, 1, 1, 1, 1],
        [1, 0, 0, 0, 0, 0, 1],
        [1, 0, 1, 1, 1, 0, 1],
        [1, 0, 1, 1, 1, 0, 1],
        [1, 0, 1, 1, 1, 0, 1],
        [1, 0, 0, 0, 0, 0, 1],
        [1, 1, 1, 1, 1, 1, 1],
    ];
    for (top, left) in [(0, 0), (0, size - 7), (size - 7, 0)] {
        for r in 0..7 {
            for c in 0..7 {
                assert_eq!(matrix[top + r][left + c], finder[r][c]);
            }
        }
    }
    for i in 0..8 {
        assert_eq!(matrix[7][i], 0);
        assert_eq!(matrix[i][7], 0);
        assert_eq!(matrix[7][size - 1 - i], 0);
        assert_eq!(matrix[i][size - 8], 0);
        assert_eq!(matrix[size - 8][i], 0);
        assert_eq!(matrix[size - 1 - i][7], 0);
    }
    for i in 8..(size - 8) {
        assert_eq!(matrix[6][i], ((i + 1) % 2) as u8);
        assert_eq!(matrix[i][6], ((i + 1) % 2) as u8);
    }
    assert_eq!(matrix[size - 8][8], 1);
    let alignment = [[1, 1, 1, 1, 1], [1, 0, 0, 0, 1], [1, 0, 1, 0, 1], [1, 0, 0, 0, 1], [1, 1, 1, 1, 1]];
    for r in 0..5 {
        for c in 0..5 {
            assert_eq!(matrix[24 + r][24 + c], alignment[r][c]);
        }
    }
    assert_eq!(analyze_finder_patterns(&matrix), (true, true, true));
    assert!(analyze_timing_patterns(&matrix));
    assert_eq!(analyze_dark_module(&matrix), (true, (size - 8, 8)));
    assert!(check_alignment_pattern(&matrix, 26, 26));
    assert!(!check_alignment_pattern(&matrix, 25, 26));
    let word = get_format_info(ErrorCorrection::H, MaskPattern::Pattern1);
    assert_eq!(read_format_info(&matrix), (word, word));
    for i in 0..6 {
        assert_eq!(matrix[i][8], ((word >> i) & 1) as u8);
        assert_eq!(matrix[8][5 - i], ((word >> (9 + i)) & 1) as u8);
    }
    assert_eq!(matrix[7][8], ((word >> 6) & 1) as u8);
    assert_eq!(matrix[8][8], ((word >> 7) & 1) as u8);
    assert_eq!(matrix[8][7], ((word >> 8) & 1) as u8);
    for i in 0..8 {
        assert_eq!(matrix[8][size - 1 - i], ((word >> i) & 1) as u8);
    }
    for i in 8..15 {
        assert_eq!(matrix[size - 15 + i][8], ((word >> i) & 1) as u8);
    }
}

#[test]
fn version_blocks_are_drawn_from_version_seven_on() {
    let c = config(ErrorCorrection::L, DataMode::Byte, MaskPattern::Pattern0);
    let text: String = std::iter::repeat('x').take(150).collect();
    let matrix = generate_qr_matrix(&text, &c).unwrap();
    let size = matrix.len();
    assert_eq!(size, 45);
    let word = 0x07C94u32;
    assert_eq!(read_version_info(&matrix), (word, word));
    for i in 0..18 {
        let bit = ((word >> i) & 1) as u8;
        assert_eq!(matrix[i / 3][size - 11 + i % 3], bit);
        assert_eq!(matrix[size - 11 + i % 3][i / 3], bit);
    }
    assert_eq!(
        get_alignment_pattern_positions(Version::V7),
        vec![(22, 6), (6, 22), (22, 22), (38, 22), (22, 38), (38, 38)]
    );
    assert_eq!(get_alignment_pattern_positions(Version::V1), Vec::<(usize, usize)>::new());
    assert_eq!(get_alignment_pattern_positions(Version::V2), vec![(18, 18)]);
}

#[test]
fn a_symbol_without_mask_shows_its_bits() {
    let mut c = config(ErrorCorrection::M, DataMode::Numeric, MaskPattern::Pattern3);
    c.skip_mask = true;
    let matrix = generate_qr_matrix("01234567", &c).unwrap();
    let encoded =
        encode_data("01234567", Version::V1, ErrorCorrection::M, DataMode::Numeric).ok().unwrap();
    let mut stream = encoded.data_bits.clone();
    stream.extend_from_slice(&encoded.ecc_bits);
    assert_eq!(read_data_bits(&matrix, Version::V1), stream);
    c.skip_mask = false;
    let masked = generate_qr_matrix("01234567", &c).unwrap();
    let mut unmasked = masked.clone();
    apply_mask(&mut unmasked, MaskPattern::Pattern3);
    assert_eq!(unmasked, matrix);
}

#[test]
fn symbols_are_built_from_their_parts() {
    let version = Version::V2;
    let encoded =
        encode_data("PARTS", version, ErrorCorrection::L, DataMode::Alphanumeric).ok().unwrap();
    let mut stream = interleave_data_bits(&encoded.data_bits, version, ErrorCorrection::L);
    stream.extend_from_slice(&encoded.ecc_bits);
    let size = version.size();
    let mut matrix = new_matrix(size);
    add_position_pattern(&mut matrix, 0, 0);
    add_position_pattern(&mut matrix, size - 7, 0);
    add_position_pattern(&mut matrix, 0, size - 7);
    add_timing_patterns(&mut matrix, size);
    add_alignment_patterns(&mut matrix, version);
    add_dark_module(&mut matrix, version);
    place_data_bits(&mut matrix, &stream, version);
    apply_mask(&mut matrix, MaskPattern::Pattern6);
    add_format_info(&mut matrix, ErrorCorrection::L, MaskPattern::Pattern6);
    add_version_info(&mut matrix, version);
    let c = config(ErrorCorrection::L, DataMode::Alphanumeric, MaskPattern::Pattern6);
    // The text fits version 1, so ask for the same parts at version 2 by hand only.
    let decoded = decode(&matrix).unwrap();
    assert_eq!(decoded.version, Version::V2);
    assert_eq!(decoded.text, b"PARTS".to_vec());
    assert_eq!(generate_qr_matrix("PARTS", &c).unwrap().len(), 21);
}

#[test]
fn encoding_what_was_decoded_gives_the_same_symbol() {
    for &level in &LEVELS {
        for &mask in &[MaskPattern::Pattern2, MaskPattern::Pattern7] {
            for &(mode, text) in &[
                (DataMode::Numeric, "31415926535897932384626433832795028841971"),
                (DataMode::Alphanumeric, "VISUAL STABILITY: 100%"),
                (DataMode::Byte, "same in, same out"),
            ] {
                let c = config(level, mode, mask);
                let matrix = generate_qr_matrix(text, &c).unwrap();
                let decoded = decode(&matrix).unwrap();
                let again = config(decoded.error_correction, decoded.data_mode, decoded.mask_pattern);
                let text_again = String::from_utf8(decoded.text).unwrap();
                assert_eq!(generate_qr_matrix(&text_again, &again).unwrap(), matrix);
            }
        }
    }
}

#[test]
fn damaged_version_bits_are_a_mismatch() {
    let c = config(ErrorCorrection::L, DataMode::Byte, MaskPattern::Pattern0);
    let text: String = std::iter::repeat('x').take(150).collect();
    let matrix = generate_qr_matrix(&text, &c).unwrap();
    let size = matrix.len();
    // One copy may be lost altogether.
    let mut one_lost = matrix.clone();
    for i in 0..18 {
        one_lost[i / 3][size - 11 + i % 3] = 0;
    }
    assert_eq!(decode(&one_lost).unwrap().version, Version::V7);
    // Both copies lost.
    let mut both_lost = one_lost.clone();
    for i in 0..18 {
        both_lost[size - 11 + i % 3][i / 3] = 0;
    }
    assert_eq!(decode(&both_lost).err(), Some(DecodeError::VersionInfoMismatch));
    // Both copies name another version.
    let mut other = matrix.clone();
    let word = get_version_info(Version::V8).unwrap();
    for i in 0..18 {
        let bit = ((word >> i) & 1) as u8;
        other[i / 3][size - 11 + i % 3] = bit;
        other[size - 11 + i % 3][i / 3] = bit;
    }
    assert_eq!(decode(&other).err(), Some(DecodeError::VersionInfoMismatch));
}

#[test]
fn an_unknown_mode_is_a_malformed_header() {
    let version = Version::V1;
    let level = ErrorCorrection::M;
    let mut data_bits = vec![1u8, 0, 0, 0];
    while data_bits.len() < 128 {
        data_bits.push(((data_bits.len() / 3) % 2) as u8);
    }
    let ecc_bits = generate_ecc_bits(&data_bits, version, level);
    let mut stream = interleave_data_bits(&data_bits, version, level);
    stream.extend_from_slice(&ecc_bits);
    let size = version.size();
    let mut matrix = new_matrix(size);
    add_position_pattern(&mut matrix, 0, 0);
    add_position_pattern(&mut matrix, size - 7, 0);
    add_position_pattern(&mut matrix, 0, size - 7);
    add_timing_patterns(&mut matrix, size);
    add_dark_module(&mut matrix, version);
    place_data_bits(&mut matrix, &stream, version);
    apply_mask(&mut matrix, MaskPattern::Pattern4);
    add_format_info(&mut matrix, level, MaskPattern::Pattern4);
    assert_eq!(decode(&matrix).err(), Some(DecodeError::MalformedHeader));
    let analysis = analyze_qr_code(&matrix);
    assert_eq!(analysis.outcome.err(), Some(DecodeError::MalformedHeader));
    let data = analysis.data_analysis.unwrap();
    assert_eq!(data.corrected_data, Some(bits_to_bytes(&data_bits)));
    assert_eq!(data.data_mode, None);
    assert_eq!(data.text, None);
}

#[test]
fn the_analysis_keeps_every_step() {
    let c = config(ErrorCorrection::Q, DataMode::Alphanumeric, MaskPattern::Pattern3);
    let matrix = generate_qr_matrix("HELLO WORLD", &c).unwrap();
    let mut damaged = matrix.clone();
    let positions = get_data_ecc_positions(Version::V1);
    let (row, col) = positions[8 * 4 + 2];
    damaged[row][col] ^= 1;
    damaged[0][0] = 0;
    let analysis = analyze_qr_code(&damaged);
    assert_eq!(analysis.size, 21);
    assert_eq!(analysis.version_from_size, Some(Version::V1));
    assert!(analysis.version_info.is_none());
    assert_eq!(analysis.finder_patterns, (false, true, true));
    assert!(analysis.timing_valid);
    assert!(analysis.dark_module_present);
    assert!(analysis.alignment_patterns.is_empty());
    let format = analysis.format_info.unwrap();
    assert!(format.copies_match);
    assert_eq!(format.raw_bits_copy1, get_format_info(ErrorCorrection::Q, MaskPattern::Pattern3));
    assert_eq!(format.error_correction, Some(ErrorCorrection::Q));
    assert_eq!(format.mask_pattern, Some(MaskPattern::Pattern3));
    let data = analysis.data_analysis.unwrap();
    assert_eq!(data.raw_bits.len(), 208);
    assert_eq!(data.unmasked_bits.len(), 208);
    assert_eq!(data.block_structure.total_blocks, 1);
    assert_eq!(data.block_structure.group1_data_codewords, 13);
    assert_eq!(data.block_structure.ecc_codewords_per_block, 13);
    assert_eq!(data.corrections.len(), 1);
    match &data.corrections[0] {
        CorrectionResult::Corrected { error_positions, error_magnitudes, .. } => {
            assert_eq!(error_positions, &vec![4]);
            assert_eq!(error_magnitudes, &vec![0b0010_0000]);
        }
        other => panic!("expected a correction, got {:?}", other),
    }
    assert_eq!(
        data.corrected_data,
        Some(vec![32, 91, 11, 120, 209, 114, 220, 77, 67, 64, 236, 17, 236])
    );
    assert_eq!(data.data_mode, Some(DataMode::Alphanumeric));
    assert_eq!(data.data_length, Some(11));
    assert_eq!(data.payload_end, Some(4 + 9 + 61));
    assert_eq!(data.terminator_bits, Some(4));
    assert_eq!(data.text, Some(b"HELLO WORLD".to_vec()));
    let symbol = analysis.outcome.ok().unwrap();
    assert_eq!(symbol.text, b"HELLO WORLD".to_vec());
    let blank = analyze_qr_code(&vec![vec![0u8; 20]; 20]);
    assert_eq!(blank.version_from_size, None);
    assert_eq!(blank.outcome.err(), Some(DecodeError::InvalidVersion));
    assert!(blank.format_info.is_none());
    assert!(blank.data_analysis.is_none());
}

#[test]
fn damaged_format_bits_are_read_from_the_other_copy() {
    let c = config(ErrorCorrection::H, DataMode::Byte, MaskPattern::Pattern5);
    let matrix = generate_qr_matrix("two copies", &c).unwrap();
    let size = matrix.len();
    let word = get_format_info(ErrorCorrection::H, MaskPattern::Pattern5);
    // Four flips among the first six bits that leave no codeword within reach.
    let mut flips = Vec::new();
    for pattern in 0u16..64 {
        if pattern.count_ones() == 4 && correct_format_info(word ^ pattern).is_none() {
            flips = (0..6).filter(|i| (pattern >> i) & 1 == 1).collect();
            break;
        }
    }
    assert_eq!(flips.len(), 4);
    let mut damaged = matrix.clone();
    for &i in &flips {
        damaged[i][8] ^= 1;
    }
    let decoded = decode(&damaged).unwrap();
    assert_eq!(decoded.error_correction, ErrorCorrection::H);
    assert_eq!(decoded.mask_pattern, MaskPattern::Pattern5);
    assert_eq!(decoded.text, b"two copies".to_vec());
    for &i in &flips {
        damaged[8][size - 1 - i] ^= 1;
    }
    assert_eq!(decode(&damaged).err(), Some(DecodeError::FormatInfoUndecodable));
}

fn reference_line_penalty(line: &[u8]) -> u32 {
    let mut score = 0u32;
    let mut start = 0usize;
    while start < line.len() {
        let mut end = start + 1;
        while end < line.len() && (line[end] != 0) == (line[start] != 0) {
            end += 1;
        }
        let length = (end - start) as u32;
        if length >= 5 {
            score += length - 2;
        }
        start = end;
    }
    let before: [u8; 11] = [0, 0, 0, 0, 1, 0, 1, 1, 1, 0, 1];
    let behind: [u8; 11] = [1, 0, 1, 1, 1, 0, 1, 0, 0, 0, 0];
    if line.len() >= 11 {
        for i in 0..=line.len() - 11 {
            let window: Vec<u8> = line[i..i + 11].iter().map(|&m| (m != 0) as u8).collect();
            if window == before || window == behind {
                score += 40;
            }
        }
    }
    score
}

fn reference_penalty(matrix: &Vec<Vec<u8>>) -> u32 {
    let n = matrix.len();
    let mut score = 0u32;
    for r in 0..n {
        score += reference_line_penalty(&matrix[r]);
    }
    for c in 0..n {
        let column: Vec<u8> = (0..n).map(|r| matrix[r][c]).collect();
        score += reference_line_penalty(&column);
    }
    for r in 0..n - 1 {
        for c in 0..n - 1 {
            let corner = matrix[r][c] != 0;
            if (matrix[r][c + 1] != 0) == corner
                && (matrix[r + 1][c] != 0) == corner
                && (matrix[r + 1][c + 1] != 0) == corner
            {
                score += 3;
            }
        }
    }
    let dark = matrix.iter().flatten().filter(|&&m| m != 0).count() as f64;
    let percent = dark * 100.0 / (n * n) as f64;
    score += 10 * ((percent - 50.0).abs() / 5.0).floor() as u32;
    score
}

#[test]
fn penalty_of_a_light_square() {
    // 21 rows and 21 columns with one run of 21 (3 + 16 each), 400 blocks, no dark module.
    let matrix = vec![vec![0u8; 21]; 21];
    assert_eq!(qr_tools::penalty::penalty_score(&matrix), 2 * 21 * 19 + 3 * 400 + 100);
    let matrix = vec![vec![1u8; 21]; 21];
    assert_eq!(qr_tools::penalty::penalty_score(&matrix), 2 * 21 * 19 + 3 * 400 + 100);
}

#[test]
fn penalty_of_a_chessboard() {
    let matrix: Vec<Vec<u8>> =
        (0..25).map(|r| (0..25).map(|c| ((r + c) % 2 == 0) as u8).collect()).collect();
    assert_eq!(qr_tools::penalty::penalty_score(&matrix), 0);
}

#[test]
fn penalty_counts_runs_and_finder_like_lines() {
    let mut matrix: Vec<Vec<u8>> =
        (0..21).map(|r| (0..21).map(|c| ((r + c) % 2 == 0) as u8).collect()).collect();
    // A run of exactly five in the first row.
    for c in 0..5 {
        matrix[0][c] = 1;
    }
    // A finder-like line with four light modules behind it, two rows further down.
    let line = [1u8, 0, 1, 1, 1, 0, 1, 0, 0, 0, 0];
    for (c, &m) in line.iter().enumerate() {
        matrix[10][c + 3] = m;
    }
    assert_eq!(qr_tools::penalty::penalty_score(&matrix), reference_penalty(&matrix));
    let mut plain: Vec<Vec<u8>> =
        (0..21).map(|r| (0..21).map(|c| ((r + c) % 2 == 0) as u8).collect()).collect();
    for c in 0..5 {
        plain[0][c] = 1;
    }
    // The run of five costs 3; nothing else in the matrix costs anything.
    assert_eq!(qr_tools::penalty::penalty_score(&plain), 3);
    // A sixth dark module joins the run to the dark module behind it: a run of seven.
    plain[0][5] = 1;
    assert_eq!(qr_tools::penalty::penalty_score(&plain), 5);
}

#[test]
fn penalty_agrees_with_a_count_by_runs() {
    for (text, mode) in [
        ("HELLO WORLD", DataMode::Alphanumeric),
        ("01234567", DataMode::Numeric),
        ("https://www.example.com/a/longer/path?with=parameters", DataMode::Byte),
    ] {
        for mask in 0..8u8 {
            let mut c = QrConfig::default();
            c.data_mode = mode;
            c.mask_pattern = MaskPattern::from_u8(mask).unwrap();
            let matrix = generate_qr_matrix(text, &c).unwrap();
            assert_eq!(qr_tools::penalty::penalty_score(&matrix), reference_penalty(&matrix));
        }
    }
}

#[test]
fn chosen_mask_has_the_least_penalty() {
    for (text, mode, level) in [
        ("HELLO WORLD", DataMode::Alphanumeric, ErrorCorrection::Q),
        ("01234567", DataMode::Numeric, ErrorCorrection::M),
        ("https://www.example.com/", DataMode::Byte, ErrorCorrection::M),
        ("", DataMode::Byte, ErrorCorrection::H),
    ] {
        let (matrix, mask) =
            qr_tools::selection::generate_with_best_mask(text, level, mode).unwrap();
        let chosen = qr_tools::penalty::penalty_score(&matrix);
        for other in 0..8u8 {
            let mut c = QrConfig::default();
            c.data_mode = mode;
            c.error_correction = level;
            c.mask_pattern = MaskPattern::from_u8(other).unwrap();
            let candidate = generate_qr_matrix(text, &c).unwrap();
            let score = qr_tools::penalty::penalty_score(&candidate);
            assert!(chosen <= score);
            if other < mask.to_u8() {
                assert!(chosen < score);
            }
            if other == mask.to_u8() {
                assert_eq!(candidate, matrix);
            }
        }
        let decoded = decode(&matrix).unwrap();
        assert_eq!(decoded.text, text.as_bytes().to_vec());
        assert_eq!(decoded.mask_pattern, mask);
        assert_eq!(decoded.error_correction, level);
        assert_eq!(decoded.data_mode, mode);
    }
}

#[test]
fn chosen_mask_reports_what_cannot_be_encoded() {
    assert_eq!(
        qr_tools::selection::generate_with_best_mask("12a", ErrorCorrection::M, DataMode::Numeric),
        Err(EncodeError::InvalidCharacter)
    );
    let long = "7".repeat(7090);
    assert_eq!(
        qr_tools::selection::generate_with_best_mask(&long, ErrorCorrection::L, DataMode::Numeric),
        Err(EncodeError::CapacityExceeded)
    );
}

fn next_random(state: &mut u64) -> u64 {
    *state = state.wrapping_mul(6364136223846793005).wrapping_add(1442695040888963407);
    *state >> 33
}

fn damage(codeword: &[u8], errors: usize, state: &mut u64) -> Vec<u8> {
    let mut damaged = codeword.to_vec();
    let mut places: Vec<usize> = Vec::new();
    while places.len() < errors {
        let place = (next_random(state) % codeword.len() as u64) as usize;
        if !places.contains(&place) {
            places.push(place);
            damaged[place] ^= 1 + (next_random(state) % 255) as u8;
        }
    }
    damaged
}

#[test]
fn block_decoder_repairs_up_to_half_the_parity() {
    let mut state = 0x5eed_u64;
    for (data_len, t) in [(19usize, 7usize), (16, 10), (13, 13), (9, 17), (68, 18), (15, 28), (116, 30)] {
        let data: Vec<u8> = (0..data_len).map(|i| (i * 37 + 11) as u8).collect();
        let mut codeword = data.clone();
        codeword.extend_from_slice(&generate_ecc(&data, t));
        match qr_tools::block_decoder::decode_block(&codeword, t) {
            CorrectionResult::ErrorFree(found) => assert_eq!(found, data),
            other => panic!("expected a clean block, got {:?}", other),
        }
        for errors in 1..=t / 2 {
            for _ in 0..8 {
                let damaged = damage(&codeword, errors, &mut state);
                match qr_tools::block_decoder::decode_block(&damaged, t) {
                    CorrectionResult::Corrected { data: found, error_positions, error_magnitudes } => {
                        assert_eq!(found, data);
                        assert_eq!(error_positions.len(), errors);
                        let mut repaired = damaged.clone();
                        for (k, &place) in error_positions.iter().enumerate() {
                            repaired[place] ^= error_magnitudes[k];
                        }
                        assert_eq!(repaired, codeword);
                    }
                    other => panic!("{} errors with {} parity codewords: {:?}", errors, t, other),
                }
            }
        }
    }
}

#[test]
fn block_decoder_never_hands_back_a_damaged_word() {
    let mut state = 0xfeed_u64;
    let t = 10;
    let data: Vec<u8> = (1..=16u8).collect();
    let mut codeword = data.clone();
    codeword.extend_from_slice(&generate_ecc(&data, t));
    for errors in (t / 2 + 1)..=t {
        for _ in 0..40 {
            let damaged = damage(&codeword, errors, &mut state);
            match qr_tools::block_decoder::decode_block(&damaged, t) {
                CorrectionResult::Uncorrectable => {}
                CorrectionResult::Corrected { data: found, error_positions, error_magnitudes } => {
                    // A miscorrection: another codeword within reach.
                    assert!(error_positions.len() <= t / 2);
                    let mut repaired = damaged.clone();
                    for (k, &place) in error_positions.iter().enumerate() {
                        repaired[place] ^= error_magnitudes[k];
                    }
                    assert!(calculate_syndromes(&repaired, t).iter().all(|&s| s == 0));
                    assert_eq!(found, repaired[..data.len()].to_vec());
                    assert_ne!(repaired, codeword);
                }
                CorrectionResult::ErrorFree(_) => panic!("a damaged word passed for a codeword"),
            }
        }
    }
}

#[test]
fn block_decoder_agrees_with_the_outside_decoder() {
    let mut state = 0xabcdef_u64;
    for (data_len, t) in [(19usize, 7usize), (16, 10), (9, 17), (43, 22)] {
        let data: Vec<u8> = (0..data_len).map(|i| (i * 91 + 5) as u8).collect();
        let mut codeword = data.clone();
        codeword.extend_from_slice(&generate_ecc(&data, t));
        for errors in 0..=t / 2 {
            for _ in 0..6 {
                let damaged = damage(&codeword, errors, &mut state);
                let own = qr_tools::block_decoder::decode_block(&damaged, t);
                let outside = correct_errors(&damaged, t);
                assert_eq!(format!("{:?}", own), format!("{:?}", outside));
            }
        }
    }
}

#[test]
fn block_decoder_gives_up_on_short_and_long_blocks() {
    assert!(matches!(
        qr_tools::block_decoder::decode_block(&[1, 2, 3], 3),
        CorrectionResult::Uncorrectable
    ));
    assert!(matches!(
        qr_tools::block_decoder::decode_block(&[1, 2, 3], 5),
        CorrectionResult::Uncorrectable
    ));
    let long = vec![7u8; 300];
    assert!(matches!(
        qr_tools::block_decoder::decode_block(&long, 10),
        CorrectionResult::Uncorrectable
    ));
    let zeros = vec![0u8; 300];
    match qr_tools::block_decoder::decode_block(&zeros, 10) {
        CorrectionResult::ErrorFree(found) => assert_eq!(found, vec![0u8; 290]),
        other => panic!("expected a clean block, got {:?}", other),
    }
}

#[test]
fn corrections_are_applied_at_their_places() {
    let received = [10u8, 20, 30, 40, 50];
    let word = qr_tools::block_decoder::apply_corrections(&received, &[0, 3], &[1, 0xF0]);
    assert_eq!(word, vec![10, 20 ^ 0xF0, 30, 40, 50 ^ 1]);
    assert_eq!(qr_tools::block_decoder::apply_corrections(&received, &[], &[]), received.to_vec());
}

#[test]
fn long_parities_are_corrected_by_the_own_decoder() {
    let mut state = 0x1234_u64;
    let t = 200;
    let data: Vec<u8> = (0..55u8).map(|i| i.wrapping_mul(29).wrapping_add(3)).collect();
    let mut codeword = data.clone();
    codeword.extend_from_slice(&generate_ecc(&data, t));
    assert_eq!(codeword.len(), 255);
    for errors in [1usize, 50, 100] {
        let damaged = damage(&codeword, errors, &mut state);
        match correct_errors(&damaged, t) {
            CorrectionResult::Corrected { data: found, error_positions, .. } => {
                assert_eq!(found, data);
                assert_eq!(error_positions.len(), errors);
            }
            other => panic!("{} errors: {:?}", errors, other),
        }
    }
    let damaged = damage(&codeword, 101, &mut state);
    match correct_errors(&damaged, t) {
        CorrectionResult::Uncorrectable => {}
        CorrectionResult::Corrected { data: found, .. } => assert_ne!(found, data),
        CorrectionResult::ErrorFree(_) => panic!("a damaged word passed for a codeword"),
    }
}

#[test]
fn any_three_damaged_modules_are_repaired() {
    // Every block has at least seven parity codewords, so three damaged codewords
    // are within capacity wherever they fall.
    let mut state = 0x7777_u64;
    for (len, level) in [
        (5usize, ErrorCorrection::L),
        (40, ErrorCorrection::M),
        (90, ErrorCorrection::Q),
        (150, ErrorCorrection::H),
        (400, ErrorCorrection::L),
    ] {
        let text: String = (0..len).map(|i| (b'a' + (i % 26) as u8) as char).collect();
        let mut c = QrConfig::default();
        c.error_correction = level;
        c.mask_pattern = MaskPattern::Pattern4;
        let matrix = generate_qr_matrix(&text, &c).unwrap();
        let version = qr_tools::generator::calculate_version(&text, level, DataMode::Byte).unwrap();
        let positions = get_data_ecc_positions(version);
        for _ in 0..10 {
            let mut damaged = matrix.clone();
            for _ in 0..3 {
                let (row, col) = positions[(next_random(&mut state) % positions.len() as u64) as usize];
                damaged[row][col] ^= 1;
            }
            let decoded = decode(&damaged).unwrap();
            assert_eq!(decoded.text, text.as_bytes().to_vec());
        }
    }
}
