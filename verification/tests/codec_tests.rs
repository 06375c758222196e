use qr_tools::decoder::{decode, DecodeError};
use qr_tools::encoding::EncodeError;
use qr_tools::generator::{calculate_version, generate_qr_matrix};
use qr_tools::pixel_mapping::get_data_ecc_positions;
use qr_tools::types::{DataMode, ErrorCorrection, MaskPattern, QrConfig, Version};

fn config(ec: ErrorCorrection, mode: DataMode, mask: MaskPattern) -> QrConfig {
    let mut c = QrConfig::default();
    c.error_correction = ec;
    c.data_mode = mode;
    c.mask_pattern = mask;
    c
}

#[test]
fn encode_then_decode_hello_world() {
    let c = config(ErrorCorrection::Q, DataMode::Alphanumeric, MaskPattern::Pattern3);
    let matrix = generate_qr_matrix("HELLO WORLD", &c).unwrap();
    assert_eq!(matrix.len(), 21);
    for row in &matrix {
        assert_eq!(row.len(), 21);
        println!("{}", row.iter().map(|&m| if m == 1 { '#' } else { '.' }).collect::<String>());
    }
    let decoded = decode(&matrix).unwrap();
    assert_eq!(decoded.version, Version::V1);
    assert_eq!(decoded.error_correction, ErrorCorrection::Q);
    assert_eq!(decoded.mask_pattern, MaskPattern::Pattern3);
    assert_eq!(decoded.data_mode, DataMode::Alphanumeric);
    assert_eq!(decoded.text, b"HELLO WORLD".to_vec());
}

#[test]
fn encode_then_decode_numeric() {
    let c = config(ErrorCorrection::M, DataMode::Numeric, MaskPattern::Pattern0);
    let matrix = generate_qr_matrix("01234567", &c).unwrap();
    assert_eq!(matrix.len(), 21);
    let decoded = decode(&matrix).unwrap();
    assert_eq!(decoded.data_mode, DataMode::Numeric);
    assert_eq!(decoded.text, b"01234567".to_vec());
    // The same with the mask chosen by the penalty score.
    let (chosen, mask) = qr_tools::selection::generate_with_best_mask(
        "01234567",
        ErrorCorrection::M,
        DataMode::Numeric,
    )
    .unwrap();
    assert_eq!(chosen.len(), 21);
    let decoded = decode(&chosen).unwrap();
    assert_eq!(decoded.version, Version::V1);
    assert_eq!(decoded.data_mode, DataMode::Numeric);
    assert_eq!(decoded.mask_pattern, mask);
    assert_eq!(decoded.text, b"01234567".to_vec());
    let analysis = qr_tools::analyzer::analyze_qr_code(&chosen);
    let data = analysis.data_analysis.unwrap().corrected_data.unwrap();
    // The mode indicator 0001 leads the data codewords.
    assert_eq!(data[0] >> 4, 0b0001);
}

#[test]
fn encode_then_decode_url_with_a_flipped_module() {
    let c = config(ErrorCorrection::M, DataMode::Byte, MaskPattern::Pattern0);
    let text = "https://www.example.com/";
    let matrix = generate_qr_matrix(text, &c).unwrap();
    assert_eq!(matrix.len(), 25);
    let positions = get_data_ecc_positions(Version::V2);
    for k in 0..positions.len() {
        let (row, col) = positions[k];
        let mut damaged = matrix.clone();
        damaged[row][col] ^= 1;
        let decoded = decode(&damaged).unwrap();
        assert_eq!(decoded.text, text.as_bytes().to_vec(), "module {}", k);
        assert_eq!(decoded.error_correction, ErrorCorrection::M);
    }
}

#[test]
fn nine_damaged_codewords_are_uncorrectable() {
    let c = config(ErrorCorrection::H, DataMode::Byte, MaskPattern::Pattern2);
    let matrix = generate_qr_matrix("abcdefg", &c).unwrap();
    assert_eq!(matrix.len(), 21);
    let positions = get_data_ecc_positions(Version::V1);
    let mut damaged = matrix.clone();
    for codeword in 0..9 {
        let (row, col) = positions[8 * codeword + 3];
        damaged[row][col] ^= 1;
    }
    match decode(&damaged) {
        Err(DecodeError::UncorrectableBlock) => {}
        other => panic!("expected an uncorrectable block, got {:?}", other.map(|d| d.text)),
    }
    let mut repairable = matrix.clone();
    for codeword in 0..8 {
        let (row, col) = positions[8 * codeword + 3];
        repairable[row][col] ^= 1;
    }
    assert_eq!(decode(&repairable).unwrap().text, b"abcdefg".to_vec());
}

#[test]
fn version_seven_carries_its_version() {
    let c = config(ErrorCorrection::L, DataMode::Byte, MaskPattern::Pattern5);
    let text: String = std::iter::repeat("QR codes! ").take(15).collect();
    assert_eq!(calculate_version(&text, c.error_correction, c.data_mode), Some(Version::V7));
    let matrix = generate_qr_matrix(&text, &c).unwrap();
    assert_eq!(matrix.len(), 45);
    let decoded = decode(&matrix).unwrap();
    assert_eq!(decoded.version, Version::V7);
    assert_eq!(decoded.text, text.as_bytes().to_vec());
    // The version that the size gives and the version that the version bits give.
    let analysis = qr_tools::analyzer::analyze_qr_code(&matrix);
    assert_eq!(analysis.size, 45);
    assert_eq!(analysis.version_from_size, Some(Version::V7));
    let info = analysis.version_info.unwrap();
    assert_eq!(info.version_copy1, Some(Version::V7));
    assert_eq!(info.version_copy2, Some(Version::V7));
    assert!(info.copies_match);
    assert_eq!(info.raw_bits_copy1, 0x07C94);
}

#[test]
fn every_mode_level_and_mask_round_trips() {
    let masks = [
        MaskPattern::Pattern0, MaskPattern::Pattern1, MaskPattern::Pattern2, MaskPattern::Pattern3,
        MaskPattern::Pattern4, MaskPattern::Pattern5, MaskPattern::Pattern6, MaskPattern::Pattern7,
    ];
    let levels = [ErrorCorrection::L, ErrorCorrection::M, ErrorCorrection::Q, ErrorCorrection::H];
    let texts = [
        (DataMode::Numeric, "8675309"),
        (DataMode::Alphanumeric, "AC-42 $%*+./: Z"),
        (DataMode::Byte, "The quick brown fox, 100% \u{00e9}t\u{00e9}!"),
    ];
    for &mask in &masks {
        for &level in &levels {
            for &(mode, text) in &texts {
                let c = config(level, mode, mask);
                let matrix = generate_qr_matrix(text, &c).unwrap();
                let decoded = decode(&matrix).unwrap();
                assert_eq!(decoded.error_correction, level);
                assert_eq!(decoded.mask_pattern, mask);
                assert_eq!(decoded.data_mode, mode);
                assert_eq!(decoded.text, text.as_bytes().to_vec());
            }
        }
    }
}

#[test]
fn large_symbols_round_trip() {
    for &(len, version) in &[(200usize, Version::V9), (1000, Version::V22), (2953, Version::V40)] {
        let text: String = (0..len).map(|i| (b'a' + (i % 26) as u8) as char).collect();
        let c = config(ErrorCorrection::L, DataMode::Byte, MaskPattern::Pattern4);
        assert_eq!(calculate_version(&text, c.error_correction, c.data_mode), Some(version));
        let matrix = generate_qr_matrix(&text, &c).unwrap();
        let decoded = decode(&matrix).unwrap();
        assert_eq!(decoded.version, version);
        assert_eq!(decoded.text, text.as_bytes().to_vec());
    }
}

#[test]
fn encoding_rejects_what_does_not_fit_or_is_not_in_the_mode() {
    let c = config(ErrorCorrection::L, DataMode::Numeric, MaskPattern::Pattern0);
    assert_eq!(generate_qr_matrix("12a4", &c).err(), Some(EncodeError::InvalidCharacter));
    let c = config(ErrorCorrection::L, DataMode::Alphanumeric, MaskPattern::Pattern0);
    assert_eq!(generate_qr_matrix("hello", &c).err(), Some(EncodeError::InvalidCharacter));
    let c = config(ErrorCorrection::L, DataMode::Byte, MaskPattern::Pattern0);
    let too_long: String = std::iter::repeat('x').take(2954).collect();
    assert_eq!(generate_qr_matrix(&too_long, &c).err(), Some(EncodeError::CapacityExceeded));
    assert_eq!(calculate_version(&too_long, ErrorCorrection::L, DataMode::Byte), None);
}

#[test]
fn decoding_rejects_a_matrix_of_no_symbol_size() {
    let matrix = vec![vec![0u8; 22]; 22];
    assert_eq!(decode(&matrix).err(), Some(DecodeError::InvalidVersion));
    let mut ragged = vec![vec![0u8; 21]; 21];
    ragged[3].pop();
    assert_eq!(decode(&ragged).err(), Some(DecodeError::InvalidVersion));
}

#[test]
fn decoding_rejects_unreadable_format_bits() {
    let matrix = vec![vec![0u8; 21]; 21];
    // All-light format bits are the word 0, which lies 5 and more flips from every codeword
    // once the fixed mask is taken into account.
    assert_eq!(decode(&matrix).err(), Some(DecodeError::FormatInfoUndecodable));
}

#[test]
fn a_symbol_is_drawn_from_its_stream() {
    let (version, stream) = qr_tools::generator::encode_stream(
        "HELLO WORLD",
        ErrorCorrection::Q,
        DataMode::Alphanumeric,
    )
    .unwrap();
    assert_eq!(version, Version::V1);
    assert_eq!(stream.len(), 208);
    assert_eq!(&stream[..13], &[0, 0, 1, 0, 0, 0, 0, 0, 0, 1, 0, 1, 1]);
    let drawn = qr_tools::generator::build_symbol(
        &stream,
        version,
        ErrorCorrection::Q,
        MaskPattern::Pattern3,
        false,
    );
    let c = config(ErrorCorrection::Q, DataMode::Alphanumeric, MaskPattern::Pattern3);
    assert_eq!(drawn, generate_qr_matrix("HELLO WORLD", &c).unwrap());
    let plain = qr_tools::generator::build_symbol(
        &stream,
        version,
        ErrorCorrection::Q,
        MaskPattern::Pattern3,
        true,
    );
    let mut skipped = config(ErrorCorrection::Q, DataMode::Alphanumeric, MaskPattern::Pattern3);
    skipped.skip_mask = true;
    assert_eq!(plain, generate_qr_matrix("HELLO WORLD", &skipped).unwrap());
    assert_ne!(plain, drawn);
    assert_eq!(
        qr_tools::generator::encode_stream("hello", ErrorCorrection::Q, DataMode::Alphanumeric),
        Err(EncodeError::InvalidCharacter)
    );
}

#[test]
fn any_single_damaged_module_is_repaired() {
    for (text, mode, level, mask) in [
        ("HELLO WORLD", DataMode::Alphanumeric, ErrorCorrection::Q, MaskPattern::Pattern3),
        ("01234567", DataMode::Numeric, ErrorCorrection::L, MaskPattern::Pattern6),
        ("a longer text that needs a third version", DataMode::Byte, ErrorCorrection::M, MaskPattern::Pattern1),
    ] {
        let c = config(level, mode, mask);
        let matrix = generate_qr_matrix(text, &c).unwrap();
        let version = calculate_version(text, level, mode).unwrap();
        for (row, col) in get_data_ecc_positions(version) {
            let mut damaged = matrix.clone();
            damaged[row][col] ^= 1;
            let decoded = decode(&damaged).unwrap();
            assert_eq!(decoded.text, text.as_bytes().to_vec());
            assert_eq!(decoded.error_correction, level);
            assert_eq!(decoded.mask_pattern, mask);
            assert_eq!(decoded.data_mode, mode);
            assert_eq!(decoded.version, version);
        }
    }
}
