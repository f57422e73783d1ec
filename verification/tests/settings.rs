use pltz::codec::{decode, encode};
use pltz::pattern::{FloatTable, PatternType};
use pltz::platter::compute_geometry;
use pltz::raw::RawCompressor;
use pltz::report::{container_info, decompressed_size, layers_readable_exec, legend, max_compressed_size, pattern_counts,
    pattern_long_name, pattern_name, track_breakdown, Layer};
use pltz::search::{analyze_settings, find_best_compression, recommend, Analysis, BestMode};
use pltz::settings::{auto_chunk_size, detect_strides, output_path_decompress, parse_size, NameError, SizeError};

#[test]
fn sizes_parse_with_suffixes() {
    assert_eq!(parse_size("64k"), Ok(65536));
    assert_eq!(parse_size("1M"), Ok(1024 * 1024));
    assert_eq!(parse_size("2g"), Ok(2 * 1024 * 1024 * 1024));
    assert_eq!(parse_size("4096"), Ok(4096));
    assert_eq!(parse_size("  8 \t"), Ok(8));
    assert_eq!(parse_size("+5"), Ok(5));
    assert_eq!(parse_size(""), Err(SizeError::Empty));
    assert_eq!(parse_size("   "), Err(SizeError::Empty));
    assert_eq!(parse_size("k"), Err(SizeError::Invalid));
    assert_eq!(parse_size("12x"), Err(SizeError::Invalid));
    assert_eq!(parse_size("-3"), Err(SizeError::Invalid));
    assert_eq!(parse_size("99999999999999999999999"), Err(SizeError::Invalid));
}

#[test]
fn chunk_size_follows_input_length() {
    assert_eq!(auto_chunk_size(1000), 1000);
    assert_eq!(auto_chunk_size(32 * 1024), 32 * 1024);
    assert_eq!(auto_chunk_size(40_000), 4096);
    assert_eq!(auto_chunk_size(1_000_000), 16384);
    assert_eq!(auto_chunk_size(1 << 30), 1 << 20);
}

#[test]
fn output_name_drops_the_suffix() {
    assert_eq!(output_path_decompress("data.bin.pltz"), Ok("data.bin".to_string()));
    assert_eq!(output_path_decompress("é.pltz"), Ok("é".to_string()));
    assert_eq!(output_path_decompress("data.bin"), Err(NameError::NoPltzSuffix));
    assert_eq!(output_path_decompress("pltz"), Err(NameError::NoPltzSuffix));
}

#[test]
fn strides_of_records_come_first() {
    // 6-byte records: a constant, a counter and filler
    let mut data = Vec::new();
    for i in 0..400u32 {
        data.extend_from_slice(&[0xAB, 0xCD, (i % 256) as u8, 1, 2, 3]);
    }
    let strides = detect_strides(&data);
    assert_eq!(strides[0], 6);
    // detected strides are followed by the common sizes not yet listed
    assert!(strides.contains(&4));
    assert!(strides.contains(&512));
    assert!(detect_strides(&[1, 2, 3, 4, 5, 6, 7]).is_empty());
}

#[test]
fn best_compression_decodes_back() {
    let data: Vec<u8> = (0..3000u32).map(|i| (i % 7) as u8 * 10).collect();
    let table = FloatTable::new();
    let (out, trials) = find_best_compression(&data, &table);
    assert_eq!(trials[0].mode, BestMode::Plain);
    assert_eq!(trials[0].size, encode(&data, RawCompressor::Zlib, &table).len());
    assert_eq!(decode(&out, &table).unwrap(), data);
    let min = trials.iter().map(|t| t.size).min().unwrap();
    assert!(trials.iter().any(|t| t.size == min));
}

#[test]
fn analysis_recommends_the_smallest() {
    let a = Analysis { plain: 100, best_stride: Some((4, 90)), best_chunk: Some((4096, 95)) };
    assert_eq!(recommend(&a), (BestMode::Columnar(4), 90));
    let b = Analysis { plain: 100, best_stride: Some((4, 90)), best_chunk: Some((4096, 80)) };
    assert_eq!(recommend(&b), (BestMode::Chunked(4096), 80));
    let c = Analysis { plain: 50, best_stride: None, best_chunk: Some((4096, 50)) };
    assert_eq!(recommend(&c), (BestMode::Plain, 50));
    let data: Vec<u8> = (0..5000u32).map(|i| (i % 256) as u8).collect();
    let (an, trials) = analyze_settings(&data, &FloatTable::new());
    assert_eq!(an.plain, trials[0].size);
}

#[test]
fn pattern_counts_are_sorted() {
    let mut data = vec![0u8; 256 * 3];
    data.extend((0..=255u8).collect::<Vec<u8>>());
    let geom = compute_geometry(data.len(), 256);
    let (encs, counts) = track_breakdown(&data, &geom, &FloatTable::new());
    assert_eq!(encs.len(), 4);
    assert_eq!(counts.len(), 2);
    assert_eq!(counts[0], (PatternType::Const, 3));
    assert_eq!(counts[1], (PatternType::Linear, 1));
    assert_eq!(pattern_counts(&encs), counts);
    assert_eq!(legend(&encs), vec![(PatternType::Const, 3), (PatternType::Linear, 1)]);
    assert_eq!(pattern_name(PatternType::PiecewiseLinear), "PIECEWISE_LIN");
    assert_eq!(pattern_long_name(PatternType::PiecewiseLinear), "PIECEWISE_LINEAR");
    assert_eq!(pattern_name(PatternType::RawCompressed), "RAW");
}

#[test]
fn headers_report_layers() {
    let data: Vec<u8> = (0..1000u32).map(|i| (i % 256) as u8).collect();
    let table = FloatTable::new();
    let c = encode(&data, RawCompressor::Uncompressed, &table);
    assert!(layers_readable_exec(&c));
    match container_info(&c)[0] {
        Layer::Pltz { original, .. } => assert_eq!(original, 1000),
        _ => panic!("expected a PLTZ layer"),
    }
    assert_eq!(decompressed_size(&c), 1000);
    assert_eq!(decompressed_size(b"short"), 0);
    assert!(container_info(b"XXXXXXXXXXXXXXXX").is_empty());
    assert_eq!(max_compressed_size(1000), 1074);
}

#[test]
fn parse_size_trims_unicode_whitespace() {
    assert_eq!(parse_size("\u{3000}12k\u{00A0}"), Ok(12 * 1024));
    assert_eq!(parse_size("\u{2003}\t7\u{0085}"), Ok(7));
    assert_eq!(parse_size("\u{2028}\u{205F}"), Err(SizeError::Empty));
    assert_eq!(parse_size(" 1\u{00A0}2 "), Err(SizeError::Invalid));
}

#[test]
fn parse_size_refuses_sizes_that_do_not_fit() {
    let max = usize::MAX.to_string();
    assert_eq!(parse_size(&max), Ok(usize::MAX));
    assert_eq!(parse_size(&format!("{}k", max)), Err(SizeError::TooLarge));
    assert_eq!(parse_size(&format!("{}g", usize::MAX / (1 << 30) + 1)), Err(SizeError::TooLarge));
    assert_eq!(parse_size(&format!("{}g", usize::MAX / (1 << 30))), Ok(usize::MAX / (1 << 30) * (1 << 30)));
}
