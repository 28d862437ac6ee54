use gnu_sort::config::{SortConfig, SortConfigBuilder, SortKey, SortMode};
use gnu_sort::error::SortError;
use gnu_sort::presets;

#[test]
fn test_default_config() {
    let config = SortConfig::default();
    assert_eq!(config.mode, SortMode::Lexicographic);
    assert!(!config.reverse);
    assert!(!config.unique);
    assert!(!config.stable);
}

#[test]
fn test_config_builder() {
    let config = SortConfigBuilder::new()
        .mode(SortMode::Numeric)
        .reverse()
        .unique()
        .build()
        .expect("Failed to build test config");

    assert_eq!(config.mode, SortMode::Numeric);
    assert!(config.reverse);
    assert!(config.unique);
}

#[test]
fn test_sort_mode_from_str() {
    assert_eq!(
        "numeric"
            .parse::<SortMode>()
            .expect("Failed to parse numeric mode"),
        SortMode::Numeric
    );
    assert_eq!(
        "version"
            .parse::<SortMode>()
            .expect("Failed to parse version mode"),
        SortMode::Version
    );
    assert!("invalid".parse::<SortMode>().is_err());
}

#[test]
fn test_validate_conflicting_options() {
    let config = SortConfig {
        check: true,
        merge: true,
        ..Default::default()
    };

    assert!(config.validate().is_err());
}

#[test]
fn test_effective_buffer_size() {
    let config = SortConfig::default();
    assert_eq!(config.effective_buffer_size(), 1024 * 1024);

    let config = SortConfig::default().with_buffer_size(Some(2048));
    assert_eq!(config.effective_buffer_size(), 2048);
}

#[test]
fn test_presets() {
    let config = presets::numeric();
    assert_eq!(config.mode, SortMode::Numeric);

    let config = presets::reverse();
    assert!(config.reverse);

    let config = presets::unique();
    assert!(config.unique);
}

#[test]
fn test_reading_from_stdin() {
    let config = SortConfig::default();
    assert!(config.reading_from_stdin());

    let config = SortConfig::default().with_input_files(vec!["-".to_string()]);
    assert!(config.reading_from_stdin());

    let config = SortConfig::default().with_input_files(vec!["file.txt".to_string()]);
    assert!(!config.reading_from_stdin());
}

#[test]
fn key_parse_fields_chars_and_options() {
    let k = SortKey::parse("2,4").unwrap();
    assert_eq!(k.start_field, 2);
    assert_eq!(k.start_char, None);
    assert_eq!(k.end_field, Some(4));
    assert_eq!(k.end_char, None);

    let k = SortKey::parse("1.3,1.5").unwrap();
    assert_eq!((k.start_field, k.start_char, k.end_field, k.end_char), (1, Some(3), Some(1), Some(5)));

    let k = SortKey::parse("2nr").unwrap();
    assert!(k.options.numeric && k.options.reverse && !k.options.month);
    assert_eq!(k.end_field, None);

    let k = SortKey::parse("3,3n").unwrap();
    assert!(k.options.numeric);
}

#[test]
fn key_parse_rejects_malformed() {
    assert!(SortKey::parse("").is_err());
    assert!(SortKey::parse("0").is_err());
    assert!(SortKey::parse("a").is_err());
    assert!(SortKey::parse("1.0").is_err());
    assert!(SortKey::parse("1,2,3").is_err());
    assert!(SortKey::parse("2x").is_err());
    assert!(SortKey::parse("99999999999999999999999").is_err());
}

#[test]
fn validate_reports_each_fault() {
    let c = SortConfig::default().with_check(true).with_unique(true);
    assert!(matches!(c.validate(), Err(SortError::ConflictingOptions { .. })));
    let c = SortConfig::default().with_field_separator(Some('\0'));
    assert!(matches!(c.validate(), Err(SortError::InvalidFieldSeparator { .. })));
    let c = SortConfig::default().with_field_separator(Some('é'));
    assert!(matches!(c.validate(), Err(SortError::InvalidFieldSeparator { .. })));
    let c = SortConfig::default().with_buffer_size(Some(10));
    assert!(matches!(c.validate(), Err(SortError::InvalidBufferSize { .. })));
    let c = SortConfig::default().with_parallel_threads(Some(0));
    assert!(matches!(c.validate(), Err(SortError::ThreadPoolError { .. })));
    let c = SortConfig::default().with_parallel_threads(Some(2000));
    assert!(matches!(c.validate(), Err(SortError::ThreadPoolError { .. })));
    let c = SortConfig::default().with_zero_terminated(true).with_field_separator(Some('\0'));
    assert!(c.validate().is_ok());
}

#[test]
fn buffer_size_text_with_suffixes() {
    let mut c = SortConfig::default();
    assert!(c.set_buffer_size_from_string("4096").is_ok());
    assert_eq!(c.buffer_size, Some(4096));
    assert!(c.set_buffer_size_from_string("64K").is_ok());
    assert_eq!(c.buffer_size, Some(65536));
    assert!(c.set_buffer_size_from_string("2M").is_ok());
    assert_eq!(c.buffer_size, Some(2 * 1024 * 1024));
    assert!(matches!(c.set_buffer_size_from_string("12Q"), Err(SortError::InvalidBufferSize { .. })));
    assert!(c.set_buffer_size_from_string("").is_err());
    assert_eq!(c.buffer_size, Some(2 * 1024 * 1024));
}

#[test]
fn mode_names_fold_case() {
    assert_eq!(SortMode::from_name("HUMAN-Numeric").unwrap(), SortMode::HumanNumeric);
    assert_eq!(SortMode::from_name("g").unwrap(), SortMode::GeneralNumeric);
    assert_eq!(SortMode::Month.name(), "month");
}

#[test]
fn for_check_and_for_merge() {
    let c = SortConfig::default().with_unique(true).with_merge(true);
    let k = c.for_check();
    assert!(k.check && !k.merge && !k.unique);
    let m = SortConfig::default().with_check(true).for_merge();
    assert!(m.merge && !m.check);
}

#[test]
fn exit_codes_by_kind() {
    assert_eq!(SortError::not_sorted(3).exit_code(), 1);
    assert_eq!(SortError::file_not_found("x").exit_code(), 2);
    assert_eq!(SortError::parse_error("x").exit_code(), 1);
}

#[test]
fn legacy_key_syntax_is_rewritten() {
    let args: Vec<String> = ["sort", "+1", "-2", "file", "+3", "-r"].iter().map(|s| s.to_string()).collect();
    let out = gnu_sort::args::convert_legacy_syntax(&args);
    assert_eq!(out, vec!["sort", "-k", "2,2", "file", "-k", "4", "-r"]);
    assert!(gnu_sort::args::convert_legacy_syntax(&vec![]).is_empty());
}

#[test]
fn internal_errors_exit_with_two() {
    assert_eq!(SortError::internal("x").exit_code(), 2);
    assert_eq!(SortError::conflicting_options("x").exit_code(), 1);
}

#[test]
fn too_many_input_files_fail_validation() {
    let files: Vec<String> = (0..10001).map(|i| format!("f{i}")).collect();
    let c = SortConfig::default().with_input_files(files);
    assert!(matches!(c.validate(), Err(SortError::ConflictingOptions { .. })));
    let files: Vec<String> = (0..10000).map(|i| format!("f{i}")).collect();
    assert!(SortConfig::default().with_input_files(files).validate().is_ok());
}
