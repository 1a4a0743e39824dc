use kuzu_storage::csv_reader::{
    naive_date_to_epoch_days, parse_blob, split_csv_respecting_quotes, split_top_level,
    CsvReaderConfig,
};
use std::collections::HashMap;

#[test]
fn test_config_from_options() {
    let mut opts = HashMap::new();
    opts.insert("HEADER".into(), "false".into());
    opts.insert("DELIM".into(), "|".into());
    opts.insert("QUOTE".into(), "'".into());
    opts.insert("ESCAPE".into(), "`".into());

    let config = CsvReaderConfig::from_options(&opts);
    assert!(!config.has_header);
    assert_eq!(config.delimiter, b'|');
    assert_eq!(config.quote, b'\'');
    assert_eq!(config.escape, b'`');
}

#[test]
fn test_parse_blob_mixed() {
    let blob = parse_blob("Hello\\x20World");
    assert_eq!(blob, b"Hello World");
}

#[test]
fn test_split_top_level_nested() {
    let result = split_top_level("{a: 1, b: {c: 2}}, {d: 3}", ',');
    assert_eq!(result.len(), 2);
    assert_eq!(result[0], "{a: 1, b: {c: 2}}");
    assert_eq!(result[1], "{d: 3}");
}

#[test]
fn test_naive_date_to_epoch_days_known() {
    assert_eq!(naive_date_to_epoch_days(1970, 1, 1), Some(0));
    assert_eq!(naive_date_to_epoch_days(2024, 1, 1), Some(19723));
    assert_eq!(naive_date_to_epoch_days(1990, 5, 15), Some(7439));
}

#[test]
fn invalid_dates_are_rejected_and_old_dates_are_negative() {
    assert_eq!(naive_date_to_epoch_days(2024, 0, 1), None);
    assert_eq!(naive_date_to_epoch_days(2024, 13, 1), None);
    assert_eq!(naive_date_to_epoch_days(2024, 1, 0), None);
    assert_eq!(naive_date_to_epoch_days(2024, 1, 32), None);
    assert_eq!(naive_date_to_epoch_days(1969, 12, 31), Some(-1));
    assert_eq!(naive_date_to_epoch_days(2000, 3, 1), Some(11017));
    assert_eq!(naive_date_to_epoch_days(-1, 1, 1), Some(-719893));
}

#[test]
fn config_defaults_and_lower_case_keys() {
    let config = CsvReaderConfig::default();
    assert!(config.has_header);
    assert_eq!(config.delimiter, b',');
    assert_eq!(config.quote, b'"');
    assert_eq!(config.escape, b'\\');
    assert_eq!(config.null_str, "");

    let mut opts: HashMap<String, String> = HashMap::new();
    opts.insert("header".into(), "TRUE".into());
    opts.insert("DELIMITER".into(), "\t".into());
    opts.insert("null".into(), "NA".into());
    opts.insert("QUOTE".into(), "".into());
    let config = CsvReaderConfig::from_options(&opts);
    assert!(config.has_header);
    assert_eq!(config.delimiter, b'\t');
    assert_eq!(config.quote, b'"');
    assert_eq!(config.null_str, "NA");
}

#[test]
fn blob_escapes_that_do_not_spell_a_byte_stay_literal() {
    assert_eq!(parse_blob("  \\x41\\x4a  "), vec![0x41, 0x4a]);
    assert_eq!(parse_blob("\\xZZ"), b"\\xZZ".to_vec());
    assert_eq!(parse_blob("\\x4"), b"\\x4".to_vec());
    assert_eq!(parse_blob("\\x+f"), vec![0x0f]);
    assert_eq!(parse_blob("é"), "é".as_bytes().to_vec());
    assert_eq!(parse_blob("   "), Vec::<u8>::new());
}

#[test]
fn quote_aware_split_drops_quotes_and_trims() {
    let parts = split_csv_respecting_quotes(" a , \"b, c\" ,d", ',');
    assert_eq!(parts, vec!["a".to_string(), "b, c".to_string(), "d".to_string()]);
    assert_eq!(split_csv_respecting_quotes("", ','), vec!["".to_string()]);
}

#[test]
fn top_level_split_respects_quotes_and_brackets() {
    let parts = split_top_level("[1, 2], (3, 4), \"x, y\", z", ',');
    assert_eq!(
        parts,
        vec!["[1, 2]".to_string(), "(3, 4)".to_string(), "\"x, y\"".to_string(), "z".to_string()]
    );
}

#[test]
fn dates_outside_the_month_are_rejected() {
    assert_eq!(naive_date_to_epoch_days(2023, 2, 30), None);
    assert_eq!(naive_date_to_epoch_days(2023, 2, 29), None);
    assert_eq!(naive_date_to_epoch_days(2023, 4, 31), None);
    assert_eq!(naive_date_to_epoch_days(2024, 2, 29), Some(19782));
    assert_eq!(naive_date_to_epoch_days(1900, 2, 29), None);
    assert_eq!(naive_date_to_epoch_days(2000, 2, 29), Some(11016));
}
