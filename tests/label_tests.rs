use pse::cli::{minsize_setting, select_paths};
use pse::label::{label_to_size, parse_magnitude, size_from_parts, size_to_label, unit_multiplier};

#[test]
fn label_of_small_and_unit_boundaries() {
    assert_eq!(size_to_label(0), "0 bytes");
    assert_eq!(size_to_label(1023), "1023 bytes");
    assert_eq!(size_to_label(1024), "1.0000 KB");
    assert_eq!(size_to_label(1536), "1.5000 KB");
}

#[test]
fn label_of_each_unit() {
    assert_eq!(size_to_label(2097152), "2.0000 MB");
    assert_eq!(size_to_label(3 * 1073741824), "3.0000 GB");
    assert_eq!(size_to_label(1099511627776), "1.0000 TB");
    assert_eq!(size_to_label(u64::MAX), "16777216.0000 TB");
}

#[test]
fn label_rounding() {
    assert_eq!(size_to_label(1048575), "1023.9990 KB");
    assert_eq!(size_to_label(1073741823), "1024.0000 MB");
    assert_eq!(size_to_label(1056), "1.0312 KB");
    assert_eq!(size_to_label(1234567), "1.1774 MB");
}

#[test]
fn round_label_reads_back_in_same_unit() {
    assert_eq!(label_to_size("2 MB"), Ok(2097152));
    assert_eq!(size_to_label(2097152), "2.0000 MB");
    assert_eq!(label_to_size("100 KB"), Ok(102400));
    assert_eq!(size_to_label(102400), "100.0000 KB");
    assert_eq!(label_to_size("7 bytes"), Ok(7));
    assert_eq!(size_to_label(7), "7 bytes");
}

#[test]
fn parse_errors() {
    assert_eq!(label_to_size("abc KB"), Err("Invalid number".to_string()));
    assert_eq!(label_to_size("100"), Err("Invalid format".to_string()));
    assert_eq!(label_to_size("100 XB"), Err("Invalid unit".to_string()));
    assert_eq!(label_to_size(""), Err("Invalid format".to_string()));
    assert_eq!(label_to_size("1 KB extra"), Err("Invalid format".to_string()));
    assert_eq!(label_to_size("1.2.3 KB"), Err("Invalid number".to_string()));
    assert_eq!(label_to_size(". KB"), Err("Invalid number".to_string()));
    assert_eq!(label_to_size("x XB"), Err("Invalid number".to_string()));
}

#[test]
fn parse_accepted_forms() {
    assert_eq!(label_to_size("1.5 kb"), Ok(1536));
    assert_eq!(label_to_size("  2 \t Gb \n"), Ok(2147483648));
    assert_eq!(label_to_size("1 TB"), Ok(1099511627776));
    assert_eq!(label_to_size("+3 BYTES"), Ok(3));
    assert_eq!(label_to_size("-5 bytes"), Ok(0));
    assert_eq!(label_to_size("0.1 KB"), Ok(102));
    assert_eq!(label_to_size(".5 KB"), Ok(512));
    assert_eq!(label_to_size("5. KB"), Ok(5120));
    assert_eq!(label_to_size("123123 bytes"), Ok(123123));
    assert_eq!(label_to_size("99999999999999999999999 TB"), Ok(u64::MAX));
    assert_eq!(label_to_size("1\u{3000}KB"), Ok(1024));
}

#[test]
fn unit_word_is_lowercased_before_lookup() {
    assert_eq!(label_to_size("1 MB"), Ok(1048576));
    assert_eq!(label_to_size("1 \u{212A}B"), Ok(1024));
}

#[test]
fn unit_multipliers() {
    assert_eq!(unit_multiplier("bytes"), Some(1));
    assert_eq!(unit_multiplier("kb"), Some(1024));
    assert_eq!(unit_multiplier("mb"), Some(1048576));
    assert_eq!(unit_multiplier("gb"), Some(1073741824));
    assert_eq!(unit_multiplier("tb"), Some(1099511627776));
    assert_eq!(unit_multiplier("KB"), None);
    assert_eq!(unit_multiplier("xb"), None);
}

#[test]
fn magnitudes() {
    assert_eq!(parse_magnitude("12", 1024), Some(12288));
    assert_eq!(parse_magnitude("0.999", 1000), Some(999));
    assert_eq!(parse_magnitude("1.0009765625", 1024), Some(1025));
    assert_eq!(parse_magnitude("1.0009765624", 1024), Some(1024));
    assert_eq!(parse_magnitude("", 1), None);
    assert_eq!(parse_magnitude("-", 1), None);
    assert_eq!(parse_magnitude("1e3", 1), Some(1000));
    assert_eq!(parse_magnitude("1e", 1), None);
    assert_eq!(parse_magnitude("e3", 1), None);
    assert_eq!(parse_magnitude("1e3.5", 1), None);
    assert_eq!(parse_magnitude("25e-1", 2), Some(5));
    assert_eq!(parse_magnitude("0.5e1", 3), Some(15));
}

#[test]
fn parts_read_number_before_unit() {
    assert_eq!(size_from_parts("x", "zz"), Err("Invalid number".to_string()));
    assert_eq!(size_from_parts("1", "zz"), Err("Invalid unit".to_string()));
    assert_eq!(size_from_parts("3", "kb"), Ok(3072));
}

#[test]
fn command_line_paths() {
    let args = |v: &[&str]| v.iter().map(|s| s.to_string()).collect::<Vec<String>>();
    assert_eq!(select_paths(&args(&["pse", "/tmp"])), Some(("/tmp".to_string(), "fs_tree.json".to_string())));
    assert_eq!(select_paths(&args(&["pse", "/tmp", "out.json"])), Some(("/tmp".to_string(), "out.json".to_string())));
    assert_eq!(select_paths(&args(&["pse"])), None);
    assert_eq!(select_paths(&args(&["pse", "-h"])), None);
    assert_eq!(select_paths(&args(&["pse", "a", "b", "c"])), None);
}

#[test]
fn minsize_settings() {
    assert_eq!(minsize_setting(None), Ok(0));
    assert_eq!(minsize_setting(Some("100 KB")), Ok(102400));
    assert_eq!(minsize_setting(Some("lots")), Err("Invalid format".to_string()));
}

#[test]
fn exponent_forms() {
    assert_eq!(label_to_size("1e3 KB"), Ok(1024000));
    assert_eq!(label_to_size("1E2 bytes"), Ok(100));
    assert_eq!(label_to_size("1e+2 bytes"), Ok(100));
    assert_eq!(label_to_size("1.5e-1 KB"), Ok(153));
    assert_eq!(label_to_size("2e-3 MB"), Ok(2097));
    assert_eq!(label_to_size("-1e3 kb"), Ok(0));
    assert_eq!(label_to_size("1e999999999999999999999999 bytes"), Ok(u64::MAX));
    assert_eq!(label_to_size("1e99999999999999999999999999999999999999999999 TB"), Ok(u64::MAX));
    assert_eq!(label_to_size("1e-99999999999999999999999999999999999999999999 TB"), Ok(0));
    assert_eq!(label_to_size("0e99999999999999999999999999999999999999999999 TB"), Ok(0));
    assert_eq!(label_to_size("123e-5 TB"), Ok(1352399302));
}

#[test]
fn non_numeric_magnitudes_are_rejected() {
    assert_eq!(label_to_size("inf KB"), Err("Invalid number".to_string()));
    assert_eq!(label_to_size("NaN KB"), Err("Invalid number".to_string()));
    assert_eq!(label_to_size("1e KB"), Err("Invalid number".to_string()));
    assert_eq!(label_to_size("1e- KB"), Err("Invalid number".to_string()));
}
