use h5inspect::num_utils::{file_size_fmt, file_size_fmt_no_scale, format_integer_with_underscore};

#[test]
fn test_file_size_fmt() {
    assert_eq!(file_size_fmt(1u64), "1 B");
    assert_eq!(file_size_fmt(999u64), "999 B");
    assert_eq!(file_size_fmt(1024u64), "1.024 kB");
    assert_eq!(file_size_fmt(123123123123), "123.123 GB");
    assert_eq!(file_size_fmt(5123123123123), "5.123 TB");
    assert_eq!(file_size_fmt_no_scale(123123123123), "123_123_123_123 B");
}

#[test]
fn underscores_group_by_three() {
    assert_eq!(format_integer_with_underscore(0), "0");
    assert_eq!(format_integer_with_underscore(999), "999");
    assert_eq!(format_integer_with_underscore(1000), "1_000");
    assert_eq!(format_integer_with_underscore(1000001), "1_000_001");
    assert_eq!(
        format_integer_with_underscore(u64::MAX),
        "18_446_744_073_709_551_615"
    );
}

#[test]
fn small_sizes_stay_in_bytes() {
    assert_eq!(file_size_fmt(0), "0 B");
    assert_eq!(file_size_fmt(1023), "1023 B");
    assert_eq!(file_size_fmt_no_scale(0), "0 B");
}
