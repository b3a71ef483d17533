use tagme::utils::{format_file_size, format_timestamp, u64_to_dec};

#[test]
fn decimal_rendering_is_exact() {
    assert_eq!(u64_to_dec(0), "0");
    assert_eq!(u64_to_dec(7), "7");
    assert_eq!(u64_to_dec(10), "10");
    assert_eq!(u64_to_dec(90061), "90061");
    assert_eq!(u64_to_dec(u64::MAX), "18446744073709551615");
}

#[test]
fn byte_counts_below_a_kilobyte_stay_exact() {
    assert_eq!(format_file_size(0), "0 B");
    assert_eq!(format_file_size(512), "512 B");
    assert_eq!(format_file_size(1023), "1023 B");
}

#[test]
fn kilobyte_sizes_show_two_decimals() {
    assert_eq!(format_file_size(1024), "1.00 KB");
    assert_eq!(format_file_size(1536), "1.50 KB");
    assert_eq!(format_file_size(1048575), "1024.00 KB");
}

#[test]
fn megabyte_and_gigabyte_sizes_show_two_decimals() {
    assert_eq!(format_file_size(1048576), "1.00 MB");
    assert_eq!(format_file_size(5 * 1048576 + 1048576 / 4), "5.25 MB");
    assert_eq!(format_file_size(1073741824), "1.00 GB");
    assert_eq!(format_file_size(1073741824 + 1073741824 / 2), "1.50 GB");
}

#[test]
fn rounding_is_to_the_nearest_hundredth() {
    // 1.005 KB rounds up to 1.01 KB.
    let bytes = 1024 + 6;
    assert_eq!(format_file_size(bytes), "1.01 KB");
}

#[test]
fn the_largest_size_still_formats() {
    assert_eq!(format_file_size(u64::MAX), "17179869184.00 GB");
}

#[test]
fn nonpositive_timestamps_are_unknown() {
    assert_eq!(format_timestamp(0), "Unknown");
    assert_eq!(format_timestamp(-5), "Unknown");
}

#[test]
fn timestamps_split_into_days_and_clock() {
    assert_eq!(format_timestamp(90061), "1 days, 01:01:01");
    assert_eq!(format_timestamp(1), "0 days, 00:00:01");
    assert_eq!(format_timestamp(86399), "0 days, 23:59:59");
    assert_eq!(format_timestamp(86400), "1 days, 00:00:00");
}
