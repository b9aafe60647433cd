use fscan::human::dec_string;
use fscan::human::format_size;

#[test]
fn zero_is_bytes() {
    assert_eq!(format_size(0), "0.00 B");
}

#[test]
fn one_kilobyte() {
    assert_eq!(format_size(1024), "1.00 KB");
}

#[test]
fn one_and_a_half_kilobytes() {
    assert_eq!(format_size(1536), "1.50 KB");
}

#[test]
fn one_terabyte() {
    assert_eq!(format_size(1099511627776), "1.00 TB");
}

#[test]
fn below_the_first_step_stays_in_bytes() {
    assert_eq!(format_size(1023), "1023.00 B");
    assert_eq!(format_size(1), "1.00 B");
}

#[test]
fn half_a_hundredth_rounds_to_even() {
    // 1152 / 1024 = 1.125 exactly: the tie goes to the even digit.
    assert_eq!(format_size(1152), "1.12 KB");
    // 1408 / 1024 = 1.375 exactly: the tie goes up to the even digit.
    assert_eq!(format_size(1408), "1.38 KB");
}

#[test]
fn ordinary_rounding() {
    assert_eq!(format_size(1500), "1.46 KB");
    assert_eq!(format_size(1048575), "1024.00 KB");
    assert_eq!(format_size(1048576), "1.00 MB");
    assert_eq!(format_size(1073741824), "1.00 GB");
}

#[test]
fn stops_at_terabytes() {
    assert_eq!(format_size(u64::MAX), "16777216.00 TB");
    assert_eq!(format_size(2 * 1099511627776), "2.00 TB");
}

#[test]
fn decimal_rendering() {
    assert_eq!(dec_string(0), "0");
    assert_eq!(dec_string(7), "7");
    assert_eq!(dec_string(105), "105");
    assert_eq!(dec_string(u64::MAX), "18446744073709551615");
}
