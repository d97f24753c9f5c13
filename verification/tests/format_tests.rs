use rr::format::human_size;

#[test]
fn zero_bytes() {
    assert_eq!(human_size(0), "0.0B");
}

#[test]
fn one_kilobyte() {
    assert_eq!(human_size(1024), "1.0KB");
}

#[test]
fn one_and_a_half_kilobytes() {
    assert_eq!(human_size(1536), "1.5KB");
}

#[test]
fn one_terabyte() {
    assert_eq!(human_size(1099511627776), "1.0TB");
}

#[test]
fn just_below_one_kilobyte() {
    assert_eq!(human_size(1023), "1023.0B");
}

#[test]
fn just_below_one_megabyte() {
    // 1048575 / 1024 = 1023.999…, which one-decimal rounding shows as 1024.0
    assert_eq!(human_size(1048575), "1024.0KB");
}

#[test]
fn ties_round_to_even() {
    // 1280 / 1024 = 1.25 exactly; standard formatting rounds the tie to 1.2
    assert_eq!(human_size(1280), "1.2KB");
    // 1792 / 1024 = 1.75 exactly; the tie rounds up to the even 1.8
    assert_eq!(human_size(1792), "1.8KB");
}

#[test]
fn megabytes_and_gigabytes() {
    assert_eq!(human_size(1048576), "1.0MB");
    assert_eq!(human_size(1073741824), "1.0GB");
    assert_eq!(human_size(5368709120), "5.0GB");
}

#[test]
fn beyond_terabytes_stays_in_terabytes() {
    // 2^50 bytes = 1024 TB: the unit is exhausted, the value keeps growing
    assert_eq!(human_size(1125899906842624), "1024.0TB");
}

#[test]
fn largest_count() {
    // u64::MAX / 2^40, rounded to one decimal
    assert_eq!(human_size(u64::MAX), "16777216.0TB");
}
