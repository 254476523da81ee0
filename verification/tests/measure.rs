use zkbench::measure::{median, parse_time_output};

#[test]
fn median_odd_returns_middle() {
    assert_eq!(median(&[3, 1, 2]), 2);
}

#[test]
fn median_even_averages_two_middle() {
    assert_eq!(median(&[10, 20, 30, 40]), 25);
}

#[test]
fn median_single_element() {
    assert_eq!(median(&[42]), 42);
}

#[test]
fn parse_time_typical_line() {
    let s = parse_time_output("0.18 89248").unwrap();
    assert_eq!(s.time_ms, 180);
    assert_eq!(s.peak_kb, 89248);
}

#[test]
fn parse_time_rounds_seconds_to_ms() {
    // 1.235 s -> 1235 ms
    let s = parse_time_output("1.235 1000").unwrap();
    assert_eq!(s.time_ms, 1235);
}

#[test]
fn parse_time_tolerates_trailing_newline_and_padding() {
    let s = parse_time_output("  0.50 2048\n").unwrap();
    assert_eq!(s.time_ms, 500);
    assert_eq!(s.peak_kb, 2048);
}

#[test]
fn parse_time_rejects_garbage() {
    assert!(parse_time_output("").is_none());
    assert!(parse_time_output("oops").is_none());
    assert!(parse_time_output("abc def").is_none());
}

#[test]
fn median_even_rounds_down() {
    assert_eq!(median(&[1, 2]), 1);
    assert_eq!(median(&[7, 2, 9, 4]), 5);
}

#[test]
fn median_even_of_largest_values_does_not_overflow() {
    assert_eq!(median(&[u64::MAX, u64::MAX]), u64::MAX);
    assert_eq!(median(&[u64::MAX, u64::MAX - 1]), u64::MAX - 1);
}

#[test]
fn median_ignores_order_on_values() {
    assert_eq!(median(&[5, 1, 4]), median(&[4, 5, 1]));
    assert_eq!(median(&[9, 3, 3, 8]), median(&[3, 8, 9, 3]));
}

#[test]
fn median_lies_within_bounds_on_values() {
    let v = [12, 3, 40, 7, 7, 25];
    let m = median(&v);
    assert!(m >= 3 && m <= 40);
    assert_eq!(m, 9);
}

#[test]
fn parse_time_reads_the_last_two_words() {
    let s = parse_time_output("Command exited 0.18 89248").unwrap();
    assert_eq!(s.time_ms, 180);
    assert_eq!(s.peak_kb, 89248);
}

#[test]
fn parse_time_tolerates_unicode_white_space() {
    let s = parse_time_output("\u{3000}0.5\u{a0}10\u{2028}").unwrap();
    assert_eq!(s.time_ms, 500);
    assert_eq!(s.peak_kb, 10);
}

#[test]
fn parse_time_rounds_halves_up() {
    assert_eq!(parse_time_output("0.0005 1").unwrap().time_ms, 1);
    assert_eq!(parse_time_output("0.0004999 1").unwrap().time_ms, 0);
    assert_eq!(parse_time_output("2.5 1").unwrap().time_ms, 2500);
}

#[test]
fn parse_time_accepts_float_forms() {
    assert_eq!(parse_time_output("5. 1").unwrap().time_ms, 5000);
    assert_eq!(parse_time_output(".25 1").unwrap().time_ms, 250);
    assert_eq!(parse_time_output("+1.5 1").unwrap().time_ms, 1500);
    assert_eq!(parse_time_output("1e-3 1").unwrap().time_ms, 1);
    assert_eq!(parse_time_output("2.5E2 1").unwrap().time_ms, 250000);
    assert_eq!(parse_time_output("15e-4 1").unwrap().time_ms, 2);
}

#[test]
fn parse_time_saturates_and_clamps() {
    assert_eq!(parse_time_output("-1.0 3").unwrap().time_ms, 0);
    assert_eq!(parse_time_output("nan 3").unwrap().time_ms, 0);
    assert_eq!(parse_time_output("inf 3").unwrap().time_ms, u64::MAX);
    assert_eq!(parse_time_output("-Infinity 3").unwrap().time_ms, 0);
    assert_eq!(parse_time_output("INFINITY 3").unwrap().time_ms, u64::MAX);
    assert_eq!(parse_time_output("99999999999999999999 3").unwrap().time_ms, u64::MAX);
    assert_eq!(parse_time_output("1e400 3").unwrap().time_ms, u64::MAX);
    assert_eq!(parse_time_output("0e400 3").unwrap().time_ms, 0);
    assert_eq!(parse_time_output("7e-400 3").unwrap().time_ms, 0);
    assert_eq!(
        parse_time_output("1e99999999999999999999999999999999999999999 3").unwrap().time_ms,
        u64::MAX
    );
}

#[test]
fn parse_time_rejects_malformed_seconds() {
    assert!(parse_time_output("1.2.3 4").is_none());
    assert!(parse_time_output(". 4").is_none());
    assert!(parse_time_output("1e 4").is_none());
    assert!(parse_time_output("1e+ 4").is_none());
    assert!(parse_time_output("0x10 4").is_none());
    assert!(parse_time_output("infinit 4").is_none());
}

#[test]
fn parse_time_reads_kilobytes_as_u64() {
    assert_eq!(parse_time_output("0.1 +42").unwrap().peak_kb, 42);
    assert!(parse_time_output("0.1 -42").is_none());
    assert!(parse_time_output("0.1 +").is_none());
    assert!(parse_time_output("0.1 1.5").is_none());
    assert_eq!(
        parse_time_output("0.1 18446744073709551615").unwrap().peak_kb,
        u64::MAX
    );
    assert!(parse_time_output("0.1 18446744073709551616").is_none());
}

#[test]
fn median_is_monotone_on_values() {
    let a = [3, 9, 1, 4];
    let b = [5, 9, 2, 10];
    assert!(median(&a) <= median(&b));
    assert_eq!(median(&a), 3);
    assert_eq!(median(&b), 7);
}
