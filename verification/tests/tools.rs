use zkbench::tools::{
    bb_version, ensure_time, nargo_version, versions_from_probes, PreflightError,
};

#[test]
fn nargo_version_reads_second_field_of_first_line() {
    let raw = "nargo version = 1.0.0-beta.3\nnoirc version = 1.0.0-beta.3+abc\n";
    assert_eq!(nargo_version(raw), "1.0.0-beta.3");
}

#[test]
fn nargo_version_stops_at_next_equals_and_crlf() {
    assert_eq!(nargo_version("a = b = c\r\nrest"), "b");
    assert_eq!(nargo_version("v =  2.0 \r\n"), "2.0");
}

#[test]
fn nargo_version_falls_back_to_whole_text() {
    assert_eq!(nargo_version("  1.2.3\n"), "1.2.3");
    assert_eq!(nargo_version(""), "");
    assert_eq!(nargo_version("\nname = 4"), "name = 4");
}

#[test]
fn bb_version_is_trimmed() {
    assert_eq!(bb_version("0.82.2\n"), "0.82.2");
    assert_eq!(bb_version(" \t "), "");
}

#[test]
fn versions_from_both_probes() {
    let v = versions_from_probes("nargo version = 1.0.0-beta.3\n", "0.82.2\n");
    assert_eq!(v.nargo, "1.0.0-beta.3");
    assert_eq!(v.bb, "0.82.2");
}

#[test]
fn ensure_time_requires_gnu_time() {
    assert!(ensure_time(true).is_ok());
    assert_eq!(ensure_time(false), Err(PreflightError::TimeNotFound));
}
