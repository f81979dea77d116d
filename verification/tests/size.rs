use pt_listing::error::ErrorKind;
use pt_listing::torrent::{Promotion, parse_size};

#[test]
fn size_plain_number_is_base_units() {
    assert_eq!(parse_size("512").unwrap(), 512);
}

#[test]
fn size_kib_is_unscaled() {
    assert_eq!(parse_size("512KiB").unwrap(), 512);
}

#[test]
fn size_fractional_mib() {
    assert_eq!(parse_size("1.5MiB").unwrap(), 1536);
}

#[test]
fn size_break_marker_truncates_number_but_not_unit_scan() {
    // the numeric portion stops at the break marker, the unit scan does not
    assert_eq!(parse_size("2<br>GiB").unwrap(), 2 * 1024 * 1024);
}

#[test]
fn size_tib_scales_by_1024_cubed() {
    assert_eq!(parse_size("3TiB").unwrap(), 3 * 1024 * 1024 * 1024);
}

#[test]
fn size_fraction_truncates_toward_zero() {
    assert_eq!(parse_size("3.7").unwrap(), 3);
    assert_eq!(parse_size("650.2<br>MiB").unwrap(), 665804);
}

#[test]
fn size_non_numeric_fails_with_parse_error() {
    let e = parse_size("abcMiB").unwrap_err();
    assert_eq!(e.kind, ErrorKind::Parse);
}

#[test]
fn size_empty_numeric_portion_fails() {
    let e = parse_size("<br>GiB").unwrap_err();
    assert_eq!(e.kind, ErrorKind::Parse);
}

#[test]
fn size_double_dot_fails() {
    assert_eq!(parse_size("1.2.3").unwrap_err().kind, ErrorKind::Parse);
}

#[test]
fn promotion_known_tokens() {
    assert_eq!(Promotion::from_str("free_bg"), Promotion::Free);
    assert_eq!(Promotion::from_str("twoup_bg"), Promotion::TwoUp);
    assert_eq!(Promotion::from_str("twoupfree_bg"), Promotion::TwoUpFree);
    assert_eq!(Promotion::from_str("halfdown_bg"), Promotion::HalfDown);
    assert_eq!(Promotion::from_str("twouphalfdown_bg"), Promotion::TwoUpHalfDown);
    assert_eq!(
        Promotion::from_str("thirtypercentdown_bg"),
        Promotion::ThirtyPercentDown
    );
}

#[test]
fn promotion_unknown_token_degrades_to_normal() {
    assert_eq!(Promotion::from_str("unknown_bg"), Promotion::Normal);
    assert_eq!(Promotion::from_str(""), Promotion::Normal);
}
