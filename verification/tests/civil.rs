use hiddify_vless_xhttp_parser::civil::{civil_from_days, format_timestamp, now_iso8601};

#[test]
fn civil_epoch_is_1970_01_01() {
    assert_eq!(civil_from_days(0), (1970, 1, 1));
}

#[test]
fn timestamp_has_expected_shape() {
    let ts = now_iso8601();
    assert_eq!(ts.len(), 20);
    assert!(ts.ends_with('Z'));
    assert_eq!(&ts[4..5], "-");
}

#[test]
fn civil_dates_around_leap_days() {
    assert_eq!(civil_from_days(-1), (1969, 12, 31));
    assert_eq!(civil_from_days(59), (1970, 3, 1));
    assert_eq!(civil_from_days(10_956), (1999, 12, 31));
    assert_eq!(civil_from_days(11_016), (2000, 2, 29));
    assert_eq!(civil_from_days(19_782), (2024, 2, 29));
    assert_eq!(civil_from_days(-719_468), (0, 3, 1));
    assert_eq!(civil_from_days(47_541), (2100, 3, 1));
}

#[test]
fn formats_timestamps() {
    assert_eq!(format_timestamp(0), "1970-01-01T00:00:00Z");
    assert_eq!(format_timestamp(951_782_400 + 3_661), "2000-02-29T01:01:01Z");
    assert_eq!(format_timestamp(1_700_000_000), "2023-11-14T22:13:20Z");
}

#[test]
fn timestamp_shape_holds_to_year_9999() {
    assert_eq!(format_timestamp(253_402_300_799), "9999-12-31T23:59:59Z");
    assert_eq!(format_timestamp(253_402_300_800), "10000-01-01T00:00:00Z");
    for secs in [0u64, 59, 86_399, 86_400, 1_000_000_000, 4_102_444_800] {
        let ts = format_timestamp(secs);
        assert_eq!(ts.len(), 20);
        assert_eq!(&ts[4..5], "-");
        assert_eq!(&ts[10..11], "T");
        assert!(ts.ends_with('Z'));
    }
}

#[test]
fn consecutive_days_are_next_calendar_days() {
    fn dim(y: i64, m: u32) -> u32 {
        let leap = y % 4 == 0 && (y % 100 != 0 || y % 400 == 0);
        [31, if leap { 29 } else { 28 }, 31, 30, 31, 30, 31, 31, 30, 31, 30, 31][(m - 1) as usize]
    }
    for z in -800_000i64..800_000 {
        let (y, m, d) = civil_from_days(z);
        let next = if d < dim(y, m) { (y, m, d + 1) } else if m < 12 { (y, m + 1, 1) } else { (y + 1, 1, 1) };
        assert_eq!(civil_from_days(z + 1), next);
    }
}
