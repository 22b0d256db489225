use media_dl::parser::{
    clean_field, ffmpeg_time_fields, flex_u64_from_i64, flex_u64_from_text, is_clean_invalid,
    parse_ffmpeg_speed, progress_fields, progress_json_body, RawProgress,
};

#[test]
fn clean_field_none_returns_empty() {
    assert!(clean_field(None).is_empty());
}

#[test]
fn clean_field_empty_string_returns_empty() {
    assert!(clean_field(Some("")).is_empty());
    assert!(clean_field(Some("   ")).is_empty());
}

#[test]
fn clean_field_na_values_returns_empty() {
    assert!(clean_field(Some("NA")).is_empty());
    assert!(clean_field(Some("Unknown")).is_empty());
    assert!(clean_field(Some("N/A")).is_empty());
    assert!(clean_field(Some("none")).is_empty());
    assert!(clean_field(Some("null")).is_empty());
}

#[test]
fn clean_field_valid_value_returns_trimmed() {
    assert_eq!(clean_field(Some("2.50MiB/s")), "2.50MiB/s");
    assert_eq!(clean_field(Some("  00:11  ")), "00:11");
}

#[test]
fn parse_ffmpeg_speed_valid_returns_speed() {
    let line = "frame= 1234 fps=128 q=28.0 size=   15360kB time=00:02:29.65 bitrate= 840.2kbits/s speed=2.13x";
    assert_eq!(parse_ffmpeg_speed(line), "2.13x");
}

#[test]
fn parse_ffmpeg_speed_na_returns_empty() {
    let line = "frame=    0 fps=0.0 q=0.0 size=       0kB time=00:00:00.00 bitrate=N/A speed=N/A";
    assert!(parse_ffmpeg_speed(line).is_empty());
}

#[test]
fn parse_ffmpeg_speed_no_field_returns_empty() {
    assert!(parse_ffmpeg_speed("some random line without speed field").is_empty());
}

#[test]
fn test_is_clean_invalid_checks() {
    assert!(is_clean_invalid(""));
    assert!(is_clean_invalid("   "));
    assert!(is_clean_invalid("na"));
    assert!(is_clean_invalid("NA"));
    assert!(is_clean_invalid("N/A"));
    assert!(is_clean_invalid("none"));
    assert!(is_clean_invalid("NULL"));
    assert!(is_clean_invalid("unknown"));
    assert!(is_clean_invalid("Unknown"));
    assert!(is_clean_invalid("Unknown B/s"));
    assert!(is_clean_invalid("download N/A info"));
    assert!(!is_clean_invalid("12.5 MiB/s"));
    assert!(!is_clean_invalid("01:23"));
}

#[test]
fn is_clean_invalid_trims_unicode_white_space() {
    assert!(is_clean_invalid("\u{a0}\u{3000}\t"));
    assert!(is_clean_invalid("\u{2003}NaN\u{2003}") == false);
    assert!(is_clean_invalid("\u{2003}na\u{2003}"));
    assert!(is_clean_invalid("x UNKNOWN y"));
    assert!(!is_clean_invalid("nan"));
}

#[test]
fn clean_field_is_idempotent_on_examples() {
    for raw in ["  12 MiB ", "N/A", "", "  x  ", "Unknown"] {
        let once = clean_field(Some(raw));
        let twice = clean_field(Some(once.as_str()));
        assert_eq!(once, twice);
    }
}

#[test]
fn parse_ffmpeg_speed_skips_unknown_and_leading_space() {
    assert!(parse_ffmpeg_speed("speed=Unknown").is_empty());
    assert_eq!(parse_ffmpeg_speed("speed=   1.5x more"), "1.5x");
    assert!(parse_ffmpeg_speed("speed=   ").is_empty());
    assert_eq!(parse_ffmpeg_speed("speed=1x speed=2x"), "1x");
}

#[test]
fn ffmpeg_time_fields_splits_hours_minutes_seconds() {
    let line = "frame= 1234 fps=128 q=28.0 size=   15360kB time=00:02:29.65 bitrate= 840.2kbits/s speed=2.13x";
    let (h, m, s) = ffmpeg_time_fields(line).unwrap();
    assert_eq!((h.as_str(), m.as_str(), s.as_str()), ("00", "02", "29.65"));
}

#[test]
fn ffmpeg_time_fields_rejects_negative_na_and_missing() {
    let neg = "frame=    0 fps=0.0 q=0.0 size=       0kB time=-577014:32:22.77 bitrate=N/A speed=N/A";
    assert!(ffmpeg_time_fields(neg).is_none());
    let na = "frame=    0 fps=0.0 q=0.0 size=       0kB time=N/A bitrate=N/A speed=N/A";
    assert!(ffmpeg_time_fields(na).is_none());
    assert!(ffmpeg_time_fields("some random line without time field").is_none());
    assert!(ffmpeg_time_fields("time=01:02").is_none());
    assert!(ffmpeg_time_fields("time=1:2:3:4").is_none());
    assert!(ffmpeg_time_fields("time=   ").is_none());
}

#[test]
fn progress_json_body_strips_prefix() {
    assert_eq!(
        progress_json_body("PROGRESS_JSON:{\"percent\":\"1%\"}").unwrap(),
        "{\"percent\":\"1%\"}"
    );
    assert!(progress_json_body("some random line").is_none());
    assert!(progress_json_body(" PROGRESS_JSON:{}").is_none());
}

#[test]
fn flex_counts_accept_numbers_and_number_strings() {
    assert_eq!(flex_u64_from_text("15"), Some(15));
    assert_eq!(flex_u64_from_text(" 30 "), Some(30));
    assert_eq!(flex_u64_from_text("+7"), Some(7));
    assert_eq!(flex_u64_from_text("NA"), None);
    assert_eq!(flex_u64_from_text("na"), None);
    assert_eq!(flex_u64_from_text(""), None);
    assert_eq!(flex_u64_from_text("-1"), None);
    assert_eq!(flex_u64_from_text("12a"), None);
    assert_eq!(flex_u64_from_text("18446744073709551615"), Some(u64::MAX));
    assert_eq!(flex_u64_from_text("18446744073709551616"), None);
    assert_eq!(flex_u64_from_i64(12), Some(12));
    assert_eq!(flex_u64_from_i64(-3), None);
}

#[test]
fn progress_fields_cleans_and_defaults() {
    let raw = RawProgress {
        percent: Some(" 45.2%".to_string()),
        speed: Some("2.50MiB/s".to_string()),
        eta: Some("Unknown".to_string()),
        downloaded: Some("22.68MiB".to_string()),
        total: Some("N/A".to_string()),
        fragment_index: Some(12),
        fragment_count: None,
        status: None,
    };
    let f = progress_fields(&raw);
    assert_eq!(f.percent_text, "45.2");
    assert_eq!(f.speed, "2.50MiB/s");
    assert!(f.eta.is_empty());
    assert_eq!(f.downloaded, "22.68MiB");
    assert!(f.total.is_empty());
    assert_eq!(f.fragment_index, Some(12));
    assert_eq!(f.fragment_count, None);
    assert_eq!(f.status, "downloading");

    let raw = RawProgress {
        percent: None,
        speed: None,
        eta: None,
        downloaded: None,
        total: None,
        fragment_index: None,
        fragment_count: None,
        status: Some("postprocessing".to_string()),
    };
    let f = progress_fields(&raw);
    assert_eq!(f.percent_text, "0");
    assert_eq!(f.status, "postprocessing");
    assert!(f.speed.is_empty());
}
