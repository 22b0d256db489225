use media_dl::output::{
    clean_line, completion_outcome, failure_message, format_duration, last_output_path,
    output_line_action, parse_destination, resolve_output_path, Completion, LineKind,
    LineSplitter, Outcome, ProgressThrottler, MAX_LINE_LEN,
};

const MS: u64 = 1_000_000;

#[test]
fn test_format_duration() {
    assert_eq!(format_duration(0.0_f64 as u64), "00:00");
    assert_eq!(format_duration(59.0_f64 as u64), "00:59");
    assert_eq!(format_duration(61.0_f64 as u64), "01:01");
    assert_eq!(format_duration(3661.0_f64 as u64), "01:01:01");
}

#[test]
fn format_duration_long_hours() {
    assert_eq!(format_duration(360_000), "100:00:00");
    assert_eq!(format_duration(3599), "59:59");
    assert_eq!(format_duration(3600), "01:00:00");
}

#[test]
fn test_parse_destination() {
    assert_eq!(
        parse_destination("[download] Destination: /tmp/test.mp4"),
        Some("/tmp/test.mp4".to_string())
    );
    assert_eq!(
        parse_destination("[download] /tmp/test.mp4 has already been downloaded"),
        Some("/tmp/test.mp4".to_string())
    );
    assert_eq!(
        parse_destination(r#"[Merger] Merging formats into "/tmp/test.mp4""#),
        Some("/tmp/test.mp4".to_string())
    );
    assert_eq!(parse_destination("other line"), None);
}

#[test]
fn parse_destination_edge_cases() {
    assert_eq!(parse_destination("  [download] Destination:   a b.mkv  "), Some("a b.mkv".to_string()));
    assert_eq!(parse_destination("[download]  has already been downloaded"), None);
    assert_eq!(parse_destination(r#"[Merger] Merging formats into ""#), None);
    assert_eq!(parse_destination("[Merger] Merging formats into nothing"), None);
}

// The throttler takes the current time as an argument (nanoseconds on a monotonic clock),
// so the waits of a real clock become explicit instants here.

#[test]
fn test_throttler_emits_first_event_immediately() {
    let mut t = ProgressThrottler::new(100 * MS);
    assert!(t.should_emit(0, Completion::Partial, "downloading"));
    assert!(!t.should_emit(MS, Completion::Partial, "downloading"));
}

#[test]
fn test_throttler_emits_after_interval_elapsed() {
    let mut t = ProgressThrottler::new(20 * MS);
    assert!(t.should_emit(0, Completion::Partial, "downloading"));
    assert!(!t.should_emit(MS, Completion::Partial, "downloading"));
    assert!(t.should_emit(26 * MS, Completion::Partial, "downloading"));
}

#[test]
fn test_throttler_always_emits_100_percent_immediately() {
    let mut t = ProgressThrottler::new(1000 * MS);
    assert!(t.should_emit(0, Completion::Partial, "downloading"));
    assert!(t.should_emit(MS, Completion::Full, "downloading"));
}

#[test]
fn test_throttler_always_emits_status_transition_immediately() {
    let mut t = ProgressThrottler::new(1000 * MS);
    assert!(t.should_emit(0, Completion::Partial, "downloading"));
    assert!(t.should_emit(MS, Completion::Partial, "postprocessing"));
    assert!(!t.should_emit(2 * MS, Completion::Partial, "postprocessing"));
}

#[test]
fn throttler_second_full_report_is_throttled() {
    let mut t = ProgressThrottler::new(1000 * MS);
    assert!(t.should_emit(0, Completion::Partial, "downloading"));
    assert!(t.should_emit(MS, Completion::Full, "downloading"));
    assert!(!t.should_emit(2 * MS, Completion::Full, "downloading"));
    assert!(!t.should_emit(3 * MS, Completion::Partial, "downloading"));
    assert!(t.should_emit(1002 * MS, Completion::Partial, "downloading"));
}

#[test]
fn throttler_default_interval_is_100ms() {
    let mut t = ProgressThrottler::default();
    assert!(t.should_emit(5, Completion::Partial, "downloading"));
    assert!(!t.should_emit(5 + 99 * MS, Completion::Partial, "downloading"));
    assert!(t.should_emit(5 + 100 * MS, Completion::Partial, "downloading"));
    assert!(!t.should_emit(0, Completion::Partial, "downloading"));
}

#[test]
fn line_splitter_splits_on_newline_and_carriage_return() {
    let mut s = LineSplitter::new();
    let lines = s.feed(b"abc\ndef\r\rgh");
    assert_eq!(lines, vec![b"abc".to_vec(), b"def".to_vec()]);
    let lines = s.feed(b"i\njk");
    assert_eq!(lines, vec![b"ghi".to_vec()]);
    assert_eq!(s.finish(), Some(b"jk".to_vec()));
}

#[test]
fn line_splitter_drops_pieces_that_overflow() {
    let mut s = LineSplitter::new();
    let big = vec![b'x'; MAX_LINE_LEN];
    assert!(s.feed(&big).is_empty());
    let lines = s.feed(b"yy\nz");
    assert_eq!(lines.len(), 1);
    assert_eq!(lines[0].len(), MAX_LINE_LEN);
    assert_eq!(s.finish(), Some(b"z".to_vec()));
    let empty = LineSplitter::new();
    assert_eq!(empty.finish(), None);
}

#[test]
fn output_line_actions() {
    let a = output_line_action("ERROR: boom", false);
    assert!(a.records_error);
    assert_eq!(a.kind, LineKind::Log);
    assert!(a.destination.is_none());

    let a = output_line_action("anything", true);
    assert_eq!(a.kind, LineKind::Progress);

    let a = output_line_action("frame=1 time=00:00:01.00", false);
    assert_eq!(a.kind, LineKind::FfmpegFrame);
    assert!(a.destination.is_none());

    let a = output_line_action("[download] Destination: /x/y.mp4", false);
    assert_eq!(a.kind, LineKind::Log);
    assert_eq!(a.destination, Some("/x/y.mp4".to_string()));
    assert!(!a.records_error);
}

#[test]
fn clean_line_trims_and_skips_blank() {
    assert_eq!(clean_line("  a b \r"), Some("a b".to_string()));
    assert_eq!(clean_line(" \t "), None);
}

#[test]
fn failure_messages() {
    assert_eq!(failure_message(Some("ERROR: x".to_string()), Ok(Some(1))), "ERROR: x");
    assert_eq!(failure_message(None, Ok(Some(2))), "err_exit_code:2");
    assert_eq!(failure_message(None, Ok(None)), "err_exit_code:-1");
    assert_eq!(failure_message(None, Ok(Some(-15))), "err_exit_code:-15");
    assert_eq!(failure_message(None, Err("io".to_string())), "io");
}

#[test]
fn completion_outcomes() {
    assert_eq!(completion_outcome(true, true), Outcome::Complete);
    assert_eq!(completion_outcome(false, false), Outcome::Failed);
    assert_eq!(completion_outcome(false, true), Outcome::Silent);
}

#[test]
fn last_output_path_takes_last_line() {
    assert_eq!(last_output_path("/a.mp4\n/b.mp4\n"), Some("/b.mp4".to_string()));
    assert_eq!(last_output_path("  /only.mp4  "), Some("/only.mp4".to_string()));
    assert_eq!(last_output_path(" \n \n"), None);
    assert_eq!(last_output_path("/a.mp4\r\n  /b c.mp4 \r\n"), Some("/b c.mp4".to_string()));
}

#[test]
fn resolve_output_path_prefers_printed_file() {
    assert_eq!(
        resolve_output_path(Some("/p.mp4".to_string()), Some("/f.mp4".to_string()), "/d", false),
        ("/p.mp4".to_string(), true)
    );
    assert_eq!(
        resolve_output_path(None, Some("f.mp4".to_string()), "/d", true),
        ("/d/f.mp4".to_string(), true)
    );
    assert_eq!(
        resolve_output_path(None, Some("/abs/f.mp4".to_string()), "/d", true),
        ("/abs/f.mp4".to_string(), true)
    );
    assert_eq!(resolve_output_path(None, None, "/d", false), (String::new(), false));
    assert_eq!(resolve_output_path(None, None, "/d", true), (String::new(), true));
}
