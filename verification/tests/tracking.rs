use ttlog::cli::{Complete, End, Start};
use ttlog::entry::{LogEntry, LogEntryType};
use ttlog::error::TTError;
use ttlog::handlers::{
    clear_handler, complete_at, complete_handler, end_handler, parse_duration, start_handler,
    status_handler,
};
use ttlog::logger::{MemLog, TTLogger};

fn start_cmd(name: &str, note: Option<&str>) -> Start {
    Start { task_name: name.to_string(), note: note.map(|s| s.to_string()) }
}

fn complete_cmd(name: &str, duration: &str, event_time: Option<&str>, note: Option<&str>) -> Complete {
    Complete {
        task_name: name.to_string(),
        duration: duration.to_string(),
        event_time: event_time.map(|s| s.to_string()),
        note: note.map(|s| s.to_string()),
    }
}

fn entry_tuple(e: &LogEntry) -> (bool, u64, Option<String>, Option<String>) {
    (matches!(e.entry_type, LogEntryType::Start), e.stime, e.task.clone(), e.note.clone())
}

#[test]
fn start_then_end_appends_exactly_two_entries() {
    let mut log = MemLog::new();
    start_handler(&mut log, &start_cmd("alpha", Some("first")), 100).unwrap();
    end_handler(&mut log, &End {}, 250).unwrap();
    let es = log.all_entries();
    assert_eq!(es.len(), 2);
    assert_eq!(
        entry_tuple(&es[0]),
        (true, 100, Some("alpha".to_string()), Some("first".to_string()))
    );
    assert_eq!(entry_tuple(&es[1]), (false, 250, None, None));
    assert!(es[1].stime >= es[0].stime);
}

#[test]
fn end_on_empty_log_fails_and_appends_nothing() {
    let mut log = MemLog::new();
    let r = end_handler(&mut log, &End {}, 10);
    assert_eq!(r, Err(TTError::InvalidState));
    assert_eq!(log.all_entries().len(), 0);
}

#[test]
fn end_after_end_fails_and_appends_nothing() {
    let mut log = MemLog::new();
    start_handler(&mut log, &start_cmd("a", None), 1).unwrap();
    end_handler(&mut log, &End {}, 2).unwrap();
    let r = end_handler(&mut log, &End {}, 3);
    assert_eq!(r, Err(TTError::InvalidState));
    assert_eq!(log.all_entries().len(), 2);
}

#[test]
fn double_start_is_not_rejected() {
    let mut log = MemLog::new();
    start_handler(&mut log, &start_cmd("a", None), 1).unwrap();
    start_handler(&mut log, &start_cmd("b", None), 2).unwrap();
    let es = log.all_entries();
    assert_eq!(es.len(), 2);
    assert!(matches!(es[1].entry_type, LogEntryType::Start));
}

#[test]
fn complete_on_empty_log_appends_start_end_pair() {
    let mut log = MemLog::new();
    complete_handler(&mut log, &complete_cmd("job", "1:00:00", None, None), 10_000).unwrap();
    let es = log.all_entries();
    assert_eq!(es.len(), 2);
    assert_eq!(entry_tuple(&es[0]), (true, 6_400, Some("job".to_string()), None));
    assert_eq!(entry_tuple(&es[1]), (false, 10_000, None, None));
    assert_eq!(es[1].stime - es[0].stime, 3_600);
}

#[test]
fn complete_after_closed_log_appends_start_end_pair() {
    let mut log = MemLog::new();
    start_handler(&mut log, &start_cmd("a", None), 100).unwrap();
    end_handler(&mut log, &End {}, 200).unwrap();
    complete_handler(&mut log, &complete_cmd("b", "0:10:00", None, None), 5_000).unwrap();
    let es = log.all_entries();
    assert_eq!(es.len(), 4);
    assert_eq!(entry_tuple(&es[2]), (true, 4_400, Some("b".to_string()), None));
    assert_eq!(entry_tuple(&es[3]), (false, 5_000, None, None));
}

#[test]
fn complete_with_event_time_uses_parsed_timestamp() {
    let mut log = MemLog::new();
    complete_handler(
        &mut log,
        &complete_cmd("job", "0:30:00", Some("1970-01-02T00:00:00"), None),
        200_000,
    )
    .unwrap();
    let es = log.all_entries();
    assert_eq!(es.len(), 2);
    assert_eq!(es[0].stime, 86_400);
    assert_eq!(es[1].stime, 86_400 + 1_800);
}

#[test]
fn complete_later_than_open_start_leaves_it_open() {
    let mut log = MemLog::new();
    start_handler(&mut log, &start_cmd("open", None), 500).unwrap();
    complete_at(
        &mut log,
        &"new".to_string(),
        &None,
        600,
        100,
        9_000,
    )
    .unwrap();
    let es = log.all_entries();
    assert_eq!(es.len(), 3);
    assert_eq!(entry_tuple(&es[1]), (true, 600, Some("new".to_string()), None));
    assert_eq!(entry_tuple(&es[2]), (false, 700, None, None));
}

#[test]
fn complete_before_open_start_brackets_with_close_and_reopen() {
    let mut log = MemLog::new();
    start_handler(&mut log, &start_cmd("open", Some("keep me")), 5_000).unwrap();
    complete_handler(
        &mut log,
        &complete_cmd("past", "0:00:30", Some("1970-01-01T00:16:40"), Some("old work")),
        9_000,
    )
    .unwrap();
    let es = log.all_entries();
    assert_eq!(es.len(), 5);
    // the open task is closed at the current instant
    assert_eq!(entry_tuple(&es[1]), (false, 9_000, None, None));
    // the retroactive period
    assert_eq!(
        entry_tuple(&es[2]),
        (true, 1_000, Some("past".to_string()), Some("old work".to_string()))
    );
    assert_eq!(entry_tuple(&es[3]), (false, 1_030, None, None));
    // the previously active task reopens at the current instant
    assert_eq!(
        entry_tuple(&es[4]),
        (true, 9_000, Some("open".to_string()), Some("keep me".to_string()))
    );
}

#[test]
fn complete_with_malformed_duration_fails_with_parse_error() {
    let mut log = MemLog::new();
    for bad in ["abc", "1:2", "1:2:3:4", "", "1::2", "1:2:x"] {
        let r = complete_handler(&mut log, &complete_cmd("j", bad, None, None), 1_000);
        assert_eq!(r, Err(TTError::ParseError), "duration {:?}", bad);
    }
    assert_eq!(log.all_entries().len(), 0);
}

#[test]
fn complete_with_malformed_event_time_fails_with_parse_error() {
    let mut log = MemLog::new();
    let r = complete_handler(
        &mut log,
        &complete_cmd("j", "0:00:10", Some("not-a-timestamp"), None),
        1_000,
    );
    assert_eq!(r, Err(TTError::ParseError));
    let r2 = complete_handler(
        &mut log,
        &complete_cmd("j", "0:00:10", Some("1970-13-40T99:99:99"), None),
        1_000,
    );
    assert_eq!(r2, Err(TTError::ParseError));
    assert_eq!(log.all_entries().len(), 0);
}

#[test]
fn complete_before_the_epoch_fails_with_parse_error() {
    let mut log = MemLog::new();
    let r = complete_handler(
        &mut log,
        &complete_cmd("j", "0:00:10", Some("1969-12-31T23:59:59"), None),
        1_000,
    );
    assert_eq!(r, Err(TTError::ParseError));
    assert_eq!(log.all_entries().len(), 0);
}

#[test]
fn complete_whose_end_overflows_the_clock_fails_with_parse_error() {
    let mut log = MemLog::new();
    let r = complete_handler(
        &mut log,
        &complete_cmd("j", "0:0:18446744073709551615", Some("1970-01-01T00:00:01"), None),
        1_000,
    );
    assert_eq!(r, Err(TTError::ParseError));
    assert_eq!(log.all_entries().len(), 0);
}

#[test]
fn complete_longer_than_epoch_distance_fails_with_parse_error() {
    let mut log = MemLog::new();
    let r = complete_handler(&mut log, &complete_cmd("j", "1:00:00", None, None), 60);
    assert_eq!(r, Err(TTError::ParseError));
    assert_eq!(log.all_entries().len(), 0);
}

#[test]
fn parse_duration_reads_hours_minutes_seconds() {
    assert_eq!(parse_duration("1:52:37"), Some(6_757));
    assert_eq!(parse_duration("0:00:59"), Some(59));
    assert_eq!(parse_duration("100:00:00"), Some(360_000));
    assert_eq!(parse_duration("0:0:100"), Some(100));
    assert_eq!(parse_duration("1:2"), None);
    assert_eq!(parse_duration("x:2:3"), None);
    assert_eq!(parse_duration(""), None);
}

#[test]
fn status_on_empty_log_is_not_found() {
    let log = MemLog::new();
    assert_eq!(status_handler(&log), Err(TTError::NotFound));
}

#[test]
fn status_reports_open_task_with_readable_start_time() {
    let mut log = MemLog::new();
    start_handler(&mut log, &start_cmd("work", None), 1_000).unwrap();
    let s = status_handler(&log).unwrap();
    assert_eq!(
        s,
        "Currently tracked task:\n    Task name: work\n    Start time: 1970-01-01 00:16:40\n    Notes: \n"
    );
}

#[test]
fn status_includes_note_when_present() {
    let mut log = MemLog::new();
    start_handler(&mut log, &start_cmd("work", Some("deep focus")), 0).unwrap();
    let s = status_handler(&log).unwrap();
    assert!(s.contains("    Notes: deep focus\n"));
    assert!(s.contains("    Start time: 1970-01-01 00:00:00\n"));
}

#[test]
fn status_after_end_reports_no_active_task() {
    let mut log = MemLog::new();
    start_handler(&mut log, &start_cmd("work", None), 1).unwrap();
    end_handler(&mut log, &End {}, 2).unwrap();
    assert_eq!(status_handler(&log).unwrap(), "Not tracking any active tasks.");
}

#[test]
fn clear_handler_wipes_the_log() {
    let mut log = MemLog::new();
    start_handler(&mut log, &start_cmd("a", None), 1).unwrap();
    clear_handler(&mut log).unwrap();
    assert_eq!(log.all_entries().len(), 0);
}

#[test]
fn error_messages_name_each_failure() {
    assert_eq!(
        TTError::InvalidState.message(),
        "Not active task being tracked. Cannot mark task complete."
    );
    assert_eq!(TTError::NotFound.message(), "Unable to locate task for status reporting.");
    assert_eq!(TTError::IOFailure.message(), "Task log read or write failed.");
    assert_eq!(TTError::UnsupportedFormat.message(), "Unrecognized log file format extension.");
    assert_eq!(
        TTError::ParseError.message(),
        "Unable to parse the provided duration or event time."
    );
}
