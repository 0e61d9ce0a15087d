use ttlog::cli::{Start, Summary};
use ttlog::entry::{LogEntry, Task};
use ttlog::handlers::start_handler;
use ttlog::logger::{MemLog, TTLogger};
use ttlog::report::{
    create_aggregate_report, format_duration, group_tasks, parse_log_into_tasks, summarize_task_stats,
    summary_handler, Stats,
};

fn feed(log: &mut MemLog, entries: &[(bool, u64, Option<&str>)]) {
    for (is_start, stime, task) in entries {
        let e = if *is_start {
            LogEntry::new_start(*stime, task.unwrap().to_string(), None)
        } else {
            LogEntry::new_end(*stime)
        };
        log.write(e).unwrap();
    }
}

#[test]
fn format_duration_matches_hours_minutes_seconds() {
    assert_eq!(format_duration(3_661), "1h 1m 1s");
    assert_eq!(format_duration(59), "0h 0m 59s");
    assert_eq!(format_duration(0), "0h 0m 0s");
    assert_eq!(format_duration(7_322), "2h 2m 2s");
    assert_eq!(format_duration(90_000), "25h 0m 0s");
}

#[test]
fn parse_into_tasks_pairs_start_end_windows() {
    let mut log = MemLog::new();
    feed(
        &mut log,
        &[(true, 0, Some("A")), (false, 100, None), (true, 200, Some("B")), (false, 250, None)],
    );
    let tasks = parse_log_into_tasks(&log);
    assert_eq!(tasks.len(), 2);
    assert_eq!((tasks[0].stime, tasks[0].dur, tasks[0].task.as_str()), (0, 100, "A"));
    assert_eq!((tasks[1].stime, tasks[1].dur, tasks[1].task.as_str()), (200, 50, "B"));
}

#[test]
fn parse_into_tasks_skips_unterminated_trailing_start() {
    let mut log = MemLog::new();
    feed(&mut log, &[(true, 0, Some("A")), (false, 10, None), (true, 20, Some("B"))]);
    let tasks = parse_log_into_tasks(&log);
    assert_eq!(tasks.len(), 1);
    assert_eq!(tasks[0].task.as_str(), "A");
}

#[test]
fn parse_into_tasks_names_unnamed_starts_task() {
    let mut log = MemLog::new();
    log.write(LogEntry { entry_type: ttlog::entry::LogEntryType::Start, stime: 5, task: None, note: None })
        .unwrap();
    log.write(LogEntry::new_end(15)).unwrap();
    let tasks = parse_log_into_tasks(&log);
    assert_eq!(tasks.len(), 1);
    assert_eq!(tasks[0].task.as_str(), "Task");
    assert_eq!(tasks[0].dur, 10);
}

#[test]
fn parse_into_tasks_sorts_by_start_then_name() {
    let mut log = MemLog::new();
    feed(
        &mut log,
        &[(true, 500, Some("late")), (false, 600, None), (true, 10, Some("early")), (false, 20, None)],
    );
    let tasks = parse_log_into_tasks(&log);
    assert_eq!(tasks[0].task.as_str(), "early");
    assert_eq!(tasks[1].task.as_str(), "late");
}

#[test]
fn group_tasks_splits_on_calendar_day() {
    let t = |stime: u64, name: &str| Task { stime, dur: 10, task: name.to_string() };
    let groups = group_tasks(vec![t(0, "a"), t(86_399, "b"), t(86_400, "c")]);
    assert_eq!(groups.len(), 2);
    assert_eq!(groups[0].len(), 2);
    assert_eq!(groups[1].len(), 1);
    assert_eq!(groups[1][0].task.as_str(), "c");
}

#[test]
fn summarize_accumulates_per_name_and_per_group() {
    let t = |stime: u64, name: &str, dur: u64| Task { stime, dur, task: name.to_string() };
    let groups = group_tasks(vec![
        t(0, "a", 100),
        t(10, "b", 50),
        t(86_400, "a", 25),
    ]);
    let (agg, per_group) = summarize_task_stats(&groups);
    assert_eq!(agg.get(&"a".to_string()), Some(125));
    assert_eq!(agg.get(&"b".to_string()), Some(50));
    assert_eq!(agg.get(&"c".to_string()), None);
    assert_eq!(per_group.len(), 2);
    assert_eq!(per_group[0].get(&"a".to_string()), Some(100));
    assert_eq!(per_group[0].get(&"b".to_string()), Some(50));
    assert_eq!(per_group[1].get(&"a".to_string()), Some(25));
    assert_eq!(per_group[1].get(&"b".to_string()), None);
}

#[test]
fn summarize_keeps_names_in_lexicographic_order() {
    let t = |stime: u64, name: &str, dur: u64| Task { stime, dur, task: name.to_string() };
    let groups = group_tasks(vec![t(0, "zeta", 1), t(10, "alpha", 2), t(20, "mid", 3)]);
    let (agg, _) = summarize_task_stats(&groups);
    let names: Vec<&str> = agg.items.iter().map(|i| i.name.as_str()).collect();
    assert_eq!(names, vec!["alpha", "mid", "zeta"]);
}

#[test]
fn summary_of_single_task_shows_full_shares() {
    let mut log = MemLog::new();
    feed(&mut log, &[(true, 0, Some("A")), (false, 100, None)]);
    let text = summary_handler(&log, &Summary {});
    assert_eq!(
        text,
        "1970-01-01 Stats\n-----------------------\n\
         A: 0h 1m 40s (100.00% of task total)\n\
         \n\
         Aggregate Stats\n-----------------------\n\
         A: 0h 1m 40s (100.00% of total time)\n\
         \n"
    );
}

#[test]
fn summary_splits_shares_between_tasks() {
    let mut log = MemLog::new();
    feed(
        &mut log,
        &[(true, 0, Some("A")), (false, 100, None), (true, 100, Some("B")), (false, 150, None)],
    );
    let text = summary_handler(&log, &Summary {});
    // one calendar day: each task owns all of its own time
    assert!(text.contains("A: 0h 1m 40s (100.00% of task total)\n"), "{text}");
    assert!(text.contains("B: 0h 0m 50s (100.00% of task total)\n"), "{text}");
    // of all tracked time, A holds two thirds and B one third
    assert!(text.contains("A: 0h 1m 40s (66.67% of total time)\n"), "{text}");
    assert!(text.contains("B: 0h 0m 50s (33.33% of total time)\n"), "{text}");
}

#[test]
fn summary_splits_task_share_across_days() {
    let mut log = MemLog::new();
    feed(
        &mut log,
        &[
            (true, 0, Some("A")),
            (false, 75, None),
            (true, 86_400, Some("A")),
            (false, 86_425, None),
        ],
    );
    let text = summary_handler(&log, &Summary {});
    // day one holds 75 of A's 100 seconds, day two the other 25
    assert!(text.contains("1970-01-01 Stats"), "{text}");
    assert!(text.contains("1970-01-02 Stats"), "{text}");
    assert!(text.contains("A: 0h 1m 15s (75.00% of task total)\n"), "{text}");
    assert!(text.contains("A: 0h 0m 25s (25.00% of task total)\n"), "{text}");
    assert!(text.contains("A: 0h 1m 40s (100.00% of total time)\n"), "{text}");
}

#[test]
fn summary_on_empty_log_short_circuits() {
    let log = MemLog::new();
    assert_eq!(summary_handler(&log, &Summary {}), "Cannot generate summary for empty task list.\n");
}

#[test]
fn summary_on_lone_open_start_short_circuits() {
    let mut log = MemLog::new();
    start_handler(&mut log, &Start { task_name: "open".to_string(), note: None }, 5).unwrap();
    assert_eq!(summary_handler(&log, &Summary {}), "Cannot generate summary for empty task list.\n");
}

#[test]
fn aggregate_report_of_empty_stats_has_only_the_header() {
    let report = create_aggregate_report(Stats::new());
    assert_eq!(report, "Aggregate Stats\n-----------------------\n");
}

#[test]
fn zero_duration_task_reports_nan_share() {
    let mut log = MemLog::new();
    feed(&mut log, &[(true, 50, Some("A")), (false, 50, None)]);
    let text = summary_handler(&log, &Summary {});
    assert!(text.contains("A: 0h 0m 0s (NaN% of task total)\n"), "{text}");
}
