use ttlog::codec::{encode_record, parse_log_chars, parse_record_at};
use ttlog::entry::{LogEntry, LogEntryType};
use ttlog::strnum::{str_le, str_lt, u64_to_string};

fn chars(s: &str) -> Vec<char> {
    s.chars().collect()
}

fn text(v: &[char]) -> String {
    v.iter().collect()
}

fn tuple(e: &LogEntry) -> (bool, u64, Option<String>, Option<String>) {
    (matches!(e.entry_type, LogEntryType::Start), e.stime, e.task.clone(), e.note.clone())
}

#[test]
fn encode_writes_one_comma_separated_line() {
    let e = LogEntry::new_start(42, "alpha".to_string(), Some("a note".to_string()));
    assert_eq!(text(&encode_record(&e)), "Start,42,alpha,a note\n");
    let e2 = LogEntry::new_end(100);
    assert_eq!(text(&encode_record(&e2)), "End,100,,\n");
}

#[test]
fn encode_quotes_fields_holding_delimiters() {
    let e = LogEntry::new_start(1, "a,b".to_string(), Some("say \"hi\"".to_string()));
    assert_eq!(text(&encode_record(&e)), "Start,1,\"a,b\",\"say \"\"hi\"\"\"\n");
}

#[test]
fn parse_reads_back_each_field() {
    let cs = chars("Start,7,alpha,note text\nEnd,9,,\n");
    let es = parse_log_chars(&cs);
    assert_eq!(es.len(), 2);
    assert_eq!(tuple(&es[0]), (true, 7, Some("alpha".to_string()), Some("note text".to_string())));
    assert_eq!(tuple(&es[1]), (false, 9, None, None));
}

#[test]
fn round_trip_reproduces_entries_with_absent_fields() {
    let entries = vec![
        LogEntry::new_start(0, "plain".to_string(), None),
        LogEntry::new_end(100),
        LogEntry::new_start(50, "with,comma".to_string(), Some("quote \" inside".to_string())),
        LogEntry::new_end(u64::MAX),
    ];
    let mut buf: Vec<char> = Vec::new();
    for e in &entries {
        buf.extend(encode_record(e));
    }
    let back = parse_log_chars(&buf);
    assert_eq!(back.len(), entries.len());
    for (a, b) in entries.iter().zip(back.iter()) {
        assert_eq!(tuple(a), tuple(b));
    }
}

#[test]
fn empty_fields_read_back_as_absent() {
    let e = LogEntry::new_start(5, String::new(), Some(String::new()));
    let line = encode_record(&e);
    assert_eq!(text(&line), "Start,5,,\n");
    let back = parse_log_chars(&line);
    assert_eq!(back.len(), 1);
    assert_eq!(tuple(&back[0]), (true, 5, None, None));
}

#[test]
fn parse_stops_at_the_first_malformed_record() {
    let cs = chars("Start,1,a,\nnot a record\nEnd,2,,\n");
    let es = parse_log_chars(&cs);
    assert_eq!(es.len(), 1);
    assert_eq!(tuple(&es[0]), (true, 1, Some("a".to_string()), None));
}

#[test]
fn parse_rejects_bad_labels_and_timestamps() {
    assert_eq!(parse_log_chars(&chars("Begin,1,,\n")).len(), 0);
    assert_eq!(parse_log_chars(&chars("Start,,a,\n")).len(), 0);
    assert_eq!(parse_log_chars(&chars("Start,12x,a,\n")).len(), 0);
    assert_eq!(parse_log_chars(&chars("Start,99999999999999999999999,a,\n")).len(), 0);
    assert_eq!(parse_log_chars(&chars("Start,1,a\n")).len(), 0);
    assert_eq!(parse_log_chars(&chars("Start,1,a,b,c\n")).len(), 0);
}

#[test]
fn parse_record_reports_how_much_it_consumed() {
    let cs = chars("End,3,,\nStart,4,a,\n");
    let (e, next) = parse_record_at(&cs, 0).unwrap();
    assert_eq!(tuple(&e), (false, 3, None, None));
    assert_eq!(next, 8);
    let (e2, _) = parse_record_at(&cs, next).unwrap();
    assert_eq!(tuple(&e2), (true, 4, Some("a".to_string()), None));
}

#[test]
fn decimal_rendering_matches_the_number() {
    assert_eq!(u64_to_string(0), "0");
    assert_eq!(u64_to_string(7), "7");
    assert_eq!(u64_to_string(120), "120");
    assert_eq!(u64_to_string(u64::MAX), format!("{}", u64::MAX));
}

#[test]
fn string_order_is_lexicographic_by_code_point() {
    assert!(str_lt("alpha", "beta"));
    assert!(str_le("alpha", "alpha"));
    assert!(!str_lt("alpha", "alpha"));
    assert!(str_lt("abc", "abcd"));
    assert!(!str_le("b", "aaaa"));
    assert!(str_lt("Zeta", "alpha"));
}
