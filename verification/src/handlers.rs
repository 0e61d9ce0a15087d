//! Command handlers: live start/end tracking, retroactive completion,
//! the status view, and clearing the log. Each handler takes the
//! current time as an explicit input and states exactly what it
//! appends.

use vstd::prelude::*;

use crate::cli::{Complete, End, Start};
use crate::codec::field_content;
use crate::entry::{clone_opt_string, mk_end, mk_start, EntryView, LogEntry, LogEntryType};
use crate::error::TTError;
use crate::logger::TTLogger;
use crate::strnum::{all_digits, dec_val, parse_u64_range, str_to_chars};
use crate::time::{datetime_line_of, format_datetime, parse_event_time, parsed_timestamp_of};

verus! {

// ---------------------------------------------------------------------
// duration strings
// ---------------------------------------------------------------------
/// The position of the first colon in `s`, or its length.
pub open spec fn first_colon(s: Seq<char>) -> int
    decreases s.len(),
{
    if s.len() == 0 {
        0
    } else if s[0] == ':' {
        0
    } else {
        1 + first_colon(s.drop_first())
    }
}

/// `first_colon` is the position of the first colon.
proof fn lemma_first_colon_char(s: Seq<char>, k: int)
    requires
        0 <= k <= s.len(),
        forall|i: int| 0 <= i < k ==> #[trigger] s[i] != ':',
        k == s.len() || s[k] == ':',
    ensures
        first_colon(s) == k,
    decreases k,
{
    if k == 0 {
    } else {
        assert(s[0] != ':');
        let t = s.drop_first();
        assert(forall|i: int| 0 <= i < k - 1 ==> #[trigger] t[i] == s[i + 1]);
        lemma_first_colon_char(t, k - 1);
    }
}

/// The seconds a duration text of the shape `h:mm:ss` denotes: three
/// colon-separated runs of digits, each read as a decimal number that
/// fits a `u64` — hours may exceed 24 — summed into seconds, which must
/// fit a `u64` as well. Anything else is malformed.
pub open spec fn spec_parse_duration(s: Seq<char>) -> Option<int> {
    let i = first_colon(s);
    if i == s.len() {
        None
    } else {
        let rest = s.skip(i + 1);
        let j = first_colon(rest);
        if j == rest.len() {
            None
        } else {
            let h = s.take(i);
            let m = rest.take(j);
            let sec = rest.skip(j + 1);
            if first_colon(sec) != sec.len() {
                None
            } else if h.len() > 0 && all_digits(h) && dec_val(h) <= u64::MAX && m.len() > 0
                && all_digits(m) && dec_val(m) <= u64::MAX && sec.len() > 0 && all_digits(sec)
                && dec_val(sec) <= u64::MAX {
                let total = 3600 * dec_val(h) + 60 * dec_val(m) + dec_val(sec);
                if total <= u64::MAX {
                    Some(total)
                } else {
                    None
                }
            } else {
                None
            }
        }
    }
}

/// Finds the first colon at or after `from`, as an index into `cs`.
fn scan_colon(cs: &Vec<char>, from: usize) -> (r: usize)
    requires
        from <= cs@.len(),
    ensures
        from <= r <= cs@.len(),
        first_colon(cs@.skip(from as int)) == r - from,
        r < cs@.len() ==> cs@[r as int] == ':',
{
    let len = cs.len();
    let mut p: usize = from;
    loop
        invariant
            from <= p <= len,
            len == cs@.len(),
            forall|i: int| from <= i < p ==> #[trigger] cs@[i] != ':',
        ensures
            from <= p <= len,
            forall|i: int| from <= i < p ==> #[trigger] cs@[i] != ':',
            p == len || cs@[p as int] == ':',
        decreases len - p,
    {
        if p == len {
            break;
        }
        if cs[p] == ':' {
            break;
        }
        p = p + 1;
    }
    proof {
        let s = cs@.skip(from as int);
        assert(forall|i: int| 0 <= i < p - from ==> #[trigger] s[i] == cs@[i + from]);
        if p < len {
            assert(s[p - from] == cs@[p as int]);
        }
        lemma_first_colon_char(s, p - from);
    }
    p
}

/// Reads a duration text; yields its seconds exactly when
/// `spec_parse_duration` does.
pub fn parse_duration(s: &str) -> (r: Option<u64>)
    ensures
        match r {
            Some(v) => spec_parse_duration(s@) == Some(v as int),
            None => spec_parse_duration(s@) is None,
        },
{
    let cs = str_to_chars(s);
    let len = cs.len();
    let i = scan_colon(&cs, 0);
    assert(cs@.skip(0) =~= cs@);
    if i == len {
        return None;
    }
    let j = scan_colon(&cs, i + 1);
    let ghost rest = s@.skip(i as int + 1);
    assert(rest =~= cs@.skip(i as int + 1));
    if j == len {
        assert(first_colon(rest) == rest.len());
        return None;
    }
    assert(first_colon(rest) == j - (i + 1) && j - (i + 1) < rest.len());
    let k = scan_colon(&cs, j + 1);
    let ghost sec = rest.skip(j - (i + 1) + 1);
    assert(sec =~= cs@.skip(j as int + 1));
    if k != len {
        assert(first_colon(sec) != sec.len());
        return None;
    }
    assert(first_colon(sec) == sec.len());
    assert(s@.take(i as int) =~= cs@.subrange(0, i as int));
    assert(rest.take(j - (i + 1)) =~= cs@.subrange(i as int + 1, j as int));
    assert(sec =~= cs@.subrange(j as int + 1, len as int));
    let rh = parse_u64_range(&cs, 0, i);
    if rh.is_none() {
        return None;
    }
    let rm = parse_u64_range(&cs, i + 1, j);
    if rm.is_none() {
        return None;
    }
    let rs = parse_u64_range(&cs, j + 1, len);
    if rs.is_none() {
        return None;
    }
    let h = rh.unwrap();
    let m = rm.unwrap();
    let sec_v = rs.unwrap();
    let total: u128 = 3600 * (h as u128) + 60 * (m as u128) + (sec_v as u128);
    if total > u64::MAX as u128 {
        return None;
    }
    Some(total as u64)
}

// ---------------------------------------------------------------------
// live tracking
// ---------------------------------------------------------------------
/// What starting a task appends to a log.
pub open spec fn start_effect(
    es: Seq<EntryView>,
    now: int,
    task: Seq<char>,
    note: Option<Seq<char>>,
) -> Seq<EntryView> {
    es.push(mk_start(now, Some(task), note))
}

/// Whether the log has an open task that `end` may close.
pub open spec fn end_allowed(es: Seq<EntryView>) -> bool {
    es.len() > 0 && es.last().entry_type == LogEntryType::Start
}

/// What ending the open task appends to a log.
pub open spec fn end_effect(es: Seq<EntryView>, now: int) -> Seq<EntryView> {
    es.push(mk_end(now))
}

/// Starts tracking `task_conf.task_name` now. No precondition is
/// checked: starting twice in a row knowingly leaves two consecutive
/// `Start` entries in the log.
pub fn start_handler<L: TTLogger>(logger: &mut L, task_conf: &Start, now: u64) -> (r: Result<
    (),
    TTError,
>)
    ensures
        r is Ok ==> final(logger).entries() == start_effect(
            old(logger).entries(),
            now as int,
            task_conf.task_name@,
            task_conf.note.deep_view(),
        ),
        r is Err ==> final(logger).entries() == old(logger).entries() && r == Err::<
            (),
            TTError,
        >(TTError::IOFailure),
{
    logger.write(
        LogEntry::new_start(now, task_conf.task_name.clone(), clone_opt_string(&task_conf.note)),
    )
}

/// Ends the open task now; fails with `InvalidState`, appending
/// nothing, when the log is empty or already closed.
pub fn end_handler<L: TTLogger>(logger: &mut L, _task_conf: &End, now: u64) -> (r: Result<
    (),
    TTError,
>)
    ensures
        !end_allowed(old(logger).entries()) ==> r == Err::<(), TTError>(TTError::InvalidState)
            && final(logger).entries() == old(logger).entries(),
        end_allowed(old(logger).entries()) ==> match r {
            Ok(()) => final(logger).entries() == end_effect(old(logger).entries(), now as int),
            Err(e) => e == TTError::IOFailure && final(logger).entries() == old(logger).entries(),
        },
{
    let es = logger.all_entries();
    if es.len() == 0 {
        return Err(TTError::InvalidState);
    }
    let last = &es[es.len() - 1];
    assert(last@ == old(logger).entries().last());
    match last.entry_type {
        LogEntryType::End => Err(TTError::InvalidState),
        LogEntryType::Start => logger.write(LogEntry::new_end(now)),
    }
}

/// Wipes the log.
pub fn clear_handler<L: TTLogger>(logger: &mut L) -> (r: Result<(), TTError>)
    ensures
        r is Ok ==> final(logger).entries() == Seq::<EntryView>::empty(),
        r is Err ==> final(logger).entries() == old(logger).entries() && r == Err::<
            (),
            TTError,
        >(TTError::IOFailure),
{
    logger.clear_log()
}

// ---------------------------------------------------------------------
// retroactive completion
// ---------------------------------------------------------------------
/// Whether inserting a period starting at `s_time` must first close
/// the currently open task: the log ends in an open `Start` whose
/// recorded instant lies after the new period's start.
pub open spec fn bracket_needed(es: Seq<EntryView>, s_time: int) -> bool {
    es.len() > 0 && es.last().entry_type == LogEntryType::Start && s_time < es.last().stime
}

/// Exactly what a retroactive completion appends: the new period's
/// `Start`/`End` pair, bracketed by a close at `now` and a reopen at
/// `now` of the previously active task when that task's recorded start
/// lies after the new period.
pub open spec fn complete_suffix(
    es: Seq<EntryView>,
    task: Seq<char>,
    note: Option<Seq<char>>,
    s_time: int,
    e_time: int,
    now: int,
) -> Seq<EntryView> {
    if bracket_needed(es, s_time) {
        seq![
            mk_end(now),
            mk_start(s_time, Some(task), note),
            mk_end(e_time),
            mk_start(now, es.last().task, es.last().note),
        ]
    } else {
        seq![mk_start(s_time, Some(task), note), mk_end(e_time)]
    }
}

/// How a completion leaves the log: on success the whole suffix is
/// appended; on a storage failure some prefix of it is — each append
/// is atomic, and the compound operation does not roll back.
pub open spec fn complete_effect(
    pre: Seq<EntryView>,
    post: Seq<EntryView>,
    r: Result<(), TTError>,
    task: Seq<char>,
    note: Option<Seq<char>>,
    s_time: int,
    dur: int,
    now: int,
) -> bool {
    let suffix = complete_suffix(pre, task, note, s_time, s_time + dur, now);
    &&& (r is Ok ==> post == pre + suffix)
    &&& (r is Err ==> r == Err::<(), TTError>(TTError::IOFailure) && exists|k: int|
        0 <= k <= suffix.len() && post == pre + suffix.take(k))
}

/// Inserts a fully specified past period for `task_name`, keeping the
/// log's alternation structure by bracketing when needed.
pub fn complete_at<L: TTLogger>(
    logger: &mut L,
    task_name: &String,
    note: &Option<String>,
    s_time: u64,
    duration: u64,
    now: u64,
) -> (r: Result<(), TTError>)
    requires
        s_time + duration <= u64::MAX,
    ensures
        complete_effect(
            old(logger).entries(),
            final(logger).entries(),
            r,
            task_name@,
            note.deep_view(),
            s_time as int,
            duration as int,
            now as int,
        ),
{
    let ghost pre = old(logger).entries();
    let ghost suffix = complete_suffix(
        pre,
        task_name@,
        note.deep_view(),
        s_time as int,
        s_time as int + duration as int,
        now as int,
    );
    let e_time = s_time + duration;
    let es = logger.all_entries();
    let mut keep_log_valid = false;
    let mut prev_task: Option<String> = None;
    let mut prev_note: Option<String> = None;
    if es.len() > 0 {
        let last = &es[es.len() - 1];
        assert(last@ == pre.last());
        if matches!(last.entry_type, LogEntryType::Start) && s_time < last.stime {
            keep_log_valid = true;
            prev_task = clone_opt_string(&last.task);
            prev_note = clone_opt_string(&last.note);
            match logger.write(LogEntry::new_end(now)) {
                Ok(()) => {},
                Err(e) => {
                    proof {
                        assert(pre + suffix.take(0) =~= pre);
                    }
                    return Err(e);
                },
            }
            assert(logger.entries() =~= pre + suffix.take(1));
        }
    }
    assert(keep_log_valid == bracket_needed(pre, s_time as int));
    assert(keep_log_valid ==> prev_task.deep_view() == pre.last().task && prev_note.deep_view()
        == pre.last().note);
    assert(!keep_log_valid ==> logger.entries() == pre);

    match logger.write(LogEntry::new_start(s_time, task_name.clone(), clone_opt_string(note))) {
        Ok(()) => {},
        Err(e) => {
            proof {
                if keep_log_valid {
                    assert(logger.entries() =~= pre + suffix.take(1));
                } else {
                    assert(logger.entries() =~= pre + suffix.take(0));
                }
            }
            return Err(e);
        },
    }
    proof {
        if keep_log_valid {
            assert(logger.entries() =~= pre + suffix.take(2));
        } else {
            assert(logger.entries() =~= pre + suffix.take(1));
        }
    }

    match logger.write(LogEntry::new_end(e_time)) {
        Ok(()) => {},
        Err(e) => {
            return Err(e);
        },
    }
    proof {
        if keep_log_valid {
            assert(logger.entries() =~= pre + suffix.take(3));
        } else {
            assert(logger.entries() =~= pre + suffix.take(2));
            assert(suffix.take(2) =~= suffix);
        }
    }

    if keep_log_valid {
        match logger.write(
            LogEntry {
                entry_type: LogEntryType::Start,
                stime: now,
                task: prev_task,
                note: prev_note,
            },
        ) {
            Ok(()) => {},
            Err(e) => {
                return Err(e);
            },
        }
        assert(logger.entries() =~= pre + suffix);
    }
    Ok(())
}

/// The retroactive `complete` command: parses the duration — and the
/// explicit event time, when given — then inserts the period. A
/// malformed duration or event time, an event time before the epoch,
/// a duration longer than the time since the epoch, or a period end
/// beyond the representable range each fail with `ParseError` and
/// append nothing.
pub fn complete_handler<L: TTLogger>(logger: &mut L, task_conf: &Complete, now: u64) -> (r: Result<
    (),
    TTError,
>)
    ensures
        ({
            let d = spec_parse_duration(task_conf.duration@);
            &&& (d is None ==> r == Err::<(), TTError>(TTError::ParseError)
                && final(logger).entries() == old(logger).entries())
            &&& ((d is Some && task_conf.event_time is None) ==> {
                let dur = d->Some_0;
                if dur > now {
                    r == Err::<(), TTError>(TTError::ParseError)
                        && final(logger).entries() == old(logger).entries()
                } else {
                    complete_effect(
                        old(logger).entries(),
                        final(logger).entries(),
                        r,
                        task_conf.task_name@,
                        task_conf.note.deep_view(),
                        now - dur,
                        dur,
                        now as int,
                    )
                }
            })
            &&& ((d is Some && task_conf.event_time is Some) ==> {
                let dur = d->Some_0;
                let ts = parsed_timestamp_of(task_conf.event_time->Some_0@);
                if ts is None || ts->Some_0 < 0 || ts->Some_0 + dur > u64::MAX {
                    r == Err::<(), TTError>(TTError::ParseError)
                        && final(logger).entries() == old(logger).entries()
                } else {
                    complete_effect(
                        old(logger).entries(),
                        final(logger).entries(),
                        r,
                        task_conf.task_name@,
                        task_conf.note.deep_view(),
                        ts->Some_0,
                        dur,
                        now as int,
                    )
                }
            })
        }),
{
    let rd = parse_duration(task_conf.duration.as_str());
    if rd.is_none() {
        return Err(TTError::ParseError);
    }
    let duration = rd.unwrap();
    match &task_conf.event_time {
        Some(e_time) => {
            match parse_event_time(e_time.as_str()) {
                None => Err(TTError::ParseError),
                Some(t) => {
                    if t < 0 {
                        return Err(TTError::ParseError);
                    }
                    let tu: u64 = t as u64;
                    if duration > u64::MAX - tu {
                        return Err(TTError::ParseError);
                    }
                    complete_at(logger, &task_conf.task_name, &task_conf.note, tu, duration, now)
                },
            }
        },
        None => {
            if duration > now {
                return Err(TTError::ParseError);
            }
            complete_at(
                logger,
                &task_conf.task_name,
                &task_conf.note,
                now - duration,
                duration,
                now,
            )
        },
    }
}

// ---------------------------------------------------------------------
// status
// ---------------------------------------------------------------------
/// The report printed for an open task: its name, a human-readable
/// start timestamp, and the note, blank when absent.
pub open spec fn status_text(e: EntryView) -> Seq<char> {
    "Currently tracked task:\n    Task name: "@ + field_content(e.task)
        + "\n    Start time: "@ + datetime_line_of(e.stime) + "\n    Notes: "@ + field_content(
        e.note,
    ) + "\n"@
}

/// Reports the last log entry: the open task's details when the log
/// ends in a `Start`, a fixed line when it ends in an `End`, and
/// `NotFound` when the log is empty.
pub fn status_handler<L: TTLogger>(logger: &L) -> (r: Result<String, TTError>)
    ensures
        logger.entries().len() == 0 ==> r == Err::<String, TTError>(TTError::NotFound),
        logger.entries().len() > 0 && logger.entries().last().entry_type == LogEntryType::Start
            ==> r is Ok && r->Ok_0@ == status_text(logger.entries().last()),
        logger.entries().len() > 0 && logger.entries().last().entry_type == LogEntryType::End
            ==> r is Ok && r->Ok_0@ == "Not tracking any active tasks."@,
{
    let es = logger.all_entries();
    if es.len() == 0 {
        return Err(TTError::NotFound);
    }
    let last = &es[es.len() - 1];
    assert(last@ == logger.entries().last());
    match last.entry_type {
        LogEntryType::Start => {
            let mut s = String::new();
            s.append("Currently tracked task:\n    Task name: ");
            match &last.task {
                Some(t) => s.append(t.as_str()),
                None => {},
            }
            s.append("\n    Start time: ");
            let dt = format_datetime(last.stime);
            s.append(dt.as_str());
            s.append("\n    Notes: ");
            match &last.note {
                Some(n) => s.append(n.as_str()),
                None => {},
            }
            s.append("\n");
            assert(s@ =~= status_text(logger.entries().last()));
            Ok(s)
        },
        LogEntryType::End => {
            Ok(String::from_str("Not tracking any active tasks."))
        },
    }
}

// ---------------------------------------------------------------------
// laws
// ---------------------------------------------------------------------
/// Law: starting a task and immediately ending it appends exactly two
/// entries — first a `Start` carrying the given name and note, then an
/// `End` whose instant is no earlier than the `Start`'s — and touches
/// nothing before them.
pub proof fn lemma_start_then_end(
    es: Seq<EntryView>,
    task: Seq<char>,
    note: Option<Seq<char>>,
    now_start: int,
    now_end: int,
)
    requires
        now_start <= now_end,
    ensures
        end_allowed(start_effect(es, now_start, task, note)),
        ({
            let after = end_effect(start_effect(es, now_start, task, note), now_end);
            &&& after.len() == es.len() + 2
            &&& after.take(es.len() as int) == es
            &&& after[es.len() as int] == mk_start(now_start, Some(task), note)
            &&& after[es.len() as int + 1] == mk_end(now_end)
            &&& after[es.len() as int + 1].stime >= after[es.len() as int].stime
        }),
{
    let after = end_effect(start_effect(es, now_start, task, note), now_end);
    assert(after.take(es.len() as int) =~= es);
}

} // verus!
