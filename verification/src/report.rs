//! The aggregator and reporter: derives `Task` intervals from the raw
//! entry stream, groups them by calendar day, sums durations per task
//! name, and renders the deterministic report text.

use vstd::prelude::*;

use crate::entry::{task_key_le, EntryView, LogEntryType, Task, TaskView};
use crate::logger::TTLogger;
use crate::strnum::{dec_str, lex_le, lex_lt, push_u128_str, push_u64_str, str_lt};
use crate::time::day_index;

verus! {

// ---------------------------------------------------------------------
// deriving tasks from the entry stream
// ---------------------------------------------------------------------
/// The name a task inherits from its `Start` entry, with the literal
/// fallback for an unnamed one.
pub open spec fn task_name_of(e: EntryView) -> Seq<char> {
    match e.task {
        Some(s) => s,
        None => "Task"@,
    }
}

/// The task a `Start` entry and its successor span. An entry stream
/// whose timestamps run backwards cannot yield a negative length; the
/// interval is clipped at zero.
pub open spec fn mk_task(a: EntryView, b: EntryView) -> TaskView {
    TaskView {
        stime: a.stime,
        dur: if b.stime >= a.stime {
            b.stime - a.stime
        } else {
            0
        },
        task: task_name_of(a),
    }
}

/// Walks the stream with an overlapping window of size two: every
/// window whose first entry is a `Start` yields a task; an `End`-led
/// window is a boundary, not an interval. A trailing unterminated
/// `Start` yields nothing.
pub open spec fn window_tasks(es: Seq<EntryView>) -> Seq<TaskView>
    decreases es.len(),
{
    if es.len() < 2 {
        Seq::empty()
    } else {
        (if es[0].entry_type == LogEntryType::Start {
            seq![mk_task(es[0], es[1])]
        } else {
            Seq::empty()
        }) + window_tasks(es.drop_first())
    }
}

/// Inserts `t` into a key-sorted sequence, after any equal keys.
pub open spec fn insert_sorted(s: Seq<TaskView>, t: TaskView) -> Seq<TaskView>
    decreases s.len(),
{
    if s.len() == 0 {
        seq![t]
    } else if task_key_le(s.last(), t) {
        s.push(t)
    } else {
        insert_sorted(s.drop_last(), t).push(s.last())
    }
}

/// Stable insertion sort by `(stime, task)`.
pub open spec fn sort_tasks(s: Seq<TaskView>) -> Seq<TaskView>
    decreases s.len(),
{
    if s.len() == 0 {
        Seq::empty()
    } else {
        insert_sorted(sort_tasks(s.drop_last()), s.last())
    }
}

/// Every pair of tasks stands in key order.
pub open spec fn tasks_sorted(s: Seq<TaskView>) -> bool {
    forall|i: int, j: int| 0 <= i < j < s.len() ==> task_key_le(#[trigger] s[i], #[trigger] s[j])
}

/// The task key order is total.
proof fn lemma_task_key_total(a: TaskView, b: TaskView)
    ensures
        task_key_le(a, b) || task_key_le(b, a),
{
    crate::strnum::lemma_lex_total(a.task, b.task);
}

/// The task key order chains.
proof fn lemma_task_key_trans(a: TaskView, b: TaskView, c: TaskView)
    requires
        task_key_le(a, b),
        task_key_le(b, c),
    ensures
        task_key_le(a, c),
{
    if a.stime == b.stime && b.stime == c.stime {
        lemma_lex_le_trans(a.task, b.task, c.task);
    }
}

/// A position that satisfies the insertion characterization always
/// exists: everything at or after it refuses the key, and its left
/// neighbour accepts it.
proof fn find_insert_pos(s: Seq<TaskView>, t: TaskView) -> (j: int)
    ensures
        0 <= j <= s.len(),
        forall|i: int| j <= i < s.len() ==> !task_key_le(#[trigger] s[i], t),
        j > 0 ==> task_key_le(s[j - 1], t),
    decreases s.len(),
{
    if s.len() == 0 {
        0
    } else if task_key_le(s.last(), t) {
        s.len() as int
    } else {
        let j = find_insert_pos(s.drop_last(), t);
        assert(forall|i: int| j <= i < s.len() - 1 ==> !task_key_le(
            #[trigger] s.drop_last()[i],
            t,
        ));
        assert forall|i: int| j <= i < s.len() implies !task_key_le(#[trigger] s[i], t) by {
            if i < s.len() - 1 {
                assert(s.drop_last()[i] == s[i]);
            }
        }
        if j > 0 {
            assert(s.drop_last()[j - 1] == s[j - 1]);
        }
        j
    }
}

/// Insertion keeps the sequence sorted.
proof fn lemma_insert_sorted_keeps(s: Seq<TaskView>, t: TaskView)
    requires
        tasks_sorted(s),
    ensures
        tasks_sorted(insert_sorted(s, t)),
{
    let j = find_insert_pos(s, t);
    lemma_insert_at(s, t, j);
    let r = insert_sorted(s, t);
    assert(r == s.take(j) + seq![t] + s.skip(j));
    assert forall|a: int, b: int| 0 <= a < b < r.len() implies task_key_le(
        #[trigger] r[a],
        #[trigger] r[b],
    ) by {
        if a < j {
            assert(r[a] == s[a]);
        } else if a == j {
            assert(r[a] == t);
        } else {
            assert(r[a] == s[a - 1]);
        }
        if b < j {
            assert(r[b] == s[b]);
        } else if b == j {
            assert(r[b] == t);
        } else {
            assert(r[b] == s[b - 1]);
        }
        if b == j {
            // r[a] comes from s.take(j): it accepts the key
            assert(task_key_le(s[j - 1], t));
            if a < j - 1 {
                assert(task_key_le(s[a], s[j - 1]));
                lemma_task_key_trans(s[a], s[j - 1], t);
            }
        } else if a == j {
            // r[b] comes from s.skip(j): it refuses the key, so the
            // key precedes it
            assert(!task_key_le(s[b - 1], t));
            lemma_task_key_total(s[b - 1], t);
        }
    }
}

/// Law: the derived task list is sorted by `(stime, task)`.
pub proof fn lemma_sort_tasks_sorted(s: Seq<TaskView>)
    ensures
        tasks_sorted(sort_tasks(s)),
    decreases s.len(),
{
    if s.len() > 0 {
        lemma_sort_tasks_sorted(s.drop_last());
        lemma_insert_sorted_keeps(sort_tasks(s.drop_last()), s.last());
    }
}

/// Where the insertion lands: before the first element whose key does
/// not precede `t`'s, counted from the right.
proof fn lemma_insert_at(s: Seq<TaskView>, t: TaskView, j: int)
    requires
        0 <= j <= s.len(),
        forall|i: int| j <= i < s.len() ==> !task_key_le(#[trigger] s[i], t),
        j > 0 ==> task_key_le(s[j - 1], t),
    ensures
        insert_sorted(s, t) == s.take(j) + seq![t] + s.skip(j),
    decreases s.len(),
{
    if s.len() == 0 {
        assert(insert_sorted(s, t) =~= s.take(j) + seq![t] + s.skip(j));
    } else if task_key_le(s.last(), t) {
        assert(j == s.len());
        assert(s.take(j) =~= s);
        assert(s.skip(j) =~= Seq::<TaskView>::empty());
        assert(s.push(t) =~= s.take(j) + seq![t] + s.skip(j));
    } else {
        let shorter = s.drop_last();
        assert(j <= shorter.len());
        assert(forall|i: int| j <= i < shorter.len() ==> !task_key_le(#[trigger] shorter[i], t));
        if j > 0 {
            assert(shorter[j - 1] == s[j - 1]);
        }
        lemma_insert_at(shorter, t, j);
        assert(insert_sorted(s, t) == (shorter.take(j) + seq![t] + shorter.skip(j)).push(s.last()));
        assert(shorter.take(j) =~= s.take(j));
        assert((shorter.take(j) + seq![t] + shorter.skip(j)).push(s.last()) =~= s.take(j) + seq![t]
            + s.skip(j));
    }
}

/// Inserts a task into a key-sorted vector, after any equal keys.
fn sorted_insert_task(sorted: &mut Vec<Task>, t: Task)
    ensures
        final(sorted).deep_view() == insert_sorted(old(sorted).deep_view(), t@),
{
    let ghost sv = old(sorted).deep_view();
    let mut j: usize = sorted.len();
    loop
        invariant
            0 <= j <= sorted@.len(),
            sorted.deep_view() == sv,
            forall|i: int| j <= i < sv.len() ==> !task_key_le(#[trigger] sv[i], t@),
        ensures
            0 <= j <= sorted@.len(),
            sorted.deep_view() == sv,
            forall|i: int| j <= i < sv.len() ==> !task_key_le(#[trigger] sv[i], t@),
            j > 0 ==> task_key_le(sv[j - 1], t@),
        decreases j,
    {
        if j == 0 {
            break;
        }
        if sorted[j - 1].key_le(&t) {
            break;
        }
        assert(sv[j - 1] == sorted@[j - 1]@);
        j = j - 1;
    }
    proof {
        lemma_insert_at(sv, t@, j as int);
    }
    sorted.insert(j, t);
    assert(sorted.deep_view() =~= sv.take(j as int) + seq![t@] + sv.skip(j as int));
}

/// Materializes the log's entries into stime-sorted tasks: each
/// `Start`-led window of two adjacent entries becomes one interval.
pub fn parse_log_into_tasks<L: TTLogger>(logger: &L) -> (r: Vec<Task>)
    ensures
        r.deep_view() == sort_tasks(window_tasks(logger.entries())),
{
    let entries = logger.all_entries();
    let ghost esv = logger.entries();
    let n = entries.len();
    let mut raw: Vec<Task> = Vec::new();
    let mut i: usize = 0;
    assert(esv.skip(0) =~= esv);
    while n >= 2 && i < n - 1
        invariant
            i <= n,
            n == entries@.len(),
            entries.deep_view() == esv,
            window_tasks(esv) == raw.deep_view() + window_tasks(esv.skip(i as int)),
        decreases n - i,
    {
        let ghost prev = raw.deep_view();
        proof {
            let s = esv.skip(i as int);
            assert(s[0] == esv[i as int]);
            assert(s[1] == esv[i as int + 1]);
            assert(s.drop_first() =~= esv.skip(i as int + 1));
        }
        let e1 = &entries[i];
        if matches!(e1.entry_type, LogEntryType::Start) {
            let e2_stime = entries[i + 1].stime;
            let dur: u64 = if e2_stime >= e1.stime {
                e2_stime - e1.stime
            } else {
                0
            };
            let name: String = match &e1.task {
                Some(s) => s.clone(),
                None => String::from_str("Task"),
            };
            let t = Task { stime: e1.stime, dur, task: name };
            assert(t@ == mk_task(esv[i as int], esv[i as int + 1]));
            raw.push(t);
            assert(raw.deep_view() =~= prev.push(mk_task(esv[i as int], esv[i as int + 1])));
            assert(raw.deep_view() + window_tasks(esv.skip(i as int + 1)) =~= prev + (seq![
                mk_task(esv[i as int], esv[i as int + 1]),
            ] + window_tasks(esv.skip(i as int + 1))));
        } else {
            assert(raw.deep_view() + window_tasks(esv.skip(i as int + 1)) =~= prev + (Seq::<
                TaskView,
            >::empty() + window_tasks(esv.skip(i as int + 1))));
        }
        i = i + 1;
    }
    assert(window_tasks(esv.skip(i as int)) =~= Seq::<TaskView>::empty());
    assert(raw.deep_view() =~= window_tasks(esv));

    let ghost rawv = raw.deep_view();
    let mut sorted: Vec<Task> = Vec::new();
    let mut k: usize = 0;
    assert(rawv.take(0) =~= Seq::<TaskView>::empty());
    while k < raw.len()
        invariant
            k <= raw@.len(),
            raw.deep_view() == rawv,
            sorted.deep_view() == sort_tasks(rawv.take(k as int)),
        decreases raw@.len() - k,
    {
        sorted_insert_task(&mut sorted, raw[k].clone());
        proof {
            let cur = rawv.take(k as int + 1);
            assert(cur.drop_last() =~= rawv.take(k as int));
            assert(cur.last() == rawv[k as int]);
        }
        k = k + 1;
    }
    assert(rawv.take(raw@.len() as int) =~= rawv);
    sorted
}

// ---------------------------------------------------------------------
// grouping by calendar day
// ---------------------------------------------------------------------
/// Folds the remaining tasks into day groups, `cur` being the group
/// under construction: a task on the day of `cur`'s first member joins
/// it; any other day closes `cur` and opens a new group.
pub open spec fn groups_acc(ts: Seq<TaskView>, cur: Seq<TaskView>) -> Seq<Seq<TaskView>>
    decreases ts.len(),
{
    if ts.len() == 0 {
        seq![cur]
    } else if cur.len() > 0 && day_index(ts[0].stime) == day_index(cur[0].stime) {
        groups_acc(ts.drop_first(), cur.push(ts[0]))
    } else if cur.len() == 0 {
        groups_acc(ts.drop_first(), seq![ts[0]])
    } else {
        seq![cur] + groups_acc(ts.drop_first(), seq![ts[0]])
    }
}

/// Partitions stime-sorted tasks into contiguous runs sharing a
/// calendar day.
pub open spec fn day_groups(ts: Seq<TaskView>) -> Seq<Seq<TaskView>> {
    if ts.len() == 0 {
        Seq::empty()
    } else {
        groups_acc(ts.drop_first(), seq![ts[0]])
    }
}

/// Splits the task list into day groups; every group comes out
/// non-empty.
pub fn group_tasks(tasks: Vec<Task>) -> (r: Vec<Vec<Task>>)
    requires
        tasks@.len() > 0,
    ensures
        r.deep_view() == day_groups(tasks.deep_view()),
        forall|i: int| 0 <= i < r.deep_view().len() ==> #[trigger] r.deep_view()[i].len() > 0,
{
    let ghost tsv = tasks.deep_view();
    let mut grouped: Vec<Vec<Task>> = Vec::new();
    let mut group: Vec<Task> = Vec::new();
    let mut cur_day: u64 = crate::time::day_of(tasks[0].stime);
    group.push(tasks[0].clone());
    assert(group.deep_view() =~= seq![tsv[0]]);
    let mut i: usize = 1;
    assert(tsv.skip(1) =~= tasks.deep_view().skip(1));
    while i < tasks.len()
        invariant
            1 <= i <= tasks@.len(),
            tasks.deep_view() == tsv,
            group.deep_view().len() > 0,
            cur_day as int == day_index(group.deep_view()[0].stime),
            day_groups(tsv) == grouped.deep_view() + groups_acc(
                tsv.skip(i as int),
                group.deep_view(),
            ),
            forall|k: int| 0 <= k < grouped.deep_view().len()
                ==> #[trigger] grouped.deep_view()[k].len() > 0,
        decreases tasks@.len() - i,
    {
        proof {
            let s = tsv.skip(i as int);
            assert(s[0] == tsv[i as int]);
            assert(s.drop_first() =~= tsv.skip(i as int + 1));
        }
        let d = crate::time::day_of(tasks[i].stime);
        if d != cur_day {
            let ghost gsv = grouped.deep_view();
            let ghost gv = group.deep_view();
            grouped.push(group);
            assert(grouped.deep_view() =~= gsv.push(gv));
            group = Vec::new();
            group.push(tasks[i].clone());
            assert(group.deep_view() =~= seq![tsv[i as int]]);
            cur_day = d;
            assert(gsv + (seq![gv] + groups_acc(tsv.skip(i as int + 1), seq![tsv[i as int]]))
                =~= grouped.deep_view() + groups_acc(tsv.skip(i as int + 1), group.deep_view()));
        } else {
            let ghost gv = group.deep_view();
            group.push(tasks[i].clone());
            assert(group.deep_view() =~= gv.push(tsv[i as int]));
        }
        i = i + 1;
    }
    assert(tsv.skip(i as int).len() == 0);
    let ghost gsv = grouped.deep_view();
    let ghost gv = group.deep_view();
    assert(groups_acc(tsv.skip(i as int), gv) == seq![gv]);
    grouped.push(group);
    assert(grouped.deep_view() =~= gsv.push(gv));
    assert(grouped.deep_view() =~= gsv + seq![gv]);
    grouped
}

// ---------------------------------------------------------------------
// duration statistics
// ---------------------------------------------------------------------
/// One task name with its accumulated duration.
#[derive(Debug)]
pub struct StatItem {
    pub name: String,
    pub total: u64,
}

/// The model of one accumulated line.
pub ghost struct StatView {
    pub name: Seq<char>,
    pub total: int,
}

impl View for StatItem {
    type V = StatView;

    open spec fn view(&self) -> StatView {
        StatView { name: self.name@, total: self.total as int }
    }
}

impl DeepView for StatItem {
    type V = StatView;

    open spec fn deep_view(&self) -> StatView {
        self.view()
    }
}

/// Task-name → total-duration sums, kept sorted by name so reports
/// iterate names in lexicographic order.
#[derive(Debug)]
pub struct Stats {
    pub items: Vec<StatItem>,
}

impl View for Stats {
    type V = Seq<StatView>;

    open spec fn view(&self) -> Seq<StatView> {
        self.items.deep_view()
    }
}

impl DeepView for Stats {
    type V = Seq<StatView>;

    open spec fn deep_view(&self) -> Seq<StatView> {
        self.view()
    }
}

/// Sorted strictly by name: every name occurs once.
pub open spec fn stats_wf(s: Seq<StatView>) -> bool {
    forall|i: int, j: int| 0 <= i < j < s.len() ==> lex_lt(#[trigger] s[i].name, #[trigger] s[j].name)
}

/// The total recorded under `name`, when one is.
pub open spec fn lookup(s: Seq<StatView>, name: Seq<char>) -> Option<int>
    decreases s.len(),
{
    if s.len() == 0 {
        None
    } else if s[0].name == name {
        Some(s[0].total)
    } else {
        lookup(s.drop_first(), name)
    }
}

/// Addition clipped at the largest representable total.
pub open spec fn sat_add(a: int, b: int) -> int {
    if a + b > u64::MAX {
        u64::MAX as int
    } else {
        a + b
    }
}

/// Accumulates `dur` under `name`, keeping the names sorted.
pub open spec fn stats_add(s: Seq<StatView>, name: Seq<char>, dur: int) -> Seq<StatView>
    decreases s.len(),
{
    if s.len() == 0 {
        seq![StatView { name, total: dur }]
    } else if lex_lt(s[0].name, name) {
        seq![s[0]] + stats_add(s.drop_first(), name, dur)
    } else if s[0].name == name {
        seq![StatView { name, total: sat_add(s[0].total, dur) }] + s.drop_first()
    } else {
        seq![StatView { name, total: dur }] + s
    }
}

/// The statistics a task sequence folds into, task by task.
pub open spec fn stats_fold(ts: Seq<TaskView>) -> Seq<StatView>
    decreases ts.len(),
{
    if ts.len() == 0 {
        Seq::empty()
    } else {
        stats_add(stats_fold(ts.drop_last()), ts.last().task, ts.last().dur)
    }
}

/// Whether some task carries `name`.
pub open spec fn has_name(ts: Seq<TaskView>, name: Seq<char>) -> bool {
    exists|i: int| 0 <= i < ts.len() && #[trigger] ts[i].task == name
}

/// The plain sum of the durations recorded under `name`.
pub open spec fn sum_dur(ts: Seq<TaskView>, name: Seq<char>) -> int
    decreases ts.len(),
{
    if ts.len() == 0 {
        0
    } else {
        sum_dur(ts.drop_last(), name) + (if ts.last().task == name {
            ts.last().dur
        } else {
            0
        })
    }
}

/// A name that no line carries looks up to nothing.
proof fn lemma_lookup_absent(s: Seq<StatView>, q: Seq<char>)
    requires
        forall|i: int| 0 <= i < s.len() ==> #[trigger] s[i].name != q,
    ensures
        lookup(s, q) is None,
    decreases s.len(),
{
    if s.len() > 0 {
        let rest = s.drop_first();
        assert(forall|i: int| 0 <= i < rest.len() ==> #[trigger] rest[i] == s[i + 1]);
        lemma_lookup_absent(rest, q);
    }
}

/// What accumulating one task does to every lookup.
proof fn lemma_stats_add_lookup(s: Seq<StatView>, name: Seq<char>, dur: int, q: Seq<char>)
    requires
        stats_wf(s),
    ensures
        q == name ==> lookup(stats_add(s, name, dur), q) == match lookup(s, q) {
            Some(t) => Some(sat_add(t, dur)),
            None => Some(dur),
        },
        q != name ==> lookup(stats_add(s, name, dur), q) == lookup(s, q),
    decreases s.len(),
{
    let r = stats_add(s, name, dur);
    if s.len() == 0 {
        assert(r == seq![StatView { name, total: dur }]);
        assert(r[0] == StatView { name, total: dur });
        assert(r.drop_first() =~= Seq::<StatView>::empty());
        assert(lookup(r.drop_first(), q) is None);
        assert(lookup(s, q) is None);
        if q == name {
            assert(lookup(r, q) == Some(dur));
        } else {
            assert(lookup(r, q) is None);
        }
    } else if lex_lt(s[0].name, name) {
        let rest = s.drop_first();
        assert(forall|i: int| 0 <= i < rest.len() ==> #[trigger] rest[i] == s[i + 1]);
        assert(stats_wf(rest));
        lemma_stats_add_lookup(rest, name, dur, q);
        assert(r == seq![s[0]] + stats_add(rest, name, dur));
        assert(r.drop_first() =~= stats_add(rest, name, dur));
        assert(r[0] == s[0]);
        assert(lookup(s, q) == if s[0].name == q {
            Some(s[0].total)
        } else {
            lookup(rest, q)
        });
        assert(lookup(r, q) == if s[0].name == q {
            Some(s[0].total)
        } else {
            lookup(stats_add(rest, name, dur), q)
        });
        if q == name {
            assert(s[0].name != q);
            assert(lookup(r, q) == lookup(stats_add(rest, name, dur), q));
            assert(lookup(s, q) == lookup(rest, q));
        }
    } else if s[0].name == name {
        assert(r == seq![StatView { name, total: sat_add(s[0].total, dur) }] + s.drop_first());
        assert(r.drop_first() =~= s.drop_first());
        assert(r[0] == StatView { name, total: sat_add(s[0].total, dur) });
        if q == name {
            assert(lookup(s, q) == Some(s[0].total));
            assert(lookup(r, q) == Some(sat_add(s[0].total, dur)));
        } else {
            assert(lookup(r, q) == lookup(r.drop_first(), q));
            assert(lookup(s, q) == lookup(s.drop_first(), q));
        }
    } else {
        assert(r == seq![StatView { name, total: dur }] + s);
        assert(r.drop_first() =~= s);
        assert(r[0] == StatView { name, total: dur });
        if q == name {
            // `name` precedes every line: it is absent from `s`
            crate::strnum::lemma_lex_total(s[0].name, name);
            assert(lex_lt(name, s[0].name));
            assert forall|i: int| 0 <= i < s.len() implies #[trigger] s[i].name != name by {
                if i > 0 {
                    assert(lex_lt(s[0].name, s[i].name));
                    lemma_lex_lt_trans(name, s[0].name, s[i].name);
                }
            }
            lemma_lookup_absent(s, name);
            assert(lookup(r, q) == Some(dur));
        } else {
            assert(lookup(r, q) == lookup(s, q));
        }
    }
}

/// Accumulating keeps the names sorted and adds at most one name.
proof fn lemma_stats_add_wf(s: Seq<StatView>, name: Seq<char>, dur: int)
    requires
        stats_wf(s),
    ensures
        stats_wf(stats_add(s, name, dur)),
        forall|k: int| 0 <= k < stats_add(s, name, dur).len() ==> #[trigger] stats_add(
            s,
            name,
            dur,
        )[k].name == name || exists|i: int| 0 <= i < s.len() && #[trigger] s[i].name == stats_add(
            s,
            name,
            dur,
        )[k].name,
    decreases s.len(),
{
    let r = stats_add(s, name, dur);
    if s.len() == 0 {
    } else if lex_lt(s[0].name, name) {
        let rest = s.drop_first();
        assert(stats_wf(rest)) by {
            assert(forall|i: int| 0 <= i < rest.len() ==> rest[i] == s[i + 1]);
        }
        lemma_stats_add_wf(rest, name, dur);
        let rr = stats_add(rest, name, dur);
        assert(r == seq![s[0]] + rr);
        // the head's name precedes every name in the tail's result
        assert forall|k: int| 0 <= k < rr.len() implies lex_lt(s[0].name, #[trigger] rr[k].name) by {
            if rr[k].name == name {
            } else {
                let i = choose|i: int| 0 <= i < rest.len() && #[trigger] rest[i].name == rr[k].name;
                assert(rest[i] == s[i + 1]);
            }
        }
        assert forall|i: int, j: int| 0 <= i < j < r.len() implies lex_lt(
            #[trigger] r[i].name,
            #[trigger] r[j].name,
        ) by {
            if i == 0 {
                assert(r[j] == rr[j - 1]);
            } else {
                assert(r[i] == rr[i - 1] && r[j] == rr[j - 1]);
            }
        }
        assert forall|k: int| 0 <= k < r.len() implies #[trigger] r[k].name == name || exists|i: int|
            0 <= i < s.len() && #[trigger] s[i].name == r[k].name by {
            if k == 0 {
                assert(s[0].name == r[0].name);
            } else {
                assert(r[k] == rr[k - 1]);
                if rr[k - 1].name != name {
                    let i = choose|i: int|
                        0 <= i < rest.len() && #[trigger] rest[i].name == rr[k - 1].name;
                    assert(s[i + 1].name == r[k].name);
                }
            }
        }
    } else if s[0].name == name {
        assert(r =~= seq![StatView { name, total: sat_add(s[0].total, dur) }] + s.drop_first());
        assert forall|i: int, j: int| 0 <= i < j < r.len() implies lex_lt(
            #[trigger] r[i].name,
            #[trigger] r[j].name,
        ) by {
            if i == 0 {
                assert(r[j] == s[j]);
                assert(lex_lt(s[0].name, s[j].name));
            } else {
                assert(r[i] == s[i] && r[j] == s[j]);
            }
        }
        assert forall|k: int| 0 <= k < r.len() implies #[trigger] r[k].name == name || exists|i: int|
            0 <= i < s.len() && #[trigger] s[i].name == r[k].name by {
            if k > 0 {
                assert(s[k].name == r[k].name);
            }
        }
    } else {
        // name precedes the head: it precedes everything
        crate::strnum::lemma_lex_total(s[0].name, name);
        assert(lex_le(name, s[0].name) && name != s[0].name);
        assert(r == seq![StatView { name, total: dur }] + s);
        assert forall|i: int, j: int| 0 <= i < j < r.len() implies lex_lt(
            #[trigger] r[i].name,
            #[trigger] r[j].name,
        ) by {
            if i == 0 {
                assert(r[j] == s[j - 1]);
                if j == 1 {
                } else {
                    assert(lex_lt(s[0].name, s[j - 1].name));
                    lemma_lex_lt_trans(name, s[0].name, s[j - 1].name);
                }
            } else {
                assert(r[i] == s[i - 1] && r[j] == s[j - 1]);
            }
        }
        assert forall|k: int| 0 <= k < r.len() implies #[trigger] r[k].name == name || exists|i: int|
            0 <= i < s.len() && #[trigger] s[i].name == r[k].name by {
            if k > 0 {
                assert(s[k - 1].name == r[k].name);
            }
        }
    }
}

/// Strict lexicographic order chains.
proof fn lemma_lex_lt_trans(a: Seq<char>, b: Seq<char>, c: Seq<char>)
    requires
        lex_lt(a, b),
        lex_lt(b, c),
    ensures
        lex_lt(a, c),
{
    lemma_lex_le_trans(a, b, c);
    if a == c {
        crate::strnum::lemma_lex_antisym(b, c);
    }
}

/// Lexicographic order is transitive.
proof fn lemma_lex_le_trans(a: Seq<char>, b: Seq<char>, c: Seq<char>)
    requires
        lex_le(a, b),
        lex_le(b, c),
    ensures
        lex_le(a, c),
    decreases a.len(),
{
    if a.len() > 0 && b.len() > 0 && c.len() > 0 {
        if a[0] == b[0] && b[0] == c[0] {
            lemma_lex_le_trans(a.drop_first(), b.drop_first(), c.drop_first());
        }
    }
}

/// What the fold holds under each name: present exactly for names that
/// occur, with the clipped sum of their durations.
pub proof fn lemma_stats_fold_lookup(ts: Seq<TaskView>, q: Seq<char>)
    requires
        forall|i: int| 0 <= i < ts.len() ==> 0 <= #[trigger] ts[i].dur <= u64::MAX,
    ensures
        lookup(stats_fold(ts), q) is Some <==> has_name(ts, q),
        has_name(ts, q) ==> lookup(stats_fold(ts), q) == Some(
            if sum_dur(ts, q) > u64::MAX {
                u64::MAX as int
            } else {
                sum_dur(ts, q)
            },
        ),
        !has_name(ts, q) ==> sum_dur(ts, q) == 0,
        sum_dur(ts, q) >= 0,
    decreases ts.len(),
{
    if ts.len() == 0 {
        assert(!has_name(ts, q));
    } else {
        let shorter = ts.drop_last();
        assert(forall|i: int| 0 <= i < shorter.len() ==> 0 <= #[trigger] shorter[i].dur <= u64::MAX);
        lemma_stats_fold_lookup(shorter, q);
        lemma_stats_fold_names(shorter);
        lemma_stats_add_lookup(stats_fold(shorter), ts.last().task, ts.last().dur, q);
        let last = ts.last();
        let sum_short = sum_dur(shorter, q);
        let sum_all = sum_dur(ts, q);
        assert(sum_all == sum_short + (if last.task == q { last.dur } else { 0 }));
        assert(last.dur >= 0) by {
            assert(ts[ts.len() - 1].dur >= 0);
        }
        if has_name(shorter, q) {
            let i = choose|i: int| 0 <= i < shorter.len() && #[trigger] shorter[i].task == q;
            assert(ts[i].task == q);
            assert(has_name(ts, q));
        }
        if last.task == q {
            assert(ts[ts.len() - 1].task == q);
            assert(has_name(ts, q));
            let prev = lookup(stats_fold(shorter), q);
            if has_name(shorter, q) {
                let t = prev->Some_0;
                assert(lookup(stats_fold(ts), q) == Some(sat_add(t, last.dur)));
                assert(t == if sum_short > u64::MAX { u64::MAX as int } else { sum_short });
                assert(sat_add(t, last.dur) == if sum_all > u64::MAX {
                    u64::MAX as int
                } else {
                    sum_all
                });
            } else {
                assert(prev is None);
                assert(lookup(stats_fold(ts), q) == Some(last.dur));
                assert(sum_short == 0);
                assert(sum_all == last.dur);
                assert(sum_all <= u64::MAX);
            }
        } else {
            assert(lookup(stats_fold(ts), q) == lookup(stats_fold(shorter), q));
            assert(sum_all == sum_short);
            if has_name(ts, q) {
                let i = choose|i: int| 0 <= i < ts.len() && #[trigger] ts[i].task == q;
                assert(i < shorter.len() && shorter[i] == ts[i]);
                assert(has_name(shorter, q));
            }
        }
    }
}

/// The names the fold lists all come from the tasks.
pub proof fn lemma_stats_fold_names(ts: Seq<TaskView>)
    ensures
        stats_wf(stats_fold(ts)),
        forall|k: int| 0 <= k < stats_fold(ts).len() ==> has_name(
            ts,
            #[trigger] stats_fold(ts)[k].name,
        ),
    decreases ts.len(),
{
    if ts.len() == 0 {
    } else {
        let shorter = ts.drop_last();
        lemma_stats_fold_names(shorter);
        lemma_stats_add_wf(stats_fold(shorter), ts.last().task, ts.last().dur);
        assert forall|k: int| 0 <= k < stats_fold(ts).len() implies has_name(
            ts,
            #[trigger] stats_fold(ts)[k].name,
        ) by {
            let nm = stats_fold(ts)[k].name;
            if nm == ts.last().task {
                assert(ts[ts.len() - 1].task == nm);
            } else {
                let i = choose|i: int|
                    0 <= i < stats_fold(shorter).len() && #[trigger] stats_fold(shorter)[i].name
                        == nm;
                assert(has_name(shorter, nm));
                let m = choose|m: int| 0 <= m < shorter.len() && #[trigger] shorter[m].task == nm;
                assert(ts[m].task == nm);
            }
        }
    }
}

impl Stats {
    /// An empty accumulation.
    pub fn new() -> (r: Stats)
        ensures
            r@ == Seq::<StatView>::empty(),
    {
        let r = Stats { items: Vec::new() };
        assert(r@ =~= Seq::<StatView>::empty());
        r
    }

    /// Accumulates `dur` under `name`.
    pub fn add(&mut self, name: &String, dur: u64)
        ensures
            final(self)@ == stats_add(old(self)@, name@, dur as int),
    {
        let ghost sv = old(self)@;
        let mut j: usize = 0;
        loop
            invariant
                j <= self.items@.len(),
                self@ == sv,
                forall|i: int| 0 <= i < j ==> lex_lt(#[trigger] sv[i].name, name@),
            ensures
                j <= self.items@.len(),
                self@ == sv,
                forall|i: int| 0 <= i < j ==> lex_lt(#[trigger] sv[i].name, name@),
                j < sv.len() ==> !lex_lt(sv[j as int].name, name@),
            decreases self.items@.len() - j,
        {
            if j == self.items.len() {
                break;
            }
            assert(sv[j as int].name == self.items@[j as int]@.name);
            if !str_lt(self.items[j].name.as_str(), name.as_str()) {
                break;
            }
            j = j + 1;
        }
        proof {
            lemma_stats_add_at(sv, name@, dur as int, j as int);
        }
        if j < self.items.len() && self.items[j].name == *name {
            let t = self.items[j].total;
            let nt: u64 = if t > u64::MAX - dur {
                u64::MAX
            } else {
                t + dur
            };
            let nm = self.items[j].name.clone();
            self.items.set(j, StatItem { name: nm, total: nt });
            assert(self@ =~= sv.update(j as int, StatView { name: name@, total: sat_add(sv[j as int].total, dur as int) }));
            assert(self@ =~= stats_add(sv, name@, dur as int));
        } else {
            self.items.insert(j, StatItem { name: name.clone(), total: dur });
            assert(self@ =~= sv.take(j as int) + seq![StatView { name: name@, total: dur as int }]
                + sv.skip(j as int));
            assert(self@ =~= stats_add(sv, name@, dur as int));
        }
    }

    /// The total recorded under `name`, when one is.
    pub fn get(&self, name: &String) -> (r: Option<u64>)
        ensures
            match r {
                Some(v) => lookup(self@, name@) == Some(v as int),
                None => lookup(self@, name@) is None,
            },
    {
        let mut i: usize = 0;
        assert(self@.skip(0) =~= self@);
        while i < self.items.len()
            invariant
                i <= self.items@.len(),
                lookup(self@, name@) == lookup(self@.skip(i as int), name@),
            decreases self.items@.len() - i,
        {
            proof {
                let s = self@.skip(i as int);
                assert(s[0] == self@[i as int]);
                assert(s.drop_first() =~= self@.skip(i as int + 1));
            }
            if self.items[i].name == *name {
                return Some(self.items[i].total);
            }
            i = i + 1;
        }
        assert(self@.skip(i as int).len() == 0);
        None
    }
}

/// Where the accumulation lands: past every name that precedes it.
proof fn lemma_stats_add_at(s: Seq<StatView>, name: Seq<char>, dur: int, j: int)
    requires
        0 <= j <= s.len(),
        forall|i: int| 0 <= i < j ==> lex_lt(#[trigger] s[i].name, name),
        j < s.len() ==> !lex_lt(s[j].name, name),
    ensures
        j < s.len() && s[j].name == name ==> stats_add(s, name, dur) == s.update(
            j,
            StatView { name, total: sat_add(s[j].total, dur) },
        ),
        !(j < s.len() && s[j].name == name) ==> stats_add(s, name, dur) == s.take(j) + seq![
            StatView { name, total: dur },
        ] + s.skip(j),
    decreases s.len(),
{
    if s.len() == 0 {
        assert(stats_add(s, name, dur) =~= s.take(0) + seq![StatView { name, total: dur }]
            + s.skip(0));
    } else if j == 0 {
        if s[0].name == name {
            assert(stats_add(s, name, dur) =~= s.update(
                0,
                StatView { name, total: sat_add(s[0].total, dur) },
            ));
        } else {
            assert(!lex_lt(s[0].name, name));
            assert(stats_add(s, name, dur) =~= s.take(0) + seq![StatView { name, total: dur }]
                + s.skip(0));
        }
    } else {
        assert(lex_lt(s[0].name, name));
        let rest = s.drop_first();
        assert(forall|i: int| 0 <= i < j - 1 ==> lex_lt(#[trigger] rest[i].name, name));
        if j - 1 < rest.len() {
            assert(rest[j - 1] == s[j]);
        }
        lemma_stats_add_at(rest, name, dur, j - 1);
        assert(stats_add(s, name, dur) == seq![s[0]] + stats_add(rest, name, dur));
        if j < s.len() && s[j].name == name {
            assert(seq![s[0]] + rest.update(
                j - 1,
                StatView { name, total: sat_add(rest[j - 1].total, dur) },
            ) =~= s.update(j, StatView { name, total: sat_add(s[j].total, dur) }));
        } else {
            assert(seq![s[0]] + (rest.take(j - 1) + seq![StatView { name, total: dur }] + rest.skip(
                j - 1,
            )) =~= s.take(j) + seq![StatView { name, total: dur }] + s.skip(j));
        }
    }
}

/// Sums duration statistics: one aggregate mapping over all groups,
/// and one mapping per day group, names sorted in each.
pub fn summarize_task_stats(task_groups: &Vec<Vec<Task>>) -> (r: (Stats, Vec<Stats>))
    ensures
        r.0@ == stats_fold(flat_groups(task_groups.deep_view())),
        r.1@.len() == task_groups.deep_view().len(),
        forall|i: int| 0 <= i < task_groups.deep_view().len() ==> #[trigger] r.1@[i]@ == stats_fold(
            task_groups.deep_view()[i],
        ),
{
    let ghost gsv = task_groups.deep_view();
    let mut aggregate = Stats::new();
    let ghost mut seen: Seq<TaskView> = Seq::empty();
    assert(aggregate@ =~= stats_fold(seen));
    let mut gi: usize = 0;
    while gi < task_groups.len()
        invariant
            gi <= task_groups@.len(),
            task_groups.deep_view() == gsv,
            seen == flat_groups(gsv.take(gi as int)),
            aggregate@ == stats_fold(seen),
        decreases task_groups@.len() - gi,
    {
        let group = &task_groups[gi];
        let ghost gv = gsv[gi as int];
        assert(gv == group.deep_view());
        let mut ti: usize = 0;
        while ti < group.len()
            invariant
                ti <= group@.len(),
                gv == group.deep_view(),
                aggregate@ == stats_fold(seen + gv.take(ti as int)),
            decreases group@.len() - ti,
        {
            let ghost before = seen + gv.take(ti as int);
            aggregate.add(&group[ti].task, group[ti].dur);
            proof {
                let after = seen + gv.take(ti as int + 1);
                assert(after.drop_last() =~= before);
                assert(after.last() == gv[ti as int]);
                assert(gv[ti as int] == group@[ti as int]@);
            }
            ti = ti + 1;
        }
        proof {
            assert(gv.take(group@.len() as int) =~= gv);
            lemma_flat_groups_push(gsv.take(gi as int), gv);
            assert(gsv.take(gi as int).push(gv) =~= gsv.take(gi as int + 1));
            seen = seen + gv;
        }
        gi = gi + 1;
    }
    assert(gsv.take(task_groups@.len() as int) =~= gsv);

    let mut grouped_stats: Vec<Stats> = Vec::new();
    let mut gj: usize = 0;
    while gj < task_groups.len()
        invariant
            gj <= task_groups@.len(),
            task_groups.deep_view() == gsv,
            grouped_stats@.len() == gj,
            forall|i: int| 0 <= i < gj ==> #[trigger] grouped_stats@[i]@ == stats_fold(gsv[i]),
        decreases task_groups@.len() - gj,
    {
        let group = &task_groups[gj];
        let ghost gv = gsv[gj as int];
        let mut stats = Stats::new();
        let mut ti: usize = 0;
        assert(gv.take(0) =~= Seq::<TaskView>::empty());
        assert(stats@ =~= stats_fold(gv.take(0)));
        while ti < group.len()
            invariant
                ti <= group@.len(),
                gv == group.deep_view(),
                stats@ == stats_fold(gv.take(ti as int)),
            decreases group@.len() - ti,
        {
            stats.add(&group[ti].task, group[ti].dur);
            proof {
                let after = gv.take(ti as int + 1);
                assert(after.drop_last() =~= gv.take(ti as int));
                assert(after.last() == gv[ti as int]);
                assert(gv[ti as int] == group@[ti as int]@);
            }
            ti = ti + 1;
        }
        assert(gv.take(group@.len() as int) =~= gv);
        grouped_stats.push(stats);
        gj = gj + 1;
    }
    (aggregate, grouped_stats)
}

/// The tasks of all groups, in order.
pub open spec fn flat_groups(gs: Seq<Seq<TaskView>>) -> Seq<TaskView>
    decreases gs.len(),
{
    if gs.len() == 0 {
        Seq::empty()
    } else {
        flat_groups(gs.drop_last()) + gs.last()
    }
}

/// Flattening one more group appends its tasks.
proof fn lemma_flat_groups_push(gs: Seq<Seq<TaskView>>, g: Seq<TaskView>)
    ensures
        flat_groups(gs.push(g)) == flat_groups(gs) + g,
{
    assert(gs.push(g).drop_last() =~= gs);
    assert(gs.push(g).last() == g);
}

/// Flattening starts with the first group.
proof fn lemma_flat_cons(g: Seq<TaskView>, gs: Seq<Seq<TaskView>>)
    ensures
        flat_groups(seq![g] + gs) == g + flat_groups(gs),
    decreases gs.len(),
{
    if gs.len() == 0 {
        assert(seq![g] + gs =~= seq![g]);
        assert(seq![g].drop_last() =~= Seq::<Seq<TaskView>>::empty());
        assert(flat_groups(Seq::<Seq<TaskView>>::empty()) == Seq::<TaskView>::empty());
        assert(seq![g].last() == g);
        assert(flat_groups(seq![g]) =~= g + flat_groups(gs));
    } else {
        assert((seq![g] + gs).drop_last() =~= seq![g] + gs.drop_last());
        assert((seq![g] + gs).last() == gs.last());
        lemma_flat_cons(g, gs.drop_last());
        assert((g + flat_groups(gs.drop_last())) + gs.last() =~= g + flat_groups(gs));
    }
}

/// Grouping is a partition: flattening the accumulated groups gives
/// back the current group followed by the remaining tasks.
proof fn lemma_flat_acc(ts: Seq<TaskView>, cur: Seq<TaskView>)
    ensures
        flat_groups(groups_acc(ts, cur)) == cur + ts,
    decreases ts.len(),
{
    if ts.len() == 0 {
        assert(flat_groups(groups_acc(ts, cur)) =~= flat_groups(seq![cur]));
        assert(seq![cur].drop_last() =~= Seq::<Seq<TaskView>>::empty());
        assert(flat_groups(Seq::<Seq<TaskView>>::empty()) == Seq::<TaskView>::empty());
        assert(seq![cur].last() == cur);
        assert(flat_groups(seq![cur]) =~= cur + ts);
    } else if cur.len() > 0 && day_index(ts[0].stime) == day_index(cur[0].stime) {
        lemma_flat_acc(ts.drop_first(), cur.push(ts[0]));
        assert(cur.push(ts[0]) + ts.drop_first() =~= cur + ts);
    } else if cur.len() == 0 {
        lemma_flat_acc(ts.drop_first(), seq![ts[0]]);
        assert(seq![ts[0]] + ts.drop_first() =~= cur + ts);
    } else {
        lemma_flat_acc(ts.drop_first(), seq![ts[0]]);
        lemma_flat_cons(cur, groups_acc(ts.drop_first(), seq![ts[0]]));
        assert(cur + (seq![ts[0]] + ts.drop_first()) =~= cur + ts);
    }
}

/// Day-grouping loses and reorders nothing.
pub proof fn lemma_flat_day_groups(ts: Seq<TaskView>)
    ensures
        flat_groups(day_groups(ts)) == ts,
{
    if ts.len() == 0 {
        assert(flat_groups(day_groups(ts)) =~= ts);
    } else {
        lemma_flat_acc(ts.drop_first(), seq![ts[0]]);
        assert(seq![ts[0]] + ts.drop_first() =~= ts);
    }
}

/// A name found in one group is found in the flattened whole.
proof fn lemma_has_name_flat(gs: Seq<Seq<TaskView>>, i: int, nm: Seq<char>)
    requires
        0 <= i < gs.len(),
        has_name(gs[i], nm),
    ensures
        has_name(flat_groups(gs), nm),
    decreases gs.len(),
{
    let whole = flat_groups(gs);
    let front = flat_groups(gs.drop_last());
    if i == gs.len() - 1 {
        let m = choose|m: int| 0 <= m < gs[i].len() && #[trigger] gs[i][m].task == nm;
        assert(whole[front.len() + m] == gs.last()[m]);
    } else {
        assert(gs.drop_last()[i] == gs[i]);
        lemma_has_name_flat(gs.drop_last(), i, nm);
        let m = choose|m: int| 0 <= m < front.len() && #[trigger] front[m].task == nm;
        assert(whole[m] == front[m]);
    }
}

// ---------------------------------------------------------------------
// report text
// ---------------------------------------------------------------------
/// `<h>h <m>m <s>s`, with no rollup beyond hours and no leading zeros.
pub open spec fn duration_str(secs: int) -> Seq<char> {
    dec_str((secs / 3600) as nat) + "h "@ + dec_str(((secs / 60) % 60) as nat) + "m "@ + dec_str(
        (secs % 60) as nat,
    ) + "s"@
}

/// A percentage scaled by one hundred, rounded to the nearest: the two
/// decimals of `num / den * 100`.
pub open spec fn pct_times100(num: int, den: int) -> int {
    (num * 10000 + den / 2) / den
}

/// The two digits after the decimal point, zero-padded.
pub open spec fn frac2(f: int) -> Seq<char> {
    if f < 10 {
        "0"@ + dec_str(f as nat)
    } else {
        dec_str(f as nat)
    }
}

/// `NN.NN`, the rendering of `num / den` as a percentage with two
/// decimals; a zero denominator renders as the literal `NaN`, the
/// quotient of nothing by nothing.
pub open spec fn pct_str(num: int, den: int) -> Seq<char> {
    if den <= 0 {
        "NaN"@
    } else {
        dec_str((pct_times100(num, den) / 100) as nat) + "."@ + frac2(pct_times100(num, den) % 100)
    }
}

/// One report line for a task name.
pub open spec fn stat_line(it: StatView, den: int, suffix: Seq<char>) -> Seq<char> {
    it.name + ": "@ + duration_str(it.total) + " ("@ + pct_str(it.total, den) + suffix
}

/// The denominator a lookup yields, defaulting to the empty total.
pub open spec fn opt_den(o: Option<int>) -> int {
    match o {
        Some(v) => v,
        None => 0,
    }
}

/// The per-day report lines: each name against its all-time total.
pub open spec fn group_lines(st: Seq<StatView>, agg: Seq<StatView>) -> Seq<char>
    decreases st.len(),
{
    if st.len() == 0 {
        Seq::empty()
    } else {
        stat_line(st[0], opt_den(lookup(agg, st[0].name)), "% of task total)\n"@) + group_lines(
            st.drop_first(),
            agg,
        )
    }
}

/// The report for one day group: a dated header, then one line per
/// name in lexicographic order.
pub open spec fn spec_group_report(g: Seq<TaskView>, st: Seq<StatView>, agg: Seq<StatView>) -> Seq<
    char,
> {
    crate::time::date_line_of(g[0].stime) + " Stats\n-----------------------\n"@ + group_lines(
        st,
        agg,
    )
}

/// The grand total over every name.
pub open spec fn sum_totals(st: Seq<StatView>) -> int
    decreases st.len(),
{
    if st.len() == 0 {
        0
    } else {
        st[0].total + sum_totals(st.drop_first())
    }
}

/// The aggregate lines: each name against the grand total.
pub open spec fn agg_lines(st: Seq<StatView>, den: int) -> Seq<char>
    decreases st.len(),
{
    if st.len() == 0 {
        Seq::empty()
    } else {
        stat_line(st[0], den, "% of total time)\n"@) + agg_lines(st.drop_first(), den)
    }
}

/// The aggregate block of the summary.
pub open spec fn spec_agg_report(st: Seq<StatView>) -> Seq<char> {
    "Aggregate Stats\n-----------------------\n"@ + agg_lines(st, sum_totals(st))
}

/// Appends `<h>h <m>m <s>s` for a duration in seconds.
fn push_duration(out: &mut String, secs: u64)
    ensures
        final(out)@ == old(out)@ + duration_str(secs as int),
{
    push_u64_str(out, secs / 3600);
    out.append("h ");
    push_u64_str(out, (secs / 60) % 60);
    out.append("m ");
    push_u64_str(out, secs % 60);
    out.append("s");
    assert(out@ =~= old(out)@ + duration_str(secs as int));
}

/// Renders a duration in seconds as `<h>h <m>m <s>s`.
pub fn format_duration(dur: u64) -> (r: String)
    ensures
        r@ == duration_str(dur as int),
{
    let mut out = String::new();
    push_duration(&mut out, dur);
    assert(out@ =~= duration_str(dur as int));
    out
}

/// Appends the two-decimal percentage of `num` against `den`.
fn push_pct(out: &mut String, num: u64, den: u128)
    ensures
        final(out)@ == old(out)@ + pct_str(num as int, den as int),
{
    if den == 0 {
        out.append("NaN");
        assert(out@ =~= old(out)@ + pct_str(num as int, den as int));
    } else {
        let p: u128 = ((num as u128) * 10000 + den / 2) / den;
        assert(p as int == pct_times100(num as int, den as int));
        push_u128_str(out, p / 100);
        out.append(".");
        let fp: u128 = p % 100;
        if fp < 10 {
            out.append("0");
            push_u128_str(out, fp);
            assert(out@ =~= old(out)@ + pct_str(num as int, den as int));
        } else {
            push_u128_str(out, fp);
            assert(out@ =~= old(out)@ + pct_str(num as int, den as int));
        }
    }
}

/// Renders the report for one day group: requires every name of the
/// group to carry an all-time total, which the aggregator guarantees.
pub fn create_report_for_taskgroup(group: &Vec<Task>, stats: &Stats, agg_stats: &Stats) -> (r:
    String)
    requires
        group@.len() > 0,
        forall|k: int| 0 <= k < stats@.len() ==> lookup(
            agg_stats@,
            #[trigger] stats@[k].name,
        ) is Some,
    ensures
        r@ == spec_group_report(group.deep_view(), stats@, agg_stats@),
{
    let ghost stv = stats@;
    let mut out = String::new();
    let d = crate::time::format_date(group[0].stime);
    out.append(d.as_str());
    out.append(" Stats\n-----------------------\n");
    assert(group.deep_view()[0] == group@[0]@);
    let ghost head = out@;
    let mut idx: usize = 0;
    assert(stv.skip(0) =~= stv);
    while idx < stats.items.len()
        invariant
            idx <= stats.items@.len(),
            stats@ == stv,
            forall|k: int| 0 <= k < stv.len() ==> lookup(agg_stats@, #[trigger] stv[k].name)
                is Some,
            spec_group_report(group.deep_view(), stv, agg_stats@) == out@ + group_lines(
                stv.skip(idx as int),
                agg_stats@,
            ),
        decreases stats.items@.len() - idx,
    {
        proof {
            let s = stv.skip(idx as int);
            assert(s[0] == stv[idx as int]);
            assert(s.drop_first() =~= stv.skip(idx as int + 1));
        }
        let item = &stats.items[idx];
        assert(item@ == stv[idx as int]);
        out.append(item.name.as_str());
        out.append(": ");
        push_duration(&mut out, item.total);
        out.append(" (");
        match agg_stats.get(&item.name) {
            Some(dv) => {
                push_pct(&mut out, item.total, dv as u128);
            },
            None => {
                proof {
                    assert(lookup(agg_stats@, stv[idx as int].name) is Some);
                    assert(false);
                }
            },
        }
        out.append("% of task total)\n");
        assert(spec_group_report(group.deep_view(), stv, agg_stats@) =~= out@ + group_lines(
            stv.skip(idx as int + 1),
            agg_stats@,
        ));
        idx = idx + 1;
    }
    assert(group_lines(stv.skip(idx as int), agg_stats@) =~= Seq::<char>::empty());
    assert(out@ =~= spec_group_report(group.deep_view(), stv, agg_stats@));
    out
}

/// Renders the aggregate block: every name against the grand total of
/// all tracked time.
pub fn create_aggregate_report(agg_stats: Stats) -> (r: String)
    ensures
        r@ == spec_agg_report(agg_stats@),
{
    let ghost stv = agg_stats@;
    let n = agg_stats.items.len();
    let mut total: u128 = 0;
    let mut i: usize = 0;
    assert(stv.skip(0) =~= stv);
    while i < n
        invariant
            i <= n,
            n == agg_stats.items@.len(),
            agg_stats@ == stv,
            total <= (i as u128) * (u64::MAX as u128),
            sum_totals(stv) == total + sum_totals(stv.skip(i as int)),
        decreases n - i,
    {
        proof {
            let s = stv.skip(i as int);
            assert(s[0] == stv[i as int]);
            assert(s.drop_first() =~= stv.skip(i as int + 1));
            assert(stv[i as int].total == agg_stats.items@[i as int].total as int);
            assert((i as u128) * (u64::MAX as u128) + (u64::MAX as u128) == ((i + 1) as u128) * (
            u64::MAX as u128)) by (nonlinear_arith);
            assert((i as u128) * (u64::MAX as u128) <= (u128::MAX - u64::MAX as u128)) by (nonlinear_arith)
                requires
                    i <= u64::MAX,
            ;
        }
        total = total + (agg_stats.items[i].total as u128);
        i = i + 1;
    }
    assert(stv.skip(i as int).len() == 0);
    assert(total as int == sum_totals(stv));

    let mut out = String::new();
    out.append("Aggregate Stats\n-----------------------\n");
    let mut idx: usize = 0;
    assert(stv.skip(0) =~= stv);
    while idx < agg_stats.items.len()
        invariant
            idx <= agg_stats.items@.len(),
            agg_stats@ == stv,
            total as int == sum_totals(stv),
            spec_agg_report(stv) == out@ + agg_lines(stv.skip(idx as int), sum_totals(stv)),
        decreases agg_stats.items@.len() - idx,
    {
        proof {
            let s = stv.skip(idx as int);
            assert(s[0] == stv[idx as int]);
            assert(s.drop_first() =~= stv.skip(idx as int + 1));
        }
        let item = &agg_stats.items[idx];
        assert(item@ == stv[idx as int]);
        out.append(item.name.as_str());
        out.append(": ");
        push_duration(&mut out, item.total);
        out.append(" (");
        push_pct(&mut out, item.total, total);
        out.append("% of total time)\n");
        assert(spec_agg_report(stv) =~= out@ + agg_lines(stv.skip(idx as int + 1), sum_totals(stv)));
        idx = idx + 1;
    }
    assert(agg_lines(stv.skip(idx as int), sum_totals(stv)) =~= Seq::<char>::empty());
    assert(out@ =~= spec_agg_report(stv));
    out
}

// ---------------------------------------------------------------------
// the summary
// ---------------------------------------------------------------------
/// Every day group's report followed by a blank line, in day order.
pub open spec fn concat_group_reports(gs: Seq<Seq<TaskView>>, agg: Seq<StatView>) -> Seq<char>
    decreases gs.len(),
{
    if gs.len() == 0 {
        Seq::empty()
    } else {
        spec_group_report(gs[0], stats_fold(gs[0]), agg) + "\n"@ + concat_group_reports(
            gs.drop_first(),
            agg,
        )
    }
}

/// The whole summary text for a log: the fixed message when no task
/// can be derived, otherwise each day's report and the aggregate
/// block.
pub open spec fn spec_summary(es: Seq<EntryView>) -> Seq<char> {
    let ts = sort_tasks(window_tasks(es));
    if ts.len() == 0 {
        "Cannot generate summary for empty task list.\n"@
    } else {
        let gs = day_groups(ts);
        let agg = stats_fold(ts);
        concat_group_reports(gs, agg) + spec_agg_report(agg) + "\n"@
    }
}

/// Renders the summary of the whole log: per-day reports with each
/// task's share of its all-time total, then the aggregate block with
/// each task's share of all tracked time. An empty task list
/// short-circuits to the fixed message.
pub fn summary_handler<L: TTLogger>(logger: &L, _task_conf: &crate::cli::Summary) -> (r: String)
    ensures
        r@ == spec_summary(logger.entries()),
{
    let tasks = parse_log_into_tasks(logger);
    let ghost tsv = tasks.deep_view();
    if tasks.len() == 0 {
        return String::from_str("Cannot generate summary for empty task list.\n");
    }
    proof {
        assert(forall|i: int| 0 <= i < tsv.len() ==> 0 <= #[trigger] tsv[i].dur <= u64::MAX) by {
            assert(forall|i: int| 0 <= i < tsv.len() ==> tsv[i] == #[trigger] tasks@[i]@);
        }
    }
    let grouped = group_tasks(tasks);
    let ghost gsv = grouped.deep_view();
    proof {
        lemma_flat_day_groups(tsv);
    }
    let stats_pair = summarize_task_stats(&grouped);
    let aggregate = stats_pair.0;
    let grouped_stats = stats_pair.1;
    assert(aggregate@ == stats_fold(tsv));

    let mut out = String::new();
    let mut gi: usize = 0;
    assert(gsv.skip(0) =~= gsv);
    while gi < grouped.len()
        invariant
            gi <= grouped@.len(),
            grouped.deep_view() == gsv,
            grouped_stats@.len() == gsv.len(),
            forall|i: int| 0 <= i < gsv.len() ==> #[trigger] grouped_stats@[i]@ == stats_fold(
                gsv[i],
            ),
            forall|i: int| 0 <= i < gsv.len() ==> #[trigger] gsv[i].len() > 0,
            aggregate@ == stats_fold(tsv),
            flat_groups(gsv) == tsv,
            forall|i: int| 0 <= i < tsv.len() ==> 0 <= #[trigger] tsv[i].dur <= u64::MAX,
            concat_group_reports(gsv, aggregate@) == out@ + concat_group_reports(
                gsv.skip(gi as int),
                aggregate@,
            ),
        decreases grouped@.len() - gi,
    {
        proof {
            let s = gsv.skip(gi as int);
            assert(s[0] == gsv[gi as int]);
            assert(s.drop_first() =~= gsv.skip(gi as int + 1));
            assert(grouped@[gi as int].deep_view() == gsv[gi as int]);
            let gst = stats_fold(gsv[gi as int]);
            lemma_stats_fold_names(gsv[gi as int]);
            assert forall|k: int| 0 <= k < gst.len() implies lookup(
                aggregate@,
                #[trigger] gst[k].name,
            ) is Some by {
                assert(has_name(gsv[gi as int], gst[k].name));
                lemma_has_name_flat(gsv, gi as int, gst[k].name);
                lemma_stats_fold_lookup(tsv, gst[k].name);
            }
        }
        let rep = create_report_for_taskgroup(&grouped[gi], &grouped_stats[gi], &aggregate);
        out.append(rep.as_str());
        out.append("\n");
        assert(concat_group_reports(gsv, aggregate@) =~= out@ + concat_group_reports(
            gsv.skip(gi as int + 1),
            aggregate@,
        ));
        gi = gi + 1;
    }
    assert(concat_group_reports(gsv.skip(gi as int), aggregate@) =~= Seq::<char>::empty());
    assert(out@ =~= concat_group_reports(gsv, aggregate@));
    let agg_rep = create_aggregate_report(aggregate);
    out.append(agg_rep.as_str());
    out.append("\n");
    assert(out@ =~= spec_summary(logger.entries()));
    out
}

} // verus!
