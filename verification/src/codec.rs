//! The persisted record format: one record per line, comma-separated,
//! fields `entry_type`, `stime`, `task`, `note`, with standard CSV
//! quoting when a field contains a delimiter. Encoding and decoding are
//! specified exactly and proved to round-trip.

use vstd::prelude::*;

use crate::entry::{EntryView, LogEntry, LogEntryType};
use crate::strnum::{
    all_digits, chars_to_string, dec_str, dec_val, is_digit, parse_u64_range, push_u64_chars,
};

verus! {

/// The literal label a record carries for each entry type.
pub open spec fn type_label(t: LogEntryType) -> Seq<char> {
    match t {
        LogEntryType::Start => "Start"@,
        LogEntryType::End => "End"@,
    }
}

/// Whether a field must be quoted: it holds a delimiter, a quote or a
/// line break.
pub open spec fn needs_quote(s: Seq<char>) -> bool {
    s.contains(',') || s.contains('"') || s.contains('\n') || s.contains('\r')
}

/// A field's characters with every quote doubled.
pub open spec fn escape_quotes(s: Seq<char>) -> Seq<char>
    decreases s.len(),
{
    if s.len() == 0 {
        Seq::empty()
    } else {
        (if s[0] == '"' {
            seq!['"', '"']
        } else {
            seq![s[0]]
        }) + escape_quotes(s.drop_first())
    }
}

/// The encoding of one field: absent is empty, present is written as
/// given, quoted and escaped when it holds a delimiter.
pub open spec fn enc_field(f: Option<Seq<char>>) -> Seq<char> {
    match f {
        None => Seq::empty(),
        Some(s) => if needs_quote(s) {
            seq!['"'] + escape_quotes(s) + seq!['"']
        } else {
            s
        },
    }
}

/// The encoding of one record, terminated by a line feed.
pub open spec fn enc_record(e: EntryView) -> Seq<char> {
    type_label(e.entry_type) + seq![','] + dec_str(e.stime as nat) + seq![','] + enc_field(e.task)
        + seq![','] + enc_field(e.note) + seq!['\n']
}

/// The encoding of a whole log, records in append order.
pub open spec fn enc_log(es: Seq<EntryView>) -> Seq<char>
    decreases es.len(),
{
    if es.len() == 0 {
        Seq::empty()
    } else {
        enc_record(es[0]) + enc_log(es.drop_first())
    }
}

/// An entry the record format can reproduce exactly: its timestamp fits
/// the stored width and a present field is never the empty string,
/// which the format writes as absent.
pub open spec fn encodable(e: EntryView) -> bool {
    &&& 0 <= e.stime <= u64::MAX
    &&& e.task != Some(Seq::<char>::empty())
    &&& e.note != Some(Seq::<char>::empty())
}

/// Appends every character of `s` to `out`.
pub fn push_str_chars(out: &mut Vec<char>, s: &str)
    ensures
        final(out)@ == old(out)@ + s@,
{
    let len = s.unicode_len();
    let mut i: usize = 0;
    while i < len
        invariant
            i <= len,
            len == s@.len(),
            out@ == old(out)@ + s@.take(i as int),
        decreases len - i,
    {
        out.push(s.get_char(i));
        assert(out@ =~= old(out)@ + s@.take(i as int + 1));
        i = i + 1;
    }
    assert(out@ =~= old(out)@ + s@);
}

/// Whether `s` holds a character that forces quoting.
fn field_needs_quote(s: &str) -> (r: bool)
    ensures
        r == needs_quote(s@),
{
    let len = s.unicode_len();
    let mut i: usize = 0;
    while i < len
        invariant
            i <= len,
            len == s@.len(),
            forall|k: int| 0 <= k < i ==> {
                &&& #[trigger] s@[k] != ','
                &&& s@[k] != '"'
                &&& s@[k] != '\n'
                &&& s@[k] != '\r'
            },
        decreases len - i,
    {
        let c = s.get_char(i);
        if c == ',' || c == '"' || c == '\n' || c == '\r' {
            return true;
        }
        i = i + 1;
    }
    assert(!needs_quote(s@)) by {
        if s@.contains(',') {
            let k = choose|k: int| 0 <= k < s@.len() && s@[k] == ',';
            assert(s@[k] != ',');
        }
        if s@.contains('"') {
            let k = choose|k: int| 0 <= k < s@.len() && s@[k] == '"';
            assert(s@[k] != '"');
        }
        if s@.contains('\n') {
            let k = choose|k: int| 0 <= k < s@.len() && s@[k] == '\n';
            assert(s@[k] != '\n');
        }
        if s@.contains('\r') {
            let k = choose|k: int| 0 <= k < s@.len() && s@[k] == '\r';
            assert(s@[k] != '\r');
        }
    }
    false
}

/// `escape_quotes` distributes over concatenation.
proof fn lemma_escape_append(a: Seq<char>, b: Seq<char>)
    ensures
        escape_quotes(a + b) == escape_quotes(a) + escape_quotes(b),
    decreases a.len(),
{
    if a.len() == 0 {
        assert(a + b =~= b);
        assert(escape_quotes(a) + escape_quotes(b) =~= escape_quotes(b));
    } else {
        lemma_escape_append(a.drop_first(), b);
        assert((a + b).drop_first() =~= a.drop_first() + b);
        assert((a + b)[0] == a[0]);
        assert(escape_quotes(a + b) =~= escape_quotes(a) + escape_quotes(b));
    }
}

/// The escaping of a single character.
proof fn lemma_escape_one(c: char)
    ensures
        c == '"' ==> escape_quotes(seq![c]) == seq!['"', '"'],
        c != '"' ==> escape_quotes(seq![c]) == seq![c],
{
    let one = seq![c];
    assert(one.drop_first() =~= Seq::<char>::empty());
    assert(escape_quotes(Seq::<char>::empty()) == Seq::<char>::empty());
    if c == '"' {
        assert(escape_quotes(one) =~= seq!['"', '"']);
    } else {
        assert(escape_quotes(one) =~= seq![c]);
    }
}

/// Appends `s` with every quote doubled.
fn push_escaped(out: &mut Vec<char>, s: &str)
    ensures
        final(out)@ == old(out)@ + escape_quotes(s@),
{
    let len = s.unicode_len();
    let mut i: usize = 0;
    assert(s@.take(0) =~= Seq::<char>::empty());
    while i < len
        invariant
            i <= len,
            len == s@.len(),
            out@ == old(out)@ + escape_quotes(s@.take(i as int)),
        decreases len - i,
    {
        let c = s.get_char(i);
        proof {
            let pre = s@.take(i as int);
            let one = seq![s@[i as int]];
            assert(s@.take(i as int + 1) =~= pre + one);
            lemma_escape_append(pre, one);
            lemma_escape_one(s@[i as int]);
        }
        if c == '"' {
            out.push('"');
            out.push('"');
        } else {
            out.push(c);
        }
        assert(out@ =~= old(out)@ + escape_quotes(s@.take(i as int + 1)));
        i = i + 1;
    }
    assert(s@.take(len as int) =~= s@);
}

/// Appends the encoding of one optional field.
fn push_field(out: &mut Vec<char>, f: &Option<String>)
    ensures
        final(out)@ == old(out)@ + enc_field(f.deep_view()),
{
    match f {
        None => {
            assert(out@ =~= old(out)@ + enc_field(f.deep_view()));
        },
        Some(s) => {
            if field_needs_quote(s.as_str()) {
                out.push('"');
                push_escaped(out, s.as_str());
                out.push('"');
                assert(out@ =~= old(out)@ + enc_field(f.deep_view()));
            } else {
                push_str_chars(out, s.as_str());
                assert(out@ =~= old(out)@ + enc_field(f.deep_view()));
            }
        },
    }
}

/// The characters a field stands for: absent is the empty sequence.
pub open spec fn field_content(f: Option<Seq<char>>) -> Seq<char> {
    match f {
        None => Seq::empty(),
        Some(s) => s,
    }
}

/// Reads the body of a quoted field, the opening quote already
/// consumed: a doubled quote stands for one quote character, a lone
/// quote closes the field. Yields the field and how many characters
/// were consumed, or nothing when the quote is never closed.
pub open spec fn parse_quoted(s: Seq<char>) -> Option<(Seq<char>, int)>
    decreases s.len(),
{
    if s.len() == 0 {
        None
    } else if s[0] == '"' {
        if s.len() >= 2 && s[1] == '"' {
            match parse_quoted(s.skip(2)) {
                None => None,
                Some(p) => Some((seq!['"'] + p.0, p.1 + 2)),
            }
        } else {
            Some((Seq::empty(), 1))
        }
    } else {
        match parse_quoted(s.drop_first()) {
            None => None,
            Some(p) => Some((seq![s[0]] + p.0, p.1 + 1)),
        }
    }
}

/// How many characters an unquoted field spans: everything up to the
/// first delimiter or line break.
pub open spec fn unquoted_len(s: Seq<char>) -> int
    decreases s.len(),
{
    if s.len() == 0 {
        0
    } else if s[0] == ',' || s[0] == '\n' {
        0
    } else {
        1 + unquoted_len(s.drop_first())
    }
}

/// Reads one field at the head of `s`, quoted or not.
pub open spec fn parse_field(s: Seq<char>) -> Option<(Seq<char>, int)> {
    if s.len() > 0 && s[0] == '"' {
        match parse_quoted(s.drop_first()) {
            None => None,
            Some(p) => Some((p.0, p.1 + 1)),
        }
    } else {
        Some((s.take(unquoted_len(s)), unquoted_len(s)))
    }
}

/// The entry type a record label denotes.
pub open spec fn rec_type(f: Seq<char>) -> Option<LogEntryType> {
    if f == "Start"@ {
        Some(LogEntryType::Start)
    } else if f == "End"@ {
        Some(LogEntryType::End)
    } else {
        None
    }
}

/// An empty field reads back as an absent value.
pub open spec fn opt_field(f: Seq<char>) -> Option<Seq<char>> {
    if f.len() == 0 {
        None
    } else {
        Some(f)
    }
}

/// Reads one record at the head of `s`: four comma-separated fields
/// and a line feed. Yields the entry and how many characters were
/// consumed.
pub open spec fn parse_record(s: Seq<char>) -> Option<(EntryView, int)> {
    match parse_field(s) {
        None => None,
        Some((f0, k0)) => if k0 < s.len() && s[k0] == ',' {
            let s1 = s.skip(k0 + 1);
            match parse_field(s1) {
                None => None,
                Some((f1, k1)) => if k1 < s1.len() && s1[k1] == ',' {
                    let s2 = s1.skip(k1 + 1);
                    match parse_field(s2) {
                        None => None,
                        Some((f2, k2)) => if k2 < s2.len() && s2[k2] == ',' {
                            let s3 = s2.skip(k2 + 1);
                            match parse_field(s3) {
                                None => None,
                                Some((f3, k3)) => if k3 < s3.len() && s3[k3] == '\n' {
                                    match rec_type(f0) {
                                        None => None,
                                        Some(t) => if f1.len() > 0 && all_digits(f1) && dec_val(f1)
                                            <= u64::MAX {
                                            Some(
                                                (
                                                    EntryView {
                                                        entry_type: t,
                                                        stime: dec_val(f1),
                                                        task: opt_field(f2),
                                                        note: opt_field(f3),
                                                    },
                                                    k0 + 1 + k1 + 1 + k2 + 1 + k3 + 1,
                                                ),
                                            )
                                        } else {
                                            None
                                        },
                                    }
                                } else {
                                    None
                                },
                            }
                        } else {
                            None
                        },
                    }
                } else {
                    None
                },
            }
        } else {
            None
        },
    }
}

/// Reads a whole log text: records in order, stopping at the first
/// malformed record, as the storage reader does.
pub open spec fn parse_log(s: Seq<char>) -> Seq<EntryView>
    decreases s.len(),
{
    if s.len() == 0 {
        Seq::empty()
    } else {
        match parse_record(s) {
            None => Seq::empty(),
            Some((e, k)) => if 0 < k <= s.len() {
                seq![e] + parse_log(s.skip(k))
            } else {
                seq![e]
            },
        }
    }
}

/// Reads a quoted field body starting at `start` in `cs`.
fn parse_quoted_at(cs: &Vec<char>, start: usize) -> (r: Option<(Vec<char>, usize)>)
    requires
        start <= cs@.len(),
    ensures
        match r {
            Some(p) => start <= p.1 <= cs@.len() && parse_quoted(cs@.skip(start as int)) == Some(
                (p.0@, p.1 - start as int),
            ),
            None => parse_quoted(cs@.skip(start as int)) is None,
        },
{
    let len = cs.len();
    let mut p: usize = start;
    let mut field: Vec<char> = Vec::new();
    loop
        invariant
            start <= p <= len,
            len == cs@.len(),
            match parse_quoted(cs@.skip(p as int)) {
                None => parse_quoted(cs@.skip(start as int)) is None,
                Some(q) => parse_quoted(cs@.skip(start as int)) == Some(
                    (field@ + q.0, q.1 + p - start),
                ),
            },
        decreases len - p,
    {
        if p == len {
            assert(cs@.skip(p as int).len() == 0);
            return None;
        }
        let c = cs[p];
        assert(cs@.skip(p as int)[0] == c);
        if c == '"' {
            if p + 1 < len && cs[p + 1] == '"' {
                proof {
                    let s = cs@.skip(p as int);
                    assert(s[1] == cs@[p + 1]);
                    assert(s.skip(2) =~= cs@.skip(p as int + 2));
                }
                field.push('"');
                proof {
                    if parse_quoted(cs@.skip(p as int + 2)) is Some {
                        let q = parse_quoted(cs@.skip(p as int + 2))->Some_0;
                        assert(field@ + q.0 =~= field@.drop_last() + (seq!['"'] + q.0));
                    }
                }
                p = p + 2;
            } else {
                proof {
                    let s = cs@.skip(p as int);
                    if s.len() >= 2 {
                        assert(s[1] == cs@[p + 1]);
                    }
                    assert(parse_quoted(s) == Some((Seq::<char>::empty(), 1int)));
                    assert(field@ + Seq::<char>::empty() =~= field@);
                }
                return Some((field, p + 1));
            }
        } else {
            proof {
                let s = cs@.skip(p as int);
                assert(s.drop_first() =~= cs@.skip(p as int + 1));
            }
            field.push(c);
            proof {
                if parse_quoted(cs@.skip(p as int + 1)) is Some {
                    let q = parse_quoted(cs@.skip(p as int + 1))->Some_0;
                    assert(field@ + q.0 =~= field@.drop_last() + (seq![c] + q.0));
                }
            }
            p = p + 1;
        }
    }
}

/// `unquoted_len` is the position of the first delimiter.
proof fn lemma_unquoted_char(s: Seq<char>, k: int)
    requires
        0 <= k <= s.len(),
        forall|i: int| 0 <= i < k ==> #[trigger] s[i] != ',' && s[i] != '\n',
        k == s.len() || s[k] == ',' || s[k] == '\n',
    ensures
        unquoted_len(s) == k,
    decreases k,
{
    if k == 0 {
    } else {
        assert(s[0] != ',' && s[0] != '\n');
        let t = s.drop_first();
        assert(forall|i: int| 0 <= i < k - 1 ==> #[trigger] t[i] == s[i + 1]);
        lemma_unquoted_char(t, k - 1);
    }
}

/// Reads one field starting at `start` in `cs`.
fn parse_field_at(cs: &Vec<char>, start: usize) -> (r: Option<(Vec<char>, usize)>)
    requires
        start <= cs@.len(),
    ensures
        match r {
            Some(p) => start <= p.1 <= cs@.len() && parse_field(cs@.skip(start as int)) == Some(
                (p.0@, p.1 - start as int),
            ),
            None => parse_field(cs@.skip(start as int)) is None,
        },
{
    let len = cs.len();
    if start < len && cs[start] == '"' {
        assert(cs@.skip(start as int)[0] == '"');
        assert(cs@.skip(start as int).drop_first() =~= cs@.skip(start as int + 1));
        match parse_quoted_at(cs, start + 1) {
            None => None,
            Some((f, next)) => Some((f, next)),
        }
    } else {
        proof {
            let s = cs@.skip(start as int);
            if s.len() > 0 {
                assert(s[0] == cs@[start as int]);
            }
        }
        let mut p: usize = start;
        let mut field: Vec<char> = Vec::new();
        loop
            invariant
                start <= p <= len,
                len == cs@.len(),
                field@ == cs@.subrange(start as int, p as int),
                forall|i: int| start <= i < p ==> #[trigger] cs@[i] != ',' && cs@[i] != '\n',
            ensures
                start <= p <= len,
                field@ == cs@.subrange(start as int, p as int),
                forall|i: int| start <= i < p ==> #[trigger] cs@[i] != ',' && cs@[i] != '\n',
                p == len || cs@[p as int] == ',' || cs@[p as int] == '\n',
            decreases len - p,
        {
            if p == len {
                break;
            }
            let c = cs[p];
            if c == ',' || c == '\n' {
                break;
            }
            field.push(c);
            assert(field@ =~= cs@.subrange(start as int, p as int + 1));
            p = p + 1;
        }
        proof {
            let s = cs@.skip(start as int);
            assert(forall|i: int| 0 <= i < p - start ==> #[trigger] s[i] == cs@[i + start]);
            if p < len {
                assert(s[p - start] == cs@[p as int]);
            }
            lemma_unquoted_char(s, p - start);
            assert(s.take(p - start) =~= cs@.subrange(start as int, p as int));
        }
        Some((field, p))
    }
}

/// Whether a character buffer holds exactly the characters of `s`.
fn chars_eq_str(v: &Vec<char>, s: &str) -> (r: bool)
    ensures
        r == (v@ == s@),
{
    let n = s.unicode_len();
    if v.len() != n {
        return false;
    }
    let mut i: usize = 0;
    while i < n
        invariant
            i <= n,
            n == s@.len(),
            v@.len() == n,
            forall|k: int| 0 <= k < i ==> #[trigger] v@[k] == s@[k],
        decreases n - i,
    {
        if v[i] != s.get_char(i) {
            return false;
        }
        i = i + 1;
    }
    assert(v@ =~= s@);
    true
}

/// Reads one record starting at `start` in `cs`.
pub fn parse_record_at(cs: &Vec<char>, start: usize) -> (r: Option<(LogEntry, usize)>)
    requires
        start <= cs@.len(),
    ensures
        match r {
            Some(p) => start < p.1 <= cs@.len() && parse_record(cs@.skip(start as int)) == Some(
                (p.0@, p.1 - start as int),
            ),
            None => parse_record(cs@.skip(start as int)) is None,
        },
{
    let len = cs.len();
    let ghost s = cs@.skip(start as int);
    let r0 = parse_field_at(cs, start);
    if r0.is_none() {
        return None;
    }
    let (f0, n0) = r0.unwrap();
    if n0 == len || cs[n0] != ',' {
        proof {
            if n0 < len {
                assert(s[n0 - start] == cs@[n0 as int]);
            }
        }
        return None;
    }
    assert(s[n0 - start] == cs@[n0 as int]);
    let ghost s1 = s.skip(n0 - start + 1);
    assert(s1 =~= cs@.skip(n0 as int + 1));
    let r1 = parse_field_at(cs, n0 + 1);
    if r1.is_none() {
        return None;
    }
    let (f1, n1) = r1.unwrap();
    if n1 == len || cs[n1] != ',' {
        proof {
            if n1 < len {
                assert(s1[n1 - (n0 + 1)] == cs@[n1 as int]);
            }
        }
        return None;
    }
    assert(s1[n1 - (n0 + 1)] == cs@[n1 as int]);
    let ghost s2 = s1.skip(n1 - (n0 + 1) + 1);
    assert(s2 =~= cs@.skip(n1 as int + 1));
    let r2 = parse_field_at(cs, n1 + 1);
    if r2.is_none() {
        return None;
    }
    let (f2, n2) = r2.unwrap();
    if n2 == len || cs[n2] != ',' {
        proof {
            if n2 < len {
                assert(s2[n2 - (n1 + 1)] == cs@[n2 as int]);
            }
        }
        return None;
    }
    assert(s2[n2 - (n1 + 1)] == cs@[n2 as int]);
    let ghost s3 = s2.skip(n2 - (n1 + 1) + 1);
    assert(s3 =~= cs@.skip(n2 as int + 1));
    let r3 = parse_field_at(cs, n2 + 1);
    if r3.is_none() {
        return None;
    }
    let (f3, n3) = r3.unwrap();
    if n3 == len || cs[n3] != '\n' {
        proof {
            if n3 < len {
                assert(s3[n3 - (n2 + 1)] == cs@[n3 as int]);
            }
        }
        return None;
    }
    assert(s3[n3 - (n2 + 1)] == cs@[n3 as int]);
    let entry_type: LogEntryType;
    if chars_eq_str(&f0, "Start") {
        entry_type = LogEntryType::Start;
    } else if chars_eq_str(&f0, "End") {
        entry_type = LogEntryType::End;
    } else {
        assert(rec_type(f0@) is None);
        return None;
    }
    assert(f1@.subrange(0, f1@.len() as int) =~= f1@);
    let rs = parse_u64_range(&f1, 0, f1.len());
    if rs.is_none() {
        return None;
    }
    let stime = rs.unwrap();
    let task: Option<String> = if f2.len() == 0 {
        None
    } else {
        Some(chars_to_string(&f2))
    };
    let note: Option<String> = if f3.len() == 0 {
        None
    } else {
        Some(chars_to_string(&f3))
    };
    let e = LogEntry { entry_type, stime, task, note };
    assert(e@.task == opt_field(f2@));
    assert(e@.note == opt_field(f3@));
    Some((e, n3 + 1))
}

/// Reads a whole log text, stopping at the first malformed record.
pub fn parse_log_chars(cs: &Vec<char>) -> (r: Vec<LogEntry>)
    ensures
        r.deep_view() == parse_log(cs@),
{
    let len = cs.len();
    let mut out: Vec<LogEntry> = Vec::new();
    let mut p: usize = 0;
    assert(cs@.skip(0) =~= cs@);
    while p < len
        invariant
            p <= len,
            len == cs@.len(),
            parse_log(cs@) == out.deep_view() + parse_log(cs@.skip(p as int)),
        decreases len - p,
    {
        match parse_record_at(cs, p) {
            None => {
                assert(parse_log(cs@.skip(p as int)) =~= Seq::<EntryView>::empty());
                assert(parse_log(cs@) =~= out.deep_view());
                return out;
            },
            Some((e, next)) => {
                let ghost prev = out.deep_view();
                proof {
                    let s = cs@.skip(p as int);
                    let k = next - p;
                    assert(s.skip(k) =~= cs@.skip(next as int));
                    assert(parse_log(s) == seq![e@] + parse_log(cs@.skip(next as int)));
                }
                out.push(e);
                proof {
                    assert(out.deep_view() =~= prev.push(e@));
                    assert(prev + (seq![e@] + parse_log(cs@.skip(next as int))) =~= out.deep_view()
                        + parse_log(cs@.skip(next as int)));
                }
                p = next;
            },
        }
    }
    assert(cs@.skip(p as int).len() == 0);
    assert(parse_log(cs@) =~= out.deep_view());
    out
}

/// Encodes one entry as a record line, terminator included.
pub fn encode_record(e: &LogEntry) -> (r: Vec<char>)
    ensures
        r@ == enc_record(e@),
{
    let mut out: Vec<char> = Vec::new();
    match e.entry_type {
        LogEntryType::Start => {
            push_str_chars(&mut out, "Start");
        },
        LogEntryType::End => {
            push_str_chars(&mut out, "End");
        },
    }
    out.push(',');
    push_u64_chars(&mut out, e.stime);
    out.push(',');
    push_field(&mut out, &e.task);
    out.push(',');
    push_field(&mut out, &e.note);
    out.push('\n');
    assert(out@ =~= enc_record(e@));
    out
}

/// Reading a quoted, escaped field back yields the field: the closing
/// quote is followed by `rest`, which never begins with a quote.
proof fn lemma_parse_quoted_of_escaped(s: Seq<char>, rest: Seq<char>)
    requires
        rest.len() > 0,
        rest[0] != '"',
    ensures
        parse_quoted(escape_quotes(s) + seq!['"'] + rest) == Some(
            (s, escape_quotes(s).len() as int + 1),
        ),
    decreases s.len(),
{
    let t = escape_quotes(s) + seq!['"'] + rest;
    if s.len() == 0 {
        assert(t =~= seq!['"'] + rest);
        assert(t[0] == '"');
        assert(t.len() >= 2);
        assert(t[1] == rest[0]);
        assert(parse_quoted(t) == Some((Seq::<char>::empty(), 1int)));
    } else {
        let s2 = s.drop_first();
        lemma_parse_quoted_of_escaped(s2, rest);
        let e2 = escape_quotes(s2);
        if s[0] == '"' {
            assert(escape_quotes(s) == seq!['"', '"'] + e2);
            assert(t[0] == '"');
            assert(t.len() >= 2);
            assert(t[1] == (seq!['"', '"'] + e2)[1]);
            assert(t[1] == '"');
            assert(t.skip(2) =~= e2 + seq!['"'] + rest);
            assert(parse_quoted(t) == Some((seq!['"'] + s2, e2.len() as int + 1 + 2)));
            assert(seq!['"'] + s2 =~= s);
            assert(escape_quotes(s).len() == e2.len() + 2);
        } else {
            assert(escape_quotes(s) == seq![s[0]] + e2);
            assert(t[0] == s[0]);
            assert(t.drop_first() =~= e2 + seq!['"'] + rest);
            assert(parse_quoted(t) == Some((seq![s[0]] + s2, e2.len() as int + 1 + 1)));
            assert(seq![s[0]] + s2 =~= s);
            assert(escape_quotes(s).len() == e2.len() + 1);
        }
    }
}

/// Reading an encoded field back yields its content, when a delimiter
/// follows it.
proof fn lemma_parse_field_of_encoded(f: Option<Seq<char>>, rest: Seq<char>)
    requires
        rest.len() > 0,
        rest[0] == ',' || rest[0] == '\n',
    ensures
        parse_field(enc_field(f) + rest) == Some((field_content(f), enc_field(f).len() as int)),
{
    let t = enc_field(f) + rest;
    match f {
        None => {
            assert(t =~= rest);
            assert(unquoted_len(t) == 0);
            assert(t.take(0) =~= Seq::<char>::empty());
        },
        Some(s) => {
            if needs_quote(s) {
                let e = escape_quotes(s);
                assert(enc_field(f) == seq!['"'] + e + seq!['"']);
                assert(t[0] == '"');
                assert(t.drop_first() =~= e + seq!['"'] + rest);
                lemma_parse_quoted_of_escaped(s, rest);
                assert(parse_field(t) == Some((s, e.len() as int + 1 + 1)));
                assert(enc_field(f).len() == e.len() + 2);
            } else {
                assert(enc_field(f) == s);
                assert forall|i: int| 0 <= i < s.len() implies #[trigger] t[i] != ',' && t[i]
                    != '\n' by {
                    assert(t[i] == s[i]);
                    if s[i] == ',' {
                        assert(s.contains(','));
                    }
                    if s[i] == '\n' {
                        assert(s.contains('\n'));
                    }
                }
                assert(t[s.len() as int] == rest[0]);
                lemma_unquoted_char(t, s.len() as int);
                if s.len() > 0 {
                    assert(t[0] == s[0]);
                    if s[0] == '"' {
                        assert(s.contains('"'));
                    }
                }
                assert(t.take(s.len() as int) =~= s);
            }
        },
    }
}

/// Record labels and rendered numbers hold no delimiter and never
/// begin with a quote.
proof fn lemma_label_facts()
    ensures
        "Start"@.len() == 5,
        "End"@.len() == 3,
        "Start"@ != "End"@,
        forall|i: int| 0 <= i < "Start"@.len() ==> #[trigger] "Start"@[i] != ',' && "Start"@[i]
            != '\n' && "Start"@[i] != '"',
        forall|i: int| 0 <= i < "End"@.len() ==> #[trigger] "End"@[i] != ',' && "End"@[i] != '\n'
            && "End"@[i] != '"',
{
    reveal_strlit("Start");
    reveal_strlit("End");
}

/// A plain prefix — no delimiter, no leading quote — parses as an
/// unquoted field when a delimiter follows it.
proof fn lemma_parse_plain_prefix(pre: Seq<char>, rest: Seq<char>)
    requires
        forall|i: int| 0 <= i < pre.len() ==> #[trigger] pre[i] != ',' && pre[i] != '\n',
        pre.len() > 0 ==> pre[0] != '"',
        rest.len() > 0,
        rest[0] == ',' || rest[0] == '\n',
    ensures
        parse_field(pre + rest) == Some((pre, pre.len() as int)),
{
    let t = pre + rest;
    assert forall|i: int| 0 <= i < pre.len() implies #[trigger] t[i] != ',' && t[i] != '\n' by {
        assert(t[i] == pre[i]);
    }
    assert(t[pre.len() as int] == rest[0]);
    lemma_unquoted_char(t, pre.len() as int);
    if pre.len() > 0 {
        assert(t[0] == pre[0]);
    }
    assert(t.take(pre.len() as int) =~= pre);
}

/// A present field of an encodable entry is never the empty sequence.
proof fn lemma_opt_field_roundtrip(f: Option<Seq<char>>)
    requires
        f != Some(Seq::<char>::empty()),
    ensures
        opt_field(field_content(f)) == f,
{
    match f {
        None => {},
        Some(s) => {
            if s.len() == 0 {
                assert(s =~= Seq::<char>::empty());
            }
        },
    }
}

/// Reading an encoded record back yields the entry, whatever follows.
#[verifier::rlimit(100)]
pub proof fn lemma_parse_record_of_encoded(e: EntryView, rest: Seq<char>)
    requires
        encodable(e),
    ensures
        parse_record(enc_record(e) + rest) == Some((e, enc_record(e).len() as int)),
{
    let label = type_label(e.entry_type);
    let digits = dec_str(e.stime as nat);
    let ft = enc_field(e.task);
    let fn_ = enc_field(e.note);
    let t = enc_record(e) + rest;
    lemma_label_facts();
    crate::strnum::lemma_dec_str_digits(e.stime as nat);
    crate::strnum::lemma_dec_str_val(e.stime as nat);

    // the label parses as an unquoted field
    let tail1 = seq![','] + digits + seq![','] + ft + seq![','] + fn_ + seq!['\n'] + rest;
    assert(t =~= label + tail1);
    lemma_parse_plain_prefix(label, tail1);
    assert(parse_field(t) == Some((label, label.len() as int)));
    assert(t[label.len() as int] == ',');

    // the timestamp parses as an unquoted run of digits
    let s1 = t.skip(label.len() as int + 1);
    let tail2 = seq![','] + ft + seq![','] + fn_ + seq!['\n'] + rest;
    assert(s1 =~= digits + tail2);
    assert forall|i: int| 0 <= i < digits.len() implies #[trigger] digits[i] != ',' && digits[i]
        != '\n' && digits[i] != '"' by {
        assert(is_digit(digits[i]));
    }
    lemma_parse_plain_prefix(digits, tail2);
    assert(parse_field(s1) == Some((digits, digits.len() as int)));
    assert(s1[digits.len() as int] == ',');

    // the task field
    let s2 = s1.skip(digits.len() as int + 1);
    let tail3 = seq![','] + fn_ + seq!['\n'] + rest;
    assert(s2 =~= ft + tail3);
    lemma_parse_field_of_encoded(e.task, tail3);
    assert(parse_field(s2) == Some((field_content(e.task), ft.len() as int)));
    assert(s2[ft.len() as int] == ',');

    // the note field
    let s3 = s2.skip(ft.len() as int + 1);
    let tail4 = seq!['\n'] + rest;
    assert(s3 =~= fn_ + tail4);
    lemma_parse_field_of_encoded(e.note, tail4);
    assert(parse_field(s3) == Some((field_content(e.note), fn_.len() as int)));
    assert(s3[fn_.len() as int] == '\n');

    // the parsed pieces rebuild the entry
    assert(rec_type(label) == Some(e.entry_type));
    lemma_opt_field_roundtrip(e.task);
    lemma_opt_field_roundtrip(e.note);
    assert(dec_val(digits) == e.stime && all_digits(digits) && digits.len() > 0);
    assert(enc_record(e).len() == label.len() + 1 + digits.len() + 1 + ft.len() + 1 + fn_.len()
        + 1);
}

/// A record's encoding is never empty.
proof fn lemma_enc_record_len(e: EntryView)
    ensures
        enc_record(e).len() >= 1,
{
}

/// Reading an encoded log back yields the same entries: the round trip
/// through the persisted format loses nothing.
pub proof fn lemma_log_round_trip(es: Seq<EntryView>)
    requires
        forall|i: int| 0 <= i < es.len() ==> encodable(#[trigger] es[i]),
    ensures
        parse_log(enc_log(es)) == es,
    decreases es.len(),
{
    if es.len() == 0 {
        assert(parse_log(enc_log(es)) =~= es);
    } else {
        let rest = es.drop_first();
        let t = enc_log(es);
        assert(t == enc_record(es[0]) + enc_log(rest));
        lemma_parse_record_of_encoded(es[0], enc_log(rest));
        lemma_enc_record_len(es[0]);
        let k = enc_record(es[0]).len() as int;
        assert(0 < k <= t.len());
        assert(t.skip(k) =~= enc_log(rest));
        assert(forall|i: int| 0 <= i < rest.len() ==> encodable(#[trigger] rest[i]));
        lemma_log_round_trip(rest);
        assert(parse_log(t) == seq![es[0]] + rest);
        assert(seq![es[0]] + rest =~= es);
    }
}

} // verus!
