//! Decimal rendering and parsing of integers, and lexicographic order
//! on character sequences, with their mathematical specifications.

use vstd::prelude::*;

verus! {

/// Whether `c` is a decimal digit.
pub open spec fn is_digit(c: char) -> bool {
    '0' <= c && c <= '9'
}

/// The numeric value of the digit `c`.
pub open spec fn digit_val(c: char) -> int {
    c as int - '0' as int
}

/// Whether every character of `s` is a decimal digit.
pub open spec fn all_digits(s: Seq<char>) -> bool {
    forall|i: int| 0 <= i < s.len() ==> is_digit(#[trigger] s[i])
}

/// The digit character for a value below ten.
pub open spec fn digit_char(d: int) -> char {
    if d == 0 { '0' }
    else if d == 1 { '1' }
    else if d == 2 { '2' }
    else if d == 3 { '3' }
    else if d == 4 { '4' }
    else if d == 5 { '5' }
    else if d == 6 { '6' }
    else if d == 7 { '7' }
    else if d == 8 { '8' }
    else { '9' }
}

/// The decimal rendering of `n`, most significant digit first.
pub open spec fn dec_str(n: nat) -> Seq<char>
    decreases n,
{
    if n < 10 {
        seq![digit_char(n as int)]
    } else {
        dec_str(n / 10).push(digit_char((n % 10) as int))
    }
}

/// The value of a digit sequence read as a decimal number.
pub open spec fn dec_val(s: Seq<char>) -> int
    decreases s.len(),
{
    if s.len() == 0 {
        0
    } else {
        dec_val(s.drop_last()) * 10 + digit_val(s.last())
    }
}

/// The value of a digit sequence is never negative.
pub proof fn lemma_dec_val_nonneg(s: Seq<char>)
    requires
        all_digits(s),
    ensures
        dec_val(s) >= 0,
    decreases s.len(),
{
    if s.len() > 0 {
        assert(all_digits(s.drop_last())) by {
            assert(forall|i: int| 0 <= i < s.len() - 1 ==> s.drop_last()[i] == s[i]);
        }
        lemma_dec_val_nonneg(s.drop_last());
    }
}

/// Extending a digit sequence to the right can only grow its value.
pub proof fn lemma_dec_val_append(p: Seq<char>, rest: Seq<char>)
    requires
        all_digits(p),
        all_digits(rest),
    ensures
        dec_val(p + rest) >= dec_val(p),
        all_digits(p + rest),
    decreases rest.len(),
{
    lemma_dec_val_nonneg(p);
    if rest.len() == 0 {
        assert(p + rest =~= p);
    } else {
        let shorter = rest.drop_last();
        assert(all_digits(shorter)) by {
            assert(forall|i: int| 0 <= i < shorter.len() ==> shorter[i] == rest[i]);
        }
        lemma_dec_val_append(p, shorter);
        assert((p + rest).drop_last() =~= p + shorter);
        assert((p + rest).last() == rest.last());
        assert(dec_val(p + rest) == dec_val(p + shorter) * 10 + digit_val(rest.last()));
        assert forall|i: int| 0 <= i < (p + rest).len() implies is_digit(#[trigger] (p + rest)[i]) by {
            if i < p.len() {
                assert((p + rest)[i] == p[i]);
            } else {
                assert((p + rest)[i] == rest[i - p.len()]);
            }
        }
    }
}

/// The rendering of any number consists of digits and is non-empty.
pub proof fn lemma_dec_str_digits(n: nat)
    ensures
        dec_str(n).len() >= 1,
        all_digits(dec_str(n)),
    decreases n,
{
    if n >= 10 {
        lemma_dec_str_digits(n / 10);
        assert(forall|i: int| 0 <= i < dec_str(n).len() - 1 ==> dec_str(n)[i] == dec_str(n / 10)[i]);
        assert(is_digit(dec_str(n).last()));
        assert(forall|i: int| 0 <= i < dec_str(n).len() ==> is_digit(#[trigger] dec_str(n)[i]));
    }
}

/// A digit character reads back as its value.
pub proof fn lemma_digit_roundtrip(d: int)
    requires
        0 <= d < 10,
    ensures
        digit_val(digit_char(d)) == d,
        is_digit(digit_char(d)),
{
}

/// Reading a rendered number back yields the number.
pub proof fn lemma_dec_str_val(n: nat)
    ensures
        dec_val(dec_str(n)) == n,
    decreases n,
{
    if n < 10 {
        lemma_digit_roundtrip(n as int);
        let s = dec_str(n);
        assert(s.len() == 1);
        assert(s.last() == digit_char(n as int));
        assert(s.drop_last() =~= Seq::<char>::empty());
        assert(dec_val(s.drop_last()) == 0);
        assert(dec_val(s) == digit_val(digit_char(n as int)));
    } else {
        lemma_dec_str_val(n / 10);
        lemma_digit_roundtrip((n % 10) as int);
        let s = dec_str(n);
        assert(s.last() == digit_char((n % 10) as int));
        assert(s.drop_last() =~= dec_str(n / 10));
        assert(dec_val(s) == (n / 10) * 10 + (n % 10));
        assert(n == (n / 10) * 10 + (n % 10)) by (nonlinear_arith);
    }
}

/// The digit character for `d`, as a one-character string slice.
fn digit_str(d: u64) -> (r: &'static str)
    requires
        d < 10,
    ensures
        r@ =~= seq![digit_char(d as int)],
{
    proof {
        reveal_strlit("0");
        reveal_strlit("1");
        reveal_strlit("2");
        reveal_strlit("3");
        reveal_strlit("4");
        reveal_strlit("5");
        reveal_strlit("6");
        reveal_strlit("7");
        reveal_strlit("8");
        reveal_strlit("9");
    }
    if d == 0 { "0" }
    else if d == 1 { "1" }
    else if d == 2 { "2" }
    else if d == 3 { "3" }
    else if d == 4 { "4" }
    else if d == 5 { "5" }
    else if d == 6 { "6" }
    else if d == 7 { "7" }
    else if d == 8 { "8" }
    else { "9" }
}

/// Appends the decimal rendering of `n` to `out`.
pub fn push_u64_str(out: &mut String, n: u64)
    ensures
        final(out)@ == old(out)@ + dec_str(n as nat),
    decreases n,
{
    if n >= 10 {
        push_u64_str(out, n / 10);
        out.append(digit_str(n % 10));
        assert(out@ =~= old(out)@ + dec_str(n as nat));
    } else {
        out.append(digit_str(n));
        assert(out@ =~= old(out)@ + dec_str(n as nat));
    }
}

/// The decimal rendering of `n` as a fresh string.
pub fn u64_to_string(n: u64) -> (r: String)
    ensures
        r@ == dec_str(n as nat),
{
    let mut s = String::new();
    push_u64_str(&mut s, n);
    assert(s@ =~= dec_str(n as nat));
    s
}

/// Appends the decimal rendering of `n` to a character buffer.
pub fn push_u64_chars(out: &mut Vec<char>, n: u64)
    ensures
        final(out)@ == old(out)@ + dec_str(n as nat),
    decreases n,
{
    if n >= 10 {
        push_u64_chars(out, n / 10);
        let d = n % 10;
        let c: char = digit_str(d).get_char(0);
        out.push(c);
        assert(out@ =~= old(out)@ + dec_str(n as nat));
    } else {
        let c: char = digit_str(n).get_char(0);
        out.push(c);
        assert(out@ =~= old(out)@ + dec_str(n as nat));
    }
}

/// Appends the decimal rendering of a wide counter to `out`.
pub fn push_u128_str(out: &mut String, n: u128)
    ensures
        final(out)@ == old(out)@ + dec_str(n as nat),
    decreases n,
{
    if n >= 10 {
        push_u128_str(out, n / 10);
        out.append(digit_str((n % 10) as u64));
        assert(out@ =~= old(out)@ + dec_str(n as nat));
    } else {
        out.append(digit_str(n as u64));
        assert(out@ =~= old(out)@ + dec_str(n as nat));
    }
}

/// Reads the decimal number in `cs[start..end]`; yields it when the
/// range is a non-empty run of digits whose value fits in a `u64`.
pub fn parse_u64_range(cs: &Vec<char>, start: usize, end: usize) -> (r: Option<u64>)
    requires
        start <= end <= cs@.len(),
    ensures
        ({
            let sub = cs@.subrange(start as int, end as int);
            match r {
                Some(v) => sub.len() > 0 && all_digits(sub) && dec_val(sub) == v as int,
                None => sub.len() == 0 || !all_digits(sub) || dec_val(sub) > u64::MAX,
            }
        }),
{
    let ghost sub = cs@.subrange(start as int, end as int);
    if start == end {
        return None;
    }
    let mut val: u64 = 0;
    let mut i: usize = start;
    while i < end
        invariant
            start <= i <= end <= cs@.len(),
            sub == cs@.subrange(start as int, end as int),
            all_digits(cs@.subrange(start as int, i as int)),
            val as int == dec_val(cs@.subrange(start as int, i as int)),
        decreases end - i,
    {
        let ghost pre = cs@.subrange(start as int, i as int);
        let c = cs[i];
        if c < '0' || c > '9' {
            assert(sub[i - start] == cs@[i as int]);
            assert(!all_digits(sub));
            return None;
        }
        let d: u64 = (c as u64) - 48;
        assert(d == digit_val(c));
        let ghost cur = cs@.subrange(start as int, i as int + 1);
        proof {
            assert(cur.drop_last() =~= pre);
            assert(cur.last() == c);
            assert forall|k: int| 0 <= k < cur.len() implies is_digit(#[trigger] cur[k]) by {
                if k < cur.len() - 1 {
                    assert(cur[k] == pre[k]);
                }
            }
        }
        let overflowed: bool;
        match val.checked_mul(10) {
            Some(x) => {
                match x.checked_add(d) {
                    Some(y) => {
                        val = y;
                        overflowed = false;
                    },
                    None => {
                        overflowed = true;
                    },
                }
            },
            None => {
                overflowed = true;
            },
        }
        if overflowed {
            // The value up to here already overflows a u64; the whole
            // range can then only be larger.
            assert(dec_val(cur) > u64::MAX);
            proof {
                if all_digits(sub) {
                    let rest = sub.subrange(i - start + 1, sub.len() as int);
                    assert forall|k: int| 0 <= k < rest.len() implies is_digit(#[trigger] rest[k]) by {
                        assert(rest[k] == sub[k + (i - start + 1)]);
                    }
                    lemma_dec_val_append(cur, rest);
                    assert(cur + rest =~= sub);
                }
            }
            return None;
        }
        i = i + 1;
        assert(cs@.subrange(start as int, i as int) =~= cur);
    }
    assert(cs@.subrange(start as int, i as int) =~= sub);
    Some(val)
}

/// Relies on `String::push`: appends the given character to the end of
/// the string.
#[verifier::external_body]
pub fn push_char(s: &mut String, c: char)
    ensures
        final(s)@ == old(s)@.push(c),
{
    s.push(c);
}

/// Collects a character buffer into a string.
pub fn chars_to_string(v: &Vec<char>) -> (r: String)
    ensures
        r@ == v@,
{
    let mut s = String::new();
    let mut i: usize = 0;
    while i < v.len()
        invariant
            i <= v@.len(),
            s@ == v@.take(i as int),
        decreases v@.len() - i,
    {
        push_char(&mut s, v[i]);
        assert(s@ =~= v@.take(i as int + 1));
        i = i + 1;
    }
    assert(s@ =~= v@);
    s
}

/// Collects the characters of a string slice into a buffer.
pub fn str_to_chars(s: &str) -> (r: Vec<char>)
    ensures
        r@ == s@,
{
    let mut v: Vec<char> = Vec::new();
    let len = s.unicode_len();
    let mut i: usize = 0;
    while i < len
        invariant
            i <= len,
            len == s@.len(),
            v@ == s@.take(i as int),
        decreases len - i,
    {
        v.push(s.get_char(i));
        assert(v@ =~= s@.take(i as int + 1));
        i = i + 1;
    }
    assert(v@ =~= s@);
    v
}

/// Lexicographic order on character sequences by code point, with a
/// proper prefix ordered first.
pub open spec fn lex_le(a: Seq<char>, b: Seq<char>) -> bool
    decreases a.len(),
{
    if a.len() == 0 {
        true
    } else if b.len() == 0 {
        false
    } else if a[0] != b[0] {
        a[0] < b[0]
    } else {
        lex_le(a.drop_first(), b.drop_first())
    }
}

/// Strict lexicographic order.
pub open spec fn lex_lt(a: Seq<char>, b: Seq<char>) -> bool {
    lex_le(a, b) && a != b
}

/// `lex_le` is total.
pub proof fn lemma_lex_total(a: Seq<char>, b: Seq<char>)
    ensures
        lex_le(a, b) || lex_le(b, a),
    decreases a.len(),
{
    if a.len() > 0 && b.len() > 0 && a[0] == b[0] {
        lemma_lex_total(a.drop_first(), b.drop_first());
    }
}

/// `lex_le` is antisymmetric.
pub proof fn lemma_lex_antisym(a: Seq<char>, b: Seq<char>)
    requires
        lex_le(a, b),
        lex_le(b, a),
    ensures
        a == b,
    decreases a.len(),
{
    if a.len() > 0 && b.len() > 0 && a[0] == b[0] {
        lemma_lex_antisym(a.drop_first(), b.drop_first());
        assert(a =~= seq![a[0]] + a.drop_first());
        assert(b =~= seq![b[0]] + b.drop_first());
    } else if a.len() == 0 {
        assert(b.len() == 0);
        assert(a =~= b);
    }
}

/// Decides `lex_le` on string slices.
pub fn str_le(a: &str, b: &str) -> (r: bool)
    ensures
        r == lex_le(a@, b@),
{
    let a_len = a.unicode_len();
    let b_len = b.unicode_len();
    let mut i: usize = 0;
    proof {
        assert(a@.skip(0) =~= a@);
        assert(b@.skip(0) =~= b@);
    }
    loop
        invariant
            i <= a_len,
            i <= b_len,
            a_len == a@.len(),
            b_len == b@.len(),
            lex_le(a@, b@) == lex_le(a@.skip(i as int), b@.skip(i as int)),
        decreases a_len - i,
    {
        if i == a_len {
            assert(a@.skip(i as int).len() == 0);
            return true;
        }
        if i == b_len {
            assert(b@.skip(i as int).len() == 0);
            assert(a@.skip(i as int).len() > 0);
            return false;
        }
        let ca = a.get_char(i);
        let cb = b.get_char(i);
        assert(a@.skip(i as int)[0] == ca);
        assert(b@.skip(i as int)[0] == cb);
        if ca != cb {
            return ca < cb;
        }
        proof {
            assert(a@.skip(i as int).drop_first() =~= a@.skip(i as int + 1));
            assert(b@.skip(i as int).drop_first() =~= b@.skip(i as int + 1));
        }
        i = i + 1;
    }
}

/// Decides `lex_lt` on string slices.
pub fn str_lt(a: &str, b: &str) -> (r: bool)
    ensures
        r == lex_lt(a@, b@),
{
    let le = str_le(a, b);
    let ge = str_le(b, a);
    proof {
        lemma_lex_total(a@, b@);
        if le && ge {
            lemma_lex_antisym(a@, b@);
        }
    }
    le && !ge
}

} // verus!
