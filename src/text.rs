use vstd::prelude::*;
use vstd::string::*;

verus! {

/// Value of a decimal digit character.
pub open spec fn digit_value(c: char) -> int {
    c as u32 as int - 48
}

pub open spec fn is_digit(c: char) -> bool {
    48 <= c as u32 <= 57
}

pub open spec fn all_digits(s: Seq<char>) -> bool {
    forall|i: int| 0 <= i < s.len() ==> is_digit(#[trigger] s[i])
}

/// The number that a string of decimal digits writes.
pub open spec fn digits_value(s: Seq<char>) -> int
    decreases s.len(),
{
    if s.len() == 0 {
        0
    } else {
        10 * digits_value(s.drop_last()) + digit_value(s.last())
    }
}

/// A decimal integer: an optional `+` or `-`, then at least one digit, in the range of
/// `i64`.
pub open spec fn parsed_i64(s: Seq<char>) -> Option<i64> {
    let neg = s.len() > 0 && s[0] == '-';
    let body = if s.len() > 0 && (s[0] == '-' || s[0] == '+') {
        s.drop_first()
    } else {
        s
    };
    let v = if neg {
        -digits_value(body)
    } else {
        digits_value(body)
    };
    if body.len() > 0 && all_digits(body) && i64::MIN <= v <= i64::MAX {
        Some(v as i64)
    } else {
        None
    }
}

/// Parses a decimal integer; `None` for anything else or a number out of range.
pub fn parse_i64(s: &str) -> (r: Option<i64>)
    ensures
        r == parsed_i64(s@),
{
    let n = s.unicode_len();
    if n == 0 {
        return None;
    }
    let first = s.get_char(0);
    let neg = first == '-';
    let start: usize = if first == '-' || first == '+' {
        1
    } else {
        0
    };
    let ghost body = s@.skip(start as int);
    proof {
        if start == 1 {
            assert(body =~= s@.drop_first());
        } else {
            assert(body =~= s@);
        }
    }
    if start >= n {
        return None;
    }
    let limit: u64 = 9_223_372_036_854_775_808;
    let mut acc: u64 = 0;
    let mut i: usize = start;
    while i < n
        invariant
            start <= i <= n,
            n == s@.len(),
            body == s@.skip(start as int),
            all_digits(body.take(i - start)),
            acc as int == digits_value(body.take(i - start)),
            acc <= limit,
            limit == 9_223_372_036_854_775_808,
            body == (if s@.len() > 0 && (s@[0] == '-' || s@[0] == '+') {
                s@.drop_first()
            } else {
                s@
            }),
            neg == (s@.len() > 0 && s@[0] == '-'),
        decreases n - i,
    {
        let c = s.get_char(i);
        proof {
            assert(body.take(i - start + 1).drop_last() =~= body.take(i - start));
            assert(body.take(i - start + 1).last() == c);
        }
        let cu = c as u32;
        if cu < 48 || cu > 57 {
            proof {
                assert(body[i - start] == s@[i as int]);
                assert(!is_digit(body[i - start]));
            }
            return None;
        }
        let d: u64 = (cu - 48) as u64;
        assert(d <= 9);
        if acc > (limit - d) / 10 {
            proof {
                let a = acc as int;
                let dd = d as int;
                assert(a * 10 + dd > 9_223_372_036_854_775_808) by (nonlinear_arith)
                    requires
                        a > (9_223_372_036_854_775_808 - dd) / 10,
                        0 <= dd <= 9,
                ;
                if all_digits(body) {
                    assert(body.take(body.len() as int) =~= body);
                    assert(is_digit(body[i - start]));
                    assert(digits_value(body.take(i - start + 1)) == a * 10 + dd);
                    lemma_value_grows(body, i - start + 1, body.len() as int);
                }
            }
            return None;
        }
        acc = acc * 10 + d;
        i = i + 1;
    }
    proof {
        assert(body.take(i - start) =~= body);
    }
    if neg {
        if acc == limit {
            Some(i64::MIN)
        } else {
            Some(-(acc as i64))
        }
    } else {
        if acc == limit {
            None
        } else {
            Some(acc as i64)
        }
    }
}

/// Once a digit prefix is past the limit, longer prefixes stay past it.
proof fn lemma_value_grows(body: Seq<char>, j: int, k: int)
    requires
        0 < j <= k <= body.len(),
        digits_value(body.take(j)) > 9_223_372_036_854_775_808,
        all_digits(body),
    ensures
        digits_value(body.take(k)) > 9_223_372_036_854_775_808,
    decreases k - j,
{
    if k > j {
        lemma_value_grows(body, j, k - 1);
        assert(body.take(k).drop_last() =~= body.take(k - 1));
        assert(body.take(k).last() == body[k - 1]);
        assert(is_digit(body[k - 1]));
    }
}

/// Relies on `i64`'s `to_string` (through `Display`): the decimal text of the number,
/// with a `-` for negative numbers, which `str::parse` reads back.
#[verifier::external_body]
pub(crate) fn i64_to_text(v: i64) -> (r: String)
    ensures
        parsed_i64(r@) == Some(v),
{
    v.to_string()
}

/// A number's text holds no character but a sign and digits.
pub proof fn lemma_parsed_has_no(s: Seq<char>, c: char)
    requires
        parsed_i64(s) is Some,
        c != '-',
        c != '+',
        !is_digit(c),
    ensures
        !s.contains(c),
{
    let body = if s.len() > 0 && (s[0] == '-' || s[0] == '+') {
        s.drop_first()
    } else {
        s
    };
    if s.contains(c) {
        let i = choose|i: int| 0 <= i < s.len() && s[i] == c;
        if s.len() > 0 && (s[0] == '-' || s[0] == '+') {
            assert(i > 0);
            assert(body[i - 1] == c);
        } else {
            assert(body[i] == c);
        }
    }
}

/// Whether `s` begins with `prefix`.
pub fn starts_with(s: &str, prefix: &str) -> (r: bool)
    ensures
        r == (prefix@.len() <= s@.len() && s@.take(prefix@.len() as int) == prefix@),
{
    let n = s.unicode_len();
    let m = prefix.unicode_len();
    if m > n {
        return false;
    }
    let mut i: usize = 0;
    while i < m
        invariant
            m <= n,
            n == s@.len(),
            m == prefix@.len(),
            i <= m,
            forall|j: int| 0 <= j < i ==> s@[j] == prefix@[j],
        decreases m - i,
    {
        if s.get_char(i) != prefix.get_char(i) {
            assert(s@.take(m as int)[i as int] != prefix@[i as int]);
            return false;
        }
        i = i + 1;
    }
    assert(s@.take(m as int) =~= prefix@);
    true
}

/// Number of characters before the first `/` (all of them when there is none).
pub open spec fn segment_len(s: Seq<char>) -> int
    decreases s.len(),
{
    if s.len() == 0 || s[0] == '/' {
        0
    } else {
        1 + segment_len(s.drop_first())
    }
}

pub proof fn lemma_segment_len_bound(s: Seq<char>)
    ensures
        0 <= segment_len(s) <= s.len(),
    decreases s.len(),
{
    if s.len() > 0 && s[0] != '/' {
        lemma_segment_len_bound(s.drop_first());
    }
}

/// End of the path segment that starts at `from`: the position of the next `/`, or the
/// end of the text.
pub fn segment_end(s: &str, from: usize) -> (r: usize)
    requires
        from <= s@.len(),
    ensures
        r == from + segment_len(s@.skip(from as int)),
        r <= s@.len(),
{
    let n = s.unicode_len();
    let mut i: usize = from;
    while i < n && s.get_char(i) != '/'
        invariant
            from <= i <= n,
            n == s@.len(),
            segment_len(s@.skip(from as int)) == (i - from) + segment_len(s@.skip(i as int)),
        decreases n - i,
    {
        assert(s@.skip(i as int).drop_first() =~= s@.skip(i + 1));
        i = i + 1;
    }
    i
}

/// Number of characters before the first `sep` (all of them when there is none).
pub open spec fn before_char(s: Seq<char>, sep: char) -> int
    decreases s.len(),
{
    if s.len() == 0 || s[0] == sep {
        0
    } else {
        1 + before_char(s.drop_first(), sep)
    }
}

pub proof fn lemma_before_char_bound(s: Seq<char>, sep: char)
    ensures
        0 <= before_char(s, sep) <= s.len(),
    decreases s.len(),
{
    if s.len() > 0 && s[0] != sep {
        lemma_before_char_bound(s.drop_first(), sep);
    }
}

/// Position of the first `sep` in `s`, or its length when there is none.
pub fn find_char(s: &str, sep: char) -> (r: usize)
    ensures
        r == before_char(s@, sep),
        r <= s@.len(),
{
    let n = s.unicode_len();
    let mut i: usize = 0;
    assert(s@.skip(0) =~= s@);
    while i < n && s.get_char(i) != sep
        invariant
            i <= n,
            n == s@.len(),
            before_char(s@, sep) == i + before_char(s@.skip(i as int), sep),
        decreases n - i,
    {
        assert(s@.skip(i as int).drop_first() =~= s@.skip(i + 1));
        i = i + 1;
    }
    i
}

/// Position just after the last `sep` in `s`, 0 when there is none.
pub open spec fn after_last(s: Seq<char>, sep: char) -> int
    decreases s.len(),
{
    if s.len() == 0 {
        0
    } else if s.last() == sep {
        s.len() as int
    } else {
        after_last(s.drop_last(), sep)
    }
}

pub proof fn lemma_after_last_bound(s: Seq<char>, sep: char)
    ensures
        0 <= after_last(s, sep) <= s.len(),
    decreases s.len(),
{
    if s.len() > 0 && s.last() != sep {
        lemma_after_last_bound(s.drop_last(), sep);
    }
}

/// The text after the last `sep` (all of `s` when there is none).
pub open spec fn last_segment(s: Seq<char>, sep: char) -> Seq<char> {
    s.skip(after_last(s, sep))
}

/// The text after the last `sep`.
pub fn last_segment_of<'a>(s: &'a str, sep: char) -> (r: &'a str)
    ensures
        r@ == last_segment(s@, sep),
{
    let n = s.unicode_len();
    let mut i: usize = n;
    assert(s@.take(n as int) =~= s@);
    while i > 0
        invariant
            i <= n,
            n == s@.len(),
            after_last(s@.take(i as int), sep) == after_last(s@, sep),
        ensures
            i <= n,
            after_last(s@.take(i as int), sep) == after_last(s@, sep),
            i > 0 ==> s@[i - 1] == sep,
        decreases i,
    {
        let ghost t = s@.take(i as int);
        if s.get_char(i - 1) == sep {
            assert(t.last() == sep);
            break;
        }
        assert(t.drop_last() =~= s@.take(i - 1));
        i = i - 1;
    }
    proof {
        lemma_after_last_bound(s@, sep);
        if i > 0 {
            assert(s@.take(i as int).last() == s@[i - 1]);
        }
    }
    s.substring_char(i, n)
}

/// Byte-wise order of strings, which for UTF-8 is the order of their characters' code
/// points.
pub open spec fn lex_lt(a: Seq<char>, b: Seq<char>) -> bool
    decreases a.len(),
{
    if a.len() == 0 {
        b.len() > 0
    } else if b.len() == 0 {
        false
    } else if a[0] != b[0] {
        (a[0] as u32) < (b[0] as u32)
    } else {
        lex_lt(a.drop_first(), b.drop_first())
    }
}

pub proof fn lemma_lex_total(a: Seq<char>, b: Seq<char>)
    ensures
        a != b ==> lex_lt(a, b) || lex_lt(b, a),
        !(lex_lt(a, b) && lex_lt(b, a)),
        !lex_lt(a, a),
    decreases a.len(),
{
    if a.len() > 0 && b.len() > 0 {
        vstd::utf8::char_u32_cast(a[0], a[0] as u32);
        vstd::utf8::char_u32_cast(b[0], b[0] as u32);
        lemma_lex_total(a.drop_first(), b.drop_first());
        lemma_lex_total(a.drop_first(), a.drop_first());
        if a[0] == b[0] && a != b {
            assert(a.drop_first() != b.drop_first()) by {
                if a.drop_first() == b.drop_first() {
                    assert(a =~= seq![a[0]] + a.drop_first());
                    assert(b =~= seq![b[0]] + b.drop_first());
                }
            }
        }
    } else if a.len() > 0 {
        lemma_lex_total(a.drop_first(), a.drop_first());
    } else if b.len() == 0 {
        assert(a =~= b);
    }
}

pub proof fn lemma_lex_trans(a: Seq<char>, b: Seq<char>, c: Seq<char>)
    requires
        lex_lt(a, b),
        lex_lt(b, c),
    ensures
        lex_lt(a, c),
    decreases a.len(),
{
    if a.len() > 0 && b.len() > 0 && c.len() > 0 && a[0] == b[0] && b[0] == c[0] {
        lemma_lex_trans(a.drop_first(), b.drop_first(), c.drop_first());
    }
}

/// Whether `a` sorts before `b`.
pub fn str_lt(a: &str, b: &str) -> (r: bool)
    ensures
        r == lex_lt(a@, b@),
{
    let n = a.unicode_len();
    let m = b.unicode_len();
    let mut i: usize = 0;
    assert(a@.skip(0) =~= a@);
    assert(b@.skip(0) =~= b@);
    while i < n && i < m
        invariant
            n == a@.len(),
            m == b@.len(),
            i <= n,
            i <= m,
            forall|j: int| 0 <= j < i ==> a@[j] == b@[j],
            lex_lt(a@, b@) == lex_lt(a@.skip(i as int), b@.skip(i as int)),
        decreases n - i,
    {
        let x = a.get_char(i);
        let y = b.get_char(i);
        assert(a@.skip(i as int)[0] == x);
        assert(b@.skip(i as int)[0] == y);
        if x != y {
            return (x as u32) < (y as u32);
        }
        assert(a@.skip(i as int).drop_first() =~= a@.skip(i + 1));
        assert(b@.skip(i as int).drop_first() =~= b@.skip(i + 1));
        i = i + 1;
    }
    i == n && i < m
}

} // verus!
