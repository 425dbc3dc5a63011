use vstd::prelude::*;

verus! {

pub open spec fn is_digit(c: char) -> bool {
    '0' <= c && c <= '9'
}

pub open spec fn digit_value(c: char) -> int {
    c as int - '0' as int
}

pub open spec fn all_digits(s: Seq<char>) -> bool {
    forall|i: int| 0 <= i < s.len() ==> is_digit(#[trigger] s[i])
}

/// The value of a string of decimal digits.
pub open spec fn digits_value(s: Seq<char>) -> int
    decreases s.len(),
{
    if s.len() == 0 {
        0
    } else {
        digits_value(s.drop_last()) * 10 + digit_value(s.last())
    }
}

/// Splits an optional leading sign off `s`: whether it is negative, and
/// the rest.
pub open spec fn split_sign(s: Seq<char>) -> (bool, Seq<char>) {
    if s.len() > 0 && s[0] == '-' {
        (true, s.drop_first())
    } else if s.len() > 0 && s[0] == '+' {
        (false, s.drop_first())
    } else {
        (false, s)
    }
}

/// What `str::parse::<isize>` accepts: an optional `+` or `-`, then one or
/// more decimal digits, with a value in the range of `isize`.
pub open spec fn parse_isize(s: Seq<char>) -> Option<int> {
    let (neg, ds) = split_sign(s);
    if ds.len() == 0 || !all_digits(ds) {
        None
    } else {
        let v = if neg {
            -digits_value(ds)
        } else {
            digits_value(ds)
        };
        if isize::MIN <= v && v <= isize::MAX {
            Some(v)
        } else {
            None
        }
    }
}

/// What `str::parse::<usize>` accepts: an optional `+`, then one or more
/// decimal digits, with a value in the range of `usize`.
pub open spec fn parse_usize(s: Seq<char>) -> Option<int> {
    let ds = if s.len() > 0 && s[0] == '+' {
        s.drop_first()
    } else {
        s
    };
    if ds.len() == 0 || !all_digits(ds) || digits_value(ds) > usize::MAX {
        None
    } else {
        Some(digits_value(ds))
    }
}

pub proof fn lemma_digits_value_nonneg(s: Seq<char>)
    requires
        all_digits(s),
    ensures
        digits_value(s) >= 0,
    decreases s.len(),
{
    if s.len() > 0 {
        assert(is_digit(s[s.len() - 1]));
        assert(all_digits(s.drop_last())) by {
            assert forall|i: int| 0 <= i < s.drop_last().len() implies is_digit(
                #[trigger] s.drop_last()[i],
            ) by {
                assert(s.drop_last()[i] == s[i]);
            }
        }
        lemma_digits_value_nonneg(s.drop_last());
    }
}

/// A longer run of digits never has a smaller value.
pub proof fn lemma_digits_value_prefix(s: Seq<char>, j: int)
    requires
        all_digits(s),
        0 <= j <= s.len(),
    ensures
        digits_value(s.take(j)) <= digits_value(s),
    decreases s.len() - j,
{
    if j < s.len() {
        let t = s.take(j + 1);
        assert(t.drop_last() =~= s.take(j));
        assert(all_digits(t)) by {
            assert forall|i: int| 0 <= i < t.len() implies is_digit(#[trigger] t[i]) by {
                assert(t[i] == s[i]);
            }
        }
        assert(all_digits(s.take(j))) by {
            assert forall|i: int| 0 <= i < j implies is_digit(#[trigger] s.take(j)[i]) by {
                assert(s.take(j)[i] == s[i]);
            }
        }
        lemma_digits_value_nonneg(s.take(j));
        assert(is_digit(s[j]));
        lemma_digits_value_prefix(s, j + 1);
        assert(s.take(s.len() as int) =~= s);
    } else {
        assert(s.take(j) =~= s);
    }
}

proof fn lemma_digits_value_step(s: Seq<char>, i: int)
    requires
        0 <= i < s.len(),
    ensures
        digits_value(s.take(i + 1)) == digits_value(s.take(i)) * 10 + digit_value(s[i]),
{
    assert(s.take(i + 1).drop_last() =~= s.take(i));
}

/// `str::parse::<isize>`.
pub fn parse_isize_str(s: &str) -> (r: Option<isize>)
    ensures
        match r {
            Some(v) => parse_isize(s@) == Some(v as int),
            None => parse_isize(s@) is None,
        },
{
    let n = s.unicode_len();
    let mut start: usize = 0;
    let mut neg = false;
    if n > 0 && s.get_char(0) == '-' {
        neg = true;
        start = 1;
    } else if n > 0 && s.get_char(0) == '+' {
        start = 1;
    }
    let ghost ds = split_sign(s@).1;
    assert(ds =~= s@.skip(start as int));
    if start == n {
        return None;
    }
    let mut acc: isize = 0;
    let mut i: usize = start;
    while i < n
        invariant
            start <= i <= n,
            n == s@.len(),
            ds == s@.skip(start as int),
            ds == split_sign(s@).1,
            neg == split_sign(s@).0,
            all_digits(ds.take(i - start)),
            acc == (if neg {
                -digits_value(ds.take(i - start))
            } else {
                digits_value(ds.take(i - start))
            }),
        decreases n - i,
    {
        let c = s.get_char(i);
        if !('0' <= c && c <= '9') {
            assert(ds[i - start] == c);
            assert(!is_digit(ds[i - start]));
            return None;
        }
        let d = (c as u32 - '0' as u32) as isize;
        proof {
            assert(ds[i - start] == c);
            assert(digit_value(ds[i - start]) == d as int);
            lemma_digits_value_nonneg(ds.take(i - start));
            lemma_digits_value_step(ds, i - start);
            assert(all_digits(ds.take(i - start + 1))) by {
                assert forall|j: int| 0 <= j < i - start + 1 implies is_digit(
                    #[trigger] ds.take(i - start + 1)[j],
                ) by {
                    if j < i - start {
                        assert(ds.take(i - start + 1)[j] == ds.take(i - start)[j]);
                    }
                }
            }
        }
        let m = match acc.checked_mul(10) {
            Some(m) => m,
            None => {
                proof {
                    lemma_overflow_none(s@, ds, neg, i - start + 1);
                }
                return None;
            },
        };
        let next = if neg {
            m.checked_sub(d)
        } else {
            m.checked_add(d)
        };
        match next {
            Some(v) => {
                acc = v;
            },
            None => {
                proof {
                    lemma_overflow_none(s@, ds, neg, i - start + 1);
                }
                return None;
            },
        }
        i = i + 1;
    }
    assert(ds.take(n - start) =~= ds);
    Some(acc)
}

proof fn lemma_overflow_none(s: Seq<char>, ds: Seq<char>, neg: bool, j: int)
    requires
        ds == split_sign(s).1,
        neg == split_sign(s).0,
        0 < j <= ds.len(),
        all_digits(ds.take(j)),
        neg ==> -digits_value(ds.take(j)) < isize::MIN,
        !neg ==> digits_value(ds.take(j)) > isize::MAX,
    ensures
        parse_isize(s) is None,
{
    if all_digits(ds) {
        lemma_digits_value_prefix(ds, j);
    }
}

/// `str::parse::<usize>`.
pub fn parse_usize_str(s: &str) -> (r: Option<usize>)
    ensures
        match r {
            Some(v) => parse_usize(s@) == Some(v as int),
            None => parse_usize(s@) is None,
        },
{
    let n = s.unicode_len();
    let mut start: usize = 0;
    if n > 0 && s.get_char(0) == '+' {
        start = 1;
    }
    let ghost ds = if s@.len() > 0 && s@[0] == '+' {
        s@.drop_first()
    } else {
        s@
    };
    assert(ds =~= s@.skip(start as int));
    if start == n {
        return None;
    }
    let mut acc: usize = 0;
    let mut i: usize = start;
    while i < n
        invariant
            start <= i <= n,
            n == s@.len(),
            ds == s@.skip(start as int),
            ds == (if s@.len() > 0 && s@[0] == '+' {
                s@.drop_first()
            } else {
                s@
            }),
            all_digits(ds.take(i - start)),
            acc == digits_value(ds.take(i - start)),
        decreases n - i,
    {
        let c = s.get_char(i);
        if !('0' <= c && c <= '9') {
            assert(ds[i - start] == c);
            assert(!is_digit(ds[i - start]));
            return None;
        }
        let d = (c as u32 - '0' as u32) as usize;
        proof {
            assert(ds[i - start] == c);
            assert(digit_value(ds[i - start]) == d as int);
            lemma_digits_value_step(ds, i - start);
            assert(all_digits(ds.take(i - start + 1))) by {
                assert forall|j: int| 0 <= j < i - start + 1 implies is_digit(
                    #[trigger] ds.take(i - start + 1)[j],
                ) by {
                    if j < i - start {
                        assert(ds.take(i - start + 1)[j] == ds.take(i - start)[j]);
                    }
                }
            }
        }
        let m = match acc.checked_mul(10) {
            Some(m) => m,
            None => {
                proof {
                    assert(digits_value(ds.take(i - start + 1)) > usize::MAX);
                    if all_digits(ds) {
                        lemma_digits_value_prefix(ds, i - start + 1);
                    }
                }
                return None;
            },
        };
        match m.checked_add(d) {
            Some(v) => {
                acc = v;
            },
            None => {
                proof {
                    assert(digits_value(ds.take(i - start + 1)) > usize::MAX);
                    if all_digits(ds) {
                        lemma_digits_value_prefix(ds, i - start + 1);
                    }
                }
                return None;
            },
        }
        i = i + 1;
    }
    assert(ds.take(n - start) =~= ds);
    Some(acc)
}

/// ASCII lower case of `c`; other characters stay as they are.
pub open spec fn lower(c: char) -> char {
    if 'A' <= c && c <= 'Z' {
        ((c as u32) + 32) as char
    } else {
        c
    }
}

/// `t` equals the lower-case word `w` when ASCII case is ignored.
pub open spec fn eq_ignore_case(t: Seq<char>, w: Seq<char>) -> bool {
    t.len() == w.len() && forall|i: int| 0 <= i < t.len() ==> lower(#[trigger] t[i]) == w[i]
}

/// The number of decimal digits in `s` from index `i` on, up to the first
/// character that is not one.
pub open spec fn digit_run(s: Seq<char>, i: int) -> nat
    decreases s.len() - i,
{
    if 0 <= i < s.len() && is_digit(s[i]) {
        1 + digit_run(s, i + 1)
    } else {
        0
    }
}

/// An exponent's digits, from index `k` to the end: an optional sign and
/// one or more digits.
pub open spec fn float_exponent(t: Seq<char>, k: int) -> bool {
    let k2 = if k < t.len() && (t[k] == '+' || t[k] == '-') {
        k + 1
    } else {
        k
    };
    let d = digit_run(t, k2);
    d > 0 && k2 + d == t.len()
}

/// A decimal number: digits with at most one point and at least one digit,
/// then optionally `e` and an exponent.
pub open spec fn float_number(t: Seq<char>) -> bool {
    let a = digit_run(t, 0);
    let (mantissa, j) = if a < t.len() && t[a as int] == '.' {
        let b = digit_run(t, a + 1int);
        (a + b > 0, (a + 1 + b) as int)
    } else {
        (a > 0, a as int)
    };
    mantissa && (j == t.len() || (lower(t[j]) == 'e' && float_exponent(t, j + 1)))
}

/// What `str::parse::<f64>` accepts: an optional sign, then `inf`,
/// `infinity`, `nan` or a decimal number, ignoring ASCII case.
pub open spec fn parse_f64_accepts(s: Seq<char>) -> bool {
    let t = if s.len() > 0 && (s[0] == '+' || s[0] == '-') {
        s.drop_first()
    } else {
        s
    };
    ||| eq_ignore_case(t, seq!['i', 'n', 'f'])
    ||| eq_ignore_case(t, seq!['i', 'n', 'f', 'i', 'n', 'i', 't', 'y'])
    ||| eq_ignore_case(t, seq!['n', 'a', 'n'])
    ||| float_number(t)
}

fn lower_is(c: char, w: char) -> (r: bool)
    ensures
        r == (lower(c) == w),
{
    if 'A' <= c && c <= 'Z' {
        let u = c as u32 + 32;
        proof {
            assert(0x61 <= u <= 0x7a);
            assert((u as char) as u32 == u);
        }
        u == w as u32
    } else {
        c == w
    }
}

/// Whether `s` from index `start` on equals the lower-case word `w`,
/// ignoring ASCII case.
pub fn eq_ignore_case_from(s: &str, start: usize, w: &str) -> (r: bool)
    requires
        start <= s@.len(),
    ensures
        r == eq_ignore_case(s@.skip(start as int), w@),
{
    let n = s.unicode_len();
    let m = w.unicode_len();
    if n - start != m {
        return false;
    }
    let mut i: usize = 0;
    while i < m
        invariant
            n == s@.len(),
            m == w@.len(),
            start <= n,
            n - start == m,
            i <= m,
            forall|j: int| 0 <= j < i ==> lower(#[trigger] s@.skip(start as int)[j]) == w@[j],
        decreases m - i,
    {
        if !lower_is(s.get_char(start + i), w.get_char(i)) {
            assert(s@.skip(start as int)[i as int] == s@[start + i]);
            return false;
        }
        assert(s@.skip(start as int)[i as int] == s@[start + i]);
        i = i + 1;
    }
    true
}

/// `s` reads as a boolean: `true` or `false`, whatever the case of its
/// ASCII letters.
pub open spec fn bool_literal(s: Seq<char>) -> bool {
    eq_ignore_case(s, seq!['t', 'r', 'u', 'e']) || eq_ignore_case(s, seq!['f', 'a', 'l', 's', 'e'])
}

pub fn is_bool_literal(s: &str) -> (r: bool)
    ensures
        r == bool_literal(s@),
{
    proof {
        reveal_strlit("true");
        reveal_strlit("false");
        assert(s@.skip(0) =~= s@);
    }
    eq_ignore_case_from(s, 0, "true") || eq_ignore_case_from(s, 0, "false")
}

fn digit_run_from(s: &str, i: usize) -> (r: usize)
    requires
        i <= s@.len(),
    ensures
        r == digit_run(s@, i as int),
        i + r <= s@.len(),
{
    let n = s.unicode_len();
    let mut j: usize = i;
    while j < n
        invariant
            n == s@.len(),
            i <= j <= n,
            forall|k: int| i <= k < j ==> is_digit(#[trigger] s@[k]),
        ensures
            i <= j <= n,
            forall|k: int| i <= k < j ==> is_digit(#[trigger] s@[k]),
            j < n ==> !is_digit(s@[j as int]),
        decreases n - j,
    {
        let c = s.get_char(j);
        if !('0' <= c && c <= '9') {
            break;
        }
        j = j + 1;
    }
    proof {
        lemma_digit_run(s@, i as int, j as int);
    }
    j - i
}

proof fn lemma_digit_run(s: Seq<char>, i: int, j: int)
    requires
        0 <= i <= j <= s.len(),
        forall|k: int| i <= k < j ==> is_digit(#[trigger] s[k]),
        j < s.len() ==> !is_digit(s[j]),
    ensures
        digit_run(s, i) == j - i,
    decreases j - i,
{
    if i < j {
        lemma_digit_run(s, i + 1, j);
    }
}

fn float_number_from(s: &str, start: usize) -> (r: bool)
    requires
        start <= s@.len(),
    ensures
        r == float_number(s@.skip(start as int)),
{
    let ghost t = s@.skip(start as int);
    let n = s.unicode_len();
    let a = digit_run_from(s, start);
    proof {
        lemma_digit_run_shift(s@, start as int, 0);
    }
    let mut j = start + a;
    let mantissa;
    if j < n && s.get_char(j) == '.' {
        assert(t[a as int] == s@[j as int]);
        let b = digit_run_from(s, j + 1);
        proof {
            lemma_digit_run_shift(s@, start as int, a + 1);
        }
        mantissa = a + b > 0;
        j = j + 1 + b;
    } else {
        proof {
            if a < t.len() {
                assert(t[a as int] == s@[j as int]);
            }
        }
        mantissa = a > 0;
    }
    if !mantissa {
        return false;
    }
    if j == n {
        return true;
    }
    assert(t[j - start] == s@[j as int]);
    if !lower_is(s.get_char(j), 'e') {
        return false;
    }
    let mut k = j + 1;
    if k < n && (s.get_char(k) == '+' || s.get_char(k) == '-') {
        assert(t[k - start] == s@[k as int]);
        k = k + 1;
    } else {
        proof {
            if k < n {
                assert(t[k - start] == s@[k as int]);
            }
        }
    }
    let d = digit_run_from(s, k);
    proof {
        lemma_digit_run_shift(s@, start as int, k - start);
    }
    d > 0 && k + d == n
}

/// Whether `str::parse::<f64>` accepts `s`.
pub fn is_f64_literal(s: &str) -> (r: bool)
    ensures
        r == parse_f64_accepts(s@),
{
    let n = s.unicode_len();
    let start: usize = if n > 0 && (s.get_char(0) == '+' || s.get_char(0) == '-') {
        1
    } else {
        0
    };
    let ghost t = if s@.len() > 0 && (s@[0] == '+' || s@[0] == '-') {
        s@.drop_first()
    } else {
        s@
    };
    assert(t =~= s@.skip(start as int));
    proof {
        reveal_strlit("inf");
        reveal_strlit("infinity");
        reveal_strlit("nan");
    }
    if eq_ignore_case_from(s, start, "inf") || eq_ignore_case_from(s, start, "infinity")
        || eq_ignore_case_from(s, start, "nan") {
        return true;
    }
    float_number_from(s, start)
}

proof fn lemma_digit_run_shift(s: Seq<char>, start: int, i: int)
    requires
        0 <= start <= s.len(),
        0 <= i,
        start + i <= s.len(),
    ensures
        digit_run(s.skip(start), i) == digit_run(s, start + i),
    decreases s.len() - start - i,
{
    if start + i < s.len() {
        assert(s.skip(start)[i] == s[start + i]);
        lemma_digit_run_shift(s, start, i + 1);
    }
}

/// `str::parse::<isize>` on `string`; on failure, the message that
/// `msg_handler` makes.
pub fn string_to_num<F: Fn() -> String>(string: &str, msg_handler: F) -> (res: Result<isize, String>)
    requires
        call_requires(msg_handler, ()),
    ensures
        match res {
            Ok(n) => parse_isize(string@) == Some(n as int),
            Err(m) => parse_isize(string@) is None && call_ensures(msg_handler, (), m),
        },
{
    match parse_isize_str(string) {
        Some(n) => Ok(n),
        _ => Err(msg_handler()),
    }
}

/// `str::parse::<usize>` on `string`; on failure, the message that
/// `msg_handler` makes.
pub fn string_to_usize<F: Fn() -> String>(string: &str, msg_handler: F) -> (res: Result<
    usize,
    String,
>)
    requires
        call_requires(msg_handler, ()),
    ensures
        match res {
            Ok(n) => parse_usize(string@) == Some(n as int),
            Err(m) => parse_usize(string@) is None && call_ensures(msg_handler, (), m),
        },
{
    match parse_usize_str(string) {
        Some(n) => Ok(n),
        _ => Err(msg_handler()),
    }
}

/// Checks that `str::parse::<f64>` accepts `string` and keeps its text; on
/// failure, the message that `msg_handler` makes.
pub fn string_to_float<F: Fn() -> String>(string: &str, msg_handler: F) -> (res: Result<
    String,
    String,
>)
    requires
        call_requires(msg_handler, ()),
    ensures
        match res {
            Ok(t) => parse_f64_accepts(string@) && t@ == string@,
            Err(m) => !parse_f64_accepts(string@) && call_ensures(msg_handler, (), m),
        },
{
    if is_f64_literal(string) {
        Ok(String::from_str(string))
    } else {
        Err(msg_handler())
    }
}

/// Digits with an optional sign that `isize` accepts make a number that
/// `f64` accepts too.
pub proof fn lemma_isize_is_float(s: Seq<char>)
    requires
        parse_isize(s) is Some,
    ensures
        parse_f64_accepts(s),
{
    let t = split_sign(s).1;
    lemma_digit_run_all(t, 0);
    assert(digit_run(t, 0) == t.len());
    assert(float_number(t));
}

proof fn lemma_digit_run_all(t: Seq<char>, i: int)
    requires
        all_digits(t),
        0 <= i <= t.len(),
    ensures
        digit_run(t, i) == t.len() - i,
    decreases t.len() - i,
{
    if i < t.len() {
        assert(is_digit(t[i]));
        lemma_digit_run_all(t, i + 1);
    }
}

} // verus!
