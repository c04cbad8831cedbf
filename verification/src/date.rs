//! Date handling: parses the date shapes the wiki tooling encounters
//! (year, year-month, year-month-day, a bibliographic date URL, and
//! already-normalized timestamps carrying their precision) into a
//! wikibase time value plus precision.

use crate::text::string_push;
use crate::text::string_push_str;
use crate::text::str_eq;
use vstd::prelude::*;
use vstd::string::StrSliceExecFns;

verus! {

pub open spec fn is_digit(c: char) -> bool {
    '0' <= c && c <= '9'
}

/// All characters in `[a, b)` are decimal digits.
pub open spec fn digits_range(s: Seq<char>, a: int, b: int) -> bool {
    forall|i: int| a <= i < b ==> is_digit(#[trigger] s[i])
}

/// The numeric value of a digit string.
pub open spec fn digits_value(s: Seq<char>) -> int
    decreases s.len(),
{
    if s.len() == 0 {
        0
    } else {
        digits_value(s.drop_last()) * 10 + (s.last() as int - '0' as int)
    }
}

/// The value of the two-digit group starting at `i`.
pub open spec fn two_digit_value(s: Seq<char>, i: int) -> int {
    (s[i] as int - '0' as int) * 10 + (s[i + 1] as int - '0' as int)
}

/// An acceptable year: an unsigned, non-empty digit string whose value
/// does not reach 2025.  (Each shape demands its own minimum number of
/// digits; the date URL accepts any.)
pub open spec fn year_ok(y: Seq<char>) -> bool {
    &&& y.len() >= 1
    &&& digits_range(y, 0, y.len() as int)
    &&& digits_value(y) <= 2024
}

pub open spec fn zero2() -> Seq<char> {
    seq!['0', '0']
}

/// The wikibase time value built from a year, month and day group.
pub open spec fn time_of(y: Seq<char>, mm: Seq<char>, dd: Seq<char>) -> Seq<char> {
    seq!['+'] + y + seq!['-'] + mm + seq!['-'] + dd + "T00:00:00Z"@
}

/// The validations applied after a shape matched: the year must be in
/// range, a year-month date needs a month of at most twelve, and a full
/// date needs a real month and a day between one and thirty-one.
pub open spec fn spec_finish(y: Seq<char>, mm: Seq<char>, dd: Seq<char>, prec: u64) -> Option<
    (Seq<char>, u64),
> {
    if !year_ok(y) {
        None
    } else if prec == 10 && !(two_digit_value(mm, 0) <= 12) {
        None
    } else if prec == 11 && !(1 <= two_digit_value(mm, 0) <= 12 && 1 <= two_digit_value(dd, 0)
        <= 31) {
        None
    } else {
        Some((time_of(y, mm, dd), prec))
    }
}

/// A bare year: three or more digits.
pub open spec fn spec_p1(s: Seq<char>) -> bool {
    s.len() >= 3 && digits_range(s, 0, s.len() as int)
}

/// Year-month: digits, a dash, two digits.
pub open spec fn spec_p2(s: Seq<char>) -> bool {
    &&& s.len() >= 6
    &&& digits_range(s, 0, s.len() - 3)
    &&& s[s.len() - 3] == '-'
    &&& digits_range(s, s.len() - 2, s.len() as int)
}

/// Year-month-day: digits, dash, two digits, dash, two digits.
pub open spec fn spec_p3(s: Seq<char>) -> bool {
    &&& s.len() >= 9
    &&& digits_range(s, 0, s.len() - 6)
    &&& s[s.len() - 6] == '-'
    &&& digits_range(s, s.len() - 5, s.len() - 3)
    &&& s[s.len() - 3] == '-'
    &&& digits_range(s, s.len() - 2, s.len() as int)
}

/// A bibliographic date URL with the given scheme prefix: the prefix,
/// one or more digits, and an optional trailing slash.
pub open spec fn spec_p4_with(s: Seq<char>, pre: Seq<char>) -> bool {
    &&& s.len() > pre.len()
    &&& s.take(pre.len() as int) == pre
    &&& (digits_range(s, pre.len() as int, s.len() as int) || (s.last() == '/' && s.len() > pre.len()
        + 1 && digits_range(s, pre.len() as int, s.len() - 1)))
}

pub open spec fn spec_p4(s: Seq<char>) -> bool {
    spec_p4_with(s, "https://data.bnf.fr/date/"@) || spec_p4_with(s, "http://data.bnf.fr/date/"@)
}

/// The digit part of a matching date URL.
pub open spec fn spec_p4_digits(s: Seq<char>, pre_len: int) -> Seq<char> {
    if s.last() == '/' {
        s.subrange(pre_len, s.len() - 1)
    } else {
        s.subrange(pre_len, s.len() as int)
    }
}

/// The `Thh:mm:ssZ` block starting at `t`.
pub open spec fn spec_clock(s: Seq<char>, t: int) -> bool {
    &&& s[t] == 'T'
    &&& digits_range(s, t + 1, t + 3)
    &&& s[t + 3] == ':'
    &&& digits_range(s, t + 4, t + 6)
    &&& s[t + 6] == ':'
    &&& digits_range(s, t + 7, t + 9)
    &&& s[t + 9] == 'Z'
}

/// An optionally signed year of three or more digits in `[0, e)`.
pub open spec fn spec_signed_year(s: Seq<char>, e: int) -> bool {
    ||| (e >= 3 && digits_range(s, 0, e))
    ||| (e >= 4 && (s[0] == '+' || s[0] == '-') && digits_range(s, 1, e))
}

/// A normalized timestamp with precision eleven: year, month, day, clock,
/// and the suffix `/11`.
pub open spec fn spec_p5(s: Seq<char>) -> bool {
    &&& s.len() >= 22
    &&& spec_signed_year(s, s.len() - 19)
    &&& s[s.len() - 19] == '-'
    &&& digits_range(s, s.len() - 18, s.len() - 16)
    &&& s[s.len() - 16] == '-'
    &&& digits_range(s, s.len() - 15, s.len() - 13)
    &&& spec_clock(s, s.len() - 13)
    &&& s[s.len() - 3] == '/'
    &&& s[s.len() - 2] == '1'
    &&& s[s.len() - 1] == '1'
}

/// A normalized timestamp with precision ten: the day group is zero or
/// one, and the suffix is `/10`.
pub open spec fn spec_p6(s: Seq<char>) -> bool {
    &&& s.len() >= 22
    &&& spec_signed_year(s, s.len() - 19)
    &&& s[s.len() - 19] == '-'
    &&& digits_range(s, s.len() - 18, s.len() - 16)
    &&& s[s.len() - 16] == '-'
    &&& s[s.len() - 15] == '0'
    &&& (s[s.len() - 14] == '0' || s[s.len() - 14] == '1')
    &&& spec_clock(s, s.len() - 13)
    &&& s[s.len() - 3] == '/'
    &&& s[s.len() - 2] == '1'
    &&& s[s.len() - 1] == '0'
}

/// A normalized timestamp with precision nine: month and day groups are
/// zero or one, and the suffix is `/9`.
pub open spec fn spec_p7(s: Seq<char>) -> bool {
    &&& s.len() >= 21
    &&& spec_signed_year(s, s.len() - 18)
    &&& s[s.len() - 18] == '-'
    &&& s[s.len() - 17] == '0'
    &&& (s[s.len() - 16] == '0' || s[s.len() - 16] == '1')
    &&& s[s.len() - 15] == '-'
    &&& s[s.len() - 14] == '0'
    &&& (s[s.len() - 13] == '0' || s[s.len() - 13] == '1')
    &&& spec_clock(s, s.len() - 12)
    &&& s[s.len() - 2] == '/'
    &&& s[s.len() - 1] == '9'
}

/// What parsing returns: the shapes are tried in a fixed order, the first
/// match decides the groups and the precision, and the validations of
/// `spec_finish` decide acceptance.
pub open spec fn spec_date(s: Seq<char>) -> Option<(Seq<char>, u64)> {
    if spec_p1(s) {
        spec_finish(s, zero2(), zero2(), 9)
    } else if spec_p2(s) {
        spec_finish(s.take(s.len() - 3), s.subrange(s.len() - 2, s.len() as int), zero2(), 10)
    } else if spec_p3(s) {
        spec_finish(
            s.take(s.len() - 6),
            s.subrange(s.len() - 5, s.len() - 3),
            s.subrange(s.len() - 2, s.len() as int),
            11,
        )
    } else if spec_p4(s) {
        if spec_p4_with(s, "https://data.bnf.fr/date/"@) {
            spec_finish(spec_p4_digits(s, "https://data.bnf.fr/date/"@.len() as int), zero2(), zero2(), 9)
        } else {
            spec_finish(spec_p4_digits(s, "http://data.bnf.fr/date/"@.len() as int), zero2(), zero2(), 9)
        }
    } else if spec_p5(s) {
        spec_finish(
            s.take(s.len() - 19),
            s.subrange(s.len() - 18, s.len() - 16),
            s.subrange(s.len() - 15, s.len() - 13),
            11,
        )
    } else if spec_p6(s) {
        spec_finish(s.take(s.len() - 19), s.subrange(s.len() - 18, s.len() - 16), zero2(), 10)
    } else if spec_p7(s) {
        spec_finish(s.take(s.len() - 18), zero2(), zero2(), 9)
    } else {
        None
    }
}

/// The reason a string was not accepted as a date.
#[derive(Clone, Copy, Debug, PartialEq, Eq)]
pub enum DateError {
    Unrecognized,
}

/// A parsed date: a wikibase time value and its precision (nine for a
/// year, ten for a month, eleven for a day).
pub struct Date {
    time: String,
    precision: u64,
}

impl Date {
    pub closed spec fn time_view(self) -> Seq<char> {
        self.time@
    }

    pub closed spec fn precision_spec(self) -> u64 {
        self.precision
    }

    pub open spec fn wf(self) -> bool {
        self.precision_spec() == 9 || self.precision_spec() == 10 || self.precision_spec() == 11
    }

    /// Returns the date as a wikibase timevalue-compatible string.
    pub fn time(&self) -> (r: &str)
        ensures
            r@ == self.time_view(),
    {
        self.time.as_str()
    }

    /// Returns the precision of the date.
    pub fn precision(&self) -> (r: u64)
        ensures
            r == self.precision_spec(),
    {
        self.precision
    }

    /// Returns the date as a QuickStatements-compatible string: the time
    /// value, a slash, and the precision.
    pub fn as_qs(&self) -> (r: String)
        requires
            self.wf(),
        ensures
            r@ == self.time_view() + qs_suffix(self.precision_spec()),
    {
        let mut out = self.time.clone();
        if self.precision == 9 {
            string_push_str(&mut out, "/9");
        } else if self.precision == 10 {
            string_push_str(&mut out, "/10");
        } else {
            string_push_str(&mut out, "/11");
        }
        out
    }
}

/// The precision suffix of the QuickStatements form.
pub open spec fn qs_suffix(p: u64) -> Seq<char> {
    if p == 9 {
        "/9"@
    } else if p == 10 {
        "/10"@
    } else {
        "/11"@
    }
}

/// A digit string's value grows with its digits, so the capped
/// accumulator below tells exactly whether the value stays within range.
pub open spec fn clamped_value(s: Seq<char>) -> int
    decreases s.len(),
{
    if s.len() == 0 {
        0
    } else {
        let v = clamped_value(s.drop_last()) * 10 + (s.last() as int - '0' as int);
        if v > 100000 {
            100000
        } else {
            v
        }
    }
}

proof fn lemma_clamped(s: Seq<char>)
    requires
        digits_range(s, 0, s.len() as int),
    ensures
        0 <= clamped_value(s) <= 100000,
        clamped_value(s) == digits_value(s) || (clamped_value(s) == 100000 && digits_value(s)
            >= 100000),
    decreases s.len(),
{
    if s.len() > 0 {
        let p = s.drop_last();
        assert(digits_range(p, 0, p.len() as int)) by {
            assert(forall|i: int| 0 <= i < p.len() ==> p[i] == s[i] && is_digit(#[trigger] s[i]));
        }
        lemma_clamped(p);
        assert(is_digit(s.last())) by {
            assert(is_digit(s[s.len() - 1]));
        }
    }
}

pub(crate) fn digits_in(s: &str, from: usize, to: usize) -> (r: bool)
    requires
        from <= to <= s@.len(),
    ensures
        r == digits_range(s@, from as int, to as int),
{
    let mut i = from;
    while i < to
        invariant
            from <= i <= to <= s@.len(),
            digits_range(s@, from as int, i as int),
        decreases to - i,
    {
        let c = s.get_char(i);
        if !('0' <= c && c <= '9') {
            proof {
                assert(!is_digit(s@[i as int]));
            }
            return false;
        }
        i = i + 1;
    }
    true
}

fn has_prefix(s: &str, p: &str) -> (r: bool)
    ensures
        r == (p@.len() <= s@.len() && s@.take(p@.len() as int) == p@),
{
    let pl = p.unicode_len();
    if pl > s.unicode_len() {
        return false;
    }
    let sub = s.substring_char(0, pl);
    let r = str_eq(sub, p);
    proof {
        assert(s@.take(p@.len() as int) =~= s@.subrange(0, p@.len() as int));
    }
    r
}

fn clock_at(s: &str, t: usize) -> (r: bool)
    requires
        t + 10 <= s@.len(),
        s@.len() <= usize::MAX,
    ensures
        r == spec_clock(s@, t as int),
{
    s.get_char(t) == 'T' && digits_in(s, t + 1, t + 3) && s.get_char(t + 3) == ':' && digits_in(
        s,
        t + 4,
        t + 6,
    ) && s.get_char(t + 6) == ':' && digits_in(s, t + 7, t + 9) && s.get_char(t + 9) == 'Z'
}

fn signed_year(s: &str, e: usize) -> (r: bool)
    requires
        e <= s@.len(),
    ensures
        r == spec_signed_year(s@, e as int),
{
    if e >= 3 && digits_in(s, 0, e) {
        return true;
    }
    if e >= 4 {
        let c = s.get_char(0);
        return (c == '+' || c == '-') && digits_in(s, 1, e);
    }
    false
}

fn year_value_capped(s: &str, from: usize, to: usize) -> (r: u64)
    requires
        from <= to <= s@.len(),
        digits_range(s@, from as int, to as int),
    ensures
        r == clamped_value(s@.subrange(from as int, to as int)),
{
    let mut i = from;
    let mut v: u64 = 0;
    proof {
        assert(s@.subrange(from as int, from as int) =~= Seq::<char>::empty());
    }
    while i < to
        invariant
            from <= i <= to <= s@.len(),
            digits_range(s@, from as int, to as int),
            v == clamped_value(s@.subrange(from as int, i as int)),
            v <= 100000,
        decreases to - i,
    {
        let c = s.get_char(i);
        proof {
            assert(is_digit(s@[i as int]));
        }
        let d = (c as u32 - 48) as u64;
        let nv = v * 10 + d;
        let v2 = if nv > 100000 {
            100000
        } else {
            nv
        };
        proof {
            assert(s@.subrange(from as int, i + 1).drop_last() =~= s@.subrange(
                from as int,
                i as int,
            ));
            assert(s@.subrange(from as int, i + 1).last() == s@[i as int]);
        }
        v = v2;
        i = i + 1;
    }
    v
}

fn year_ok_exec(s: &str, from: usize, to: usize) -> (r: bool)
    requires
        from <= to <= s@.len(),
    ensures
        r == year_ok(s@.subrange(from as int, to as int)),
{
    let ghost y = s@.subrange(from as int, to as int);
    if to - from < 1 {
        return false;
    }
    if !digits_in(s, from, to) {
        proof {
            assert(!digits_range(y, 0, y.len() as int)) by {
                let i = choose|i: int|
                    from <= i < to && !is_digit(#[trigger] s@[i]);
                assert(y[i - from] == s@[i]);
            }
        }
        return false;
    }
    proof {
        assert(digits_range(y, 0, y.len() as int)) by {
            assert(forall|i: int|
                0 <= i < y.len() ==> y[i] == s@[i + from] && is_digit(#[trigger] s@[i + from]));
        }
        lemma_clamped(y);
    }
    let v = year_value_capped(s, from, to);
    v <= 2024
}

pub(crate) fn two_digit(s: &str, i: usize) -> (r: u64)
    requires
        i + 2 <= s@.len(),
        s@.len() <= usize::MAX,
        digits_range(s@, i as int, i + 2),
    ensures
        r == two_digit_value(s@, i as int),
{
    let c1 = s.get_char(i);
    let c2 = s.get_char(i + 1);
    proof {
        assert(is_digit(s@[i as int]) && is_digit(s@[i + 1]));
    }
    (((c1 as u32 - 48) * 10 + (c2 as u32 - 48)) as u64)
}

fn build_time(s: &str, ys: usize, ye: usize, mo: Option<usize>, dy: Option<usize>) -> (t: String)
    requires
        ys <= ye <= s@.len(),
        s@.len() <= usize::MAX,
        mo matches Some(m) ==> m + 2 <= s@.len(),
        dy matches Some(d) ==> d + 2 <= s@.len(),
    ensures
        t@ == time_of(
            s@.subrange(ys as int, ye as int),
            match mo {
                Some(m) => s@.subrange(m as int, m + 2),
                None => zero2(),
            },
            match dy {
                Some(d) => s@.subrange(d as int, d + 2),
                None => zero2(),
            },
        ),
{
    let mut t = String::new();
    string_push(&mut t, '+');
    string_push_str(&mut t, s.substring_char(ys, ye));
    string_push(&mut t, '-');
    match mo {
        Some(m) => string_push_str(&mut t, s.substring_char(m, m + 2)),
        None => string_push_str(&mut t, "00"),
    }
    string_push(&mut t, '-');
    match dy {
        Some(d) => string_push_str(&mut t, s.substring_char(d, d + 2)),
        None => string_push_str(&mut t, "00"),
    }
    string_push_str(&mut t, "T00:00:00Z");
    proof {
        reveal_strlit("00");
        assert("00"@ =~= zero2());
        assert(t@ =~= time_of(
            s@.subrange(ys as int, ye as int),
            match mo {
                Some(m) => s@.subrange(m as int, m + 2),
                None => zero2(),
            },
            match dy {
                Some(d) => s@.subrange(d as int, d + 2),
                None => zero2(),
            },
        ));
    }
    t
}

impl Date {
    /// Parses a date from a string: a bare year, a year-month, a full
    /// date, a bibliographic date URL, or an already-normalized timestamp
    /// carrying its precision.  Years from 2025 on are rejected.
    pub fn parse(s: &str) -> (r: Result<Date, DateError>)
        ensures
            match r {
                Ok(d) => d.wf() && spec_date(s@) == Some((d.time_view(), d.precision_spec())),
                Err(_) => spec_date(s@) is None,
            },
    {
        let n = s.unicode_len();
        // a bare year
        if n >= 3 && digits_in(s, 0, n) {
            if !year_ok_exec(s, 0, n) {
                proof {
                    assert(s@.subrange(0, n as int) =~= s@);
                }
                return Err(DateError::Unrecognized);
            }
            let time = build_time(s, 0, n, None, None);
            proof {
                assert(s@.subrange(0, n as int) =~= s@);
            }
            return Ok(Date { time, precision: 9 });
        }
        // year and month
        if n >= 6 && s.get_char(n - 3) == '-' && digits_in(s, 0, n - 3) && digits_in(s, n - 2, n) {
            proof {
                assert(s@.subrange(0, n - 3) =~= s@.take(n - 3));
            }
            if !year_ok_exec(s, 0, n - 3) {
                return Err(DateError::Unrecognized);
            }
            if two_digit(s, n - 2) > 12 {
                return Err(DateError::Unrecognized);
            }
            let time = build_time(s, 0, n - 3, Some(n - 2), None);
            return Ok(Date { time, precision: 10 });
        }
        // year, month and day
        if n >= 9 && s.get_char(n - 6) == '-' && s.get_char(n - 3) == '-' && digits_in(s, 0, n - 6)
            && digits_in(s, n - 5, n - 3) && digits_in(s, n - 2, n) {
            proof {
                assert(s@.subrange(0, n - 6) =~= s@.take(n - 6));
            }
            if !year_ok_exec(s, 0, n - 6) {
                return Err(DateError::Unrecognized);
            }
            let mv = two_digit(s, n - 5);
            if mv < 1 || mv > 12 {
                return Err(DateError::Unrecognized);
            }
            let dv = two_digit(s, n - 2);
            if dv < 1 || dv > 31 {
                return Err(DateError::Unrecognized);
            }
            let time = build_time(s, 0, n - 6, Some(n - 5), Some(n - 2));
            return Ok(Date { time, precision: 11 });
        }
        // a bibliographic date URL
        let https_hit = bnf_matches(s, "https://data.bnf.fr/date/");
        let http_hit = bnf_matches(s, "http://data.bnf.fr/date/");
        if https_hit || http_hit {
            let pre = if https_hit {
                "https://data.bnf.fr/date/"
            } else {
                "http://data.bnf.fr/date/"
            };
            let pl = pre.unicode_len();
            let ye = if s.get_char(n - 1) == '/' {
                n - 1
            } else {
                n
            };
            if !year_ok_exec(s, pl, ye) {
                return Err(DateError::Unrecognized);
            }
            let time = build_time(s, pl, ye, None, None);
            return Ok(Date { time, precision: 9 });
        }
        // a normalized timestamp with precision eleven
        if n >= 22 && signed_year(s, n - 19) && s.get_char(n - 19) == '-' && digits_in(
            s,
            n - 18,
            n - 16,
        ) && s.get_char(n - 16) == '-' && digits_in(s, n - 15, n - 13) && clock_at(s, n - 13)
            && s.get_char(n - 3) == '/' && s.get_char(n - 2) == '1' && s.get_char(n - 1) == '1' {
            proof {
                assert(s@.subrange(0, n - 19) =~= s@.take(n - 19));
            }
            if !year_ok_exec(s, 0, n - 19) {
                return Err(DateError::Unrecognized);
            }
            let mv = two_digit(s, n - 18);
            if mv < 1 || mv > 12 {
                return Err(DateError::Unrecognized);
            }
            let dv = two_digit(s, n - 15);
            if dv < 1 || dv > 31 {
                return Err(DateError::Unrecognized);
            }
            let time = build_time(s, 0, n - 19, Some(n - 18), Some(n - 15));
            return Ok(Date { time, precision: 11 });
        }
        // a normalized timestamp with precision ten
        if n >= 22 && signed_year(s, n - 19) && s.get_char(n - 19) == '-' && digits_in(
            s,
            n - 18,
            n - 16,
        ) && s.get_char(n - 16) == '-' && s.get_char(n - 15) == '0' && (s.get_char(n - 14) == '0'
            || s.get_char(n - 14) == '1') && clock_at(s, n - 13) && s.get_char(n - 3) == '/'
            && s.get_char(n - 2) == '1' && s.get_char(n - 1) == '0' {
            proof {
                assert(s@.subrange(0, n - 19) =~= s@.take(n - 19));
            }
            if !year_ok_exec(s, 0, n - 19) {
                return Err(DateError::Unrecognized);
            }
            if two_digit(s, n - 18) > 12 {
                return Err(DateError::Unrecognized);
            }
            let time = build_time(s, 0, n - 19, Some(n - 18), None);
            return Ok(Date { time, precision: 10 });
        }
        // a normalized timestamp with precision nine
        if n >= 21 && signed_year(s, n - 18) && s.get_char(n - 18) == '-' && s.get_char(n - 17)
            == '0' && (s.get_char(n - 16) == '0' || s.get_char(n - 16) == '1') && s.get_char(
            n - 15,
        ) == '-' && s.get_char(n - 14) == '0' && (s.get_char(n - 13) == '0' || s.get_char(n - 13)
            == '1') && clock_at(s, n - 12) && s.get_char(n - 2) == '/' && s.get_char(n - 1)
            == '9' {
            proof {
                assert(s@.subrange(0, n - 18) =~= s@.take(n - 18));
            }
            if !year_ok_exec(s, 0, n - 18) {
                return Err(DateError::Unrecognized);
            }
            let time = build_time(s, 0, n - 18, None, None);
            return Ok(Date { time, precision: 9 });
        }
        Err(DateError::Unrecognized)
    }
}

/// Whether the string is a date URL with the given prefix: the prefix,
/// one or more digits, and an optional trailing slash.
fn bnf_matches(s: &str, pre: &str) -> (r: bool)
    ensures
        r == spec_p4_with(s@, pre@),
{
    if !has_prefix(s, pre) {
        return false;
    }
    let n = s.unicode_len();
    let pl = pre.unicode_len();
    if n <= pl {
        return false;
    }
    if digits_in(s, pl, n) {
        return true;
    }
    if s.get_char(n - 1) == '/' && n > pl + 1 && digits_in(s, pl, n - 1) {
        return true;
    }
    false
}

impl core::str::FromStr for Date {
    type Err = DateError;

    fn from_str(s: &str) -> Result<Date, DateError> {
        Date::parse(s)
    }
}

} // verus!
