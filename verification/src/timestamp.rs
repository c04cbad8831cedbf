//! The 14-character timestamp format `YYYYMMDDHHMMSS`: shape parsing and
//! calendar validation as plain values.  Conversions to wall-clock types
//! happen outside the verified core.

use crate::date::digits_in;
use crate::date::digits_range;
use crate::date::two_digit;
use crate::date::two_digit_value;
use crate::text::string_push;
use vstd::prelude::*;
use vstd::string::StrSliceExecFns;

verus! {

/// The value of the four-digit group starting at `i`.
pub open spec fn four_digit_value(s: Seq<char>, i: int) -> int {
    two_digit_value(s, i) * 100 + two_digit_value(s, i + 2)
}

pub open spec fn spec_is_leap(y: int) -> bool {
    (y % 4 == 0 && y % 100 != 0) || y % 400 == 0
}

pub open spec fn spec_days_in_month(y: int, m: int) -> int {
    if m == 2 {
        if spec_is_leap(y) {
            29
        } else {
            28
        }
    } else if m == 4 || m == 6 || m == 9 || m == 11 {
        30
    } else {
        31
    }
}

/// A real proleptic-Gregorian calendar moment with a four-digit year.
pub open spec fn spec_calendar_ok(y: int, m: int, d: int, h: int, mi: int, s: int) -> bool {
    &&& 0 <= y <= 9999
    &&& 1 <= m <= 12
    &&& 1 <= d <= spec_days_in_month(y, m)
    &&& 0 <= h <= 23
    &&& 0 <= mi <= 59
    &&& 0 <= s <= 59
}

/// Fourteen digits whose groups name a real calendar moment.
pub open spec fn spec_ts_ok(s: Seq<char>) -> bool {
    &&& s.len() == 14
    &&& digits_range(s, 0, 14)
    &&& spec_calendar_ok(
        four_digit_value(s, 0),
        two_digit_value(s, 4),
        two_digit_value(s, 6),
        two_digit_value(s, 8),
        two_digit_value(s, 10),
        two_digit_value(s, 12),
    )
}

/// A timestamp in the 14-character format, split into its groups.
#[derive(Clone, Copy, Debug, PartialEq, Eq)]
pub struct TimeStamp {
    pub year: u16,
    pub month: u8,
    pub day: u8,
    pub hour: u8,
    pub minute: u8,
    pub second: u8,
}

impl TimeStamp {
    pub open spec fn wf(self) -> bool {
        spec_calendar_ok(
            self.year as int,
            self.month as int,
            self.day as int,
            self.hour as int,
            self.minute as int,
            self.second as int,
        )
    }

    /// Parses the 14-character form, accepting exactly the strings whose
    /// digit groups name a real calendar moment.
    pub fn parse(s: &str) -> (r: Option<TimeStamp>)
        ensures
            match r {
                Some(t) => {
                    &&& spec_ts_ok(s@)
                    &&& t.wf()
                    &&& t.year == four_digit_value(s@, 0)
                    &&& t.month == two_digit_value(s@, 4)
                    &&& t.day == two_digit_value(s@, 6)
                    &&& t.hour == two_digit_value(s@, 8)
                    &&& t.minute == two_digit_value(s@, 10)
                    &&& t.second == two_digit_value(s@, 12)
                },
                None => !spec_ts_ok(s@),
            },
    {
        let n = s.unicode_len();
        if n != 14 {
            return None;
        }
        if !digits_in(s, 0, 14) {
            return None;
        }
        let year = (two_digit(s, 0) * 100 + two_digit(s, 2)) as u16;
        let month = two_digit(s, 4) as u8;
        let day = two_digit(s, 6) as u8;
        let hour = two_digit(s, 8) as u8;
        let minute = two_digit(s, 10) as u8;
        let second = two_digit(s, 12) as u8;
        if month < 1 || month > 12 {
            return None;
        }
        let max_day = days_in_month(year, month);
        if day < 1 || day > max_day {
            return None;
        }
        if hour > 23 || minute > 59 || second > 59 {
            return None;
        }
        Some(TimeStamp { year, month, day, hour, minute, second })
    }

    /// Renders the timestamp back into its 14-character form; parsing the
    /// result gives the same groups back.
    pub fn render(&self) -> (r: String)
        requires
            self.wf(),
        ensures
            r@.len() == 14,
            digits_range(r@, 0, 14),
            four_digit_value(r@, 0) == self.year,
            two_digit_value(r@, 4) == self.month,
            two_digit_value(r@, 6) == self.day,
            two_digit_value(r@, 8) == self.hour,
            two_digit_value(r@, 10) == self.minute,
            two_digit_value(r@, 12) == self.second,
            spec_ts_ok(r@),
    {
        let mut out = String::new();
        push_two(&mut out, (self.year / 100) as u8);
        push_two(&mut out, (self.year % 100) as u8);
        push_two(&mut out, self.month);
        push_two(&mut out, self.day);
        push_two(&mut out, self.hour);
        push_two(&mut out, self.minute);
        push_two(&mut out, self.second);
        out
    }
}

/// The length of a month, as the calendar has it.
pub fn days_in_month(year: u16, month: u8) -> (r: u8)
    requires
        1 <= month <= 12,
    ensures
        r == spec_days_in_month(year as int, month as int),
{
    if month == 2 {
        if (year % 4 == 0 && year % 100 != 0) || year % 400 == 0 {
            29
        } else {
            28
        }
    } else if month == 4 || month == 6 || month == 9 || month == 11 {
        30
    } else {
        31
    }
}

/// Appends a value below one hundred as exactly two digit characters.
fn push_two(out: &mut String, v: u8)
    requires
        v < 100,
    ensures
        final (out)@ == old(out)@ + seq![
            (48 + v / 10) as char,
            (48 + v % 10) as char,
        ],
        two_digit_value(final (out)@, old(out)@.len() as int) == v,
        digits_range(final (out)@, old(out)@.len() as int, old(out)@.len() as int + 2),
        forall|i: int| 0 <= i < old(out)@.len() ==> final (out)@[i] == old(out)@[i],
{
    let d1 = v / 10;
    let d2 = v % 10;
    string_push(out, (48 + d1) as char);
    string_push(out, (48 + d2) as char);
    proof {
        let t = out@;
        let b = t.len() - 2;
        assert(t[b] == (48 + d1) as char);
        assert(t[b + 1] == (48 + d2) as char);
        assert((t[b] as int - '0' as int) == d1);
        assert((t[b + 1] as int - '0' as int) == d2);
    }
}

} // verus!
