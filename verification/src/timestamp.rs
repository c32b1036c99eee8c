//! A calendar date-time with hour resolution, decoded from the fixed
//! ten-character `YYYYMMDDHH` field that keys every data row.

use vstd::prelude::*;
use vstd::string::*;
use crate::scan::{spec_parse_i32, spec_parse_u32, parse_i32, parse_u32};
use crate::text::{spec_trim, trim_of};

verus! {

/// A calendar date-time with hour resolution; minutes and seconds are zero.
#[derive(Clone, Copy, Debug, PartialEq, Eq, Structural)]
pub struct TimeStamp {
    /// The proleptic Gregorian year.
    pub year: i32,
    /// The month, from 1 to 12.
    pub month: u32,
    /// The day of the month, from 1 up to the month's length.
    pub day: u32,
    /// The hour of the day, from 0 to 23.
    pub hour: u32,
}

/// A leap year of the proleptic Gregorian calendar.
pub open spec fn is_leap_year(y: int) -> bool {
    y % 4 == 0 && (y % 100 != 0 || y % 400 == 0)
}

/// How many days the given month of the given year has.
pub open spec fn days_in_month(y: int, m: int) -> int {
    if m == 2 {
        if is_leap_year(y) {
            29
        } else {
            28
        }
    } else if m == 4 || m == 6 || m == 9 || m == 11 {
        30
    } else {
        31
    }
}

impl TimeStamp {
    /// A real calendar date-time: the month, day and hour are in range.
    pub open spec fn valid(self) -> bool {
        &&& 1 <= self.month <= 12
        &&& 1 <= self.day <= days_in_month(self.year as int, self.month as int)
        &&& self.hour <= 23
    }
}

/// Whether the year is a leap year of the proleptic Gregorian calendar.
pub fn leap_year(y: i32) -> (b: bool)
    ensures
        b == is_leap_year(y as int),
{
    let a: i64 = if y >= 0 {
        y as i64
    } else {
        -(y as i64)
    };
    proof {
        let yi = y as int;
        assert(a == if yi >= 0 {
            yi
        } else {
            -yi
        });
        lemma_neg_divisibility(yi, 4);
        lemma_neg_divisibility(yi, 100);
        lemma_neg_divisibility(yi, 400);
    }
    a % 4 == 0 && (a % 100 != 0 || a % 400 == 0)
}

/// A number and its negation are divisible by the same divisors.
proof fn lemma_neg_divisibility(n: int, d: int)
    requires
        d > 0,
    ensures
        ((-n) % d == 0) == (n % d == 0),
{
    if n % d == 0 {
        let k = n / d;
        assert(n == d * k) by {
            vstd::arithmetic::div_mod::lemma_fundamental_div_mod(n, d);
        }
        assert(d * (-k) == -(d * k)) by (nonlinear_arith);
        assert((d * (-k)) % d == 0) by {
            vstd::arithmetic::div_mod::lemma_mod_multiples_basic(-k, d);
        }
        assert((-n) % d == 0);
    }
    if (-n) % d == 0 {
        let k = (-n) / d;
        assert(-n == d * k) by {
            vstd::arithmetic::div_mod::lemma_fundamental_div_mod(-n, d);
        }
        assert(d * (-k) == -(d * k)) by (nonlinear_arith);
        assert((d * (-k)) % d == 0) by {
            vstd::arithmetic::div_mod::lemma_mod_multiples_basic(-k, d);
        }
        assert(n % d == 0);
    }
}

/// How many days the given month has, for months 1 to 12.
pub fn month_days(y: i32, m: u32) -> (d: u32)
    requires
        1 <= m <= 12,
    ensures
        d == days_in_month(y as int, m as int),
{
    if m == 2 {
        if leap_year(y) {
            29
        } else {
            28
        }
    } else if m == 4 || m == 6 || m == 9 || m == 11 {
        30
    } else {
        31
    }
}

/// What decoding a timestamp field yields: the field is trimmed; it must
/// then be exactly ten characters, year, month, day and hour must parse as
/// decimal integers, and together they must name a real calendar date-time.
/// Anything else is not a timestamp.
pub open spec fn spec_parse_timestamp(s: Seq<char>) -> Option<TimeStamp> {
    let t = spec_trim(s);
    if t.len() != 10 {
        None
    } else {
        let y = spec_parse_i32(t.subrange(0, 4));
        let m = spec_parse_u32(t.subrange(4, 6));
        let d = spec_parse_u32(t.subrange(6, 8));
        let h = spec_parse_u32(t.subrange(8, 10));
        if y is Some && m is Some && d is Some && h is Some {
            let ts = TimeStamp {
                year: y->0,
                month: m->0,
                day: d->0,
                hour: h->0,
            };
            if ts.valid() {
                Some(ts)
            } else {
                None
            }
        } else {
            None
        }
    }
}

/// Decode a row's timestamp field, `YYYYMMDDHH` after trimming.
pub fn parse_date_time(text: &str) -> (r: Option<TimeStamp>)
    ensures
        r == spec_parse_timestamp(text@),
{
    let t = trim_of(text);
    let ts = t.as_str();
    if ts.unicode_len() != 10 {
        return None;
    }
    let ys = ts.substring_char(0, 4);
    let ms = ts.substring_char(4, 6);
    let ds = ts.substring_char(6, 8);
    let hs = ts.substring_char(8, 10);
    let y = match parse_i32(ys) {
        Some(v) => v,
        None => {
            return None;
        },
    };
    let m = match parse_u32(ms) {
        Some(v) => v,
        None => {
            return None;
        },
    };
    let d = match parse_u32(ds) {
        Some(v) => v,
        None => {
            return None;
        },
    };
    let h = match parse_u32(hs) {
        Some(v) => v,
        None => {
            return None;
        },
    };
    let stamp = TimeStamp { year: y, month: m, day: d, hour: h };
    if m < 1 || m > 12 {
        return None;
    }
    if d < 1 || d > month_days(y, m) {
        return None;
    }
    if h > 23 {
        return None;
    }
    Some(stamp)
}

} // verus!
