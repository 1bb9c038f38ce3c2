//! Calendar dates, clock times and durations, as plain integer arithmetic
//! over the proleptic Gregorian calendar.
//!
//! The one reading of the system clock sits behind a trusted wrapper;
//! everything computed from it is verified.

use vstd::prelude::*;
use crate::exceptions::PyException;
use crate::exceptions::value_error;
use crate::numstr::dec_digits;
use crate::strutil::chars_to_string;
use crate::strutil::push_all;

verus! {

/// The first representable year.
pub const MINYEAR: i32 = 1;

/// The last representable year.
pub const MAXYEAR: i32 = 9999;

/// The day number of the last day of year 9999.
pub const MAX_ORDINAL: i64 = 3652059;

/// Whether a year has a 29th of February.
pub open spec fn is_leap_spec(year: int) -> bool {
    (year % 4 == 0 && year % 100 != 0) || year % 400 == 0
}

/// Whether a year has a 29th of February.
pub fn is_leap_year(year: i32) -> (r: bool)
    ensures
        r == is_leap_spec(year as int),
{
    let y = year as i64;
    let four = euclid_rem_small(y, 4);
    let hundred = euclid_rem_small(y, 100);
    let fourh = euclid_rem_small(y, 400);
    (four == 0 && hundred != 0) || fourh == 0
}

/// Days in a month of a given year.
pub open spec fn days_in_month_spec(year: int, month: int) -> int {
    if month == 2 {
        if is_leap_spec(year) {
            29
        } else {
            28
        }
    } else if month == 4 || month == 6 || month == 9 || month == 11 {
        30
    } else {
        31
    }
}

/// Days in a month of a given year.
pub fn days_in_month(year: i32, month: u32) -> (r: u32)
    ensures
        r as int == days_in_month_spec(year as int, month as int),
{
    if month == 2 {
        if is_leap_year(year) {
            29
        } else {
            28
        }
    } else if month == 4 || month == 6 || month == 9 || month == 11 {
        30
    } else {
        31
    }
}

/// The Euclidean remainder of `a` by a small positive modulus.
fn euclid_rem_small(a: i64, m: i64) -> (r: i64)
    requires
        1 <= m <= 1000000,
    ensures
        r as int == (a as int) % (m as int),
        0 <= r < m,
{
    let (q, r) = divmod_euclid(a as i128, m as i128);
    proof {
        vstd::arithmetic::div_mod::lemma_fundamental_div_mod_converse_mod(
            a as int,
            m as int,
            q as int,
            r as int,
        );
    }
    r as i64
}

/// Euclidean quotient and remainder: `a == q * m + r` with `0 <= r < m`.
fn divmod_euclid(a: i128, m: i128) -> (qr: (i128, i128))
    requires
        1 <= m <= 0x7fff_ffff_ffff_ffff,
        -0x1_0000_0000_0000_0000_0000_0000_0000 <= a
            <= 0x1_0000_0000_0000_0000_0000_0000_0000,
    ensures
        a as int == qr.0 as int * m as int + qr.1 as int,
        0 <= qr.1 < m,
        qr.0 as int == (a as int) / (m as int),
        qr.1 as int == (a as int) % (m as int),
{
    let q: i128;
    let r: i128;
    if a >= 0 {
        let qm = (a as u128) / (m as u128);
        let rm = (a as u128) % (m as u128);
        proof {
            vstd::arithmetic::div_mod::lemma_fundamental_div_mod(a as int, m as int);
        }
        q = qm as i128;
        r = rm as i128;
    } else {
        let mag = (-a) as u128;
        let qm = mag / (m as u128);
        let rm = mag % (m as u128);
        proof {
            assert(mag as int == -(a as int));
            vstd::arithmetic::div_mod::lemma_fundamental_div_mod(mag as int, m as int);
            assert(qm as int == mag as int / (m as int));
            assert(rm as int == mag as int % (m as int));
            assert(mag as int == qm as int * (m as int) + rm as int);
            assert((qm as int + 1) * (m as int) == qm as int * (m as int) + m as int)
                by (nonlinear_arith);
            assert((-(qm as int) - 1) * (m as int) == -(qm as int * (m as int)) - m as int)
                by (nonlinear_arith);
            assert(-(qm as int) * (m as int) == -(qm as int * (m as int))) by (nonlinear_arith);
        }
        if rm == 0 {
            q = -(qm as i128);
            r = 0;
        } else {
            q = -(qm as i128) - 1;
            r = m - (rm as i128);
        }
    }
    proof {
        vstd::arithmetic::div_mod::lemma_fundamental_div_mod_converse_mod(
            a as int,
            m as int,
            q as int,
            r as int,
        );
        vstd::arithmetic::div_mod::lemma_fundamental_div_mod_converse_div(
            a as int,
            m as int,
            q as int,
            r as int,
        );
        vstd::arithmetic::div_mod::lemma_fundamental_div_mod(a as int, m as int);
    }
    (q, r)
}

/// Days in a whole year.
pub open spec fn days_in_year_spec(year: int) -> int {
    if is_leap_spec(year) {
        366
    } else {
        365
    }
}

/// Days in all years strictly before `year`, counting from year 1.
pub open spec fn days_before_year(year: int) -> int
    decreases year,
{
    if year <= 1 {
        0
    } else {
        days_before_year(year - 1) + days_in_year_spec(year - 1)
    }
}

/// Days in the months of `year` strictly before `month`.
pub open spec fn days_before_month(year: int, month: int) -> int
    decreases month,
{
    if month <= 1 {
        0
    } else {
        days_before_month(year, month - 1) + days_in_month_spec(year, month - 1)
    }
}

/// The day number of a date: day 1 is the first of January of year 1.
pub open spec fn ordinal_of(year: int, month: int, day: int) -> int {
    days_before_year(year) + days_before_month(year, month) + day
}

/// A calendar date.
#[derive(Debug, Clone, Copy, PartialEq, Eq, Structural)]
pub struct date {
    pub year: i32,
    pub month: u32,
    pub day: u32,
}

/// A date whose month and day lie within the calendar.
pub open spec fn date_valid(d: date) -> bool {
    1 <= d.month <= 12 && 1 <= d.day <= days_in_month_spec(d.year as int, d.month as int)
}

/// The day count before a year never exceeds 366 days a year.
proof fn lemma_days_before_year_bounds(year: int)
    requires
        year >= 1,
    ensures
        365 * (year - 1) <= days_before_year(year) <= 366 * (year - 1),
        days_before_year(year) >= 0,
    decreases year,
{
    if year > 1 {
        lemma_days_before_year_bounds(year - 1);
    }
}

/// The day count before a month is a few short months' worth at most.
proof fn lemma_days_before_month_bounds(year: int, month: int)
    requires
        1 <= month <= 13,
    ensures
        0 <= days_before_month(year, month) <= 31 * (month - 1),
    decreases month,
{
    if month > 1 {
        lemma_days_before_month_bounds(year, month - 1);
    }
}

impl date {
    /// A date, validated: the month must lie in `1..=12` and the day within
    /// the month, else a value error saying which failed.
    pub fn new(year: i32, month: u32, day: u32) -> (r: Result<date, PyException>)
        ensures
            match r {
                Ok(d) => d.year == year && d.month == month && d.day == day && date_valid(d),
                Err(e) => e.exception_type@ == "ValueError"@
                    && !(1 <= month <= 12
                        && 1 <= day <= days_in_month_spec(year as int, month as int)),
            },
    {
        if !(1 <= month && month <= 12) {
            return Err(value_error("month must be in 1..12"));
        }
        let max_day = days_in_month(year, month);
        if !(1 <= day && day <= max_day) {
            return Err(value_error("day must be in 1..31"));
        }
        Ok(date { year, month, day })
    }

    /// The date's day number, day 1 being the first of January of year 1.
    pub fn toordinal(&self) -> (r: i64)
        requires
            1 <= self.year,
            date_valid(*self),
        ensures
            r as int == ordinal_of(self.year as int, self.month as int, self.day as int),
            r >= 1,
    {
        let mut days: i64 = 0;
        let mut y: i32 = 1;
        proof {
            lemma_days_before_year_bounds(self.year as int);
        }
        while y < self.year
            invariant
                1 <= y <= self.year,
                self.year <= i32::MAX,
                days as int == days_before_year(y as int),
                days_before_year(y as int) <= 366 * (y - 1),
                days >= 0,
            decreases self.year - y,
        {
            proof {
                lemma_days_before_year_bounds(y + 1);
            }
            if is_leap_year(y) {
                days = days + 366;
            } else {
                days = days + 365;
            }
            y += 1;
        }
        let mut m: u32 = 1;
        proof {
            lemma_days_before_month_bounds(self.year as int, self.month as int);
            lemma_days_before_year_bounds(self.year as int);
        }
        while m < self.month
            invariant
                1 <= m <= self.month,
                self.month <= 12,
                days as int == days_before_year(self.year as int)
                    + days_before_month(self.year as int, m as int),
                days_before_year(self.year as int) <= 366 * (self.year - 1),
                self.year <= i32::MAX,
                days >= 0,
            decreases self.month - m,
        {
            proof {
                lemma_days_before_month_bounds(self.year as int, m + 1);
                lemma_days_before_month_bounds(self.year as int, m as int);
            }
            days = days + days_in_month(self.year, m) as i64;
            m += 1;
        }
        days + self.day as i64
    }

    /// The date with the given day number; below 1 is a value error, and
    /// beyond the last representable year the conversion is not defined.
    pub fn fromordinal(ordinal: i64) -> (r: Result<date, PyException>)
        requires
            ordinal <= MAX_ORDINAL,
        ensures
            match r {
                Ok(d) => ordinal >= 1 && date_valid(d) && 1 <= d.year
                    && ordinal_of(d.year as int, d.month as int, d.day as int) == ordinal,
                Err(e) => ordinal < 1 && e.exception_type@ == "ValueError"@,
            },
    {
        if ordinal < 1 {
            return Err(value_error("ordinal must be >= 1"));
        }
        let mut year64: i64 = 1;
        let mut remaining: i64 = ordinal - 1;
        proof {
            lemma_days_before_year_bounds(1);
        }
        let mut year_found = false;
        while !year_found
            invariant
                1 <= year64,
                remaining >= 0,
                remaining as int == ordinal - 1 - days_before_year(year64 as int),
                days_before_year(year64 as int) <= ordinal - 1,
                365 * (year64 - 1) <= ordinal - 1,
                ordinal <= MAX_ORDINAL,
                year_found ==> remaining < days_in_year_spec(year64 as int),
            decreases remaining, (if year_found { 0int } else { 1int }),
        {
            assert(year64 <= 20000);
            let yd: i64 = if is_leap_year(year64 as i32) {
                366
            } else {
                365
            };
            if remaining < yd {
                year_found = true;
            } else {
                proof {
                    lemma_days_before_year_bounds(year64 + 1);
                }
                remaining = remaining - yd;
                year64 += 1;
            }
        }
        assert(year64 <= 20000);
        let year: i32 = year64 as i32;
        let mut month: u32 = 1;
        while month < 12 && remaining >= days_in_month(year, month) as i64
            invariant
                1 <= month <= 12,
                remaining >= 0,
                remaining as int == ordinal - 1 - days_before_year(year as int)
                    - days_before_month(year as int, month as int),
                remaining as int + days_before_month(year as int, month as int)
                    < days_in_year_spec(year as int),
            decreases 12 - month,
        {
            remaining = remaining - days_in_month(year, month) as i64;
            month += 1;
        }
        proof {
            lemma_remaining_fits_month(year as int, month as int, remaining as int);
        }
        let day: u32 = remaining as u32 + 1;
        Ok(date { year, month, day })
    }

    /// The day of the week, Monday as 0 through Sunday as 6 in this
    /// calendar's numbering: the day number modulo seven.
    pub fn weekday(&self) -> (r: u32)
        requires
            1 <= self.year,
            date_valid(*self),
        ensures
            r as int == ordinal_of(self.year as int, self.month as int, self.day as int) % 7,
            r < 7,
    {
        let ord = self.toordinal();
        let r = euclid_rem_small(ord, 7);
        r as u32
    }

    /// The day of the week, Monday as 1 through Sunday as 7, from the same
    /// numbering.
    pub fn isoweekday(&self) -> (r: u32)
        requires
            1 <= self.year,
            date_valid(*self),
        ensures
            ({
                let wd = ordinal_of(self.year as int, self.month as int, self.day as int) % 7;
                r as int == if wd == 0 {
                    7
                } else {
                    wd
                }
            }),
    {
        let wd = self.weekday();
        if wd == 0 {
            7
        } else {
            wd
        }
    }

    /// The year, week number and weekday of the date's week-numbering
    /// reading: weeks are counted from the first of January, whose weekday
    /// offsets the count, and the first days of the year fall in week 1.
    pub fn isocalendar(&self) -> (r: (i32, u32, u32))
        requires
            1 <= self.year,
            date_valid(*self),
        ensures
            ({
                let ord = ordinal_of(self.year as int, self.month as int, self.day as int);
                let jan1 = ordinal_of(self.year as int, 1, 1);
                let week = (ord - jan1 + jan1 % 7 + 7) / 7;
                let wd = ord % 7;
                r.0 == self.year && r.1 as int == (if week < 1 {
                    1
                } else {
                    week
                }) && r.2 as int == (if wd == 0 {
                    7
                } else {
                    wd
                })
            }),
    {
        let jan1_date = date { year: self.year, month: 1, day: 1 };
        let ord = self.toordinal();
        let jan1 = jan1_date.toordinal();
        let jan1_wd = euclid_rem_small(jan1, 7);
        proof {
            lemma_days_before_month_bounds(self.year as int, self.month as int);
            assert(ord - jan1 <= 366 + 31);
            assert(ord >= jan1);
        }
        let week64: i64 = (ord - jan1 + jan1_wd + 7) / 7;
        let week: u32 = if week64 < 1 {
            1
        } else {
            week64 as u32
        };
        let wd = self.isoweekday();
        (self.year, week, wd)
    }

    /// The date as `YYYY-MM-DD`, each part zero-padded.
    pub fn isoformat(&self) -> (r: String)
        requires
            0 <= self.year,
            date_valid(*self),
        ensures
            r@ == zero_pad(dec_digits(self.year as nat), 4) + "-"@ + zero_pad(
                dec_digits(self.month as nat),
                2,
            ) + "-"@ + zero_pad(dec_digits(self.day as nat), 2),
    {
        let mut out: Vec<char> = Vec::new();
        push_padded(self.year as u64, 4, &mut out);
        out.push('-');
        push_padded(self.month as u64, 2, &mut out);
        out.push('-');
        push_padded(self.day as u64, 2, &mut out);
        proof {
            reveal_strlit("-");
            assert(out@ =~= zero_pad(dec_digits(self.year as nat), 4) + "-"@ + zero_pad(
                dec_digits(self.month as nat),
                2,
            ) + "-"@ + zero_pad(dec_digits(self.day as nat), 2));
        }
        chars_to_string(&out)
    }

    /// The date with the given parts replaced, revalidated.
    pub fn replace(&self, year: Option<i32>, month: Option<u32>, day: Option<u32>) -> (r: Result<
        date,
        PyException,
    >)
        ensures
            ({
                let y = if year is Some { year.unwrap() } else { self.year };
                let m = if month is Some { month.unwrap() } else { self.month };
                let d = if day is Some { day.unwrap() } else { self.day };
                match r {
                    Ok(nd) => nd.year == y && nd.month == m && nd.day == d && date_valid(nd),
                    Err(e) => e.exception_type@ == "ValueError"@
                        && !(1 <= m <= 12 && 1 <= d <= days_in_month_spec(y as int, m as int)),
                }
            }),
    {
        let y = match year {
            Some(v) => v,
            None => self.year,
        };
        let m = match month {
            Some(v) => v,
            None => self.month,
        };
        let d = match day {
            Some(v) => v,
            None => self.day,
        };
        date::new(y, m, d)
    }

    /// The date written into `fmt`: each directive replaced in turn, `%Y`
    /// first, then `%m`, `%d`, `%B`, `%b`, `%A` and `%a`.
    pub fn strftime(&self, fmt: &str) -> (r: String)
        requires
            1 <= self.year,
            date_valid(*self),
        ensures
            r@ == date_strftime_spec(*self, fmt@),
    {
        let wd = self.weekday();
        let cur = crate::strutil::str_to_chars(fmt);
        let s1 = crate::strutil::replace_chars(
            &cur,
            &directive('Y'),
            &padded_chars(self.year as u64, 4),
        );
        let s2 = crate::strutil::replace_chars(
            &s1,
            &directive('m'),
            &padded_chars(self.month as u64, 2),
        );
        let s3 = crate::strutil::replace_chars(
            &s2,
            &directive('d'),
            &padded_chars(self.day as u64, 2),
        );
        let (month_full, month_short) = month_name_chars(self.month);
        let s4 = crate::strutil::replace_chars(&s3, &directive('B'), &month_full);
        let s5 = crate::strutil::replace_chars(&s4, &directive('b'), &month_short);
        let (wd_full, wd_short) = weekday_name_chars(wd);
        let s6 = crate::strutil::replace_chars(&s5, &directive('A'), &wd_full);
        let s7 = crate::strutil::replace_chars(&s6, &directive('a'), &wd_short);
        proof {
            reveal_strlit("%Y");
            reveal_strlit("%m");
            reveal_strlit("%d");
            reveal_strlit("%B");
            reveal_strlit("%b");
            reveal_strlit("%A");
            reveal_strlit("%a");
            assert(seq!['%', 'Y'] =~= "%Y"@);
            assert(seq!['%', 'm'] =~= "%m"@);
            assert(seq!['%', 'd'] =~= "%d"@);
            assert(seq!['%', 'B'] =~= "%B"@);
            assert(seq!['%', 'b'] =~= "%b"@);
            assert(seq!['%', 'A'] =~= "%A"@);
            assert(seq!['%', 'a'] =~= "%a"@);
        }
        chars_to_string(&s7)
    }

    /// Today, by the system clock, as a calendar date (clock readings past
    /// the last representable year saturate there).
    pub fn today() -> (r: date)
        ensures
            date_valid(r),
            1 <= r.year,
    {
        let (secs, _micros) = clock_unix_now();
        let days: u64 = secs / 86400;
        let ordinal: i64 = if days > (MAX_ORDINAL - 719163) as u64 {
            MAX_ORDINAL
        } else {
            days as i64 + 719163
        };
        match date::fromordinal(ordinal) {
            Ok(d) => d,
            Err(_) => {
                proof {
                    assert(false);
                }
                date { year: 1, month: 1, day: 1 }
            }
        }
    }
}

/// After the month loop, the remainder fits inside the chosen month.
proof fn lemma_remaining_fits_month(year: int, month: int, remaining: int)
    requires
        1 <= month <= 12,
        0 <= remaining,
        remaining + days_before_month(year, month) < days_in_year_spec(year),
        month < 12 ==> remaining < days_in_month_spec(year, month),
    ensures
        remaining < days_in_month_spec(year, month),
{
    if month == 12 {
        lemma_days_before_month_sum(year);
    }
}

/// The twelve months sum to the year's days.
proof fn lemma_days_before_month_sum(year: int)
    ensures
        days_before_month(year, 13) == days_in_year_spec(year),
        days_before_month(year, 12) + days_in_month_spec(year, 12) == days_in_year_spec(year),
{
    assert(days_before_month(year, 1) == 0);
    assert(days_before_month(year, 2) == 31);
    assert(days_before_month(year, 3) == days_before_month(year, 2)
        + days_in_month_spec(year, 2));
    assert(days_before_month(year, 4) == days_before_month(year, 3) + 31);
    assert(days_before_month(year, 5) == days_before_month(year, 4) + 30);
    assert(days_before_month(year, 6) == days_before_month(year, 5) + 31);
    assert(days_before_month(year, 7) == days_before_month(year, 6) + 30);
    assert(days_before_month(year, 8) == days_before_month(year, 7) + 31);
    assert(days_before_month(year, 9) == days_before_month(year, 8) + 31);
    assert(days_before_month(year, 10) == days_before_month(year, 9) + 30);
    assert(days_before_month(year, 11) == days_before_month(year, 10) + 31);
    assert(days_before_month(year, 12) == days_before_month(year, 11) + 30);
    assert(days_before_month(year, 13) == days_before_month(year, 12) + 31);
}

/// `s` left-padded with zeros to width `w`.
pub open spec fn zero_pad(s: Seq<char>, w: int) -> Seq<char>
    decreases w - s.len(),
{
    if s.len() >= w {
        s
    } else {
        zero_pad(seq!['0'] + s, w)
    }
}

/// Append the decimal digits of `n`, zero-padded to width `w`.
fn push_padded(n: u64, w: usize, out: &mut Vec<char>)
    requires
        w <= 8,
    ensures
        final(out)@ == old(out)@ + zero_pad(dec_digits(n as nat), w as int),
{
    let digits = crate::numstr::u64_to_chars(n);
    let mut padded: Vec<char> = Vec::new();
    let mut pad: usize = 0;
    let need: usize = if digits.len() >= w {
        0
    } else {
        w - digits.len()
    };
    while pad < need
        invariant
            pad <= need,
            need + digits@.len() <= 8 || need == 0,
            padded@ =~= crate::strutil::repeat_spec(seq!['0'], pad as int),
        decreases need - pad,
    {
        padded.push('0');
        proof {
            crate::strutil::lemma_repeat_snoc(seq!['0'], pad as int);
            assert(padded@ =~= crate::strutil::repeat_spec(seq!['0'], pad + 1));
        }
        pad += 1;
    }
    push_all(&mut padded, &digits);
    proof {
        lemma_zero_pad_shape(digits@, w as int);
        assert(padded@ =~= zero_pad(digits@, w as int));
    }
    push_all(out, &padded);
}

/// Zero padding is a run of zeros before the digits.
proof fn lemma_zero_pad_shape(s: Seq<char>, w: int)
    ensures
        s.len() >= w ==> zero_pad(s, w) == s,
        s.len() < w ==> zero_pad(s, w) == crate::strutil::repeat_spec(seq!['0'], w - s.len()) + s,
    decreases w - s.len(),
{
    if s.len() < w {
        lemma_zero_pad_shape(seq!['0'] + s, w);
        if (seq!['0'] + s).len() < w {
            crate::strutil::lemma_repeat_snoc(seq!['0'], w - s.len() - 1);
            assert(crate::strutil::repeat_spec(seq!['0'], w - s.len())
                =~= crate::strutil::repeat_spec(seq!['0'], w - s.len() - 1) + seq!['0']);
            assert(crate::strutil::repeat_spec(seq!['0'], w - s.len() - 1) + (seq!['0'] + s)
                =~= (crate::strutil::repeat_spec(seq!['0'], w - s.len() - 1) + seq!['0']) + s);
        } else {
            assert(crate::strutil::repeat_spec(seq!['0'], 1) =~= seq!['0']);
        }
    }
}

/// Relies on `std::time::SystemTime::now` and `duration_since(UNIX_EPOCH)`:
/// whole seconds since the epoch and the microseconds within the current
/// second (below one million); a clock before the epoch reads as zero.
#[verifier::external_body]
fn clock_unix_now() -> (r: (u64, u32))
    ensures
        r.1 < 1_000_000,
{
    match std::time::SystemTime::now().duration_since(std::time::UNIX_EPOCH) {
        Ok(d) => (d.as_secs(), d.subsec_micros()),
        Err(_) => (0, 0),
    }
}


/// A clock time of day, to microsecond precision.
#[derive(Debug, Clone, Copy, PartialEq, Eq, Structural)]
pub struct time {
    pub hour: u32,
    pub minute: u32,
    pub second: u32,
    pub microsecond: u32,
}

/// A time whose parts lie within a day.
pub open spec fn time_valid(t: time) -> bool {
    t.hour < 24 && t.minute < 60 && t.second < 60 && t.microsecond < 1_000_000
}

impl time {
    /// A time, validated part by part; omitted seconds and microseconds
    /// are zero.
    pub fn new(hour: u32, minute: u32, second: Option<u32>, microsecond: Option<u32>) -> (r:
        Result<time, PyException>)
        ensures
            ({
                let s = if second is Some { second.unwrap() } else { 0 };
                let us = if microsecond is Some { microsecond.unwrap() } else { 0 };
                match r {
                    Ok(t) => t.hour == hour && t.minute == minute && t.second == s
                        && t.microsecond == us && time_valid(t),
                    Err(e) => e.exception_type@ == "ValueError"@
                        && !(hour < 24 && minute < 60 && s < 60 && us < 1_000_000),
                }
            }),
    {
        if hour >= 24 {
            return Err(value_error("hour must be in 0..23"));
        }
        if minute >= 60 {
            return Err(value_error("minute must be in 0..59"));
        }
        let s = match second {
            Some(v) => v,
            None => 0,
        };
        if s >= 60 {
            return Err(value_error("second must be in 0..59"));
        }
        let us = match microsecond {
            Some(v) => v,
            None => 0,
        };
        if us >= 1_000_000 {
            return Err(value_error("microsecond must be in 0..999999"));
        }
        Ok(time { hour, minute, second: s, microsecond: us })
    }

    /// The time as `HH:MM:SS`, cut to the named precision, with the
    /// microseconds appended only when present and no precision is named.
    pub fn isoformat(&self, timespec: Option<&str>) -> (r: String)
        ensures
            ({
                let hh = zero_pad(dec_digits(self.hour as nat), 2);
                let mm = zero_pad(dec_digits(self.minute as nat), 2);
                let ss = zero_pad(dec_digits(self.second as nat), 2);
                let us = zero_pad(dec_digits(self.microsecond as nat), 6);
                r@ == (if timespec is Some && timespec.unwrap()@ == "hours"@ {
                    hh
                } else if timespec is Some && timespec.unwrap()@ == "minutes"@ {
                    hh + ":"@ + mm
                } else if timespec is Some && timespec.unwrap()@ == "seconds"@ {
                    hh + ":"@ + mm + ":"@ + ss
                } else if self.microsecond == 0 {
                    hh + ":"@ + mm + ":"@ + ss
                } else {
                    hh + ":"@ + mm + ":"@ + ss + "."@ + us
                })
            }),
    {
        let mut out: Vec<char> = Vec::new();
        let mode: u32 = match timespec {
            Some(spec_name) => {
                let chars = crate::strutil::str_to_chars(spec_name);
                let hours_lit = crate::strutil::str_to_chars("hours");
                let minutes_lit = crate::strutil::str_to_chars("minutes");
                let seconds_lit = crate::strutil::str_to_chars("seconds");
                if crate::strutil::chars_eq(&chars, &hours_lit) {
                    1
                } else if crate::strutil::chars_eq(&chars, &minutes_lit) {
                    2
                } else if crate::strutil::chars_eq(&chars, &seconds_lit) {
                    3
                } else {
                    0
                }
            }
            None => 0,
        };
        push_padded(self.hour as u64, 2, &mut out);
        if mode != 1 {
            out.push(':');
            push_padded(self.minute as u64, 2, &mut out);
            if mode != 2 {
                out.push(':');
                push_padded(self.second as u64, 2, &mut out);
                if mode == 0 && self.microsecond != 0 {
                    out.push('.');
                    push_padded(self.microsecond as u64, 6, &mut out);
                }
            }
        }
        proof {
            reveal_strlit(":");
            reveal_strlit(".");
            let hh = zero_pad(dec_digits(self.hour as nat), 2);
            let mm = zero_pad(dec_digits(self.minute as nat), 2);
            let ss = zero_pad(dec_digits(self.second as nat), 2);
            let us = zero_pad(dec_digits(self.microsecond as nat), 6);
            if mode == 1 {
                assert(out@ =~= hh);
            } else if mode == 2 {
                assert(out@ =~= hh + ":"@ + mm);
            } else if mode == 3 {
                assert(out@ =~= hh + ":"@ + mm + ":"@ + ss);
            } else if self.microsecond == 0 {
                assert(out@ =~= hh + ":"@ + mm + ":"@ + ss);
            } else {
                assert(out@ =~= hh + ":"@ + mm + ":"@ + ss + "."@ + us);
            }
        }
        chars_to_string(&out)
    }

    /// The time written into `fmt`: `%H`, then `%M`, `%S` and `%f`.
    pub fn strftime(&self, fmt: &str) -> (r: String)
        ensures
            r@ == time_strftime_spec(*self, fmt@),
    {
        let cur = crate::strutil::str_to_chars(fmt);
        let s1 = crate::strutil::replace_chars(
            &cur,
            &directive('H'),
            &padded_chars(self.hour as u64, 2),
        );
        let s2 = crate::strutil::replace_chars(
            &s1,
            &directive('M'),
            &padded_chars(self.minute as u64, 2),
        );
        let s3 = crate::strutil::replace_chars(
            &s2,
            &directive('S'),
            &padded_chars(self.second as u64, 2),
        );
        let s4 = crate::strutil::replace_chars(
            &s3,
            &directive('f'),
            &padded_chars(self.microsecond as u64, 6),
        );
        proof {
            reveal_strlit("%H");
            reveal_strlit("%M");
            reveal_strlit("%S");
            reveal_strlit("%f");
            assert(seq!['%', 'H'] =~= "%H"@);
            assert(seq!['%', 'M'] =~= "%M"@);
            assert(seq!['%', 'S'] =~= "%S"@);
            assert(seq!['%', 'f'] =~= "%f"@);
        }
        chars_to_string(&s4)
    }

    /// The time with the given parts replaced, revalidated.
    pub fn replace(
        &self,
        hour: Option<u32>,
        minute: Option<u32>,
        second: Option<u32>,
        microsecond: Option<u32>,
    ) -> (r: Result<time, PyException>)
        ensures
            ({
                let h = if hour is Some { hour.unwrap() } else { self.hour };
                let m = if minute is Some { minute.unwrap() } else { self.minute };
                let s = if second is Some { second.unwrap() } else { self.second };
                let us = if microsecond is Some { microsecond.unwrap() } else {
                    self.microsecond
                };
                match r {
                    Ok(t) => t.hour == h && t.minute == m && t.second == s
                        && t.microsecond == us && time_valid(t),
                    Err(e) => e.exception_type@ == "ValueError"@
                        && !(h < 24 && m < 60 && s < 60 && us < 1_000_000),
                }
            }),
    {
        let h = match hour {
            Some(v) => v,
            None => self.hour,
        };
        let m = match minute {
            Some(v) => v,
            None => self.minute,
        };
        let s = match second {
            Some(v) => v,
            None => self.second,
        };
        let us = match microsecond {
            Some(v) => v,
            None => self.microsecond,
        };
        time::new(h, m, Some(s), Some(us))
    }
}

/// A calendar date paired with a time of day.
#[derive(Debug, Clone, Copy, PartialEq, Eq, Structural)]
pub struct datetime {
    pub date: date,
    pub time: time,
}

impl datetime {
    /// A date and time, both validated; omitted time parts are zero.
    pub fn new(
        year: i32,
        month: u32,
        day: u32,
        hour: Option<u32>,
        minute: Option<u32>,
        second: Option<u32>,
        microsecond: Option<u32>,
    ) -> (r: Result<datetime, PyException>)
        ensures
            match r {
                Ok(dt) => dt.date.year == year && dt.date.month == month && dt.date.day == day
                    && date_valid(dt.date) && time_valid(dt.time)
                    && dt.time.hour == (if hour is Some { hour.unwrap() } else { 0 })
                    && dt.time.minute == (if minute is Some { minute.unwrap() } else { 0 })
                    && dt.time.second == (if second is Some { second.unwrap() } else { 0 })
                    && dt.time.microsecond == (if microsecond is Some {
                        microsecond.unwrap()
                    } else {
                        0
                    }),
                Err(e) => e.exception_type@ == "ValueError"@,
            },
    {
        let d = match date::new(year, month, day) {
            Ok(d) => d,
            Err(e) => {
                return Err(e);
            }
        };
        let h = match hour {
            Some(v) => v,
            None => 0,
        };
        let m = match minute {
            Some(v) => v,
            None => 0,
        };
        let t = match time::new(h, m, second, microsecond) {
            Ok(t) => t,
            Err(e) => {
                return Err(e);
            }
        };
        Ok(datetime { date: d, time: t })
    }

    /// The moment now, by the system clock, taken as a plain calendar
    /// reading (readings past the last representable year saturate there).
    pub fn now() -> (r: datetime)
        ensures
            date_valid(r.date),
            time_valid(r.time),
            1 <= r.date.year,
    {
        let (secs, micros) = clock_unix_now();
        let days: u64 = secs / 86400;
        let seconds_today: u64 = secs % 86400;
        let ordinal: i64 = if days > (MAX_ORDINAL - 719163) as u64 {
            MAX_ORDINAL
        } else {
            days as i64 + 719163
        };
        let d = match date::fromordinal(ordinal) {
            Ok(d) => d,
            Err(_) => {
                proof {
                    assert(false);
                }
                date { year: 1, month: 1, day: 1 }
            }
        };
        let hour = (seconds_today / 3600) as u32;
        let minute = ((seconds_today % 3600) / 60) as u32;
        let second = (seconds_today % 60) as u32;
        let t = time { hour, minute, second, microsecond: micros };
        proof {
            assert(seconds_today < 86400);
            assert(time_valid(t));
        }
        datetime { date: d, time: t }
    }

    /// The moment now; this library keeps no time zones, so it is `now`.
    pub fn utcnow() -> (r: datetime)
        ensures
            date_valid(r.date),
            time_valid(r.time),
            1 <= r.date.year,
    {
        datetime::now()
    }

    /// The date half.
    pub fn date_component(&self) -> (r: date)
        ensures
            r == self.date,
    {
        self.date
    }

    /// The time half.
    pub fn time_component(&self) -> (r: time)
        ensures
            r == self.time,
    {
        self.time
    }

    /// The date and time as one text, joined by `sep` (`T` when omitted).
    pub fn isoformat(&self, sep: Option<char>, timespec: Option<&str>) -> (r: String)
        requires
            0 <= self.date.year,
            date_valid(self.date),
        ensures
            r@.len() > 0,
    {
        let s = match sep {
            Some(c) => c,
            None => 'T',
        };
        let mut out = self.date.isoformat();
        let mut tail: Vec<char> = Vec::new();
        tail.push(s);
        out.append(chars_to_string(&tail).as_str());
        out.append(self.time.isoformat(timespec).as_str());
        proof {
            assert(out@.len() > 0);
        }
        out
    }

    /// The date and time written into `fmt`: the time directives are
    /// substituted first, then the date directives.
    pub fn strftime(&self, fmt: &str) -> (r: String)
        requires
            1 <= self.date.year,
            date_valid(self.date),
        ensures
            r@ == date_strftime_spec(self.date, time_strftime_spec(self.time, fmt@)),
    {
        let with_time = self.time.strftime(fmt);
        self.date.strftime(with_time.as_str())
    }

    /// The date and time with the given parts replaced, revalidated.
    pub fn replace(
        &self,
        year: Option<i32>,
        month: Option<u32>,
        day: Option<u32>,
        hour: Option<u32>,
        minute: Option<u32>,
        second: Option<u32>,
        microsecond: Option<u32>,
    ) -> (r: Result<datetime, PyException>)
        ensures
            match r {
                Ok(dt) => date_valid(dt.date) && time_valid(dt.time)
                    && dt.date.year == (if year is Some { year.unwrap() } else {
                        self.date.year
                    })
                    && dt.date.month == (if month is Some { month.unwrap() } else {
                        self.date.month
                    })
                    && dt.date.day == (if day is Some { day.unwrap() } else { self.date.day })
                    && dt.time.hour == (if hour is Some { hour.unwrap() } else {
                        self.time.hour
                    })
                    && dt.time.minute == (if minute is Some { minute.unwrap() } else {
                        self.time.minute
                    })
                    && dt.time.second == (if second is Some { second.unwrap() } else {
                        self.time.second
                    })
                    && dt.time.microsecond == (if microsecond is Some {
                        microsecond.unwrap()
                    } else {
                        self.time.microsecond
                    }),
                Err(e) => e.exception_type@ == "ValueError"@,
            },
    {
        let new_date = match self.date.replace(year, month, day) {
            Ok(d) => d,
            Err(e) => {
                return Err(e);
            }
        };
        let new_time = match self.time.replace(hour, minute, second, microsecond) {
            Ok(t) => t,
            Err(e) => {
                return Err(e);
            }
        };
        Ok(datetime { date: new_date, time: new_time })
    }
}

/// Splitting a microsecond total by a million and then by the seconds of
/// a day recombines exactly, and a bounded total pins the day count into
/// the 64-bit range.
proof fn lemma_timedelta_split(total: int, rest: int, day_count: int, secs: int, micros: int)
    requires
        total == rest * 1_000_000 + micros,
        rest == day_count * 86_400 + secs,
        0 <= micros < 1_000_000,
        0 <= secs < 86_400,
        i64::MIN * 86_400_000_000 <= total <= i64::MAX * 86_400_000_000,
    ensures
        total == day_count * 86_400_000_000 + secs * 1_000_000 + micros,
        i64::MIN <= day_count <= i64::MAX,
{
    assert(total == day_count * 86_400 * 1_000_000 + secs * 1_000_000 + micros)
        by (nonlinear_arith)
        requires
            total == rest * 1_000_000 + micros,
            rest == day_count * 86_400 + secs,
    ;
    assert(day_count * 86_400_000_000 <= total) by (nonlinear_arith)
        requires
            total == day_count * 86_400_000_000 + secs * 1_000_000 + micros,
            0 <= secs < 86_400,
            0 <= micros < 1_000_000,
    ;
    assert(total < (day_count + 1) * 86_400_000_000) by (nonlinear_arith)
        requires
            total == day_count * 86_400_000_000 + secs * 1_000_000 + micros,
            0 <= secs < 86_400,
            0 <= micros < 1_000_000,
    ;
    assert(i64::MIN as int <= day_count <= i64::MAX as int) by (nonlinear_arith)
        requires
            day_count * 86_400_000_000 <= total,
            total < (day_count + 1) * 86_400_000_000,
            i64::MIN * 86_400_000_000 <= total <= i64::MAX * 86_400_000_000,
    ;
}

/// The moment now, with no time zone applied.
pub fn utcnow() -> (r: datetime)
    ensures
        date_valid(r.date),
        time_valid(r.time),
        1 <= r.date.year,
{
    datetime::utcnow()
}

/// A duration, normalised to days, seconds within a day, and microseconds
/// within a second.
#[derive(Debug, Clone, Copy, PartialEq, Eq, Structural)]
pub struct timedelta {
    pub days: i64,
    pub seconds: i64,
    pub microseconds: i64,
}

/// The total microseconds the seven optional parts add up to.
pub open spec fn timedelta_total(
    days: Option<i64>,
    seconds: Option<i64>,
    microseconds: Option<i64>,
    milliseconds: Option<i64>,
    minutes: Option<i64>,
    hours: Option<i64>,
    weeks: Option<i64>,
) -> int {
    ({
        let d: int = if days is Some { days.unwrap() as int } else { 0 };
        let s: int = if seconds is Some { seconds.unwrap() as int } else { 0 };
        let us: int = if microseconds is Some { microseconds.unwrap() as int } else { 0 };
        let ms: int = if milliseconds is Some { milliseconds.unwrap() as int } else { 0 };
        let mi: int = if minutes is Some { minutes.unwrap() as int } else { 0 };
        let h: int = if hours is Some { hours.unwrap() as int } else { 0 };
        let w: int = if weeks is Some { weeks.unwrap() as int } else { 0 };
        d * 86_400_000_000 + s * 1_000_000 + us + ms * 1000 + mi * 60_000_000
            + h * 3_600_000_000 + w * 604_800_000_000
    })
}

impl timedelta {
    /// A duration from any mix of units, normalised so the microseconds
    /// lie within a second and the seconds within a day, with the whole
    /// total preserved exactly.
    #[verifier::rlimit(100)]
    pub fn new(
        days: Option<i64>,
        seconds: Option<i64>,
        microseconds: Option<i64>,
        milliseconds: Option<i64>,
        minutes: Option<i64>,
        hours: Option<i64>,
        weeks: Option<i64>,
    ) -> (r: timedelta)
        requires
            i64::MIN * 86_400_000_000 <= timedelta_total(
                days,
                seconds,
                microseconds,
                milliseconds,
                minutes,
                hours,
                weeks,
            ) <= i64::MAX * 86_400_000_000,
        ensures
            0 <= r.microseconds < 1_000_000,
            0 <= r.seconds < 86_400,
            r.days as int * 86_400_000_000 + r.seconds as int * 1_000_000
                + r.microseconds as int == timedelta_total(
                days,
                seconds,
                microseconds,
                milliseconds,
                minutes,
                hours,
                weeks,
            ),
    {
        let d: i64 = match days {
            Some(v) => v,
            None => 0,
        };
        let s: i64 = match seconds {
            Some(v) => v,
            None => 0,
        };
        let us: i64 = match microseconds {
            Some(v) => v,
            None => 0,
        };
        let ms: i64 = match milliseconds {
            Some(v) => v,
            None => 0,
        };
        let mi: i64 = match minutes {
            Some(v) => v,
            None => 0,
        };
        let h: i64 = match hours {
            Some(v) => v,
            None => 0,
        };
        let w: i64 = match weeks {
            Some(v) => v,
            None => 0,
        };
        let total: i128 = d as i128 * 86_400_000_000 + s as i128 * 1_000_000 + us as i128
            + ms as i128 * 1000 + mi as i128 * 60_000_000 + h as i128 * 3_600_000_000
            + w as i128 * 604_800_000_000;
        let (rest, micros) = divmod_euclid(total, 1_000_000);
        let (day_count, secs) = divmod_euclid(rest, 86_400);
        proof {
            lemma_timedelta_split(
                total as int,
                rest as int,
                day_count as int,
                secs as int,
                micros as int,
            );
        }
        timedelta { days: day_count as i64, seconds: secs as i64, microseconds: micros as i64 }
    }
}


/// The English month name.
pub open spec fn month_name_spec(month: int) -> Seq<char> {
    if month == 1 { "January"@ } else if month == 2 { "February"@ }
    else if month == 3 { "March"@ } else if month == 4 { "April"@ }
    else if month == 5 { "May"@ } else if month == 6 { "June"@ }
    else if month == 7 { "July"@ } else if month == 8 { "August"@ }
    else if month == 9 { "September"@ } else if month == 10 { "October"@ }
    else if month == 11 { "November"@ } else if month == 12 { "December"@ }
    else { "Unknown"@ }
}

/// The English weekday name, Monday as day 0.
pub open spec fn weekday_name_spec(wd: int) -> Seq<char> {
    if wd == 0 { "Monday"@ } else if wd == 1 { "Tuesday"@ }
    else if wd == 2 { "Wednesday"@ } else if wd == 3 { "Thursday"@ }
    else if wd == 4 { "Friday"@ } else if wd == 5 { "Saturday"@ }
    else if wd == 6 { "Sunday"@ } else { "Unknown"@ }
}

/// What formatting a date does: each directive replaced in turn, `%Y`
/// first, then `%m`, `%d`, `%B`, `%b`, `%A` and `%a`.
pub open spec fn date_strftime_spec(d: date, fmt: Seq<char>) -> Seq<char> {
    ({
        let wd = ordinal_of(d.year as int, d.month as int, d.day as int) % 7;
        let s1 = crate::strutil::replace_spec(fmt, "%Y"@, zero_pad(dec_digits(d.year as nat), 4));
        let s2 = crate::strutil::replace_spec(s1, "%m"@, zero_pad(dec_digits(d.month as nat), 2));
        let s3 = crate::strutil::replace_spec(s2, "%d"@, zero_pad(dec_digits(d.day as nat), 2));
        let s4 = crate::strutil::replace_spec(s3, "%B"@, month_name_spec(d.month as int));
        let s5 = crate::strutil::replace_spec(s4, "%b"@, month_name_spec(d.month as int).take(3));
        let s6 = crate::strutil::replace_spec(s5, "%A"@, weekday_name_spec(wd));
        crate::strutil::replace_spec(s6, "%a"@, weekday_name_spec(wd).take(3))
    })
}

/// What formatting a time does: `%H`, then `%M`, `%S` and `%f`.
pub open spec fn time_strftime_spec(t: time, fmt: Seq<char>) -> Seq<char> {
    ({
        let s1 = crate::strutil::replace_spec(fmt, "%H"@, zero_pad(dec_digits(t.hour as nat), 2));
        let s2 = crate::strutil::replace_spec(s1, "%M"@, zero_pad(dec_digits(t.minute as nat), 2));
        let s3 = crate::strutil::replace_spec(s2, "%S"@, zero_pad(dec_digits(t.second as nat), 2));
        crate::strutil::replace_spec(s3, "%f"@, zero_pad(dec_digits(t.microsecond as nat), 6))
    })
}

/// A two-character directive pattern.
fn directive(c: char) -> (r: Vec<char>)
    ensures
        r@ == seq!['%', c],
{
    let mut out: Vec<char> = Vec::new();
    out.push('%');
    out.push(c);
    out
}

/// A padded numeral as a character buffer.
fn padded_chars(n: u64, w: usize) -> (r: Vec<char>)
    requires
        w <= 8,
    ensures
        r@ == zero_pad(dec_digits(n as nat), w as int),
{
    let mut out: Vec<char> = Vec::new();
    push_padded(n, w, &mut out);
    out
}

/// The month's English name as a buffer, with its three-letter form.
fn month_name_chars(month: u32) -> (r: (Vec<char>, Vec<char>))
    ensures
        r.0@ == month_name_spec(month as int),
        r.1@ == month_name_spec(month as int).take(3),
{
    let full: &str = if month == 1 { "January" } else if month == 2 { "February" }
        else if month == 3 { "March" } else if month == 4 { "April" }
        else if month == 5 { "May" } else if month == 6 { "June" }
        else if month == 7 { "July" } else if month == 8 { "August" }
        else if month == 9 { "September" } else if month == 10 { "October" }
        else if month == 11 { "November" } else if month == 12 { "December" }
        else { "Unknown" };
    let chars = crate::strutil::str_to_chars(full);
    let mut short: Vec<char> = Vec::new();
    proof {
        reveal_strlit("January");
        reveal_strlit("February");
        reveal_strlit("March");
        reveal_strlit("April");
        reveal_strlit("May");
        reveal_strlit("June");
        reveal_strlit("July");
        reveal_strlit("August");
        reveal_strlit("September");
        reveal_strlit("October");
        reveal_strlit("November");
        reveal_strlit("December");
        reveal_strlit("Unknown");
        assert(chars@.len() >= 3);
    }
    short.push(chars[0]);
    short.push(chars[1]);
    short.push(chars[2]);
    proof {
        assert(short@ =~= chars@.take(3));
    }
    (chars, short)
}

/// The weekday's English name as a buffer, with its three-letter form.
fn weekday_name_chars(wd: u32) -> (r: (Vec<char>, Vec<char>))
    ensures
        r.0@ == weekday_name_spec(wd as int),
        r.1@ == weekday_name_spec(wd as int).take(3),
{
    let full: &str = if wd == 0 { "Monday" } else if wd == 1 { "Tuesday" }
        else if wd == 2 { "Wednesday" } else if wd == 3 { "Thursday" }
        else if wd == 4 { "Friday" } else if wd == 5 { "Saturday" }
        else if wd == 6 { "Sunday" } else { "Unknown" };
    let chars = crate::strutil::str_to_chars(full);
    let mut short: Vec<char> = Vec::new();
    proof {
        reveal_strlit("Monday");
        reveal_strlit("Tuesday");
        reveal_strlit("Wednesday");
        reveal_strlit("Thursday");
        reveal_strlit("Friday");
        reveal_strlit("Saturday");
        reveal_strlit("Sunday");
        reveal_strlit("Unknown");
        assert(chars@.len() >= 3);
    }
    short.push(chars[0]);
    short.push(chars[1]);
    short.push(chars[2]);
    proof {
        assert(short@ =~= chars@.take(3));
    }
    (chars, short)
}

} // verus!
