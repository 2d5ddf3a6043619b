//! Calendar dates and their fixed `YYYY-MM-DD` textual form.
//!
//! Event documents carry a date with no time-of-day and no timezone.  The
//! textual form is fixed: a four-digit year, a two-digit month and a two-digit
//! day, separated by dashes.  `serialize` and `deserialize` are exact inverses
//! on every well-formed date; `lemma_date_round_trip` states that law.

use vstd::arithmetic::div_mod::{lemma_fundamental_div_mod, lemma_fundamental_div_mod_converse};
use vstd::prelude::*;

verus! {

/// A calendar date in the proleptic Gregorian calendar, restricted to the
/// years that the four-digit textual form can carry (0 through 9999).
#[derive(Clone, Copy, PartialEq, Eq, Structural, Debug)]
pub struct Date {
    pub year: u16,
    pub month: u8,
    pub day: u8,
}

pub open spec fn is_leap_year(y: int) -> bool {
    y % 4 == 0 && (y % 100 != 0 || y % 400 == 0)
}

pub open spec fn days_in_month(y: int, m: int) -> int {
    if m == 2 {
        if is_leap_year(y) {
            29
        } else {
            28
        }
    } else if m == 4 || m == 6 || m == 9 || m == 11 {
        30
    } else {
        31
    }
}

impl Date {
    /// The date names a real day of the calendar and fits the textual form.
    pub open spec fn wf(self) -> bool {
        &&& self.year <= 9999
        &&& 1 <= self.month <= 12
        &&& 1 <= self.day <= days_in_month(self.year as int, self.month as int)
    }

    /// Lexicographic order on (year, month, day), which is the calendar order.
    pub open spec fn spec_le(self, other: Date) -> bool {
        ||| self.year < other.year
        ||| (self.year == other.year && self.month < other.month)
        ||| (self.year == other.year && self.month == other.month && self.day <= other.day)
    }

    /// Builds a date, accepting exactly the well-formed ones.
    pub fn new(year: u16, month: u8, day: u8) -> (r: Option<Date>)
        ensures
            match r {
                Some(d) => d == (Date { year, month, day }) && d.wf(),
                None => !(Date { year, month, day }).wf(),
            },
    {
        if year <= 9999 && 1 <= month && month <= 12 && 1 <= day && day <= month_len(year, month)
        {
            Some(Date { year, month, day })
        } else {
            None
        }
    }

    /// Decides the calendar order; `self` on or before `other`.
    pub fn le(&self, other: &Date) -> (r: bool)
        ensures
            r == self.spec_le(*other),
    {
        if self.year != other.year {
            self.year < other.year
        } else if self.month != other.month {
            self.month < other.month
        } else {
            self.day <= other.day
        }
    }
}

/// The calendar order is total: of any two dates, one is on or before the
/// other.
pub proof fn lemma_date_le_total(a: Date, b: Date)
    ensures
        a.spec_le(b) || b.spec_le(a),
{
}

/// The calendar order is transitive.
pub proof fn lemma_date_le_trans(a: Date, b: Date, c: Date)
    requires
        a.spec_le(b),
        b.spec_le(c),
    ensures
        a.spec_le(c),
{
}

/// Number of days in the given month of the given year.
pub fn month_len(year: u16, month: u8) -> (r: u8)
    ensures
        r as int == days_in_month(year as int, month as int),
{
    if month == 2 {
        if year % 4 == 0 && (year % 100 != 0 || year % 400 == 0) {
            29
        } else {
            28
        }
    } else if month == 4 || month == 6 || month == 9 || month == 11 {
        30
    } else {
        31
    }
}

pub open spec fn is_digit(b: u8) -> bool {
    48 <= b <= 57
}

pub open spec fn digit_val(b: u8) -> int {
    b as int - 48
}

pub open spec fn digit_byte(n: int) -> u8
    recommends
        0 <= n <= 9,
{
    (48 + n) as u8
}

/// The ten bytes `YYYY-MM-DD` of a date.
pub open spec fn date_bytes(d: Date) -> Seq<u8> {
    seq![
        digit_byte(d.year as int / 1000 % 10),
        digit_byte(d.year as int / 100 % 10),
        digit_byte(d.year as int / 10 % 10),
        digit_byte(d.year as int % 10),
        45u8,
        digit_byte(d.month as int / 10),
        digit_byte(d.month as int % 10),
        45u8,
        digit_byte(d.day as int / 10),
        digit_byte(d.day as int % 10),
    ]
}

/// The date a byte string denotes: defined exactly on ten-byte strings of the
/// form `YYYY-MM-DD` that name a well-formed date.
pub open spec fn parse_date(s: Seq<u8>) -> Option<Date> {
    if s.len() == 10 && is_digit(s[0]) && is_digit(s[1]) && is_digit(s[2]) && is_digit(s[3]) && s[4]
        == 45u8 && is_digit(s[5]) && is_digit(s[6]) && s[7] == 45u8 && is_digit(s[8]) && is_digit(
        s[9],
    ) {
        let y = digit_val(s[0]) * 1000 + digit_val(s[1]) * 100 + digit_val(s[2]) * 10 + digit_val(
            s[3],
        );
        let m = digit_val(s[5]) * 10 + digit_val(s[6]);
        let d = digit_val(s[8]) * 10 + digit_val(s[9]);
        let date = Date { year: y as u16, month: m as u8, day: d as u8 };
        if date.wf() {
            Some(date)
        } else {
            None
        }
    } else {
        None
    }
}

/// Encodes a date as the ten bytes `YYYY-MM-DD`.
pub fn serialize(date: &Date) -> (r: Vec<u8>)
    requires
        date.wf(),
    ensures
        r@ == date_bytes(*date),
{
    let mut out: Vec<u8> = Vec::new();
    let y: u16 = date.year;
    out.push((48 + (y / 1000) % 10) as u8);
    out.push((48 + (y / 100) % 10) as u8);
    out.push((48 + (y / 10) % 10) as u8);
    out.push((48 + y % 10) as u8);
    out.push(45u8);
    let m: u8 = date.month;
    out.push(48 + (m / 10));
    out.push(48 + (m % 10));
    out.push(45u8);
    let d: u8 = date.day;
    out.push(48 + (d / 10));
    out.push(48 + (d % 10));
    proof {
        assert(out@ =~= date_bytes(*date));
    }
    out
}

/// Decodes the ten bytes `YYYY-MM-DD` back into a date; `None` on any byte
/// string that does not denote a well-formed date.
pub fn deserialize(s: &[u8]) -> (r: Option<Date>)
    ensures
        r == parse_date(s@),
{
    if s.len() != 10 {
        return None;
    }
    let b0: u8 = s[0];
    let b1: u8 = s[1];
    let b2: u8 = s[2];
    let b3: u8 = s[3];
    let b4: u8 = s[4];
    let b5: u8 = s[5];
    let b6: u8 = s[6];
    let b7: u8 = s[7];
    let b8: u8 = s[8];
    let b9: u8 = s[9];
    if !(48 <= b0 && b0 <= 57 && 48 <= b1 && b1 <= 57 && 48 <= b2 && b2 <= 57 && 48 <= b3 && b3
        <= 57 && b4 == 45 && 48 <= b5 && b5 <= 57 && 48 <= b6 && b6 <= 57 && b7 == 45 && 48 <= b8
        && b8 <= 57 && 48 <= b9 && b9 <= 57) {
        return None;
    }
    let y: u16 = (b0 - 48) as u16 * 1000 + (b1 - 48) as u16 * 100 + (b2 - 48) as u16 * 10 + (b3
        - 48) as u16;
    let m: u8 = (b5 - 48) * 10 + (b6 - 48);
    let d: u8 = (b8 - 48) * 10 + (b9 - 48);
    Date::new(y, m, d)
}

/// Decomposing a number below 10000 into its four decimal digits and
/// recomposing them gives the number back.
proof fn lemma_four_digits(y: int)
    requires
        0 <= y <= 9999,
    ensures
        (y / 1000 % 10) * 1000 + (y / 100 % 10) * 100 + (y / 10 % 10) * 10 + y % 10 == y,
        0 <= y / 1000 % 10 <= 9,
        0 <= y / 100 % 10 <= 9,
        0 <= y / 10 % 10 <= 9,
        0 <= y % 10 <= 9,
{
    lemma_fundamental_div_mod(y, 10);
    lemma_fundamental_div_mod(y / 10, 10);
    lemma_fundamental_div_mod(y / 100, 10);
    lemma_fundamental_div_mod(y / 1000, 10);
    assert(y / 10 / 10 == y / 100) by {
        lemma_fundamental_div_mod(y, 10);
        lemma_fundamental_div_mod(y / 10, 10);
        lemma_fundamental_div_mod_converse(y, 100, y / 10 / 10, 10 * (y / 10 % 10) + y % 10);
    }
    assert(y / 100 / 10 == y / 1000) by {
        lemma_fundamental_div_mod(y, 100);
        lemma_fundamental_div_mod(y / 100, 10);
        lemma_fundamental_div_mod_converse(
            y,
            1000,
            y / 100 / 10,
            100 * (y / 100 % 10) + y % 100,
        );
    }
    assert(y / 1000 <= 9) by {
        lemma_fundamental_div_mod(y, 1000);
    }
    assert(y / 1000 % 10 == y / 1000) by {
        lemma_fundamental_div_mod_converse(y / 1000, 10, 0, y / 1000);
    }
}

/// Decomposing a number below 100 into its two decimal digits and recomposing
/// them gives the number back.
proof fn lemma_two_digits(m: int)
    requires
        0 <= m <= 99,
    ensures
        (m / 10) * 10 + m % 10 == m,
        0 <= m / 10 <= 9,
        0 <= m % 10 <= 9,
{
    lemma_fundamental_div_mod(m, 10);
}

/// Round trip: the textual form of a well-formed date decodes back to the
/// same date.
pub proof fn lemma_date_round_trip(d: Date)
    requires
        d.wf(),
    ensures
        parse_date(date_bytes(d)) == Some(d),
{
    let s = date_bytes(d);
    lemma_four_digits(d.year as int);
    lemma_two_digits(d.month as int);
    lemma_two_digits(d.day as int);
    assert(digit_val(s[0]) == d.year as int / 1000 % 10);
    assert(digit_val(s[1]) == d.year as int / 100 % 10);
    assert(digit_val(s[2]) == d.year as int / 10 % 10);
    assert(digit_val(s[3]) == d.year as int % 10);
    assert(digit_val(s[5]) == d.month as int / 10);
    assert(digit_val(s[6]) == d.month as int % 10);
    assert(digit_val(s[8]) == d.day as int / 10);
    assert(digit_val(s[9]) == d.day as int % 10);
}

} // verus!
