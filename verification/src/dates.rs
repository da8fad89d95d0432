//! Calendar dates at trading-day granularity, and parsing of the
//! provider's `YYYY-MM-DD` date keys.

use vstd::prelude::*;

verus! {

/// A calendar date at day granularity. The series keys its observations
/// by such dates; ordering is by year, then month, then day.
#[derive(Clone, Copy, PartialEq, Eq, Structural, Debug)]
pub struct Date {
    pub year: u16,
    pub month: u8,
    pub day: u8,
}

/// The ranges a parsed date is guaranteed to lie in.
pub open spec fn date_valid(d: Date) -> bool {
    &&& d.year <= 9999
    &&& 1 <= d.month <= 12
    &&& 1 <= d.day <= 31
}

/// A single integer that orders dates chronologically: later dates have
/// strictly larger keys (for valid dates).
pub open spec fn date_key(d: Date) -> int {
    d.year * 10000 + d.month * 100 + d.day
}

impl Date {
    /// The executable ordering key; agrees with `date_key`.
    pub fn key(&self) -> (k: u32)
        ensures
            k == date_key(*self),
    {
        (self.year as u32) * 10000 + (self.month as u32) * 100 + (self.day as u32)
    }
}

pub open spec fn is_digit(c: char) -> bool {
    48 <= c as int <= 57
}

pub open spec fn digit_val(c: char) -> int {
    c as int - 48
}

/// The shape of a provider date key: `YYYY-MM-DD`, with the month in
/// 1..=12 and the day in 1..=31.
pub open spec fn is_date_text(s: Seq<char>) -> bool {
    &&& s.len() == 10
    &&& is_digit(s[0]) && is_digit(s[1]) && is_digit(s[2]) && is_digit(s[3])
    &&& s[4] == '-'
    &&& is_digit(s[5]) && is_digit(s[6])
    &&& s[7] == '-'
    &&& is_digit(s[8]) && is_digit(s[9])
    &&& 1 <= digit_val(s[5]) * 10 + digit_val(s[6]) <= 12
    &&& 1 <= digit_val(s[8]) * 10 + digit_val(s[9]) <= 31
}

/// The date a well-shaped date text denotes.
pub open spec fn date_of_text(s: Seq<char>) -> Date {
    Date {
        year: (digit_val(s[0]) * 1000 + digit_val(s[1]) * 100 + digit_val(s[2]) * 10 + digit_val(
            s[3],
        )) as u16,
        month: (digit_val(s[5]) * 10 + digit_val(s[6])) as u8,
        day: (digit_val(s[8]) * 10 + digit_val(s[9])) as u8,
    }
}

/// The numeric value of a decimal digit character, or `None` for any
/// other character.
pub fn digit_of(c: char) -> (r: Option<u8>)
    ensures
        r is Some <==> is_digit(c),
        r is Some ==> r->Some_0 == digit_val(c),
{
    let v = c as u32;
    if 48 <= v && v <= 57 {
        Some((v - 48) as u8)
    } else {
        None
    }
}

/// Parses a `YYYY-MM-DD` date key. Returns `Some` exactly on texts of
/// that shape (with the month and day in calendar range), and then the
/// date the text denotes.
pub fn parse_date(s: &str) -> (r: Option<Date>)
    ensures
        r is Some <==> is_date_text(s@),
        is_date_text(s@) ==> r == Some(date_of_text(s@)) && date_valid(date_of_text(s@)),
{
    if s.unicode_len() != 10 {
        return None;
    }
    let y0 = match digit_of(s.get_char(0)) {
        Some(d) => d,
        None => { return None; },
    };
    let y1 = match digit_of(s.get_char(1)) {
        Some(d) => d,
        None => { return None; },
    };
    let y2 = match digit_of(s.get_char(2)) {
        Some(d) => d,
        None => { return None; },
    };
    let y3 = match digit_of(s.get_char(3)) {
        Some(d) => d,
        None => { return None; },
    };
    if s.get_char(4) != '-' {
        return None;
    }
    let m0 = match digit_of(s.get_char(5)) {
        Some(d) => d,
        None => { return None; },
    };
    let m1 = match digit_of(s.get_char(6)) {
        Some(d) => d,
        None => { return None; },
    };
    if s.get_char(7) != '-' {
        return None;
    }
    let d0 = match digit_of(s.get_char(8)) {
        Some(d) => d,
        None => { return None; },
    };
    let d1 = match digit_of(s.get_char(9)) {
        Some(d) => d,
        None => { return None; },
    };
    let month = m0 * 10 + m1;
    let day = d0 * 10 + d1;
    if month < 1 || month > 12 || day < 1 || day > 31 {
        return None;
    }
    let year = (y0 as u16) * 1000 + (y1 as u16) * 100 + (y2 as u16) * 10 + (y3 as u16);
    Some(Date { year, month, day })
}

} // verus!
