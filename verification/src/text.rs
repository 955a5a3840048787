//! The plain-text forms at the spreadsheet edge: "MM/DD/YYYY" dates and
//! decimal cent amounts.

use vstd::prelude::*;
use vstd::string::{StringExecFns, StrSliceExecFns};
use crate::date::{
    Date, date_valid, days_in_month, spec_digit_char, spec_dec_str, digit_str, u64_to_string,
};
use crate::interval::{is_digit_char, digit_val, char_is_digit, char_digit_val};

verus! {

/// Zero-padded two-digit rendering (for months and days).
pub open spec fn spec_two_digits(n: int) -> Seq<char> {
    seq![spec_digit_char(n / 10), spec_digit_char(n % 10)]
}

fn two_digits(n: u32) -> (s: String)
    requires
        n < 100,
    ensures
        s@ == spec_two_digits(n as int),
{
    let s = String::from_str(digit_str(n / 10));
    let s = s.concat(digit_str(n % 10));
    proof {
        assert(s@ =~= spec_two_digits(n as int));
    }
    s
}

/// A year padded to four digits; wider years print in full.
pub open spec fn spec_year4(y: int) -> Seq<char> {
    if y < 10000 {
        seq![
            spec_digit_char(y / 1000),
            spec_digit_char((y / 100) % 10),
            spec_digit_char((y / 10) % 10),
            spec_digit_char(y % 10),
        ]
    } else {
        spec_dec_str(y as nat)
    }
}

/// A date as "MM/DD/YYYY" text.
pub open spec fn spec_date_text(d: Date) -> Seq<char> {
    spec_two_digits(d.month as int) + seq!['/'] + spec_two_digits(d.day as int) + seq!['/']
        + spec_year4(d.year as int)
}

pub fn date_text(d: Date) -> (s: String)
    requires
        date_valid(d),
    ensures
        s@ == spec_date_text(d),
{
    proof {
        reveal_strlit("/");
    }
    let s = two_digits(d.month);
    let s = s.concat("/");
    let s = s.concat(two_digits(d.day).as_str());
    let s = s.concat("/");
    let ys = if d.year < 10000 {
        let y = d.year;
        let ys = String::from_str(digit_str(y / 1000));
        let ys = ys.concat(digit_str((y / 100) % 10));
        let ys = ys.concat(digit_str((y / 10) % 10));
        let ys = ys.concat(digit_str(y % 10));
        proof {
            assert(ys@ =~= spec_year4(d.year as int));
        }
        ys
    } else {
        u64_to_string(d.year as u64)
    };
    let s = s.concat(ys.as_str());
    proof {
        assert(s@ =~= spec_date_text(d));
    }
    s
}

/// An amount of cents as decimal text with two places, e.g. "333.33".
pub open spec fn spec_cents_text(v: u64) -> Seq<char> {
    spec_dec_str((v / 100) as nat) + seq![
        '.',
        spec_digit_char(((v % 100) / 10) as int),
        spec_digit_char((v % 10) as int),
    ]
}

pub fn cents_text(v: u64) -> (s: String)
    ensures
        s@ == spec_cents_text(v),
{
    proof {
        reveal_strlit(".");
    }
    let s = u64_to_string(v / 100);
    let s = s.concat(".");
    let s = s.concat(digit_str(((v % 100) / 10) as u32));
    let s = s.concat(digit_str((v % 10) as u32));
    proof {
        assert(s@ =~= spec_cents_text(v));
    }
    s
}

/// Whether text has the exact "MM/DD/YYYY" shape.
pub open spec fn spec_date_shape(s: Seq<char>) -> bool {
    &&& s.len() == 10
    &&& is_digit_char(s[0])
    &&& is_digit_char(s[1])
    &&& s[2] == '/'
    &&& is_digit_char(s[3])
    &&& is_digit_char(s[4])
    &&& s[5] == '/'
    &&& is_digit_char(s[6])
    &&& is_digit_char(s[7])
    &&& is_digit_char(s[8])
    &&& is_digit_char(s[9])
}

/// The date such text names (meaningful only when the shape holds).
pub open spec fn spec_date_of_text(s: Seq<char>) -> Date {
    Date {
        year: (digit_val(s[6]) * 1000 + digit_val(s[7]) * 100 + digit_val(s[8]) * 10 + digit_val(
            s[9],
        )) as u32,
        month: (digit_val(s[0]) * 10 + digit_val(s[1])) as u32,
        day: (digit_val(s[3]) * 10 + digit_val(s[4])) as u32,
    }
}

/// Reads an "MM/DD/YYYY" date, yielding it only when it names a real
/// calendar date.
pub fn parse_date_text(s: &str) -> (r: Option<Date>)
    ensures
        r is Some <==> spec_date_shape(s@) && date_valid(spec_date_of_text(s@)),
        r matches Some(d) ==> d == spec_date_of_text(s@),
{
    let n = s.unicode_len();
    if n != 10 {
        return Option::None;
    }
    if s.get_char(2) != '/' || s.get_char(5) != '/' {
        return Option::None;
    }
    let mut p: usize = 0;
    while p < 10
        invariant
            p <= 10,
            s@.len() == 10,
            forall|x: int| 0 <= x < p && x != 2 && x != 5 ==> is_digit_char(#[trigger] s@[x]),
        decreases 10 - p,
    {
        if p != 2 && p != 5 && !char_is_digit(s.get_char(p)) {
            return Option::None;
        }
        p = p + 1;
    }
    let month = char_digit_val(s.get_char(0)) * 10 + char_digit_val(s.get_char(1));
    let day = char_digit_val(s.get_char(3)) * 10 + char_digit_val(s.get_char(4));
    let year = char_digit_val(s.get_char(6)) * 1000 + char_digit_val(s.get_char(7)) * 100
        + char_digit_val(s.get_char(8)) * 10 + char_digit_val(s.get_char(9));
    let d = Date { year, month, day };
    proof {
        assert(d == spec_date_of_text(s@));
    }
    if year >= 1 && 1 <= month && month <= 12 {
        let dim = days_in_month(year, month);
        if 1 <= day && day <= dim {
            return Option::Some(d);
        }
    }
    Option::None
}

} // verus!
