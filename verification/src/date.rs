//! Gregorian calendar dates as plain `(year, month, day)` triples, with
//! day-offset arithmetic and "MonthName Year" labels.

use vstd::prelude::*;
use vstd::string::StringExecFns;

verus! {

/// A Gregorian calendar date. `month` runs 1..=12, `day` 1..=31.
#[derive(Clone, Copy, PartialEq, Eq, Structural, Debug)]
pub struct Date {
    pub year: u32,
    pub month: u32,
    pub day: u32,
}

pub open spec fn spec_is_leap_year(y: int) -> bool {
    y % 4 == 0 && (y % 100 != 0 || y % 400 == 0)
}

pub open spec fn spec_days_in_month(y: int, m: int) -> int {
    if m == 2 {
        if spec_is_leap_year(y) {
            29
        } else {
            28
        }
    } else if m == 4 || m == 6 || m == 9 || m == 11 {
        30
    } else {
        31
    }
}

pub open spec fn date_valid(d: Date) -> bool {
    &&& 1 <= d.year
    &&& 1 <= d.month <= 12
    &&& 1 <= d.day <= spec_days_in_month(d.year as int, d.month as int)
}

/// The calendar day immediately after `d`.
pub open spec fn spec_next_date(d: Date) -> Date {
    if d.day < spec_days_in_month(d.year as int, d.month as int) {
        Date { year: d.year, month: d.month, day: (d.day + 1) as u32 }
    } else if d.month < 12 {
        Date { year: d.year, month: (d.month + 1) as u32, day: 1 }
    } else {
        Date { year: (d.year + 1) as u32, month: 1, day: 1 }
    }
}

/// `d` moved `n` days into the future.
pub open spec fn spec_plus_days(d: Date, n: nat) -> Date
    decreases n,
{
    if n == 0 {
        d
    } else {
        spec_next_date(spec_plus_days(d, (n - 1) as nat))
    }
}

pub proof fn lemma_next_date_valid(d: Date)
    requires
        date_valid(d),
        d.year < u32::MAX,
    ensures
        date_valid(spec_next_date(d)),
        spec_next_date(d).year <= d.year + 1,
{
}

pub proof fn lemma_plus_days_valid(d: Date, n: nat)
    requires
        date_valid(d),
        d.year + n <= u32::MAX,
    ensures
        date_valid(spec_plus_days(d, n)),
        spec_plus_days(d, n).year <= d.year + n,
    decreases n,
{
    if n > 0 {
        lemma_plus_days_valid(d, (n - 1) as nat);
        lemma_next_date_valid(spec_plus_days(d, (n - 1) as nat));
    }
}

pub fn days_in_month(y: u32, m: u32) -> (r: u32)
    requires
        1 <= m <= 12,
    ensures
        r == spec_days_in_month(y as int, m as int),
{
    if m == 2 {
        if y % 4 == 0 && (y % 100 != 0 || y % 400 == 0) {
            29
        } else {
            28
        }
    } else if m == 4 || m == 6 || m == 9 || m == 11 {
        30
    } else {
        31
    }
}

pub fn next_date(d: Date) -> (r: Date)
    requires
        date_valid(d),
        d.year < u32::MAX,
    ensures
        r == spec_next_date(d),
        date_valid(r),
        r.year <= d.year + 1,
{
    let dim = days_in_month(d.year, d.month);
    if d.day < dim {
        Date { year: d.year, month: d.month, day: d.day + 1 }
    } else if d.month < 12 {
        Date { year: d.year, month: d.month + 1, day: 1 }
    } else {
        Date { year: d.year + 1, month: 1, day: 1 }
    }
}

pub fn add_days(d: Date, n: u32) -> (r: Date)
    requires
        date_valid(d),
        d.year + n <= u32::MAX,
    ensures
        r == spec_plus_days(d, n as nat),
        date_valid(r),
        r.year <= d.year + n,
{
    let mut cur = d;
    let mut i: u32 = 0;
    while i < n
        invariant
            0 <= i <= n,
            date_valid(cur),
            cur == spec_plus_days(d, i as nat),
            cur.year <= d.year + i,
            d.year + n <= u32::MAX,
        decreases n - i,
    {
        cur = next_date(cur);
        i = i + 1;
    }
    cur
}

pub open spec fn spec_month_name(m: int) -> Seq<char> {
    if m == 1 {
        "January"@
    } else if m == 2 {
        "February"@
    } else if m == 3 {
        "March"@
    } else if m == 4 {
        "April"@
    } else if m == 5 {
        "May"@
    } else if m == 6 {
        "June"@
    } else if m == 7 {
        "July"@
    } else if m == 8 {
        "August"@
    } else if m == 9 {
        "September"@
    } else if m == 10 {
        "October"@
    } else if m == 11 {
        "November"@
    } else {
        "December"@
    }
}

pub fn month_name(m: u32) -> (r: &'static str)
    requires
        1 <= m <= 12,
    ensures
        r@ == spec_month_name(m as int),
{
    if m == 1 {
        "January"
    } else if m == 2 {
        "February"
    } else if m == 3 {
        "March"
    } else if m == 4 {
        "April"
    } else if m == 5 {
        "May"
    } else if m == 6 {
        "June"
    } else if m == 7 {
        "July"
    } else if m == 8 {
        "August"
    } else if m == 9 {
        "September"
    } else if m == 10 {
        "October"
    } else if m == 11 {
        "November"
    } else {
        "December"
    }
}

pub open spec fn spec_digit_char(d: int) -> char {
    if d == 0 {
        '0'
    } else if d == 1 {
        '1'
    } else if d == 2 {
        '2'
    } else if d == 3 {
        '3'
    } else if d == 4 {
        '4'
    } else if d == 5 {
        '5'
    } else if d == 6 {
        '6'
    } else if d == 7 {
        '7'
    } else if d == 8 {
        '8'
    } else {
        '9'
    }
}

/// Decimal digits of `n`, most significant first, no leading zeros
/// (a single `'0'` for zero).
pub open spec fn spec_dec_str(n: nat) -> Seq<char>
    decreases n,
{
    if n < 10 {
        seq![spec_digit_char(n as int)]
    } else {
        spec_dec_str(n / 10) + seq![spec_digit_char((n % 10) as int)]
    }
}

pub(crate) fn digit_str(d: u32) -> (r: &'static str)
    requires
        d < 10,
    ensures
        r@ == seq![spec_digit_char(d as int)],
{
    proof {
        reveal_strlit("0");
        reveal_strlit("1");
        reveal_strlit("2");
        reveal_strlit("3");
        reveal_strlit("4");
        reveal_strlit("5");
        reveal_strlit("6");
        reveal_strlit("7");
        reveal_strlit("8");
        reveal_strlit("9");
    }
    let r = if d == 0 {
        "0"
    } else if d == 1 {
        "1"
    } else if d == 2 {
        "2"
    } else if d == 3 {
        "3"
    } else if d == 4 {
        "4"
    } else if d == 5 {
        "5"
    } else if d == 6 {
        "6"
    } else if d == 7 {
        "7"
    } else if d == 8 {
        "8"
    } else {
        "9"
    };
    proof {
        assert(r@ =~= seq![spec_digit_char(d as int)]);
    }
    r
}

pub fn u64_to_string(n: u64) -> (s: String)
    ensures
        s@ == spec_dec_str(n as nat),
    decreases n,
{
    if n < 10 {
        String::from_str(digit_str(n as u32))
    } else {
        let pre = u64_to_string(n / 10);
        pre.concat(digit_str((n % 10) as u32))
    }
}

/// The bucket label for a month: full month name, a space, the decimal year.
pub open spec fn spec_month_label(y: int, m: int) -> Seq<char> {
    spec_month_name(m) + " "@ + spec_dec_str(y as nat)
}

pub fn month_label(y: u32, m: u32) -> (s: String)
    requires
        1 <= m <= 12,
    ensures
        s@ == spec_month_label(y as int, m as int),
{
    let s = String::from_str(month_name(m));
    let s = s.concat(" ");
    let s = s.concat(u64_to_string(y as u64).as_str());
    s
}

} // verus!
