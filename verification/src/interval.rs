//! Parsing of the free-form payment-interval text into a structured schedule.
//!
//! The grammar, applied to the trimmed text:
//! - text equal to the cash/up-front marker, or text that does not start with
//!   a decimal digit, yields the `Immediate` schedule (named fallback policy:
//!   an interval that states no day-offsets is treated as one immediate
//!   installment);
//! - otherwise the text must start with day-offset groups of one to three
//!   digits separated by `/` (trailing text after the last group is ignored);
//!   a slash not followed by such a group, or a group of more than three
//!   digits, is a fatal parse error;
//! - independently, the first digit immediately followed by `%` anywhere in
//!   the text overrides the default commission rate.

use vstd::prelude::*;
use vstd::string::StrSliceExecFns;

verus! {

/// Default commission rate, in percent, when the text names no override.
pub const DEFAULT_RATE: u8 = 7;

/// Marker text (after trimming) for an invoice paid up front.
pub open spec fn spec_marker() -> Seq<char> {
    "ANTECIPADO / A VISTA [2]"@
}

/// Structured schedule parsed from the payment-interval text.
#[derive(Debug)]
pub enum IntervalSpec {
    /// A single installment, due 30 days after emission, at the default rate.
    Immediate,
    /// One installment per day-offset, at `rate` percent.
    Scheduled { offsets: Vec<u16>, rate: u8 },
}

/// Mathematical model of a parsed schedule.
pub enum IntervalModel {
    Immediate,
    Scheduled { offsets: Seq<u16>, rate: u8 },
}

impl View for IntervalSpec {
    type V = IntervalModel;

    open spec fn view(&self) -> IntervalModel {
        match self {
            IntervalSpec::Immediate => IntervalModel::Immediate,
            IntervalSpec::Scheduled { offsets, rate } => IntervalModel::Scheduled {
                offsets: offsets@,
                rate: *rate,
            },
        }
    }
}

/// Day-offset groups are non-empty and each offset has at most three digits.
pub open spec fn interval_wf(m: IntervalModel) -> bool {
    match m {
        IntervalModel::Immediate => true,
        IntervalModel::Scheduled { offsets, rate } => {
            &&& offsets.len() >= 1
            &&& rate <= 9
            &&& forall|i: int| 0 <= i < offsets.len() ==> offsets[i] < 1000
        },
    }
}

/// The only fatal parse outcome: the offsets pattern started but holds a
/// group that is not one to three digits.
#[derive(Clone, Copy, PartialEq, Eq, Structural, Debug)]
pub enum ParseError {
    MalformedOffsets,
}

impl ParseError {
    /// A diagnostic text for reports and aborts.
    pub fn message(&self) -> &'static str {
        "payment interval holds a day-offset group that is not one to three digits"
    }
}

pub open spec fn is_space_char(c: char) -> bool {
    c == ' ' || c == '\t' || c == '\n' || c == '\r'
}

/// ASCII decimal digit ('0' is 48, '9' is 57).
pub open spec fn is_digit_char(c: char) -> bool {
    48 <= c as int && c as int <= 57
}

pub open spec fn digit_val(c: char) -> int {
    c as int - 48
}

pub open spec fn spec_trim_start(s: Seq<char>) -> Seq<char>
    decreases s.len(),
{
    if s.len() > 0 && is_space_char(s[0]) {
        spec_trim_start(s.drop_first())
    } else {
        s
    }
}

pub open spec fn spec_trim_end(s: Seq<char>) -> Seq<char>
    decreases s.len(),
{
    if s.len() > 0 && is_space_char(s.last()) {
        spec_trim_end(s.drop_last())
    } else {
        s
    }
}

/// `s` without leading and trailing whitespace.
pub open spec fn spec_trim(s: Seq<char>) -> Seq<char> {
    spec_trim_end(spec_trim_start(s))
}

/// Length of the maximal digit run starting at `from`.
pub open spec fn digit_run_len(t: Seq<char>, from: int) -> int
    decreases t.len() - from,
{
    if from < t.len() && is_digit_char(t[from]) {
        1 + digit_run_len(t, from + 1)
    } else {
        0
    }
}

/// Decimal value of the `len` digits of `t` starting at `from`.
pub open spec fn group_val(t: Seq<char>, from: int, len: int) -> int
    decreases len,
{
    if len <= 0 {
        0
    } else {
        group_val(t, from, len - 1) * 10 + digit_val(t[from + len - 1])
    }
}

/// The day-offset groups read from position `from` on: one to three digits,
/// then either the end of the pattern or a `/` and further groups.
/// `None` is the fatal outcome: a group that is empty or over three digits.
pub open spec fn spec_offsets(t: Seq<char>, from: int) -> Option<Seq<u16>>
    decreases t.len() - from,
{
    let k = digit_run_len(t, from);
    if k <= 0 || k > 3 {
        Option::None
    } else if from + k < t.len() && t[from + k] == '/' {
        match spec_offsets(t, from + k + 1) {
            Option::None => Option::None,
            Option::Some(rest) => Option::Some(seq![group_val(t, from, k) as u16] + rest),
        }
    } else {
        Option::Some(seq![group_val(t, from, k) as u16])
    }
}

/// A digit at `p` immediately followed by `%`.
pub open spec fn spec_rate_pair(t: Seq<char>, p: int) -> bool {
    &&& is_digit_char(t[p])
    &&& p + 1 < t.len()
    &&& t[p + 1] == '%'
}

/// The first rate override found from position `from` on.
pub open spec fn spec_rate_scan(t: Seq<char>, from: int) -> Option<u8>
    decreases t.len() - from,
{
    if from >= t.len() {
        Option::None
    } else if spec_rate_pair(t, from) {
        Option::Some(digit_val(t[from]) as u8)
    } else {
        spec_rate_scan(t, from + 1)
    }
}

/// The effective commission rate of the text: the override if present,
/// otherwise the default.
pub open spec fn spec_rate(t: Seq<char>) -> u8 {
    match spec_rate_scan(t, 0) {
        Option::Some(r) => r,
        Option::None => DEFAULT_RATE,
    }
}

/// What parsing a raw payment-interval text yields.
pub open spec fn spec_parse(raw: Seq<char>) -> Result<IntervalModel, ParseError> {
    let t = spec_trim(raw);
    if t == spec_marker() {
        Result::Ok(IntervalModel::Immediate)
    } else if t.len() == 0 || !is_digit_char(t[0]) {
        Result::Ok(IntervalModel::Immediate)
    } else {
        match spec_offsets(t, 0) {
            Option::None => Result::Err(ParseError::MalformedOffsets),
            Option::Some(offs) => Result::Ok(
                IntervalModel::Scheduled { offsets: offs, rate: spec_rate(t) },
            ),
        }
    }
}

proof fn lemma_trim_start_subrange(s: Seq<char>, k: int)
    requires
        0 <= k <= s.len(),
        forall|i: int| 0 <= i < k ==> is_space_char(s[i]),
        k == s.len() || !is_space_char(s[k]),
    ensures
        spec_trim_start(s) == s.subrange(k, s.len() as int),
    decreases k,
{
    if k == 0 {
        assert(s.subrange(0, s.len() as int) =~= s);
    } else {
        assert(is_space_char(s[0]));
        let t = s.drop_first();
        assert forall|i: int| 0 <= i < k - 1 implies is_space_char(t[i]) by {
            assert(t[i] == s[i + 1]);
        }
        assert(k - 1 == t.len() || !is_space_char(t[k - 1]));
        lemma_trim_start_subrange(t, k - 1);
        assert(t.subrange(k - 1, t.len() as int) =~= s.subrange(k, s.len() as int));
    }
}

proof fn lemma_trim_end_subrange(s: Seq<char>, k: int)
    requires
        0 <= k <= s.len(),
        forall|i: int| k <= i < s.len() ==> is_space_char(s[i]),
        k == 0 || !is_space_char(s[k - 1]),
    ensures
        spec_trim_end(s) == s.subrange(0, k),
    decreases s.len(),
{
    if s.len() > k {
        assert(is_space_char(s.last()));
        let t = s.drop_last();
        lemma_trim_end_subrange(t, k);
        assert(t.subrange(0, k) =~= s.subrange(0, k));
    } else {
        assert(s.subrange(0, k) =~= s);
    }
}

fn char_is_space(c: char) -> (r: bool)
    ensures
        r == is_space_char(c),
{
    c == ' ' || c == '\t' || c == '\n' || c == '\r'
}

pub(crate) fn char_is_digit(c: char) -> (r: bool)
    ensures
        r == is_digit_char(c),
{
    let u = c as u32;
    48 <= u && u <= 57
}

pub(crate) fn char_digit_val(c: char) -> (r: u32)
    requires
        is_digit_char(c),
    ensures
        r == digit_val(c),
{
    c as u32 - 48
}

/// The bounds of the trimmed text inside `s`.
pub fn trim_bounds(s: &str) -> (r: (usize, usize))
    ensures
        r.0 <= r.1 <= s@.len(),
        spec_trim(s@) == s@.subrange(r.0 as int, r.1 as int),
{
    let n = s.unicode_len();
    let mut ts: usize = 0;
    while ts < n && char_is_space(s.get_char(ts))
        invariant
            ts <= n,
            n == s@.len(),
            forall|i: int| 0 <= i < ts ==> is_space_char(s@[i]),
        decreases n - ts,
    {
        ts = ts + 1;
    }
    if ts == n {
        proof {
            lemma_trim_start_subrange(s@, n as int);
            lemma_trim_end_subrange(s@.subrange(n as int, n as int), 0);
            assert(s@.subrange(n as int, n as int) =~= spec_trim(s@));
        }
        return (n, n);
    }
    let mut te: usize = n;
    while te > ts && char_is_space(s.get_char(te - 1))
        invariant
            ts <= te <= n,
            n == s@.len(),
            forall|i: int| te <= i < n ==> is_space_char(s@[i]),
        decreases te,
    {
        te = te - 1;
    }
    proof {
        assert(!is_space_char(s@[ts as int]));
        assert(te > ts);
        lemma_trim_start_subrange(s@, ts as int);
        let t = s@.subrange(ts as int, n as int);
        assert forall|i: int| (te - ts) <= i < t.len() implies is_space_char(t[i]) by {
            assert(t[i] == s@[i + ts]);
        }
        assert(!is_space_char(t[te - ts - 1]));
        lemma_trim_end_subrange(t, te - ts);
        assert(t.subrange(0, (te - ts) as int) =~= s@.subrange(ts as int, te as int));
    }
    (ts, te)
}

/// Reads one day-offset group of `t = s[ts..te]` starting at `i`; yields its
/// value and the position just past it, or the fatal outcome when the group
/// is empty or over three digits.
fn read_group(s: &str, ts: usize, te: usize, i: usize) -> (r: Result<(u16, usize), ParseError>)
    requires
        ts <= i <= te <= s@.len(),
    ensures
        ({
            let t = s@.subrange(ts as int, te as int);
            let p = i - ts;
            let k = digit_run_len(t, p as int);
            match r {
                Result::Ok(pair) => {
                    &&& 1 <= k <= 3
                    &&& pair.0 == group_val(t, p as int, k)
                    &&& pair.0 < 1000
                    &&& pair.1 == i + k
                    &&& ts <= pair.1 <= te
                },
                Result::Err(e) => (k == 0 || k > 3) && e == ParseError::MalformedOffsets,
            }
        }),
{
    let ghost t = s@.subrange(ts as int, te as int);
    let mut j: usize = i;
    let mut val: u32 = 0;
    while j < te && char_is_digit(s.get_char(j))
        invariant
            ts <= i <= j <= te <= s@.len(),
            t == s@.subrange(ts as int, te as int),
            j - i <= 3,
            forall|x: int| i - ts <= x < j - ts ==> is_digit_char(#[trigger] t[x]),
            val == group_val(t, (i - ts) as int, (j - i) as int),
            j - i == 0 ==> val == 0,
            j - i == 1 ==> val <= 9,
            j - i == 2 ==> val <= 99,
            j - i == 3 ==> val <= 999,
        decreases te - j,
    {
        if j - i == 3 {
            proof {
                lemma_digit_run_at_least(t, (i - ts) as int, 4);
            }
            return Result::Err(ParseError::MalformedOffsets);
        }
        val = val * 10 + char_digit_val(s.get_char(j));
        j = j + 1;
    }
    proof {
        lemma_digit_run_exact(t, (i - ts) as int, (j - i) as int);
    }
    if j == i {
        return Result::Err(ParseError::MalformedOffsets);
    }
    Result::Ok((val as u16, j))
}

proof fn lemma_digit_run_nonneg(t: Seq<char>, p: int)
    ensures
        digit_run_len(t, p) >= 0,
    decreases t.len() - p,
{
    if p < t.len() && is_digit_char(t[p]) {
        lemma_digit_run_nonneg(t, p + 1);
    }
}

/// The run at `p` is at least `m` long when `m` digits stand there.
proof fn lemma_digit_run_at_least(t: Seq<char>, p: int, m: int)
    requires
        0 <= p,
        p + m <= t.len(),
        forall|x: int| p <= x < p + m ==> is_digit_char(t[x]),
    ensures
        digit_run_len(t, p) >= m,
    decreases m,
{
    lemma_digit_run_nonneg(t, p);
    if m > 0 {
        assert(is_digit_char(t[p]));
        lemma_digit_run_at_least(t, p + 1, m - 1);
    }
}

/// The run at `p` is exactly `k` long when `k` digits stand there and the
/// next position is the end or no digit.
proof fn lemma_digit_run_exact(t: Seq<char>, p: int, k: int)
    requires
        0 <= p,
        0 <= k,
        p + k <= t.len(),
        forall|x: int| p <= x < p + k ==> is_digit_char(t[x]),
        p + k == t.len() || !is_digit_char(t[p + k]),
    ensures
        digit_run_len(t, p) == k,
    decreases k,
{
    if k > 0 {
        assert(is_digit_char(t[p]));
        lemma_digit_run_exact(t, p + 1, k - 1);
    }
}

/// What remains of the whole offsets pattern once the groups in `acc` have
/// been read and position `p` stands just past the last of them.
pub open spec fn offsets_resume(t: Seq<char>, p: int, acc: Seq<u16>) -> Option<Seq<u16>> {
    if p < t.len() && t[p] == '/' {
        match spec_offsets(t, p + 1) {
            Option::None => Option::None,
            Option::Some(rest) => Option::Some(acc + rest),
        }
    } else {
        Option::Some(acc)
    }
}

fn rate_pair_at(s: &str, ts: usize, te: usize, j: usize) -> (b: bool)
    requires
        ts <= j < te <= s@.len(),
    ensures
        b == spec_rate_pair(s@.subrange(ts as int, te as int), (j - ts) as int),
{
    char_is_digit(s.get_char(j)) && j + 1 < te && s.get_char(j + 1) == '%'
}

/// Parses a raw payment-interval text.
pub fn parse_interval(raw: &str) -> (r: Result<IntervalSpec, ParseError>)
    ensures
        r is Ok <==> spec_parse(raw@) is Ok,
        r is Ok ==> r->Ok_0@ == spec_parse(raw@)->Ok_0,
        r is Ok ==> interval_wf(r->Ok_0@),
        r is Err ==> r->Err_0 == spec_parse(raw@)->Err_0,
{
    let (ts, te) = trim_bounds(raw);
    let ghost t = spec_trim(raw@);
    if ts == te {
        return Result::Ok(IntervalSpec::Immediate);
    }
    let c0 = raw.get_char(ts);
    if !char_is_digit(c0) {
        return Result::Ok(IntervalSpec::Immediate);
    }
    proof {
        reveal_strlit("ANTECIPADO / A VISTA [2]");
        assert(t[0] == c0);
        assert(t != spec_marker());
    }
    let mut offsets: Vec<u16> = Vec::new();
    let first = match read_group(raw, ts, te, ts) {
        Result::Err(e) => {
            return Result::Err(e);
        },
        Result::Ok(pair) => pair,
    };
    offsets.push(first.0);
    let mut i: usize = first.1;
    proof {
        assert(offsets@ =~= seq![first.0]);
        lemma_resume_first(t, first.0, i - ts);
    }
    while i < te && raw.get_char(i) == '/'
        invariant
            ts <= i <= te <= raw@.len(),
            t == spec_trim(raw@),
            t == raw@.subrange(ts as int, te as int),
            t.len() > 0,
            is_digit_char(t[0]),
            t != spec_marker(),
            spec_offsets(t, 0) == offsets_resume(t, (i - ts) as int, offsets@),
            offsets@.len() >= 1,
            forall|x: int| 0 <= x < offsets@.len() ==> offsets@[x] < 1000,
        decreases te - i,
    {
        let ghost p = (i - ts) as int;
        let ghost acc = offsets@;
        i = i + 1;
        match read_group(raw, ts, te, i) {
            Result::Err(e) => {
                proof {
                    assert(spec_offsets(t, p + 1) is None);
                    assert(spec_offsets(t, 0) is None);
                }
                return Result::Err(ParseError::MalformedOffsets);
            },
            Result::Ok(pair) => {
                offsets.push(pair.0);
                i = pair.1;
                proof {
                    lemma_resume_step(t, p, acc, pair.0);
                    assert(offsets@ =~= acc + seq![pair.0]);
                }
            },
        }
    }
    proof {
        assert(spec_offsets(t, 0) == Option::Some(offsets@));
    }
    let mut rate: u8 = DEFAULT_RATE;
    let mut j: usize = ts;
    while j < te && !rate_pair_at(raw, ts, te, j)
        invariant
            ts <= j <= te <= raw@.len(),
            t == raw@.subrange(ts as int, te as int),
            spec_rate_scan(t, 0) == spec_rate_scan(t, (j - ts) as int),
        decreases te - j,
    {
        j = j + 1;
    }
    if j < te {
        rate = char_digit_val(raw.get_char(j)) as u8;
        proof {
            assert(spec_rate_scan(t, (j - ts) as int) == Option::Some(digit_val(t[j - ts]) as u8));
        }
    } else {
        proof {
            assert(spec_rate_scan(t, (j - ts) as int) is None);
        }
    }
    proof {
        assert(rate == spec_rate(t));
    }
    Result::Ok(IntervalSpec::Scheduled { offsets, rate })
}

/// Establishes the resume invariant right after the first group.
proof fn lemma_resume_first(t: Seq<char>, v: u16, p: int)
    requires
        ({
            let k = digit_run_len(t, 0);
            &&& 1 <= k <= 3
            &&& p == k
            &&& v == group_val(t, 0, k)
        }),
    ensures
        spec_offsets(t, 0) == offsets_resume(t, p, seq![v]),
{
    let k = digit_run_len(t, 0);
    if p < t.len() && t[p] == '/' {
        match spec_offsets(t, p + 1) {
            Option::None => {},
            Option::Some(rest) => {
                assert(seq![v] + rest =~= seq![group_val(t, 0, k) as u16] + rest);
            },
        }
    }
}

/// Carries the resume invariant over one further group.
proof fn lemma_resume_step(t: Seq<char>, p: int, acc: Seq<u16>, v: u16)
    requires
        spec_offsets(t, 0) == offsets_resume(t, p, acc),
        0 <= p < t.len(),
        t[p] == '/',
        ({
            let k = digit_run_len(t, p + 1);
            &&& 1 <= k <= 3
            &&& v == group_val(t, p + 1, k)
        }),
    ensures
        spec_offsets(t, 0) == offsets_resume(t, p + 1 + digit_run_len(t, p + 1), acc + seq![v]),
{
    let k = digit_run_len(t, p + 1);
    let q = p + 1 + k;
    assert(spec_offsets(t, p + 1) == (if q < t.len() && t[q] == '/' {
        match spec_offsets(t, q + 1) {
            Option::None => Option::None::<Seq<u16>>,
            Option::Some(rest) => Option::Some(seq![v as u16] + rest),
        }
    } else {
        Option::Some(seq![v as u16])
    }));
    if q < t.len() && t[q] == '/' {
        match spec_offsets(t, q + 1) {
            Option::None => {},
            Option::Some(rest) => {
                assert(acc + (seq![v] + rest) =~= (acc + seq![v]) + rest);
            },
        }
    } else {
        assert(acc + seq![v] =~= acc + seq![v]);
    }
}

} // verus!
